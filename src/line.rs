//! The serial line protocol: ASCII lines `"<input_id>,<value>\n"`.
use vstd::prelude::*;
use vstd::string::StringSliceAdditionalSpecFns;

verus! {

/// Byte that separates the two fields of a line (`,`).
pub const COMMA: u8 = 0x2c;

/// Byte that terminates a line (`\n`).
pub const NEWLINE: u8 = 0x0a;

/// Byte of the digit zero (`0`).
pub const DIGIT_ZERO: u8 = 0x30;

/// One reading of a physical input, as decoded from one line.
#[derive(Clone, Copy, Debug, PartialEq, Eq, Structural)]
pub struct Sample {
    pub input_id: u8,
    pub value: u8,
}

/// Why a line could not be decoded.
#[derive(Clone, Copy, Debug, PartialEq, Eq, Structural)]
pub enum DecodeError {
    /// A field is empty, holds a byte that is not a decimal digit, or is above 255.
    MalformedField,
    /// The line has no comma, so it lacks its second field.
    Truncated,
}

pub open spec fn is_digit(b: u8) -> bool {
    DIGIT_ZERO <= b && b <= DIGIT_ZERO + 9
}

pub open spec fn all_digits(s: Seq<u8>) -> bool {
    forall|i: int| 0 <= i < s.len() ==> is_digit(#[trigger] s[i])
}

/// The number that a string of decimal digits denotes.
pub open spec fn digits_value(s: Seq<u8>) -> nat
    decreases s.len(),
{
    if s.len() == 0 {
        0
    } else {
        digits_value(s.drop_last()) * 10 + (s.last() - DIGIT_ZERO) as nat
    }
}

/// A field holds a number when it is a non-empty string of digits whose value fits a byte.
/// There is no sign, and no whitespace is skipped; leading zeros are allowed.
pub open spec fn parse_field(s: Seq<u8>) -> Option<u8> {
    if s.len() > 0 && all_digits(s) && digits_value(s) <= 255 {
        Some(digits_value(s) as u8)
    } else {
        None
    }
}

/// Length of the first field of `s`: the bytes before the first comma, or all of `s`.
pub open spec fn field_end(s: Seq<u8>) -> nat
    decreases s.len(),
{
    if s.len() == 0 {
        0
    } else if s[0] == COMMA {
        0
    } else {
        1 + field_end(s.drop_first())
    }
}

/// A line without its terminating newline, if it has one.
pub open spec fn line_body(line: Seq<u8>) -> Seq<u8> {
    if line.len() > 0 && line.last() == NEWLINE {
        line.drop_last()
    } else {
        line
    }
}

/// The field before the first comma of a line body.
pub open spec fn id_field(body: Seq<u8>) -> Seq<u8> {
    body.subrange(0, field_end(body) as int)
}

/// What follows the first comma of a line body.
pub open spec fn after_first_comma(body: Seq<u8>) -> Seq<u8> {
    body.subrange(field_end(body) as int + 1, body.len() as int)
}

/// The second field of a line body: between the first comma and the next one (or the end).
pub open spec fn value_field(body: Seq<u8>) -> Seq<u8> {
    let rest = after_first_comma(body);
    rest.subrange(0, field_end(rest) as int)
}

/// What decoding a line yields. Fields after the second one are ignored.
pub open spec fn decode_spec(line: Seq<u8>) -> Result<Sample, DecodeError> {
    let body = line_body(line);
    if field_end(body) == body.len() {
        Err(DecodeError::Truncated)
    } else {
        match (parse_field(id_field(body)), parse_field(value_field(body))) {
            (Some(id), Some(v)) => Ok(Sample { input_id: id, value: v }),
            _ => Err(DecodeError::MalformedField),
        }
    }
}

/// Decimal digits of `n`, without leading zeros.
pub open spec fn decimal(n: nat) -> Seq<u8>
    decreases n,
{
    if n < 10 {
        seq![(DIGIT_ZERO + n) as u8]
    } else {
        decimal(n / 10).push((DIGIT_ZERO + n % 10) as u8)
    }
}

/// The canonical line that reports a sample.
pub open spec fn sample_line(s: Sample) -> Seq<u8> {
    decimal(s.input_id as nat) + seq![COMMA] + decimal(s.value as nat) + seq![NEWLINE]
}

proof fn lemma_field_end(s: Seq<u8>)
    ensures
        field_end(s) <= s.len(),
        forall|j: int| 0 <= j < field_end(s) ==> s[j] != COMMA,
        field_end(s) < s.len() ==> s[field_end(s) as int] == COMMA,
    decreases s.len(),
{
    if s.len() > 0 && s[0] != COMMA {
        lemma_field_end(s.drop_first());
        assert forall|j: int| 0 <= j < field_end(s) implies s[j] != COMMA by {
            if j > 0 {
                assert(s[j] == s.drop_first()[j - 1]);
            }
        }
    }
}

/// The first field ends exactly where no comma came before and a comma (or the end) stands.
proof fn lemma_field_end_at(s: Seq<u8>, k: int)
    requires
        0 <= k <= s.len(),
        forall|j: int| 0 <= j < k ==> s[j] != COMMA,
        k < s.len() ==> s[k] == COMMA,
    ensures
        field_end(s) == k,
{
    lemma_field_end(s);
}

proof fn lemma_digits_value_step(s: Seq<u8>, lo: int, i: int)
    requires
        0 <= lo <= i < s.len(),
    ensures
        digits_value(s.subrange(lo, i + 1)) == digits_value(s.subrange(lo, i)) * 10 + (s[i]
            - DIGIT_ZERO) as nat,
{
    let t = s.subrange(lo, i + 1);
    assert(t.drop_last() =~= s.subrange(lo, i));
    assert(t.last() == s[i]);
}

proof fn lemma_decimal(n: nat)
    ensures
        decimal(n).len() > 0,
        all_digits(decimal(n)),
        digits_value(decimal(n)) == n,
        forall|j: int| 0 <= j < decimal(n).len() ==> #[trigger] decimal(n)[j] != COMMA,
    decreases n,
{
    let d = decimal(n);
    if n < 10 {
        assert(d.drop_last() =~= Seq::<u8>::empty());
        assert(digits_value(d) == digits_value(d.drop_last()) * 10 + (d.last() - DIGIT_ZERO) as nat);
    } else {
        lemma_decimal(n / 10);
        assert(d.drop_last() =~= decimal(n / 10));
        assert(d.last() == (DIGIT_ZERO + n % 10) as u8);
        assert((n / 10) * 10 + n % 10 == n) by (nonlinear_arith);
        assert(digits_value(d) == digits_value(decimal(n / 10)) * 10 + n % 10);
        assert forall|j: int| 0 <= j < d.len() implies is_digit(#[trigger] d[j]) by {
            if j < d.len() - 1 {
                assert(d[j] == decimal(n / 10)[j]);
            }
        }
        assert forall|j: int| 0 <= j < d.len() implies #[trigger] d[j] != COMMA by {
            assert(is_digit(d[j]));
        }
    }
}

/// Decoding the canonical line of any sample gives that sample back, and formatting
/// the decoded sample reproduces the line byte for byte.
pub proof fn lemma_line_round_trip(input_id: u8, value: u8)
    ensures
        decode_spec(sample_line(Sample { input_id, value })) == Ok::<Sample, DecodeError>(
            Sample { input_id, value },
        ),
        sample_line(decode_spec(sample_line(Sample { input_id, value }))->Ok_0) == sample_line(
            Sample { input_id, value },
        ),
{
    let s = Sample { input_id, value };
    let a = decimal(input_id as nat);
    let b = decimal(value as nat);
    lemma_decimal(input_id as nat);
    lemma_decimal(value as nat);
    let line = sample_line(s);
    let body = a + seq![COMMA] + b;
    assert(line_body(line) =~= body);
    assert forall|j: int| 0 <= j < a.len() implies body[j] != COMMA by {
        assert(body[j] == a[j]);
    }
    lemma_field_end_at(body, a.len() as int);
    assert(id_field(body) =~= a);
    assert(after_first_comma(body) =~= b);
    lemma_field_end_at(b, b.len() as int);
    assert(value_field(body) =~= b);
}

/// The canonical line of a sample ends with its only newline.
pub proof fn lemma_sample_line_single(s: Sample)
    ensures
        sample_line(s).len() > 0,
        sample_line(s).last() == NEWLINE,
        forall|j: int| 0 <= j < sample_line(s).len() - 1 ==> #[trigger] sample_line(s)[j] != NEWLINE,
{
    let a = decimal(s.input_id as nat);
    let b = decimal(s.value as nat);
    lemma_decimal(s.input_id as nat);
    lemma_decimal(s.value as nat);
    let line = sample_line(s);
    assert forall|j: int| 0 <= j < line.len() - 1 implies #[trigger] line[j] != NEWLINE by {
        if j < a.len() {
            assert(line[j] == a[j]);
            assert(is_digit(a[j]));
        } else if j > a.len() {
            assert(line[j] == b[j - a.len() - 1]);
            assert(is_digit(b[j - a.len() - 1]));
        }
    }
}

/// A line whose body holds no comma is reported as truncated; one whose first field or
/// second field is empty or holds a byte other than a decimal digit is reported as malformed.
pub proof fn lemma_malformed_lines_rejected(line: Seq<u8>)
    ensures
        (forall|j: int| 0 <= j < line_body(line).len() ==> #[trigger] line_body(line)[j] != COMMA)
            ==> decode_spec(line) == Err::<Sample, DecodeError>(DecodeError::Truncated),
        ({
            let body = line_body(line);
            &&& field_end(body) < body.len()
            &&& (id_field(body).len() == 0 || !all_digits(id_field(body)) || value_field(body).len()
                == 0 || !all_digits(value_field(body)))
        }) ==> decode_spec(line) == Err::<Sample, DecodeError>(DecodeError::MalformedField),
{
    let body = line_body(line);
    lemma_field_end(body);
    if forall|j: int| 0 <= j < body.len() ==> #[trigger] body[j] != COMMA {
        if field_end(body) < body.len() {
            assert(body[field_end(body) as int] != COMMA);
        }
    }
}

/// Position of the first comma in `s[start..end]`, or `end`.
fn find_comma(s: &[u8], start: usize, end: usize) -> (k: usize)
    requires
        start <= end <= s@.len(),
    ensures
        start <= k <= end,
        k - start == field_end(s@.subrange(start as int, end as int)),
{
    let mut k = start;
    while k < end && s[k] != COMMA
        invariant
            start <= k <= end <= s@.len(),
            forall|j: int| start <= j < k ==> s@[j] != COMMA,
        decreases end - k,
    {
        k = k + 1;
    }
    proof {
        let t = s@.subrange(start as int, end as int);
        assert forall|j: int| 0 <= j < k - start implies t[j] != COMMA by {
            assert(t[j] == s@[start + j]);
        }
        lemma_field_end_at(t, k - start);
    }
    k
}

/// Reads `s[lo..hi]` as a field.
fn parse_digits(s: &[u8], lo: usize, hi: usize) -> (r: Option<u8>)
    requires
        lo <= hi <= s@.len(),
    ensures
        r == parse_field(s@.subrange(lo as int, hi as int)),
{
    // `acc` is the value read so far, held at 256 once it exceeds a byte.
    let mut acc: u16 = 0;
    let mut i = lo;
    while i < hi
        invariant
            lo <= i <= hi <= s@.len(),
            all_digits(s@.subrange(lo as int, i as int)),
            acc as nat == if digits_value(s@.subrange(lo as int, i as int)) < 256 {
                digits_value(s@.subrange(lo as int, i as int))
            } else {
                256
            },
        decreases hi - i,
    {
        let b = s[i];
        if b < DIGIT_ZERO || b > DIGIT_ZERO + 9 {
            proof {
                let t = s@.subrange(lo as int, hi as int);
                assert(t[i - lo] == b);
                assert(!all_digits(t));
            }
            return None;
        }
        proof {
            lemma_digits_value_step(s@, lo as int, i as int);
            let p = s@.subrange(lo as int, i as int);
            let q = s@.subrange(lo as int, i + 1);
            assert forall|j: int| 0 <= j < q.len() implies is_digit(#[trigger] q[j]) by {
                if j < p.len() {
                    assert(q[j] == p[j]);
                }
            }
        }
        let next: u16 = acc * 10 + (b - DIGIT_ZERO) as u16;
        acc = if next > 256 { 256 } else { next };
        i = i + 1;
    }
    if i == lo || acc > 255 {
        None
    } else {
        Some(acc as u8)
    }
}

/// Decodes one line given as bytes; a single trailing newline is accepted.
pub fn decode_bytes(line: &[u8]) -> (r: Result<Sample, DecodeError>)
    ensures
        r == decode_spec(line@),
{
    let mut end = line.len();
    if end > 0 && line[end - 1] == NEWLINE {
        end = end - 1;
    }
    let ghost body = line@.subrange(0, end as int);
    assert(body =~= line_body(line@));
    let k = find_comma(line, 0, end);
    if k == end {
        return Err(DecodeError::Truncated);
    }
    let j = find_comma(line, k + 1, end);
    proof {
        assert(id_field(body) =~= line@.subrange(0, k as int));
        assert(after_first_comma(body) =~= line@.subrange(k + 1, end as int));
        assert(value_field(body) =~= line@.subrange(k + 1, j as int));
    }
    let id = parse_digits(line, 0, k);
    let v = parse_digits(line, k + 1, j);
    match (id, v) {
        (Some(input_id), Some(value)) => Ok(Sample { input_id, value }),
        _ => Err(DecodeError::MalformedField),
    }
}

/// Decodes one line of text; a single trailing newline is accepted.
pub fn decode(line: &str) -> (r: Result<Sample, DecodeError>)
    ensures
        r == decode_spec(line.spec_bytes()),
{
    decode_bytes(line.as_bytes())
}

/// Appends the decimal digits of `n`.
fn push_decimal(out: &mut Vec<u8>, n: u8)
    ensures
        final(out)@ == old(out)@ + decimal(n as nat),
{
    proof {
        reveal_with_fuel(decimal, 3);
    }
    if n >= 100 {
        out.push(DIGIT_ZERO + n / 100);
        out.push(DIGIT_ZERO + (n / 10) % 10);
        out.push(DIGIT_ZERO + n % 10);
        assert(decimal(n as nat) =~= seq![
            (DIGIT_ZERO + n / 100) as u8,
            (DIGIT_ZERO + (n / 10) % 10) as u8,
            (DIGIT_ZERO + n % 10) as u8,
        ]);
    } else if n >= 10 {
        out.push(DIGIT_ZERO + n / 10);
        out.push(DIGIT_ZERO + n % 10);
        assert(decimal(n as nat) =~= seq![(DIGIT_ZERO + n / 10) as u8, (DIGIT_ZERO + n % 10) as u8]);
    } else {
        out.push(DIGIT_ZERO + n);
    }
    assert(final(out)@ =~= old(out)@ + decimal(n as nat));
}

impl Sample {
    /// The canonical line that reports this sample, newline included.
    pub fn to_line(&self) -> (r: Vec<u8>)
        ensures
            r@ == sample_line(*self),
    {
        let mut out: Vec<u8> = Vec::new();
        push_decimal(&mut out, self.input_id);
        out.push(COMMA);
        push_decimal(&mut out, self.value);
        out.push(NEWLINE);
        assert(out@ =~= sample_line(*self));
        out
    }
}

} // verus!
