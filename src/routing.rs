//! The routing table: which MIDI controller each physical input drives.
use std::collections::HashMap;
use vstd::prelude::*;

verus! {

broadcast use vstd::std_specs::hash::group_hash_axioms;

/// An immutable map from input identifier to MIDI controller number (0 to 127).
#[derive(Debug)]
pub struct Faders {
    pins: HashMap<u8, u8>,
}

/// Why a list of routes does not make a routing table.
#[derive(Clone, Copy, Debug, PartialEq, Eq, Structural)]
pub enum ConfigurationError {
    /// The input is routed twice, so its routing would be ambiguous.
    DuplicateInput(u8),
    /// The input is routed to a controller above 127.
    ControllerOutOfRange { input: u8, controller: u8 },
}

/// Every controller of the map is a legal MIDI controller number.
pub open spec fn valid_routes(m: Map<u8, u8>) -> bool {
    forall|k: u8| #[trigger] m.contains_key(k) ==> m[k] <= 127
}

/// The routes that the table holds unless told otherwise.
pub open spec fn default_routes() -> Map<u8, u8> {
    map![18u8 => 1u8, 19u8 => 11u8, 20u8 => 2u8, 21u8 => 3u8]
}

/// The first fault of a list of routes, read from the front: an input already routed by
/// an earlier pair, or a controller above 127.
pub open spec fn routing_fault(pairs: Seq<(u8, u8)>) -> Option<ConfigurationError>
    decreases pairs.len(),
{
    if pairs.len() == 0 {
        None
    } else {
        let earlier = pairs.drop_last();
        let input = pairs.last().0;
        let controller = pairs.last().1;
        match routing_fault(earlier) {
            Some(e) => Some(e),
            None => {
                if exists|j: int| 0 <= j < earlier.len() && #[trigger] earlier[j].0 == input {
                    Some(ConfigurationError::DuplicateInput(input))
                } else if controller > 127 {
                    Some(ConfigurationError::ControllerOutOfRange { input, controller })
                } else {
                    None
                }
            },
        }
    }
}

/// The map that a list of routes describes.
pub open spec fn routes_of(pairs: Seq<(u8, u8)>) -> Map<u8, u8>
    decreases pairs.len(),
{
    if pairs.len() == 0 {
        Map::empty()
    } else {
        routes_of(pairs.drop_last()).insert(pairs.last().0, pairs.last().1)
    }
}

/// Once a prefix of the list is at fault, the whole list is, with the same fault.
proof fn lemma_fault_persists(pairs: Seq<(u8, u8)>, n: int)
    requires
        0 <= n <= pairs.len(),
        routing_fault(pairs.subrange(0, n)) is Some,
    ensures
        routing_fault(pairs) == routing_fault(pairs.subrange(0, n)),
    decreases pairs.len() - n,
{
    if n < pairs.len() {
        let next = pairs.subrange(0, n + 1);
        assert(next.drop_last() =~= pairs.subrange(0, n));
        assert(next.subrange(0, n) =~= pairs.subrange(0, n));
        lemma_fault_persists(pairs, n + 1);
    } else {
        assert(pairs.subrange(0, n) =~= pairs);
    }
}

impl View for Faders {
    type V = Map<u8, u8>;

    closed spec fn view(&self) -> Map<u8, u8> {
        self.pins@
    }
}

impl Faders {
    #[verifier::type_invariant]
    spec fn inv(self) -> bool {
        valid_routes(self.pins@)
    }

    /// The table `{18 -> 1, 19 -> 11, 20 -> 2, 21 -> 3}`.
    pub fn default() -> (r: Faders)
        ensures
            r@ == default_routes(),
    {
        let mut pins: HashMap<u8, u8> = HashMap::new();
        pins.insert(18, 1);
        pins.insert(19, 11);
        pins.insert(20, 2);
        pins.insert(21, 3);
        assert(pins@ =~= default_routes());
        Faders { pins }
    }

    /// Builds a table from `(input, controller)` pairs; fails on the first input that is
    /// routed twice or routed to a controller above 127.
    pub fn from_pairs(pairs: &[(u8, u8)]) -> (r: Result<Faders, ConfigurationError>)
        ensures
            match r {
                Ok(t) => routing_fault(pairs@) is None && t@ == routes_of(pairs@),
                Err(e) => routing_fault(pairs@) == Some(e),
            },
    {
        let mut pins: HashMap<u8, u8> = HashMap::new();
        let mut i: usize = 0;
        while i < pairs.len()
            invariant
                0 <= i <= pairs@.len(),
                routing_fault(pairs@.subrange(0, i as int)) is None,
                pins@ == routes_of(pairs@.subrange(0, i as int)),
                valid_routes(pins@),
                forall|k: u8|
                    #[trigger] pins@.contains_key(k) <==> exists|j: int|
                        0 <= j < i && #[trigger] pairs@[j].0 == k,
            decreases pairs@.len() - i,
        {
            let (input, controller) = pairs[i];
            let ghost prefix = pairs@.subrange(0, i as int);
            let ghost next = pairs@.subrange(0, i + 1);
            assert(next.drop_last() =~= prefix);
            assert(next.last() == pairs@[i as int]);
            if pins.contains_key(&input) {
                proof {
                    let j = choose|j: int| 0 <= j < i && #[trigger] pairs@[j].0 == input;
                    assert(prefix[j].0 == input);
                    lemma_fault_persists(pairs@, i + 1);
                }
                return Err(ConfigurationError::DuplicateInput(input));
            }
            assert(!exists|j: int| 0 <= j < prefix.len() && #[trigger] prefix[j].0 == input) by {
                if exists|j: int| 0 <= j < prefix.len() && #[trigger] prefix[j].0 == input {
                    let j = choose|j: int| 0 <= j < prefix.len() && #[trigger] prefix[j].0 == input;
                    assert(pairs@[j].0 == input);
                }
            }
            if controller > 127 {
                proof {
                    lemma_fault_persists(pairs@, i + 1);
                }
                return Err(ConfigurationError::ControllerOutOfRange { input, controller });
            }
            let ghost before = pins@;
            pins.insert(input, controller);
            i = i + 1;
            assert forall|k: u8| #[trigger] pins@.contains_key(k) <==> exists|j: int|
                0 <= j < i && #[trigger] pairs@[j].0 == k by {
                if k == input {
                    assert(pairs@[i - 1].0 == k);
                } else {
                    assert(pins@.contains_key(k) == before.contains_key(k));
                    if exists|j: int| 0 <= j < i && #[trigger] pairs@[j].0 == k {
                        let j = choose|j: int| 0 <= j < i && #[trigger] pairs@[j].0 == k;
                        assert(j < i - 1);
                    }
                }
            }
        }
        assert(pairs@.subrange(0, i as int) =~= pairs@);
        Ok(Faders { pins })
    }

    /// The controller that the input drives, if it is routed.
    pub fn lookup(&self, input: u8) -> (r: Option<u8>)
        ensures
            r == (if self@.contains_key(input) {
                Some(self@[input])
            } else {
                None
            }),
            r matches Some(c) ==> c <= 127,
    {
        proof {
            use_type_invariant(self);
        }
        match self.pins.get(&input) {
            Some(c) => Some(*c),
            None => None,
        }
    }
}

impl Clone for Faders {
    fn clone(&self) -> (r: Faders)
        ensures
            r@ == self@,
    {
        proof {
            use_type_invariant(self);
        }
        Faders { pins: self.pins.clone() }
    }
}

} // verus!
