//! Recording the nodes that reads visit.

use vstd::prelude::*;
use crate::bytes::bytes_eq;

verus! {

/// Accumulates, once each, the node encodings read while answering queries.
pub struct Recorder {
    nodes: Vec<Vec<u8>>,
}

impl View for Recorder {
    type V = Seq<Seq<u8>>;

    closed spec fn view(&self) -> Seq<Seq<u8>> {
        self.nodes@.map_values(|n: Vec<u8>| n@)
    }
}

impl Recorder {
    pub fn new() -> (r: Recorder)
        ensures
            r@ == Seq::<Seq<u8>>::empty(),
    {
        Recorder { nodes: Vec::new() }
    }

    /// Adds `node` unless it is already held.
    pub fn record(&mut self, node: Vec<u8>)
        requires
            old(self)@.no_duplicates(),
        ensures
            final(self)@.no_duplicates(),
            final(self)@.to_set() == old(self)@.to_set().insert(node@),
    {
        let ghost before = self@;
        let mut i: usize = 0;
        while i < self.nodes.len()
            invariant
                self@ == before,
                before.no_duplicates(),
                i <= self.nodes@.len(),
                forall|j: int| 0 <= j < i ==> self@[j] != node@,
            decreases self.nodes@.len() - i,
        {
            if bytes_eq(&self.nodes[i], &node) {
                assert(self@[i as int] == node@);
                assert(self@.to_set() =~= before.to_set().insert(node@));
                return;
            }
            i = i + 1;
        }
        self.nodes.push(node);
        assert(self@ =~= before.push(node@));
        assert(self@.to_set() =~= before.to_set().insert(node@)) by {
            assert forall|x: Seq<u8>| self@.to_set().contains(x) <==> before.to_set().insert(node@).contains(x) by {
                if self@.to_set().contains(x) {
                    let j = choose|j: int| 0 <= j < self@.len() && self@[j] == x;
                    if j < before.len() {
                        assert(before[j] == x);
                    }
                }
                if before.to_set().contains(x) {
                    let j = choose|j: int| 0 <= j < before.len() && before[j] == x;
                    assert(self@[j] == x);
                }
                if x == node@ {
                    assert(self@[before.len() as int] == x);
                }
            }
        }
    }

    /// Hands out what was recorded and starts over empty.
    pub fn drain(&mut self) -> (r: Vec<Vec<u8>>)
        ensures
            r@.map_values(|n: Vec<u8>| n@) == old(self)@,
            final(self)@ == Seq::<Seq<u8>>::empty(),
    {
        let mut r: Vec<Vec<u8>> = Vec::new();
        std::mem::swap(&mut r, &mut self.nodes);
        assert(self@ =~= Seq::<Seq<u8>>::empty());
        r
    }
}

} // verus!
