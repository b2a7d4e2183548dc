//! Building storage proofs.

use vstd::prelude::*;
use crate::nibble::nibbles;
use crate::node::path;
use crate::proof_check::StorageProof;
use crate::recorder::Recorder;
use crate::trie::TrieEngine;

verus! {

/// The nodes that reads of the first `n` of `keys` visit in the trie of `m`.
pub open spec fn paths_of(m: Map<Seq<u8>, Seq<u8>>, keys: Seq<Seq<u8>>, n: nat) -> Set<Seq<u8>>
    decreases n,
{
    if n == 0 {
        Set::empty()
    } else {
        paths_of(m, keys, (n - 1) as nat) + path(m, nibbles(keys[n - 1]), 0).to_set()
    }
}

/// A proof for reads of `keys`: each node that those reads visit, once.
pub fn prove_read(trie: &TrieEngine, keys: &Vec<Vec<u8>>) -> (r: StorageProof)
    requires
        trie.wf(),
        forall|i: int| 0 <= i < keys@.len() ==> (#[trigger] keys@[i])@.len() < 0x4000_0000,
    ensures
        r@.no_duplicates(),
        r@.to_set() == paths_of(trie@, keys@.map_values(|k: Vec<u8>| k@), keys@.len()),
{
    let ghost ks = keys@.map_values(|k: Vec<u8>| k@);
    let mut rec = Recorder::new();
    assert(rec@.to_set() =~= Set::<Seq<u8>>::empty());
    let mut t: usize = 0;
    while t < keys.len()
        invariant
            trie.wf(),
            forall|i: int| 0 <= i < keys@.len() ==> (#[trigger] keys@[i])@.len() < 0x4000_0000,
            ks == keys@.map_values(|k: Vec<u8>| k@),
            t <= keys@.len(),
            rec@.no_duplicates(),
            rec@.to_set() == paths_of(trie@, ks, t as nat),
        decreases keys@.len() - t,
    {
        assert(ks[t as int] == keys@[t as int]@);
        trie.record_path(&keys[t], &mut rec);
        t = t + 1;
    }
    let nodes = rec.drain();
    StorageProof::new(nodes)
}

} // verus!
