//! A keyspaced, content-addressed node store.

use vstd::prelude::*;
use crate::bytes::{append_bytes, bytes_eq, copy_bytes};
use crate::hashing::{digest, hash_node, HASH_LEN};
use crate::node::node_enc;
use crate::trie::{lookup, opt_view, TrieEngine};

verus! {

/// Where a node with hash `h` is stored for the trie of keyspace `ks`.
pub open spec fn address(ks: Seq<u8>, h: Seq<u8>) -> Seq<u8> {
    ks + h
}

/// Addresses that belong to keyspace `ks`.
pub open spec fn in_keyspace(a: Seq<u8>, ks: Seq<u8>) -> bool {
    a.len() == ks.len() + HASH_LEN && a.take(ks.len() as int) == ks
}

/// Node bytes by address; later writes to an address win.
pub open spec fn stored(entries: Seq<(Vec<u8>, Vec<u8>)>, n: int) -> Map<Seq<u8>, Seq<u8>>
    decreases n,
{
    if n <= 0 || n > entries.len() {
        Map::empty()
    } else {
        stored(entries, n - 1).insert(entries[n - 1].0@, entries[n - 1].1@)
    }
}

proof fn lemma_stored_prefix(e1: Seq<(Vec<u8>, Vec<u8>)>, e2: Seq<(Vec<u8>, Vec<u8>)>, n: int)
    requires
        0 <= n <= e1.len(),
        n <= e2.len(),
        forall|i: int| 0 <= i < n ==> e1[i] == e2[i],
    ensures
        stored(e1, n) == stored(e2, n),
    decreases n,
{
    if n > 0 {
        lemma_stored_prefix(e1, e2, n - 1);
    }
}

/// A content-addressed store of node encodings shared by several tries,
/// each under its own keyspace.
pub struct NodeStore {
    entries: Vec<(Vec<u8>, Vec<u8>)>,
}

impl View for NodeStore {
    type V = Map<Seq<u8>, Seq<u8>>;

    closed spec fn view(&self) -> Map<Seq<u8>, Seq<u8>> {
        stored(self.entries@, self.entries@.len() as int)
    }
}

impl NodeStore {
    pub fn new() -> (r: NodeStore)
        ensures
            r@ == Map::<Seq<u8>, Seq<u8>>::empty(),
    {
        NodeStore { entries: Vec::new() }
    }

    /// Stores `node` under its hash in keyspace `ks`, and returns the address.
    pub fn insert(&mut self, ks: &Vec<u8>, node: Vec<u8>) -> (a: Vec<u8>)
        ensures
            a@ == address(ks@, digest(node@)),
            final(self)@ == old(self)@.insert(a@, node@),
    {
        let h = hash_node(&node);
        let mut a = copy_bytes(ks);
        append_bytes(&mut a, &h);
        let ghost before = self.entries@;
        self.entries.push((copy_bytes(&a), node));
        proof {
            lemma_stored_prefix(before, self.entries@, before.len() as int);
        }
        a
    }

    /// The node stored under hash `h` in keyspace `ks`.
    pub fn get(&self, ks: &Vec<u8>, h: &Vec<u8>) -> (r: Option<Vec<u8>>)
        ensures
            opt_view(r) == lookup(self@, address(ks@, h@)),
    {
        let mut a = copy_bytes(ks);
        append_bytes(&mut a, h);
        let mut i: usize = self.entries.len();
        while i > 0
            invariant
                i <= self.entries@.len(),
                a@ == address(ks@, h@),
                lookup(self@, a@) == lookup(stored(self.entries@, i as int), a@),
            decreases i,
        {
            if bytes_eq(&self.entries[i - 1].0, &a) {
                return Some(copy_bytes(&self.entries[i - 1].1));
            }
            i = i - 1;
        }
        None
    }

    /// Writes every node of `trie` under keyspace `ks` and returns the
    /// root hash. Addresses outside that keyspace keep what they held.
    pub fn commit(&mut self, trie: &TrieEngine, ks: &Vec<u8>) -> (root: Vec<u8>)
        requires
            trie.wf(),
        ensures
            root@ == digest(node_enc(trie@, Seq::empty())),
            final(self)@.contains_key(address(ks@, root@)),
            final(self)@[address(ks@, root@)] == node_enc(trie@, Seq::empty()),
            forall|a: Seq<u8>|
                !in_keyspace(a, ks@) ==> #[trigger] lookup(final(self)@, a) == lookup(old(self)@, a),
    {
        let nodes = trie.nodes();
        let mut i: usize = 0;
        let mut root: Vec<u8> = Vec::new();
        while i < nodes.len()
            invariant
                i <= nodes@.len(),
                nodes@.len() > 0,
                nodes@[nodes@.len() - 1]@ == node_enc(trie@, Seq::empty()),
                i > 0 ==> root@ == address(ks@, digest(nodes@[i - 1]@)),
                i > 0 ==> self@.contains_key(root@) && self@[root@] == nodes@[i - 1]@,
                forall|a: Seq<u8>|
                    !in_keyspace(a, ks@) ==> #[trigger] lookup(self@, a) == lookup(old(self)@, a),
            decreases nodes@.len() - i,
        {
            let ghost prev = self@;
            assert(forall|x: Seq<u8>| !in_keyspace(x, ks@) ==> #[trigger] lookup(prev, x) == lookup(old(self)@, x));
            let a = self.insert(ks, copy_bytes(&nodes[i]));
            assert(forall|x: Seq<u8>| x != a@ ==> lookup(self@, x) == lookup(prev, x));
            proof {
                assert(a@.take(ks@.len() as int) =~= ks@);
                assert(in_keyspace(a@, ks@));
                assert forall|x: Seq<u8>| !in_keyspace(x, ks@) implies #[trigger] lookup(self@, x) == lookup(
                    old(self)@,
                    x,
                ) by {
                    assert(x != a@);
                    assert(lookup(self@, x) == lookup(prev, x));
                }
            }
            root = a;
            i = i + 1;
        }
        let h = hash_node(&nodes[nodes.len() - 1]);
        h
    }
}

} // verus!
