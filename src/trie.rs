//! The trie engine: contents, lookups, inserts, nodes and root.

use vstd::prelude::*;
use crate::bytes::{append_bytes, bytes_eq, copy_bytes};
use crate::hashing::{digest, hash_node, HASH_LEN};
use crate::nibble::{has_prefix, lemma_nibbles_injective, lemma_prefix_full, lemma_prefix_push, nibble_at, nibbles};
use crate::error::TrieError;
use crate::recorder::Recorder;
use crate::node::{
    ext_enc, first_ext, key_at, leaf_enc, node_enc, path, path_continues, EXT_TAG, root_of, slot, slots, under, valid_map, value_enc, BRANCH_TAG, EMPTY_TAG,
    LEAF_TAG, MAX_KEY_LEN, MAX_NIBBLES, MAX_VALUE_LEN,
};

verus! {

/// The value an optional byte string stands for.
pub open spec fn opt_view(o: Option<Vec<u8>>) -> Option<Seq<u8>> {
    match o {
        Some(v) => Some(v@),
        None => None,
    }
}

/// The value stored under `k` in `m`, if any.
pub open spec fn lookup(m: Map<Seq<u8>, Seq<u8>>, k: Seq<u8>) -> Option<Seq<u8>> {
    if m.contains_key(k) {
        Some(m[k])
    } else {
        None
    }
}

/// The key-value set that inserting the first `n` pairs of `pairs`, in
/// order, into `m` leaves.
pub open spec fn fill(m: Map<Seq<u8>, Seq<u8>>, pairs: Seq<(Seq<u8>, Seq<u8>)>, n: nat) -> Map<Seq<u8>, Seq<u8>>
    decreases n,
{
    if n == 0 || n > pairs.len() {
        m
    } else {
        fill(m, pairs, (n - 1) as nat).insert(pairs[n - 1].0, pairs[n - 1].1)
    }
}

/// The pairs that a list of byte-string pairs stands for.
pub open spec fn pairs_view(pairs: Seq<(Vec<u8>, Vec<u8>)>) -> Seq<(Seq<u8>, Seq<u8>)> {
    pairs.map_values(|e: (Vec<u8>, Vec<u8>)| (e.0@, e.1@))
}

proof fn lemma_single_to_set(x: Seq<u8>)
    ensures
        seq![x].to_set() == set![x],
{
    assert(seq![x][0] == x);
    assert(seq![x].to_set() =~= set![x]);
}

proof fn lemma_under_push(m: Map<Seq<u8>, Seq<u8>>, p: Seq<u8>, c: u8)
    ensures
        under(m, p.push(c)).subset_of(under(m, p)),
{
    assert forall|k: Seq<u8>| under(m, p.push(c)).contains(k) implies under(m, p).contains(k) by {
        lemma_prefix_push(nibbles(k), p, c);
    }
}

proof fn lemma_subset_same_len(a: Set<Seq<u8>>, b: Set<Seq<u8>>)
    requires
        a.subset_of(b),
        b.finite(),
        a.len() == b.len(),
    ensures
        a == b,
{
    assert forall|x: Seq<u8>| b.contains(x) implies a.contains(x) by {
        if !a.contains(x) {
            assert(a.subset_of(b.remove(x)));
            vstd::set_lib::lemma_len_subset(a, b.remove(x));
        }
    }
    assert(a =~= b);
}

/// A trie over a key-value set. Its nodes are derived from the set alone,
/// so the root commits to the set whatever order it was filled in.
pub struct TrieEngine {
    entries: Vec<(Vec<u8>, Vec<u8>)>,
    model: Ghost<Map<Seq<u8>, Seq<u8>>>,
}

impl View for TrieEngine {
    type V = Map<Seq<u8>, Seq<u8>>;

    closed spec fn view(&self) -> Map<Seq<u8>, Seq<u8>> {
        self.model@
    }
}

impl TrieEngine {
    /// The entries hold each key of the model once, with its value.
    pub closed spec fn wf(&self) -> bool {
        &&& valid_map(self.model@)
        &&& forall|i: int, j: int|
            0 <= i < j < self.entries@.len() ==> self.entries@[i].0@ != self.entries@[j].0@
        &&& forall|i: int|
            0 <= i < self.entries@.len() ==> self.model@.contains_key(#[trigger] self.entries@[i].0@)
                && self.model@[self.entries@[i].0@] == self.entries@[i].1@
        &&& forall|k: Seq<u8>|
            #[trigger] self.model@.contains_key(k) ==> exists|i: int|
                0 <= i < self.entries@.len() && #[trigger] self.entries@[i].0@ == k
    }

    /// A well-formed trie holds a key-value map of the sizes it accepts.
    pub proof fn lemma_wf_valid(&self)
        requires
            self.wf(),
        ensures
            valid_map(self@),
    {
    }

    /// An empty trie.
    pub fn new() -> (r: TrieEngine)
        ensures
            r.wf(),
            r@ == Map::<Seq<u8>, Seq<u8>>::empty(),
    {
        TrieEngine { entries: Vec::new(), model: Ghost(Map::empty()) }
    }

    fn find(&self, key: &Vec<u8>) -> (r: Option<usize>)
        requires
            self.wf(),
        ensures
            match r {
                Some(i) => i < self.entries@.len() && self.entries@[i as int].0@ == key@,
                None => !self@.contains_key(key@),
            },
    {
        let mut i: usize = 0;
        while i < self.entries.len()
            invariant
                self.wf(),
                i <= self.entries@.len(),
                forall|j: int| 0 <= j < i ==> self.entries@[j].0@ != key@,
            decreases self.entries@.len() - i,
        {
            if bytes_eq(&self.entries[i].0, key) {
                return Some(i);
            }
            i = i + 1;
        }
        None
    }

    /// The value stored under `key`; absence is an ordinary answer.
    pub fn get(&self, key: &Vec<u8>) -> (r: Option<Vec<u8>>)
        requires
            self.wf(),
        ensures
            opt_view(r) == lookup(self@, key@),
    {
        match self.find(key) {
            Some(i) => Some(copy_bytes(&self.entries[i].1)),
            None => None,
        }
    }

    /// Stores `value` under `key`, replacing what was there. Keys longer
    /// than `MAX_KEY_LEN` and values longer than `MAX_VALUE_LEN` are refused.
    pub fn insert(&mut self, key: &Vec<u8>, value: &Vec<u8>) -> (r: Result<(), TrieError>)
        requires
            old(self).wf(),
        ensures
            final(self).wf(),
            r is Err <==> (key@.len() > MAX_KEY_LEN || value@.len() > MAX_VALUE_LEN),
            r is Err ==> r == Err::<(), TrieError>(TrieError::EncodingError) && final(self)@ == old(self)@,
            r is Ok ==> final(self)@ == old(self)@.insert(key@, value@),
    {
        if key.len() > MAX_KEY_LEN || value.len() > MAX_VALUE_LEN {
            return Err(TrieError::EncodingError);
        }
        let k = copy_bytes(key);
        let v = copy_bytes(value);
        let ghost m = self.model@.insert(key@, value@);
        let ghost mut pos: int = 0;
        match self.find(key) {
            Some(i) => {
                self.entries.set(i, (k, v));
                proof { pos = i as int; }
            },
            None => {
                proof { pos = self.entries@.len() as int; }
                self.entries.push((k, v));
            },
        }
        assert(self.entries@[pos].0@ == key@);
        self.model = Ghost(m);
        assert forall|q: Seq<u8>| #[trigger] m.contains_key(q) implies exists|i: int|
            0 <= i < self.entries@.len() && #[trigger] self.entries@[i].0@ == q by {
            if q != key@ {
                let i = choose|i: int| 0 <= i < old(self).entries@.len() && #[trigger] old(self).entries@[i].0@ == q;
                assert(self.entries@[i].0@ == q);
            } else {
                assert(self.entries@[pos].0@ == q);
            }
        }
        Ok(())
    }

    /// `idx` lists, once each, the entries whose key path starts with `p`.
    closed spec fn indexes(&self, idx: Seq<usize>, p: Seq<u8>) -> bool {
        &&& forall|t: int|
            0 <= t < idx.len() ==> (#[trigger] idx[t]) < self.entries@.len() && has_prefix(
                nibbles(self.entries@[idx[t] as int].0@),
                p,
            )
        &&& forall|t: int, u: int| 0 <= t < u < idx.len() ==> idx[t] != idx[u]
        &&& forall|i: int|
            0 <= i < self.entries@.len() && has_prefix(nibbles(#[trigger] self.entries@[i].0@), p) ==> exists|
                t: int,
            | 0 <= t < idx.len() && idx[t] == i
    }

    closed spec fn keys_of(&self, idx: Seq<usize>) -> Seq<Seq<u8>> {
        idx.map_values(|i: usize| self.entries@[i as int].0@)
    }

    proof fn lemma_index_count(&self, idx: Seq<usize>, p: Seq<u8>)
        requires
            self.wf(),
            self.indexes(idx, p),
        ensures
            under(self@, p) == self.keys_of(idx).to_set(),
            under(self@, p).len() == idx.len(),
            under(self@, p).finite(),
    {
        let ks = self.keys_of(idx);
        assert forall|t: int, u: int| 0 <= t < ks.len() && 0 <= u < ks.len() && t != u implies ks[t] != ks[u] by {
            if t < u {
                assert(idx[t] != idx[u]);
            } else {
                assert(idx[u] != idx[t]);
            }
            assert(idx[t] < self.entries@.len());
            assert(idx[u] < self.entries@.len());
        }
        assert(ks.no_duplicates());
        ks.unique_seq_to_set();
        assert forall|k: Seq<u8>| #[trigger] under(self@, p).contains(k) <==> ks.to_set().contains(k) by {
            if under(self@, p).contains(k) {
                assert(self@.contains_key(k));
                let i = choose|i: int| 0 <= i < self.entries@.len() && #[trigger] self.entries@[i].0@ == k;
                let t = choose|t: int| 0 <= t < idx.len() && idx[t] == i;
                assert(ks[t] == k);
            }
            if ks.to_set().contains(k) {
                let t = choose|t: int| 0 <= t < ks.len() && ks[t] == k;
                assert(idx[t] < self.entries@.len());
                assert(self.model@.contains_key(self.entries@[idx[t] as int].0@));
            }
        }
        assert(under(self@, p) =~= ks.to_set());
    }

    /// The entries whose path continues `p` with nibble `c`.
    fn child_indexes(&self, idx: &Vec<usize>, prefix: &Vec<u8>, c: u8) -> (r: Vec<usize>)
        requires
            self.wf(),
            self.indexes(idx@, prefix@),
            c < 16,
        ensures
            self.indexes(r@, prefix@.push(c)),
    {
        let mut r: Vec<usize> = Vec::new();
        let mut t: usize = 0;
        let plen = prefix.len();
        while t < idx.len()
            invariant
                self.wf(),
                self.indexes(idx@, prefix@),
                plen == prefix@.len(),
                t <= idx@.len(),
                forall|u: int|
                    0 <= u < r@.len() ==> (#[trigger] r@[u]) < self.entries@.len() && has_prefix(
                        nibbles(self.entries@[r@[u] as int].0@),
                        prefix@.push(c),
                    ) && exists|t2: int| 0 <= t2 < t && idx@[t2] == r@[u],
                forall|u: int, v: int| 0 <= u < v < r@.len() ==> r@[u] != r@[v],
                forall|t2: int|
                    0 <= t2 < t && has_prefix(nibbles(self.entries@[idx@[t2] as int].0@), prefix@.push(c))
                        ==> exists|u: int| 0 <= u < r@.len() && r@[u] == idx@[t2],
            decreases idx@.len() - t,
        {
            let e = idx[t];
            let k = &self.entries[e].0;
            let ghost r0 = r@;
            proof {
                lemma_prefix_push(nibbles(k@), prefix@, c);
            }
            let hit = plen < 2 * k.len() && nibble_at(k, plen) == c;
            if hit {
                proof {
                    assert forall|u: int| 0 <= u < r@.len() implies r@[u] != e by {
                        let t2 = choose|t2: int| 0 <= t2 < t && idx@[t2] == r@[u];
                        assert(idx@[t2] != idx@[t as int]);
                    }
                }
                r.push(e);
                proof {
                    assert(r@[r@.len() - 1] == idx@[t as int]);
                }
            }
            proof {
                assert forall|t2: int|
                    0 <= t2 < t + 1 && has_prefix(nibbles(self.entries@[idx@[t2] as int].0@), prefix@.push(c))
                        implies exists|u: int| 0 <= u < r@.len() && r@[u] == idx@[t2] by {
                    if t2 < t {
                        let u = choose|u: int| 0 <= u < r0.len() && r0[u] == idx@[t2];
                        assert(r@[u] == idx@[t2]);
                    } else {
                        assert(hit);
                        assert(r@[r@.len() - 1] == idx@[t2]);
                    }
                }
                assert forall|u: int|
                    0 <= u < r@.len() implies exists|t2: int| 0 <= t2 < t + 1 && idx@[t2] == #[trigger] r@[u] by {
                    if u < r0.len() {
                        let t2 = choose|t2: int| 0 <= t2 < t && idx@[t2] == r0[u];
                        assert(idx@[t2] == r@[u]);
                    } else {
                        assert(idx@[t as int] == r@[u]);
                    }
                }
            }
            t = t + 1;
        }
        proof {
            assert forall|i: int|
                0 <= i < self.entries@.len() && has_prefix(
                    nibbles(#[trigger] self.entries@[i].0@),
                    prefix@.push(c),
                ) implies exists|u: int| 0 <= u < r@.len() && r@[u] == i by {
                lemma_prefix_push(nibbles(self.entries@[i].0@), prefix@, c);
                let t2 = choose|t2: int| 0 <= t2 < idx@.len() && idx@[t2] == i;
            }
        }
        r
    }

    /// The value slot of the branch at `prefix`.
    fn branch_value(&self, idx: &Vec<usize>, prefix: &Vec<u8>) -> (r: Vec<u8>)
        requires
            self.wf(),
            self.indexes(idx@, prefix@),
        ensures
            r@ == value_enc(self@, prefix@),
    {
        let plen = prefix.len();
        let mut t: usize = 0;
        while t < idx.len()
            invariant
                self.wf(),
                self.indexes(idx@, prefix@),
                plen == prefix@.len(),
                t <= idx@.len(),
                forall|t2: int| 0 <= t2 < t ==> 2 * self.entries@[idx@[t2] as int].0@.len() != plen,
            decreases idx@.len() - t,
        {
            let e = idx[t];
            if 2 * self.entries[e].0.len() == plen {
                let ghost k = self.entries@[e as int].0@;
                proof {
                    lemma_prefix_full(nibbles(k), prefix@);
                    assert(self.model@.contains_key(k));
                    let k2 = choose|k2: Seq<u8>| #[trigger] self@.contains_key(k2) && nibbles(k2) == prefix@;
                    lemma_nibbles_injective(k, k2);
                }
                let mut r: Vec<u8> = vec![1u8];
                append_bytes(&mut r, &self.entries[e].1);
                return r;
            }
            t = t + 1;
        }
        proof {
            if key_at(self@, prefix@) {
                let k2 = choose|k2: Seq<u8>| #[trigger] self@.contains_key(k2) && nibbles(k2) == prefix@;
                let i = choose|i: int| 0 <= i < self.entries@.len() && #[trigger] self.entries@[i].0@ == k2;
                assert(has_prefix(nibbles(self.entries@[i].0@), prefix@));
                let t2 = choose|t2: int| 0 <= t2 < idx@.len() && idx@[t2] == i;
                assert(2 * self.entries@[idx@[t2] as int].0@.len() != plen);
            }
        }
        vec![0u8]
    }

    /// The leaf holding entry `e`, below path `prefix`.
    fn leaf_node(&self, e: usize, prefix: &Vec<u8>) -> (r: Vec<u8>)
        requires
            self.wf(),
            e < self.entries@.len(),
            has_prefix(nibbles(self.entries@[e as int].0@), prefix@),
        ensures
            r@ == leaf_enc(nibbles(self.entries@[e as int].0@).skip(prefix@.len() as int), self.entries@[e as int].1@),
    {
        let k = &self.entries[e].0;
        assert(self.model@.contains_key(k@));
        let plen = prefix.len();
        let n = 2 * k.len();
        let partial_len = n - plen;
        let mut partial: Vec<u8> = Vec::new();
        let mut j: usize = plen;
        while j < n
            invariant
                plen <= j <= n,
                n == 2 * k@.len(),
                partial@ =~= nibbles(k@).subrange(plen as int, j as int),
            decreases n - j,
        {
            partial.push(nibble_at(k, j));
            j = j + 1;
        }
        assert(partial@ =~= nibbles(k@).skip(plen as int));
        let mut r: Vec<u8> = vec![LEAF_TAG, partial_len as u8];
        append_bytes(&mut r, &partial);
        append_bytes(&mut r, &self.entries[e].1);
        r
    }

    /// The encoding of the node at path `prefix`, whose entries `idx` lists.
    /// Every node built on the way is also pushed to `sink`.
    fn build_node(&self, idx: &Vec<usize>, prefix: &Vec<u8>, sink: &mut Vec<Vec<u8>>) -> (enc: Vec<u8>)
        requires
            self.wf(),
            prefix@.len() <= MAX_NIBBLES,
            self.indexes(idx@, prefix@),
        ensures
            enc@ == node_enc(self@, prefix@),
            final(sink)@.len() > 0,
            final(sink)@[final(sink)@.len() - 1]@ == enc@,
        decreases MAX_NIBBLES + 1 - prefix@.len(),
    {
        proof {
            self.lemma_index_count(idx@, prefix@);
        }
        if idx.len() == 0 {
            sink.push(vec![EMPTY_TAG]);
            return vec![EMPTY_TAG];
        }
        if idx.len() == 1 {
            proof {
                let ks = self.keys_of(idx@);
                assert(ks.to_set() =~= set![ks[0]]);
                assert(idx@[0] < self.entries@.len());
                let k0 = self.entries@[idx@[0] as int].0@;
                assert(ks[0] == k0);
                assert(under(self@, prefix@).contains(k0));
                assert(under(self@, prefix@).choose() == k0);
                assert(self@[k0] == self.entries@[idx@[0] as int].1@);
            }
            let enc = self.leaf_node(idx[0], prefix);
            sink.push(copy_bytes(&enc));
            return enc;
        }
        proof {
            self.lemma_branch_short(idx@, prefix@);
        }
        let mut e: u8 = 0;
        while e < 16
            invariant
                self.wf(),
                self.indexes(idx@, prefix@),
                prefix@.len() < MAX_NIBBLES,
                idx@.len() >= 2,
                under(self@, prefix@).len() == idx@.len(),
                under(self@, prefix@).finite(),
                e <= 16,
                first_ext(self@, prefix@, 0) == first_ext(self@, prefix@, e as nat),
            decreases 16 - e,
        {
            let cidx = self.child_indexes(idx, prefix, e);
            let ghost cp = prefix@.push(e);
            proof {
                self.lemma_index_count(cidx@, cp);
                lemma_under_push(self@, prefix@, e);
            }
            if cidx.len() == idx.len() {
                proof {
                    lemma_subset_same_len(under(self@, cp), under(self@, prefix@));
                }
                let mut child_prefix = copy_bytes(prefix);
                child_prefix.push(e);
                assert(child_prefix@ == cp);
                let child = self.build_node(&cidx, &child_prefix, sink);
                let h = hash_node(&child);
                let mut enc: Vec<u8> = vec![EXT_TAG, e];
                append_bytes(&mut enc, &h);
                assert(enc@ =~= ext_enc(e, digest(node_enc(self@, cp))));
                sink.push(copy_bytes(&enc));
                return enc;
            }
            e = e + 1;
        }
        let mut enc: Vec<u8> = vec![BRANCH_TAG];
        let mut c: u8 = 0;
        while c < 16
            invariant
                self.wf(),
                self.indexes(idx@, prefix@),
                prefix@.len() < MAX_NIBBLES,
                c <= 16,
                enc@ == seq![BRANCH_TAG] + slots(self@, prefix@, c as nat),
            decreases 16 - c,
        {
            let cidx = self.child_indexes(idx, prefix, c);
            let ghost cp = prefix@.push(c);
            let ghost before = enc@;
            proof {
                self.lemma_index_count(cidx@, cp);
            }
            if cidx.len() == 0 {
                enc.push(0u8);
                let mut z: usize = 0;
                while z < HASH_LEN
                    invariant
                        z <= HASH_LEN,
                        enc@ =~= before + seq![0u8] + Seq::new(z as nat, |j: int| 0u8),
                    decreases HASH_LEN - z,
                {
                    enc.push(0u8);
                    z = z + 1;
                }
                assert(slot(self@, prefix@, c as nat) == seq![0u8] + Seq::new(HASH_LEN as nat, |j: int| 0u8));
            } else {
                let mut child_prefix = copy_bytes(prefix);
                child_prefix.push(c);
                assert(child_prefix@ == cp);
                let child = self.build_node(&cidx, &child_prefix, sink);
                let h = hash_node(&child);
                enc.push(1u8);
                append_bytes(&mut enc, &h);
                assert(slot(self@, prefix@, c as nat) == seq![1u8] + digest(node_enc(self@, cp)));
            }
            assert(slots(self@, prefix@, (c + 1) as nat) == slots(self@, prefix@, c as nat) + slot(self@, prefix@, c as nat));
            assert(enc@ =~= seq![BRANCH_TAG] + slots(self@, prefix@, (c + 1) as nat));
            c = c + 1;
        }
        let v = self.branch_value(idx, prefix);
        append_bytes(&mut enc, &v);
        sink.push(copy_bytes(&enc));
        enc
    }

    fn all_indexes(&self) -> (r: Vec<usize>)
        requires
            self.wf(),
        ensures
            self.indexes(r@, Seq::empty()),
    {
        let mut r: Vec<usize> = Vec::new();
        let mut i: usize = 0;
        while i < self.entries.len()
            invariant
                i <= self.entries@.len(),
                r@.len() == i,
                forall|t: int| 0 <= t < i ==> r@[t] == t,
            decreases self.entries@.len() - i,
        {
            r.push(i);
            i = i + 1;
        }
        assert forall|t: int| 0 <= t < r@.len() implies has_prefix(
            nibbles(self.entries@[#[trigger] r@[t] as int].0@),
            Seq::<u8>::empty(),
        ) by {
            assert(nibbles(self.entries@[r@[t] as int].0@).take(0) =~= Seq::<u8>::empty());
        }
        assert forall|i: int|
            0 <= i < self.entries@.len() && has_prefix(nibbles(#[trigger] self.entries@[i].0@), Seq::<u8>::empty())
                implies exists|t: int| 0 <= t < r@.len() && r@[t] == i by {
            assert(r@[i] == i);
        }
        r
    }

    /// The encodings of all nodes of the trie, the root's last.
    pub fn nodes(&self) -> (r: Vec<Vec<u8>>)
        requires
            self.wf(),
        ensures
            r@.len() > 0,
            r@[r@.len() - 1]@ == node_enc(self@, Seq::empty()),
    {
        let idx = self.all_indexes();
        let prefix: Vec<u8> = Vec::new();
        assert(prefix@ =~= Seq::<u8>::empty());
        let mut sink: Vec<Vec<u8>> = Vec::new();
        self.build_node(&idx, &prefix, &mut sink);
        sink
    }

    /// The root hash: it commits to the whole key-value set.
    pub fn root(&self) -> (r: Vec<u8>)
        requires
            self.wf(),
        ensures
            r@ == root_of(self@),
            r@.len() == HASH_LEN,
    {
        let idx = self.all_indexes();
        let prefix: Vec<u8> = Vec::new();
        assert(prefix@ =~= Seq::<u8>::empty());
        let mut sink: Vec<Vec<u8>> = Vec::new();
        let enc = self.build_node(&idx, &prefix, &mut sink);
        hash_node(&enc)
    }

    /// Two entries never share a full-length path, so a node with two
    /// entries below it lies above the deepest level.
    proof fn lemma_branch_short(&self, idx: Seq<usize>, p: Seq<u8>)
        requires
            self.wf(),
            self.indexes(idx, p),
            idx.len() >= 2,
        ensures
            p.len() < MAX_NIBBLES,
    {
        if p.len() >= MAX_NIBBLES {
            let a = idx[0] as int;
            let b = idx[1] as int;
            assert(idx[0] != idx[1]);
            assert(self.model@.contains_key(self.entries@[a].0@));
            assert(self.model@.contains_key(self.entries@[b].0@));
            lemma_prefix_full(nibbles(self.entries@[a].0@), p);
            lemma_prefix_full(nibbles(self.entries@[b].0@), p);
            lemma_nibbles_injective(self.entries@[a].0@, self.entries@[b].0@);
            if a < b {
                assert(self.entries@[a].0@ != self.entries@[b].0@);
            } else {
                assert(self.entries@[b].0@ != self.entries@[a].0@);
            }
        }
    }

    /// Records the nodes that a read of `key` visits.
    pub fn record_path(&self, key: &Vec<u8>, rec: &mut Recorder)
        requires
            self.wf(),
            old(rec)@.no_duplicates(),
            key@.len() < 0x4000_0000,
        ensures
            final(rec)@.no_duplicates(),
            final(rec)@.to_set() == old(rec)@.to_set() + path(self@, nibbles(key@), 0).to_set(),
    {
        let ghost kp = nibbles(key@);
        let ghost m = self@;
        let n = 2 * key.len();
        let mut idx = self.all_indexes();
        let mut prefix: Vec<u8> = Vec::new();
        let mut d: usize = 0;
        assert(prefix@ =~= kp.take(0));
        let mut scratch: Vec<Vec<u8>> = Vec::new();
        loop
            invariant
                self.wf(),
                m == self@,
                kp == nibbles(key@),
                n == kp.len(),
                d <= n,
                d <= MAX_NIBBLES,
                prefix@ == kp.take(d as int),
                self.indexes(idx@, prefix@),
                rec@.no_duplicates(),
                rec@.to_set() + path(m, kp, d as int).to_set() == old(rec)@.to_set() + path(m, kp, 0).to_set(),
            decreases n - d,
        {
            let ghost before = rec@.to_set();
            let enc = self.build_node(&idx, &prefix, &mut scratch);
            rec.record(enc);
            proof {
                self.lemma_index_count(idx@, prefix@);
            }
            let ghost here = path(m, kp, d as int);
            if idx.len() < 2 || d >= n {
                proof {
                    assert(!path_continues(m, kp, d as int));
                    assert(here == seq![node_enc(m, prefix@)]);
                    lemma_single_to_set(node_enc(m, prefix@));
                    assert(rec@.to_set() =~= before + here.to_set());
                    assert(rec@.to_set() + here.to_set() =~= rec@.to_set());
                }
                return;
            }
            proof {
                self.lemma_branch_short(idx@, prefix@);
            }
            let c = nibble_at(key, d);
            let cidx = self.child_indexes(&idx, &prefix, c);
            let ghost next = prefix@.push(c);
            proof {
                self.lemma_index_count(cidx@, next);
                assert(next =~= kp.take(d + 1));
            }
            if cidx.len() == 0 {
                proof {
                    assert(!path_continues(m, kp, d as int));
                    assert(here == seq![node_enc(m, prefix@)]);
                    lemma_single_to_set(node_enc(m, prefix@));
                    assert(rec@.to_set() =~= before + here.to_set());
                    assert(rec@.to_set() + here.to_set() =~= rec@.to_set());
                }
                return;
            }
            proof {
                assert(path_continues(m, kp, d as int));
                assert(here == seq![node_enc(m, prefix@)] + path(m, kp, d + 1));
                assert(here.to_set() =~= path(m, kp, d + 1).to_set().insert(node_enc(m, prefix@))) by {
                    assert forall|x: Seq<u8>| here.to_set().contains(x) <==> path(m, kp, d + 1).to_set().insert(
                        node_enc(m, prefix@),
                    ).contains(x) by {
                        if here.to_set().contains(x) {
                            let j = choose|j: int| 0 <= j < here.len() && here[j] == x;
                            if j > 0 {
                                assert(path(m, kp, d + 1)[j - 1] == x);
                            }
                        }
                        if path(m, kp, d + 1).to_set().contains(x) {
                            let rest = path(m, kp, d + 1);
                            let j = choose|j: int| 0 <= j < rest.len() && rest[j] == x;
                            assert(here[j + 1] == x);
                        }
                        if x == node_enc(m, prefix@) {
                            assert(here[0] == x);
                        }
                    }
                }
                assert(rec@.to_set() + path(m, kp, d + 1).to_set() =~= before + here.to_set());
            }
            prefix.push(c);
            idx = cidx;
            d = d + 1;
        }
    }

    /// `get`, with the nodes that the read visits recorded in `rec`.
    pub fn get_recorded(&self, key: &Vec<u8>, rec: &mut Recorder) -> (r: Option<Vec<u8>>)
        requires
            self.wf(),
            old(rec)@.no_duplicates(),
            key@.len() < 0x4000_0000,
        ensures
            opt_view(r) == lookup(self@, key@),
            final(rec)@.no_duplicates(),
            final(rec)@.to_set() == old(rec)@.to_set() + path(self@, nibbles(key@), 0).to_set(),
    {
        self.record_path(key, rec);
        self.get(key)
    }

    /// An independent trie with the same contents.
    pub fn duplicate(&self) -> (r: TrieEngine)
        requires
            self.wf(),
        ensures
            r.wf(),
            r@ == self@,
    {
        let mut entries: Vec<(Vec<u8>, Vec<u8>)> = Vec::new();
        let mut i: usize = 0;
        while i < self.entries.len()
            invariant
                i <= self.entries@.len(),
                entries@.len() == i,
                forall|j: int|
                    0 <= j < i ==> (#[trigger] entries@[j]).0@ == self.entries@[j].0@ && entries@[j].1@
                        == self.entries@[j].1@,
            decreases self.entries@.len() - i,
        {
            entries.push((copy_bytes(&self.entries[i].0), copy_bytes(&self.entries[i].1)));
            i = i + 1;
        }
        let r = TrieEngine { entries, model: Ghost(self.model@) };
        assert forall|k: Seq<u8>| #[trigger] r.model@.contains_key(k) implies exists|i: int|
            0 <= i < r.entries@.len() && #[trigger] r.entries@[i].0@ == k by {
            let i = choose|i: int| 0 <= i < self.entries@.len() && #[trigger] self.entries@[i].0@ == k;
            assert(r.entries@[i].0@ == k);
        }
        r
    }
}

} // verus!
