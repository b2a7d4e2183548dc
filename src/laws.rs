//! Properties that relate the trie, the prover and the proof check.

use vstd::prelude::*;
use crate::error::TrieError;
use crate::hashing::{digest, HASH_LEN};
use crate::nibble::{has_prefix, lemma_nibbles_injective, nibbles};
use crate::node::{ext_enc, first_ext, EXT_TAG, 
    key_at, node_enc, path, path_continues, slot, slots, under, valid_map, value_enc, lemma_slot_len,
    lemma_slots_len, BRANCH_VALUE_AT, MAX_KEY_LEN, MAX_NIBBLES, SLOT_LEN,
};
use crate::proof_check::{child_flag, child_hash, first_match, verify_at, verify_key, verify_keys};
use crate::prover::paths_of;
use crate::node::root_of;
use crate::trie::{fill, lookup};

verus! {

broadcast use vstd::set::group_set_axioms;

/// Every node of `nodes` occurs in `proof`.
pub open spec fn covers(proof: Seq<Seq<u8>>, nodes: Seq<Seq<u8>>) -> bool {
    forall|j: int| 0 <= j < nodes.len() ==> proof.contains(#[trigger] nodes[j])
}

/// No node of `proof` shares its hash with a different node of `nodes`.
pub open spec fn no_collision(proof: Seq<Seq<u8>>, nodes: Seq<Seq<u8>>) -> bool {
    forall|q: Seq<u8>, j: int|
        #![trigger proof.contains(q), nodes[j]]
        proof.contains(q) && 0 <= j < nodes.len() && digest(q) == digest(nodes[j]) ==> q == nodes[j]
}

proof fn lemma_first_match(proof: Seq<Seq<u8>>, n: Seq<u8>, i: int)
    requires
        0 <= i,
        forall|q: Seq<u8>| proof.contains(q) && digest(q) == digest(n) ==> q == n,
    ensures
        first_match(proof, digest(n), i) == (if exists|j: int| i <= j < proof.len() && proof[j] == n {
            Some(n)
        } else {
            None::<Seq<u8>>
        }),
    decreases proof.len() - i,
{
    if i < proof.len() {
        assert(proof.contains(proof[i]));
        lemma_first_match(proof, n, i + 1);
        if exists|j: int| i + 1 <= j < proof.len() && proof[j] == n {
            let j = choose|j: int| i + 1 <= j < proof.len() && proof[j] == n;
        }
        if exists|j: int| i <= j < proof.len() && proof[j] == n {
            let j = choose|j: int| i <= j < proof.len() && proof[j] == n;
            if j != i {
                assert(i + 1 <= j);
            }
        }
    }
}

proof fn lemma_under_finite(m: Map<Seq<u8>, Seq<u8>>, p: Seq<u8>)
    requires
        valid_map(m),
    ensures
        under(m, p).finite(),
{
    vstd::set_lib::lemma_len_subset(under(m, p), m.dom());
}

/// The only element of a set of size one.
proof fn lemma_single(s: Set<Seq<u8>>, a: Seq<u8>, b: Seq<u8>)
    requires
        s.finite(),
        s.len() == 1,
        s.contains(a),
        s.contains(b),
    ensures
        a == b,
{
    assert(s.remove(a).len() == 0);
    if a != b {
        assert(s.remove(a).contains(b));
    }
}

proof fn lemma_same_tail(a: Seq<u8>, b: Seq<u8>, p: Seq<u8>)
    requires
        has_prefix(a, p),
        has_prefix(b, p),
        a.skip(p.len() as int) == b.skip(p.len() as int),
    ensures
        a == b,
{
    assert(a =~= a.take(p.len() as int) + a.skip(p.len() as int));
    assert(b =~= b.take(p.len() as int) + b.skip(p.len() as int));
}

proof fn lemma_slots_index(m: Map<Seq<u8>, Seq<u8>>, p: Seq<u8>, j: nat, i: int, t: int)
    requires
        p.len() <= MAX_NIBBLES,
        0 <= i < j,
        0 <= t < SLOT_LEN,
    ensures
        slots(m, p, j)[SLOT_LEN * i + t] == slot(m, p, i as nat)[t],
    decreases j,
{
    lemma_slots_len(m, p, (j - 1) as nat);
    lemma_slot_len(m, p, (j - 1) as nat);
    if i < j - 1 {
        lemma_slots_index(m, p, (j - 1) as nat, i, t);
    }
}

proof fn lemma_first_ext(m: Map<Seq<u8>, Seq<u8>>, p: Seq<u8>, c: nat)
    ensures
        first_ext(m, p, c) is Some ==> first_ext(m, p, c)->Some_0 < 16 && under(
            m,
            p.push(first_ext(m, p, c)->Some_0),
        ) == under(m, p),
    decreases 16 - c,
{
    if c < 16 && under(m, p.push(c as u8)) != under(m, p) {
        lemma_first_ext(m, p, c + 1);
    }
}

proof fn lemma_nibble_small(k: Seq<u8>, j: int)
    requires
        0 <= j < nibbles(k).len(),
    ensures
        nibbles(k)[j] < 16,
{
}

/// What a read of `k` through `proof` answers at depth `d`: the value of
/// `k` in `m` when the proof holds every node of the path, an incomplete
/// proof otherwise, provided no proof node collides with a path node.
pub proof fn lemma_verify_path(m: Map<Seq<u8>, Seq<u8>>, proof: Seq<Seq<u8>>, k: Seq<u8>, d: int)
    requires
        valid_map(m),
        0 <= d <= nibbles(k).len(),
        no_collision(proof, path(m, nibbles(k), d)),
    ensures
        verify_at(digest(node_enc(m, nibbles(k).take(d))), proof, nibbles(k), d) == (if covers(
            proof,
            path(m, nibbles(k), d),
        ) {
            Ok(lookup(m, k))
        } else {
            Err(TrieError::IncompleteProofError)
        }),
    decreases nibbles(k).len() - d,
{
    let kp = nibbles(k);
    let p = kp.take(d);
    let n = node_enc(m, p);
    let pa = path(m, kp, d);
    assert(pa[0] == n);
    assert forall|q: Seq<u8>| proof.contains(q) && digest(q) == digest(n) implies q == n by {
        assert(pa[0] == n);
    }
    lemma_first_match(proof, n, 0);
    lemma_under_finite(m, p);
    assert(has_prefix(kp, p));
    if m.contains_key(k) {
        assert(under(m, p).contains(k));
    }
    if !proof.contains(n) {
        assert(!covers(proof, pa));
        return;
    }
    assert(first_match(proof, digest(n), 0) == Some(n));
    if p.len() > MAX_NIBBLES {
        assert forall|x: Seq<u8>| !under(m, p).contains(x) by {
            if under(m, p).contains(x) {
                assert(m.contains_key(x));
            }
        }
        assert(under(m, p) =~= Set::<Seq<u8>>::empty());
        assert(!path_continues(m, kp, d));
        assert(covers(proof, pa));
        return;
    }
    if under(m, p).len() == 0 {
        assert(!path_continues(m, kp, d));
        assert(covers(proof, pa));
        return;
    }
    if under(m, p).len() == 1 {
        let k0 = under(m, p).choose();
        assert(under(m, p).contains(k0));
        let partial = nibbles(k0).skip(d);
        assert(m.contains_key(k0));
        assert(nibbles(k0).len() <= 2 * MAX_KEY_LEN);
        assert(n == crate::node::leaf_enc(partial, m[k0]));
        assert(n[1] == partial.len());
        assert(crate::proof_check::leaf_partial(n) =~= partial);
        assert(crate::proof_check::leaf_value(n) =~= m[k0]);
        assert(!path_continues(m, kp, d));
        assert(covers(proof, pa));
        if m.contains_key(k) {
            lemma_single(under(m, p), k, k0);
        } else {
            if partial == kp.skip(d) {
                lemma_same_tail(nibbles(k0), kp, p);
                lemma_nibbles_injective(k0, k);
            }
        }
        return;
    }
    lemma_first_ext(m, p, 0);
    if first_ext(m, p, 0) is Some {
        let c = first_ext(m, p, 0)->Some_0;
        let cp = p.push(c);
        assert(n == ext_enc(c, digest(node_enc(m, cp))));
        assert(n[0] == EXT_TAG);
        assert(!crate::proof_check::is_empty_node(n));
        assert(!crate::proof_check::is_leaf(n));
        assert(crate::proof_check::is_ext(n));
        if m.contains_key(k) {
            assert(under(m, cp).contains(k));
            crate::nibble::lemma_prefix_push(kp, p, c);
        }
        if d >= kp.len() {
            assert(!path_continues(m, kp, d));
            assert(covers(proof, pa));
            return;
        }
        let e = kp[d];
        assert(kp.take(d + 1) =~= p.push(e));
        if e != c {
            assert forall|x: Seq<u8>| !under(m, p.push(e)).contains(x) by {
                if under(m, p.push(e)).contains(x) {
                    crate::nibble::lemma_prefix_push(nibbles(x), p, e);
                    assert(under(m, p).contains(x));
                    assert(under(m, cp).contains(x));
                    crate::nibble::lemma_prefix_push(nibbles(x), p, c);
                }
            }
            assert(under(m, p.push(e)) =~= Set::<Seq<u8>>::empty());
            assert(!path_continues(m, kp, d));
            assert(covers(proof, pa));
            return;
        }
        assert(path_continues(m, kp, d));
        let rest = path(m, kp, d + 1);
        assert(pa == seq![n] + rest);
        assert(n.subrange(2, crate::node::EXT_LEN as int) =~= digest(node_enc(m, cp)));
        assert forall|q: Seq<u8>, j: int|
            #![trigger proof.contains(q), rest[j]]
            proof.contains(q) && 0 <= j < rest.len() && digest(q) == digest(rest[j]) implies q == rest[j] by {
            assert(pa[j + 1] == rest[j]);
        }
        lemma_verify_path(m, proof, k, d + 1);
        if covers(proof, rest) {
            assert forall|j: int| 0 <= j < pa.len() implies proof.contains(#[trigger] pa[j]) by {
                if j > 0 {
                    assert(pa[j] == rest[j - 1]);
                }
            }
        } else {
            let j = choose|j: int| 0 <= j < rest.len() && !proof.contains(#[trigger] rest[j]);
            assert(pa[j + 1] == rest[j]);
        }
        return;
    }
    // a branch
    let ve = value_enc(m, p);
    lemma_slots_len(m, p, 16);
    assert(n == seq![crate::node::BRANCH_TAG] + slots(m, p, 16) + ve);
    assert(n[BRANCH_VALUE_AT as int] == ve[0]);
    if key_at(m, p) {
        assert(n.skip(BRANCH_VALUE_AT + 1) =~= ve.skip(1));
        let k2 = choose|k2: Seq<u8>| #[trigger] m.contains_key(k2) && nibbles(k2) == p;
        assert(ve.skip(1) =~= m[k2]);
        assert(crate::proof_check::branch_value(n) == Some(m[k2]));
    } else {
        assert(n.len() == BRANCH_VALUE_AT + 1);
        assert(crate::proof_check::branch_value(n) == None::<Seq<u8>>);
    }
    assert(n[0] == crate::node::BRANCH_TAG);
    assert(!crate::proof_check::is_empty_node(n));
    assert(!crate::proof_check::is_leaf(n));
    assert(crate::proof_check::is_branch(n));
    if d >= kp.len() {
        assert(p =~= kp);
        assert(!path_continues(m, kp, d));
        assert(covers(proof, pa));
        if m.contains_key(k) {
            assert(key_at(m, p));
            let k2 = choose|k2: Seq<u8>| #[trigger] m.contains_key(k2) && nibbles(k2) == p;
            lemma_nibbles_injective(k2, k);
        } else if key_at(m, p) {
            let k2 = choose|k2: Seq<u8>| #[trigger] m.contains_key(k2) && nibbles(k2) == p;
            lemma_nibbles_injective(k2, k);
        }
        return;
    }
    let c = kp[d];
    lemma_nibble_small(k, d);
    let cp = kp.take(d + 1);
    assert(cp =~= p.push(c));
    lemma_slots_index(m, p, 16, c as int, 0);
    assert(child_flag(n, c as int) == slot(m, p, c as nat)[0]);
    lemma_under_finite(m, cp);
    if m.contains_key(k) {
        assert(has_prefix(kp, cp));
        assert(under(m, cp).contains(k));
    }
    if under(m, cp).len() == 0 {
        assert(!path_continues(m, kp, d));
        assert(covers(proof, pa));
        return;
    }
    assert(path_continues(m, kp, d));
    let rest = path(m, kp, d + 1);
    assert(pa == seq![n] + rest);
    assert forall|t: int| 0 <= t < HASH_LEN implies #[trigger] child_hash(n, c as int)[t] == slot(
        m,
        p,
        c as nat,
    )[1 + t] by {
        lemma_slots_index(m, p, 16, c as int, 1 + t);
    }
    assert(child_hash(n, c as int) =~= digest(node_enc(m, cp)));
    assert forall|q: Seq<u8>, j: int|
        #![trigger proof.contains(q), rest[j]]
        proof.contains(q) && 0 <= j < rest.len() && digest(q) == digest(rest[j]) implies q == rest[j] by {
        assert(pa[j + 1] == rest[j]);
    }
    lemma_verify_path(m, proof, k, d + 1);
    if covers(proof, rest) {
        assert forall|j: int| 0 <= j < pa.len() implies proof.contains(#[trigger] pa[j]) by {
            if j > 0 {
                assert(pa[j] == rest[j - 1]);
            }
        }
    } else {
        let j = choose|j: int| 0 <= j < rest.len() && !proof.contains(#[trigger] rest[j]);
        assert(pa[j + 1] == rest[j]);
    }
}

proof fn lemma_verify_key(m: Map<Seq<u8>, Seq<u8>>, proof: Seq<Seq<u8>>, k: Seq<u8>)
    requires
        valid_map(m),
        no_collision(proof, path(m, nibbles(k), 0)),
    ensures
        verify_key(root_of(m), proof, k) == (if covers(proof, path(m, nibbles(k), 0)) {
            Ok(lookup(m, k))
        } else {
            Err(TrieError::IncompleteProofError)
        }),
{
    assert(nibbles(k).take(0) =~= Seq::<u8>::empty());
    lemma_verify_path(m, proof, k, 0);
}

proof fn lemma_paths_of_contains(m: Map<Seq<u8>, Seq<u8>>, keys: Seq<Seq<u8>>, n: nat, i: int)
    requires
        0 <= i < n <= keys.len(),
    ensures
        path(m, nibbles(keys[i]), 0).to_set().subset_of(paths_of(m, keys, n)),
    decreases n,
{
    if i < n - 1 {
        lemma_paths_of_contains(m, keys, (n - 1) as nat, i);
    }
}

/// Reads of `sub` checked against the root of `m`, with a proof that holds
/// every node of their paths, answer each key with its value in `m`, or
/// with its absence.
pub proof fn lemma_covered_reads(m: Map<Seq<u8>, Seq<u8>>, proof: Seq<Seq<u8>>, sub: Seq<Seq<u8>>, n: nat)
    requires
        valid_map(m),
        n <= sub.len(),
        forall|i: int| 0 <= i < n ==> covers(proof, #[trigger] path(m, nibbles(sub[i]), 0)),
        forall|i: int| 0 <= i < n ==> no_collision(proof, #[trigger] path(m, nibbles(sub[i]), 0)),
    ensures
        verify_keys(root_of(m), proof, sub, n) == Ok::<Seq<Option<Seq<u8>>>, TrieError>(
            Seq::new(n, |i: int| lookup(m, sub[i])),
        ),
    decreases n,
{
    if n == 0 {
        assert(Seq::new(n, |i: int| lookup(m, sub[i])) =~= Seq::<Option<Seq<u8>>>::empty());
    } else {
        lemma_covered_reads(m, proof, sub, (n - 1) as nat);
        assert(covers(proof, path(m, nibbles(sub[n - 1]), 0)));
        assert(no_collision(proof, path(m, nibbles(sub[n - 1]), 0)));
        lemma_verify_key(m, proof, sub[n - 1]);
        assert(Seq::new((n - 1) as nat, |i: int| lookup(m, sub[i])).push(lookup(m, sub[n - 1])) =~= Seq::new(
            n,
            |i: int| lookup(m, sub[i]),
        ));
        assert(verify_key(root_of(m), proof, sub[n - 1]) == Ok::<Option<Seq<u8>>, TrieError>(lookup(m, sub[n - 1])));
    }
}

/// A proof made by reading `keys` from the trie of `m` answers any
/// selection `sub` of those keys, against the root of `m`, with the value
/// of each in `m`, or with its absence; unless two different nodes that
/// the check meets share a hash.
pub proof fn lemma_prove_then_check(
    m: Map<Seq<u8>, Seq<u8>>,
    keys: Seq<Seq<u8>>,
    proof: Seq<Seq<u8>>,
    sub: Seq<Seq<u8>>,
)
    requires
        valid_map(m),
        proof.to_set() == paths_of(m, keys, keys.len()),
        forall|j: int| 0 <= j < sub.len() ==> keys.contains(#[trigger] sub[j]),
        forall|j: int| 0 <= j < sub.len() ==> no_collision(proof, #[trigger] path(m, nibbles(sub[j]), 0)),
    ensures
        verify_keys(root_of(m), proof, sub, sub.len()) == Ok::<Seq<Option<Seq<u8>>>, TrieError>(
            Seq::new(sub.len(), |i: int| lookup(m, sub[i])),
        ),
{
    assert forall|j: int| 0 <= j < sub.len() implies covers(proof, #[trigger] path(m, nibbles(sub[j]), 0)) by {
        let i = choose|i: int| 0 <= i < keys.len() && keys[i] == sub[j];
        lemma_paths_of_contains(m, keys, keys.len(), i);
        let pa = path(m, nibbles(sub[j]), 0);
        assert forall|t: int| 0 <= t < pa.len() implies proof.contains(#[trigger] pa[t]) by {
            assert(pa.to_set().contains(pa[t]));
            assert(proof.to_set().contains(pa[t]));
        }
    }
    lemma_covered_reads(m, proof, sub, sub.len());
}

/// A key some node of whose path the proof lacks fails the check as an
/// incomplete proof, never as a wrong answer; unless a node of the proof
/// shares a hash with a different node of that path.
pub proof fn lemma_unrecorded_key(m: Map<Seq<u8>, Seq<u8>>, proof: Seq<Seq<u8>>, k: Seq<u8>)
    requires
        valid_map(m),
        !covers(proof, path(m, nibbles(k), 0)),
        no_collision(proof, path(m, nibbles(k), 0)),
    ensures
        verify_key(root_of(m), proof, k) == Err::<Option<Seq<u8>>, TrieError>(TrieError::IncompleteProofError),
{
    lemma_verify_key(m, proof, k);
}

/// No key occurs twice among `pairs`.
pub open spec fn distinct_keys(pairs: Seq<(Seq<u8>, Seq<u8>)>) -> bool {
    forall|i: int, j: int| 0 <= i < j < pairs.len() ==> pairs[i].0 != pairs[j].0
}

proof fn lemma_fill(pairs: Seq<(Seq<u8>, Seq<u8>)>, n: nat)
    requires
        n <= pairs.len(),
        distinct_keys(pairs),
    ensures
        forall|k: Seq<u8>| #[trigger] fill(Map::empty(), pairs, n).contains_key(k) <==> exists|i: int| 0 <= i < n && pairs[i].0 == k,
        forall|i: int| 0 <= i < n ==> fill(Map::empty(), pairs, n)[#[trigger] pairs[i].0] == pairs[i].1,
    decreases n,
{
    if n > 0 {
        lemma_fill(pairs, (n - 1) as nat);
        let f = fill(Map::empty(), pairs, n);
        assert forall|k: Seq<u8>| #[trigger] f.contains_key(k) <==> exists|i: int| 0 <= i < n && pairs[i].0 == k by {
            if f.contains_key(k) && k != pairs[n - 1].0 {
                assert(fill(Map::empty(), pairs, (n - 1) as nat).contains_key(k));
                let i = choose|i: int| 0 <= i < n - 1 && pairs[i].0 == k;
            }
            if k == pairs[n - 1].0 {
                assert(pairs[n - 1].0 == k);
            }
            if exists|i: int| 0 <= i < n && pairs[i].0 == k {
                let i = choose|i: int| 0 <= i < n && pairs[i].0 == k;
                if i < n - 1 {
                    assert(fill(Map::empty(), pairs, (n - 1) as nat).contains_key(k));
                }
            }
        }
        assert forall|i: int| 0 <= i < n implies f[#[trigger] pairs[i].0] == pairs[i].1 by {
            if i < n - 1 {
                assert(pairs[i].0 != pairs[n - 1].0);
            }
        }
    }
}

/// Inserting the same key-value pairs, with distinct keys, in two orders
/// gives the same root.
pub proof fn lemma_insert_order(a: Seq<(Seq<u8>, Seq<u8>)>, b: Seq<(Seq<u8>, Seq<u8>)>)
    requires
        distinct_keys(a),
        distinct_keys(b),
        a.to_set() == b.to_set(),
    ensures
        fill(Map::empty(), a, a.len()) == fill(Map::empty(), b, b.len()),
        root_of(fill(Map::empty(), a, a.len())) == root_of(fill(Map::empty(), b, b.len())),
{
    lemma_fill(a, a.len());
    lemma_fill(b, b.len());
    let fa = fill(Map::empty(), a, a.len());
    let fb = fill(Map::empty(), b, b.len());
    assert forall|k: Seq<u8>| #[trigger] fa.contains_key(k) implies fb.contains_key(k) && fa[k] == fb[k] by {
        let i = choose|i: int| 0 <= i < a.len() && a[i].0 == k;
        assert(a.to_set().contains(a[i]));
        assert(b.to_set().contains(a[i]));
        let j = choose|j: int| 0 <= j < b.len() && b[j] == a[i];
        assert(fb[b[j].0] == b[j].1);
    }
    assert forall|k: Seq<u8>| #[trigger] fb.contains_key(k) implies fa.contains_key(k) by {
        let j = choose|j: int| 0 <= j < b.len() && b[j].0 == k;
        assert(b.to_set().contains(b[j]));
        assert(a.to_set().contains(b[j]));
        let i = choose|i: int| 0 <= i < a.len() && a[i] == b[j];
        assert(a[i].0 == k);
    }
    assert(fa =~= fb);
}

} // verus!
