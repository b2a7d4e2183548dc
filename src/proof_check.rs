//! Checking reads against a root with a storage proof alone.

use vstd::prelude::*;
use crate::bytes::{bytes_eq, copy_bytes};
use crate::error::TrieError;
use crate::hashing::{digest, hash_node, HASH_LEN};
use crate::nibble::{nibble_at, nibbles};
use crate::node::{BRANCH_TAG, BRANCH_VALUE_AT, EMPTY_TAG, EXT_LEN, EXT_TAG, LEAF_TAG, SLOT_LEN};

verus! {

/// A set of raw node encodings, enough to answer some reads against a root.
pub struct StorageProof {
    pub nodes: Vec<Vec<u8>>,
}

impl View for StorageProof {
    type V = Seq<Seq<u8>>;

    open spec fn view(&self) -> Seq<Seq<u8>> {
        self.nodes@.map_values(|n: Vec<u8>| n@)
    }
}

impl StorageProof {
    pub fn new(nodes: Vec<Vec<u8>>) -> (r: StorageProof)
        ensures
            r.nodes@ == nodes@,
    {
        StorageProof { nodes }
    }

    /// The node encodings, in order.
    pub fn into_nodes(self) -> (r: Vec<Vec<u8>>)
        ensures
            r@ == self.nodes@,
    {
        self.nodes
    }
}

/// The first node of `proof`, from position `i` on, whose hash is `h`.
pub open spec fn first_match(proof: Seq<Seq<u8>>, h: Seq<u8>, i: int) -> Option<Seq<u8>>
    decreases proof.len() - i,
{
    if i < 0 || i >= proof.len() {
        None
    } else if digest(proof[i]) == h {
        Some(proof[i])
    } else {
        first_match(proof, h, i + 1)
    }
}

pub open spec fn is_empty_node(b: Seq<u8>) -> bool {
    b == seq![EMPTY_TAG]
}

pub open spec fn is_leaf(b: Seq<u8>) -> bool {
    b.len() >= 2 && b[0] == LEAF_TAG && b.len() >= 2 + b[1]
}

pub open spec fn leaf_partial(b: Seq<u8>) -> Seq<u8> {
    b.subrange(2, 2 + b[1])
}

pub open spec fn leaf_value(b: Seq<u8>) -> Seq<u8> {
    b.skip(2 + b[1])
}

pub open spec fn is_ext(b: Seq<u8>) -> bool {
    b.len() == EXT_LEN && b[0] == EXT_TAG && b[1] < 16
}

pub open spec fn is_branch(b: Seq<u8>) -> bool {
    &&& b.len() > BRANCH_VALUE_AT
    &&& b[0] == BRANCH_TAG
    &&& (b[BRANCH_VALUE_AT as int] == 0 && b.len() == BRANCH_VALUE_AT + 1) || b[BRANCH_VALUE_AT as int] == 1
}

pub open spec fn branch_value(b: Seq<u8>) -> Option<Seq<u8>> {
    if b[BRANCH_VALUE_AT as int] == 1 {
        Some(b.skip(BRANCH_VALUE_AT + 1))
    } else {
        None
    }
}

pub open spec fn child_flag(b: Seq<u8>, i: int) -> u8 {
    b[1 + SLOT_LEN * i]
}

pub open spec fn child_hash(b: Seq<u8>, i: int) -> Seq<u8> {
    b.subrange(2 + SLOT_LEN * i, 2 + SLOT_LEN * i + HASH_LEN)
}

/// The answer that `proof` gives for the key with path `kp`, reading the
/// node whose hash is `h` at depth `d`.
pub open spec fn verify_at(h: Seq<u8>, proof: Seq<Seq<u8>>, kp: Seq<u8>, d: int) -> Result<Option<Seq<u8>>, TrieError>
    decreases kp.len() - d,
{
    match first_match(proof, h, 0) {
        None => Err(TrieError::IncompleteProofError),
        Some(b) => {
            if is_empty_node(b) {
                Ok(None)
            } else if is_leaf(b) {
                if 0 <= d <= kp.len() && leaf_partial(b) == kp.skip(d) {
                    Ok(Some(leaf_value(b)))
                } else {
                    Ok(None)
                }
            } else if is_ext(b) {
                if 0 <= d < kp.len() && kp[d] == b[1] {
                    verify_at(b.subrange(2, EXT_LEN as int), proof, kp, d + 1)
                } else {
                    Ok(None)
                }
            } else if is_branch(b) {
                if d < 0 || d >= kp.len() {
                    Ok(branch_value(b))
                } else if kp[d] >= 16 || (child_flag(b, kp[d] as int) != 0 && child_flag(b, kp[d] as int) != 1) {
                    Err(TrieError::CorruptNodeError)
                } else if child_flag(b, kp[d] as int) == 0 {
                    Ok(None)
                } else {
                    verify_at(child_hash(b, kp[d] as int), proof, kp, d + 1)
                }
            } else {
                Err(TrieError::CorruptNodeError)
            }
        },
    }
}

/// The answer that `proof` gives for `key` against `root`.
pub open spec fn verify_key(root: Seq<u8>, proof: Seq<Seq<u8>>, key: Seq<u8>) -> Result<Option<Seq<u8>>, TrieError> {
    verify_at(root, proof, nibbles(key), 0)
}

/// The answers for the first `n` keys, or the first failure among them.
pub open spec fn verify_keys(root: Seq<u8>, proof: Seq<Seq<u8>>, keys: Seq<Seq<u8>>, n: nat) -> Result<Seq<Option<Seq<u8>>>, TrieError>
    decreases n,
{
    if n == 0 {
        Ok(Seq::empty())
    } else {
        match verify_keys(root, proof, keys, (n - 1) as nat) {
            Err(e) => Err(e),
            Ok(vs) => match verify_key(root, proof, keys[n - 1]) {
                Err(e) => Err(e),
                Ok(v) => Ok(vs.push(v)),
            },
        }
    }
}

/// Once a key fails, the check of any longer list fails the same way.
proof fn lemma_verify_keys_err(root: Seq<u8>, proof: Seq<Seq<u8>>, keys: Seq<Seq<u8>>, j: nat, n: nat)
    requires
        j <= n,
        verify_keys(root, proof, keys, j) is Err,
    ensures
        verify_keys(root, proof, keys, n) == verify_keys(root, proof, keys, j),
    decreases n - j,
{
    if j < n {
        lemma_verify_keys_err(root, proof, keys, j, (n - 1) as nat);
    }
}

pub open spec fn result_view(r: Result<Option<Vec<u8>>, TrieError>) -> Result<Option<Seq<u8>>, TrieError> {
    match r {
        Ok(Some(v)) => Ok(Some(v@)),
        Ok(None) => Ok(None),
        Err(e) => Err(e),
    }
}

/// A successful answer carrying `o`.
pub open spec fn answered(o: Option<Vec<u8>>) -> Result<Option<Seq<u8>>, TrieError> {
    Ok(crate::trie::opt_view(o))
}

fn sub_bytes(b: &Vec<u8>, from: usize, to: usize) -> (r: Vec<u8>)
    requires
        from <= to <= b@.len(),
    ensures
        r@ == b@.subrange(from as int, to as int),
{
    let mut r: Vec<u8> = Vec::new();
    let mut i: usize = from;
    while i < to
        invariant
            from <= i <= to <= b@.len(),
            r@ =~= b@.subrange(from as int, i as int),
        decreases to - i,
    {
        r.push(b[i]);
        i = i + 1;
    }
    r
}

/// Position of the first proof node whose hash is `h`.
fn find_node(proof: &StorageProof, hashes: &Vec<Vec<u8>>, h: &Vec<u8>) -> (r: Option<usize>)
    requires
        hashes@.len() == proof.nodes@.len(),
        forall|i: int| 0 <= i < hashes@.len() ==> #[trigger] hashes@[i]@ == digest(proof@[i]),
    ensures
        match r {
            Some(i) => i < proof@.len() && first_match(proof@, h@, 0) == Some(proof@[i as int]),
            None => first_match(proof@, h@, 0) is None,
        },
{
    let mut i: usize = 0;
    while i < hashes.len()
        invariant
            hashes@.len() == proof.nodes@.len(),
            forall|j: int| 0 <= j < hashes@.len() ==> #[trigger] hashes@[j]@ == digest(proof@[j]),
            i <= hashes@.len(),
            first_match(proof@, h@, 0) == first_match(proof@, h@, i as int),
        decreases hashes@.len() - i,
    {
        assert(hashes@[i as int]@ == digest(proof@[i as int]));
        if bytes_eq(&hashes[i], h) {
            return Some(i);
        }
        i = i + 1;
    }
    None
}

/// Whether the leaf's partial path equals the nibbles of `key` from `d` on.
fn leaf_matches(b: &Vec<u8>, key: &Vec<u8>, d: usize) -> (r: bool)
    requires
        is_leaf(b@),
        key@.len() < 0x4000_0000,
        d <= 2 * key@.len(),
    ensures
        r == (leaf_partial(b@) == nibbles(key@).skip(d as int)),
{
    let plen = b[1] as usize;
    let n = 2 * key.len();
    if plen != n - d {
        assert(leaf_partial(b@).len() != nibbles(key@).skip(d as int).len());
        return false;
    }
    let mut j: usize = 0;
    while j < plen
        invariant
            is_leaf(b@),
            plen == b@[1],
            plen == n - d,
            n == 2 * key@.len(),
            j <= plen,
            forall|t: int| 0 <= t < j ==> leaf_partial(b@)[t] == #[trigger] nibbles(key@).skip(d as int)[t],
        decreases plen - j,
    {
        assert(leaf_partial(b@)[j as int] == b@[2 + j]);
        assert(nibbles(key@).skip(d as int)[j as int] == nibbles(key@)[d + j]);
        if b[2 + j] != nibble_at(key, d + j) {
            assert(leaf_partial(b@)[j as int] != nibbles(key@).skip(d as int)[j as int]);
            return false;
        }
        j = j + 1;
    }
    assert(leaf_partial(b@) =~= nibbles(key@).skip(d as int));
    true
}

/// The answer that `proof` gives for `key` against `root`.
fn check_key(root: &Vec<u8>, proof: &StorageProof, hashes: &Vec<Vec<u8>>, key: &Vec<u8>) -> (r: Result<
    Option<Vec<u8>>,
    TrieError,
>)
    requires
        hashes@.len() == proof.nodes@.len(),
        forall|i: int| 0 <= i < hashes@.len() ==> #[trigger] hashes@[i]@ == digest(proof@[i]),
        key@.len() < 0x4000_0000,
    ensures
        result_view(r) == verify_key(root@, proof@, key@),
{
    let n = 2 * key.len();
    let mut cur = copy_bytes(root);
    let mut d: usize = 0;
    loop
        invariant
            hashes@.len() == proof.nodes@.len(),
            forall|i: int| 0 <= i < hashes@.len() ==> #[trigger] hashes@[i]@ == digest(proof@[i]),
            n == 2 * key@.len(),
            n == nibbles(key@).len(),
            key@.len() < 0x4000_0000,
            d <= n,
            verify_at(cur@, proof@, nibbles(key@), d as int) == verify_key(root@, proof@, key@),
        decreases n - d,
    {
        let at = match find_node(proof, hashes, &cur) {
            None => {
                return Err(TrieError::IncompleteProofError);
            },
            Some(at) => at,
        };
        let b = &proof.nodes[at];
        assert(b@ == proof@[at as int]);
        if b.len() == 1 && b[0] == EMPTY_TAG {
            assert(b@ =~= seq![EMPTY_TAG]);
            return Ok(None);
        }
        assert(!is_empty_node(b@));
        if b.len() >= 2 && b[0] == LEAF_TAG && b.len() >= 2 + b[1] as usize {
            if leaf_matches(b, key, d) {
                let start = 2 + b[1] as usize;
                return Ok(Some(sub_bytes(b, start, b.len())));
            }
            return Ok(None);
        }
        if b.len() == EXT_LEN && b[0] == EXT_TAG && b[1] < 16 {
            if d < n && nibble_at(key, d) == b[1] {
                cur = sub_bytes(b, 2, EXT_LEN);
                d = d + 1;
                continue;
            }
            return Ok(None);
        }
        let is_br = b.len() > BRANCH_VALUE_AT && b[0] == BRANCH_TAG && ((b[BRANCH_VALUE_AT] == 0 && b.len()
            == BRANCH_VALUE_AT + 1) || b[BRANCH_VALUE_AT] == 1);
        if !is_br {
            return Err(TrieError::CorruptNodeError);
        }
        if d >= n {
            if b[BRANCH_VALUE_AT] == 1 {
                return Ok(Some(sub_bytes(b, BRANCH_VALUE_AT + 1, b.len())));
            }
            return Ok(None);
        }
        let c = nibble_at(key, d) as usize;
        let flag = b[1 + SLOT_LEN * c];
        if flag != 0 && flag != 1 {
            return Err(TrieError::CorruptNodeError);
        }
        if flag == 0 {
            return Ok(None);
        }
        let start = 2 + SLOT_LEN * c;
        cur = sub_bytes(b, start, start + HASH_LEN);
        d = d + 1;
    }
}

/// Checks the reads of `keys` against `root` using only the nodes of
/// `proof`. Each key is answered with its value, or with `None` where the
/// proof shows it absent; a node that the proof lacks fails the whole check.
pub fn read_proof_check(root: &Vec<u8>, proof: &StorageProof, keys: &Vec<Vec<u8>>) -> (r: Result<
    Vec<(Vec<u8>, Option<Vec<u8>>)>,
    TrieError,
>)
    requires
        forall|i: int| 0 <= i < keys@.len() ==> (#[trigger] keys@[i])@.len() < 0x4000_0000,
    ensures
        match r {
            Ok(answers) => {
                &&& verify_keys(root@, proof@, keys@.map_values(|k: Vec<u8>| k@), keys@.len()) is Ok
                &&& answers@.len() == keys@.len()
                &&& forall|i: int|
                    0 <= i < keys@.len() ==> (#[trigger] answers@[i]).0@ == keys@[i]@ && answered(answers@[i].1) == verify_key(root@, proof@, keys@[i]@)
            },
            Err(e) => verify_keys(root@, proof@, keys@.map_values(|k: Vec<u8>| k@), keys@.len()) == Err::<
                Seq<Option<Seq<u8>>>,
                TrieError,
            >(e),
        },
{
    let mut hashes: Vec<Vec<u8>> = Vec::new();
    let mut i: usize = 0;
    while i < proof.nodes.len()
        invariant
            i <= proof.nodes@.len(),
            hashes@.len() == i,
            forall|j: int| 0 <= j < i ==> #[trigger] hashes@[j]@ == digest(proof@[j]),
        decreases proof.nodes@.len() - i,
    {
        hashes.push(hash_node(&proof.nodes[i]));
        i = i + 1;
    }
    let ghost ks = keys@.map_values(|k: Vec<u8>| k@);
    let mut answers: Vec<(Vec<u8>, Option<Vec<u8>>)> = Vec::new();
    let mut t: usize = 0;
    while t < keys.len()
        invariant
            hashes@.len() == proof.nodes@.len(),
            forall|j: int| 0 <= j < hashes@.len() ==> #[trigger] hashes@[j]@ == digest(proof@[j]),
            forall|i: int| 0 <= i < keys@.len() ==> (#[trigger] keys@[i])@.len() < 0x4000_0000,
            ks == keys@.map_values(|k: Vec<u8>| k@),
            t <= keys@.len(),
            answers@.len() == t,
            verify_keys(root@, proof@, ks, t as nat) is Ok,
            forall|i: int|
                0 <= i < t ==> (#[trigger] answers@[i]).0@ == keys@[i]@ && answered(answers@[i].1) == verify_key(root@, proof@, keys@[i]@),
        decreases keys@.len() - t,
    {
        assert(ks[t as int] == keys@[t as int]@);
        let r = check_key(root, proof, &hashes, &keys[t]);
        match r {
            Err(e) => {
                proof {
                    lemma_verify_keys_err(root@, proof@, ks, (t + 1) as nat, keys@.len());
                }
                return Err(e);
            },
            Ok(v) => {
                answers.push((copy_bytes(&keys[t]), v));
            },
        }
        t = t + 1;
    }
    assert(ks.len() == keys@.len());
    Ok(answers)
}

} // verus!
