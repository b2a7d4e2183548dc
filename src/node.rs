//! The canonical node encodings of a key-value map.

use vstd::prelude::*;
use crate::hashing::{digest, HASH_LEN};
use crate::nibble::{nibbles, has_prefix};

verus! {

/// Longest key accepted, in bytes.
pub const MAX_KEY_LEN: usize = 64;
/// Longest value accepted, in bytes.
pub const MAX_VALUE_LEN: usize = 65536;
/// Longest key path, in nibbles.
pub const MAX_NIBBLES: usize = 128;

/// First byte of an empty node.
pub const EMPTY_TAG: u8 = 0;
/// First byte of a leaf: `[LEAF_TAG, n] ++ n nibbles ++ value`.
pub const LEAF_TAG: u8 = 1;
/// First byte of a branch: `[BRANCH_TAG] ++ 16 slots ++ value slot`, where a
/// child slot is `[0] ++ 32 zero bytes` or `[1] ++ child hash`, and the value
/// slot is `[0]` or `[1] ++ value`.
pub const BRANCH_TAG: u8 = 2;
/// First byte of an extension: `[EXT_TAG, c] ++ child hash`, for a node
/// all of whose keys continue with nibble `c`.
pub const EXT_TAG: u8 = 3;
/// Bytes of an extension.
pub const EXT_LEN: usize = 34;
/// Bytes of one child slot of a branch.
pub const SLOT_LEN: usize = 33;
/// Offset of the value slot of a branch.
pub const BRANCH_VALUE_AT: usize = 529;

/// Key-value maps that the trie can hold.
pub open spec fn valid_map(m: Map<Seq<u8>, Seq<u8>>) -> bool {
    &&& m.dom().finite()
    &&& forall|k: Seq<u8>| #[trigger] m.contains_key(k) ==> k.len() <= MAX_KEY_LEN && m[k].len() <= MAX_VALUE_LEN
}

/// Keys of `m` whose path starts with `p`.
pub open spec fn under(m: Map<Seq<u8>, Seq<u8>>, p: Seq<u8>) -> Set<Seq<u8>> {
    m.dom().filter(|k: Seq<u8>| has_prefix(nibbles(k), p))
}

/// Encoding of a leaf holding the rest of a path and a value.
pub open spec fn leaf_enc(partial: Seq<u8>, v: Seq<u8>) -> Seq<u8> {
    seq![LEAF_TAG, partial.len() as u8] + partial + v
}

/// A key of `m` whose path is exactly `p`.
pub open spec fn key_at(m: Map<Seq<u8>, Seq<u8>>, p: Seq<u8>) -> bool {
    exists|k: Seq<u8>| #[trigger] m.contains_key(k) && nibbles(k) == p
}

/// Value slot of the branch at `p`.
pub open spec fn value_enc(m: Map<Seq<u8>, Seq<u8>>, p: Seq<u8>) -> Seq<u8> {
    if key_at(m, p) {
        let k = choose|k: Seq<u8>| #[trigger] m.contains_key(k) && nibbles(k) == p;
        seq![1u8] + m[k]
    } else {
        seq![0u8]
    }
}

/// The first nibble `c`, from `c` on, with which every key under `p`
/// continues.
pub open spec fn first_ext(m: Map<Seq<u8>, Seq<u8>>, p: Seq<u8>, c: nat) -> Option<u8>
    decreases 16 - c,
{
    if c >= 16 {
        None
    } else if under(m, p.push(c as u8)) == under(m, p) {
        Some(c as u8)
    } else {
        first_ext(m, p, c + 1)
    }
}

/// Encoding of an extension by nibble `c` to the child with hash `h`.
pub open spec fn ext_enc(c: u8, h: Seq<u8>) -> Seq<u8> {
    seq![EXT_TAG, c] + h
}

/// Encoding of the node that stands for the keys of `m` under path `p`.
pub open spec fn node_enc(m: Map<Seq<u8>, Seq<u8>>, p: Seq<u8>) -> Seq<u8>
    decreases MAX_NIBBLES + 1 - p.len(), 17int,
{
    if p.len() > MAX_NIBBLES {
        seq![EMPTY_TAG]
    } else if under(m, p).len() == 0 {
        seq![EMPTY_TAG]
    } else if under(m, p).len() == 1 {
        let k = under(m, p).choose();
        leaf_enc(nibbles(k).skip(p.len() as int), m[k])
    } else if first_ext(m, p, 0) is Some {
        let c = first_ext(m, p, 0)->Some_0;
        ext_enc(c, digest(node_enc(m, p.push(c))))
    } else {
        seq![BRANCH_TAG] + slots(m, p, 16) + value_enc(m, p)
    }
}

/// The first `j` child slots of the branch at `p`.
pub open spec fn slots(m: Map<Seq<u8>, Seq<u8>>, p: Seq<u8>, j: nat) -> Seq<u8>
    decreases MAX_NIBBLES + 1 - p.len(), j,
{
    if p.len() > MAX_NIBBLES || j == 0 {
        Seq::empty()
    } else {
        slots(m, p, (j - 1) as nat) + slot(m, p, (j - 1) as nat)
    }
}

/// Child slot `i` of the branch at `p`.
pub open spec fn slot(m: Map<Seq<u8>, Seq<u8>>, p: Seq<u8>, i: nat) -> Seq<u8>
    decreases MAX_NIBBLES + 1 - p.len(), 0int,
{
    if p.len() > MAX_NIBBLES || under(m, p.push(i as u8)).len() == 0 {
        seq![0u8] + Seq::new(HASH_LEN as nat, |j: int| 0u8)
    } else {
        seq![1u8] + digest(node_enc(m, p.push(i as u8)))
    }
}

/// The root hash committing to the whole of `m`.
pub open spec fn root_of(m: Map<Seq<u8>, Seq<u8>>) -> Seq<u8> {
    digest(node_enc(m, Seq::empty()))
}

pub proof fn lemma_slot_len(m: Map<Seq<u8>, Seq<u8>>, p: Seq<u8>, i: nat)
    ensures
        slot(m, p, i).len() == SLOT_LEN,
{
}

pub proof fn lemma_slots_len(m: Map<Seq<u8>, Seq<u8>>, p: Seq<u8>, j: nat)
    requires
        p.len() <= MAX_NIBBLES,
    ensures
        slots(m, p, j).len() == SLOT_LEN * j,
    decreases j,
{
    if j > 0 {
        lemma_slots_len(m, p, (j - 1) as nat);
        lemma_slot_len(m, p, (j - 1) as nat);
    }
}

} // verus!

verus! {

/// Whether the walk for path `kp` goes on below depth `d`: the node there
/// is a branch or an extension, and the child on the path is not empty.
pub open spec fn path_continues(m: Map<Seq<u8>, Seq<u8>>, kp: Seq<u8>, d: int) -> bool {
    &&& 0 <= d < kp.len()
    &&& under(m, kp.take(d)).len() >= 2
    &&& under(m, kp.take(d + 1)).len() > 0
}

/// The encodings of the nodes that a read of path `kp` visits from depth
/// `d` on.
pub open spec fn path(m: Map<Seq<u8>, Seq<u8>>, kp: Seq<u8>, d: int) -> Seq<Seq<u8>>
    decreases kp.len() - d,
{
    if path_continues(m, kp, d) {
        seq![node_enc(m, kp.take(d))] + path(m, kp, d + 1)
    } else {
        seq![node_enc(m, kp.take(d))]
    }
}

} // verus!
