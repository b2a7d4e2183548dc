//! Child tries: their identifiers, keyspaces and root references in the
//! parent, and the storage keys derived for other purposes.

use vstd::prelude::*;
use crate::bytes::{append_bytes, copy_bytes};
use crate::error::TrieError;
use crate::hashing::HASH_LEN;
use crate::node::{MAX_KEY_LEN, MAX_VALUE_LEN};
use crate::store::{address, in_keyspace};
use crate::node::root_of;
use crate::trie::{fill, lookup, pairs_view, TrieEngine};

verus! {

/// `:child_storage:default:`, the prefix of the parent key that holds a
/// default child trie's root.
pub open spec fn child_storage_prefix() -> Seq<u8> {
    seq![58u8, 99, 104, 105, 108, 100, 95, 115, 116, 111, 114, 97, 103, 101, 58, 100, 101, 102, 97, 117, 108, 116, 58]
}

/// Names a child trie. Its identifier is never empty, so its keyspace never
/// meets the parent's, which is empty.
pub struct ChildInfo {
    storage_key: Vec<u8>,
}

impl View for ChildInfo {
    type V = Seq<u8>;

    closed spec fn view(&self) -> Seq<u8> {
        self.storage_key@
    }
}

impl ChildInfo {
    /// A default child trie named `id`; an empty name would share the
    /// parent's keyspace and is refused.
    pub fn new_default(id: &Vec<u8>) -> (r: Result<ChildInfo, TrieError>)
        ensures
            r is Err <==> id@.len() == 0,
            r is Err ==> r == Err::<ChildInfo, TrieError>(TrieError::KeyspaceCollisionError),
            r is Ok ==> r->Ok_0@ == id@,
    {
        if id.len() == 0 {
            return Err(TrieError::KeyspaceCollisionError);
        }
        Ok(ChildInfo { storage_key: copy_bytes(id) })
    }

    /// The identifier.
    pub fn storage_key(&self) -> (r: Vec<u8>)
        ensures
            r@ == self@,
    {
        copy_bytes(&self.storage_key)
    }

    /// The prefix under which the child trie's nodes are stored.
    pub fn keyspace(&self) -> (r: Vec<u8>)
        ensures
            r@ == self@,
    {
        copy_bytes(&self.storage_key)
    }

    /// The key under which the parent trie holds the child trie's root.
    pub fn prefixed_storage_key(&self) -> (r: Vec<u8>)
        ensures
            r@ == child_storage_prefix() + self@,
    {
        let mut r: Vec<u8> = vec![
            58u8, 99, 104, 105, 108, 100, 95, 115, 116, 111, 114, 97, 103, 101, 58, 100, 101, 102, 97, 117, 108,
            116, 58,
        ];
        assert(r@ =~= child_storage_prefix());
        append_bytes(&mut r, &self.storage_key);
        r
    }
}

/// Writes the child trie's root into the parent, under the child's
/// prefixed storage key.
pub fn commit_child(parent: &mut TrieEngine, child: &ChildInfo, child_root: &Vec<u8>) -> (r: Result<(), TrieError>)
    requires
        old(parent).wf(),
    ensures
        final(parent).wf(),
        r is Err <==> (child_storage_prefix() + child@).len() > MAX_KEY_LEN || child_root@.len() > MAX_VALUE_LEN,
        r is Err ==> r == Err::<(), TrieError>(TrieError::EncodingError) && final(parent)@ == old(parent)@,
        r is Ok ==> final(parent)@ == old(parent)@.insert(child_storage_prefix() + child@, child_root@),
{
    let key = child.prefixed_storage_key();
    parent.insert(&key, child_root)
}

/// A pair that the trie cannot encode.
pub open spec fn oversized(e: (Seq<u8>, Seq<u8>)) -> bool {
    e.0.len() > MAX_KEY_LEN || e.1.len() > MAX_VALUE_LEN
}

/// The root that the child trie would have once `pending` is written to it,
/// in order; the child itself is left as it is. A pair that cannot be
/// encoded fails the whole computation.
pub fn child_root(child: &TrieEngine, pending: &Vec<(Vec<u8>, Vec<u8>)>) -> (r: Result<Vec<u8>, TrieError>)
    requires
        child.wf(),
    ensures
        r is Err <==> exists|i: int| 0 <= i < pending@.len() && oversized(#[trigger] pairs_view(pending@)[i]),
        r is Err ==> r == Err::<Vec<u8>, TrieError>(TrieError::EncodingError),
        r is Ok ==> r->Ok_0@ == root_of(fill(child@, pairs_view(pending@), pending@.len())),
{
    let ghost ps = pairs_view(pending@);
    let mut t = child.duplicate();
    let mut i: usize = 0;
    while i < pending.len()
        invariant
            t.wf(),
            ps == pairs_view(pending@),
            i <= pending@.len(),
            t@ == fill(child@, ps, i as nat),
            forall|j: int| 0 <= j < i ==> !oversized(#[trigger] ps[j]),
        decreases pending@.len() - i,
    {
        assert(ps[i as int] == (pending@[i as int].0@, pending@[i as int].1@));
        match t.insert(&pending[i].0, &pending[i].1) {
            Err(e) => {
                assert(oversized(ps[i as int]));
                return Err(e);
            },
            Ok(()) => {},
        }
        i = i + 1;
    }
    Ok(t.root())
}

/// What a derived storage key is for.
#[derive(Clone, Copy, Debug, PartialEq, Eq)]
pub enum StoragePurpose {
    RequestCommitment,
    ResponseCommitment,
    RequestReceipt,
    ResponseReceipt,
}

/// The name that opens each key of a purpose.
pub open spec fn purpose_tag(p: StoragePurpose) -> Seq<u8> {
    match p {
        // RequestCommitments
        StoragePurpose::RequestCommitment => seq![82u8, 101, 113, 117, 101, 115, 116, 67, 111, 109, 109, 105, 116, 109, 101, 110, 116, 115],
        // ResponseCommitments
        StoragePurpose::ResponseCommitment => seq![82u8, 101, 115, 112, 111, 110, 115, 101, 67, 111, 109, 109, 105, 116, 109, 101, 110, 116, 115],
        // RequestReceipts
        StoragePurpose::RequestReceipt => seq![82u8, 101, 113, 117, 101, 115, 116, 82, 101, 99, 101, 105, 112, 116, 115],
        // ResponseReceipts
        StoragePurpose::ResponseReceipt => seq![82u8, 101, 115, 112, 111, 110, 115, 101, 82, 101, 99, 101, 105, 112, 116, 115],
    }
}

fn tag_bytes(p: StoragePurpose) -> (r: Vec<u8>)
    ensures
        r@ == purpose_tag(p),
{
    let r: Vec<u8> = match p {
        StoragePurpose::RequestCommitment => vec![82u8, 101, 113, 117, 101, 115, 116, 67, 111, 109, 109, 105, 116, 109, 101, 110, 116, 115],
        StoragePurpose::ResponseCommitment => vec![82u8, 101, 115, 112, 111, 110, 115, 101, 67, 111, 109, 109, 105, 116, 109, 101, 110, 116, 115],
        StoragePurpose::RequestReceipt => vec![82u8, 101, 113, 117, 101, 115, 116, 82, 101, 99, 101, 105, 112, 116, 115],
        StoragePurpose::ResponseReceipt => vec![82u8, 101, 115, 112, 111, 110, 115, 101, 82, 101, 99, 101, 105, 112, 116, 115],
    };
    assert(r@ =~= purpose_tag(p));
    r
}

/// The storage key for `purpose` and the 32-byte identifier `id`: the
/// purpose's name followed by the identifier.
pub fn derived_storage_key(purpose: StoragePurpose, id: &Vec<u8>) -> (r: Vec<u8>)
    ensures
        r@ == purpose_tag(purpose) + id@,
{
    let mut r = tag_bytes(purpose);
    append_bytes(&mut r, id);
    r
}

pub fn request_commitment_storage_key(id: &Vec<u8>) -> (r: Vec<u8>)
    ensures
        r@ == purpose_tag(StoragePurpose::RequestCommitment) + id@,
{
    derived_storage_key(StoragePurpose::RequestCommitment, id)
}

pub fn response_commitment_storage_key(id: &Vec<u8>) -> (r: Vec<u8>)
    ensures
        r@ == purpose_tag(StoragePurpose::ResponseCommitment) + id@,
{
    derived_storage_key(StoragePurpose::ResponseCommitment, id)
}

pub fn request_receipt_storage_key(id: &Vec<u8>) -> (r: Vec<u8>)
    ensures
        r@ == purpose_tag(StoragePurpose::RequestReceipt) + id@,
{
    derived_storage_key(StoragePurpose::RequestReceipt, id)
}

pub fn response_receipt_storage_key(id: &Vec<u8>) -> (r: Vec<u8>)
    ensures
        r@ == purpose_tag(StoragePurpose::ResponseReceipt) + id@,
{
    derived_storage_key(StoragePurpose::ResponseReceipt, id)
}

/// Keys derived for two different purposes from the same 32-byte
/// identifier differ within their first 32 bytes.
pub proof fn lemma_purposes_disjoint(a: StoragePurpose, b: StoragePurpose, id: Seq<u8>)
    requires
        a != b,
        id.len() == HASH_LEN,
    ensures
        (purpose_tag(a) + id).take(32) != (purpose_tag(b) + id).take(32),
{
    let ka = (purpose_tag(a) + id).take(32);
    let kb = (purpose_tag(b) + id).take(32);
    let request_a = a == StoragePurpose::RequestCommitment || a == StoragePurpose::RequestReceipt;
    let request_b = b == StoragePurpose::RequestCommitment || b == StoragePurpose::RequestReceipt;
    if request_a != request_b {
        assert(ka[2] != kb[2]);
    } else if request_a {
        assert(ka[7] != kb[7]);
    } else {
        assert(ka[8] != kb[8]);
    }
}

/// Tries in different keyspaces never share a node address: neither two
/// child tries with different identifiers, nor a child trie and the
/// parent, whose keyspace is empty.
pub proof fn lemma_keyspaces_disjoint(ks1: Seq<u8>, ks2: Seq<u8>, h1: Seq<u8>, h2: Seq<u8>)
    requires
        ks1 != ks2,
        h1.len() == HASH_LEN,
        h2.len() == HASH_LEN,
    ensures
        address(ks1, h1) != address(ks2, h2),
{
    if ks1.len() == ks2.len() {
        assert(address(ks1, h1).take(ks1.len() as int) =~= ks1);
        assert(address(ks2, h2).take(ks2.len() as int) =~= ks2);
    } else {
        assert(address(ks1, h1).len() != address(ks2, h2).len());
    }
}

/// Writing a child trie's nodes into the store leaves every address of the
/// parent's keyspace as it was.
pub proof fn lemma_child_writes_spare_parent(
    before: Map<Seq<u8>, Seq<u8>>,
    after: Map<Seq<u8>, Seq<u8>>,
    child: Seq<u8>,
    a: Seq<u8>,
)
    requires
        child.len() > 0,
        forall|x: Seq<u8>| !in_keyspace(x, child) ==> #[trigger] lookup(after, x) == lookup(before, x),
        in_keyspace(a, Seq::empty()),
    ensures
        lookup(after, a) == lookup(before, a),
{
    assert(!in_keyspace(a, child));
}

} // verus!
