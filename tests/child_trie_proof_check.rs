use child_trie::child::{
    commit_child, request_receipt_storage_key, response_receipt_storage_key, ChildInfo,
};
use child_trie::proof_check::{read_proof_check, StorageProof};
use child_trie::prover::prove_read;
use child_trie::trie::TrieEngine;

const CHILD_KEY_1: &[u8] = b"sub1";

fn insert(trie: &mut TrieEngine, k: &[u8], v: &[u8]) {
    trie.insert(&k.to_vec(), &v.to_vec()).expect("insert failed");
}

fn test_db() -> (TrieEngine, TrieEngine) {
    let child_info = ChildInfo::new_default(&CHILD_KEY_1.to_vec()).unwrap();
    let mut child = TrieEngine::new();
    insert(&mut child, b"value3", &[142; 33]);
    insert(&mut child, b"value4", &[124; 33]);
    let sub_root = child.root();

    let mut parent = TrieEngine::new();
    commit_child(&mut parent, &child_info, &sub_root).expect("insert failed");
    insert(&mut parent, b"key", b"value");
    insert(&mut parent, b"value1", &[42]);
    insert(&mut parent, b"value2", &[24]);
    insert(&mut parent, b":code", b"return 42");
    for i in 128u8..255u8 {
        insert(&mut parent, &[i], &[i]);
    }
    (child, parent)
}

// A proof recorded on the child trie verifies directly against the child
// trie's root.
#[test]
fn prove_child_read_proof_works_with_child_trie_root() {
    let (child, parent) = test_db();
    let child_root = child.root();
    let child_info = ChildInfo::new_default(&CHILD_KEY_1.to_vec()).unwrap();
    assert_eq!(parent.get(&child_info.prefixed_storage_key()), Some(child_root.clone()));

    let storage_proof = prove_read(&child, &vec![b"value3".to_vec()]);
    assert!(!storage_proof.into_nodes().is_empty());

    let storage_proof = prove_read(&child, &vec![b"value3".to_vec(), b"value2".to_vec()]);
    let local_result1 =
        read_proof_check(&child_root, &storage_proof, &vec![b"value3".to_vec()]).unwrap();
    let local_result2 =
        read_proof_check(&child_root, &storage_proof, &vec![b"value2".to_vec()]).unwrap();

    assert_eq!(local_result1, vec![(b"value3".to_vec(), Some(vec![142; 33]))]);
    assert_eq!(local_result2, vec![(b"value2".to_vec(), None)]);
}

#[test]
fn child_trie_storage_key_prefix() {
    let id = vec![0u8; 32];
    let request_receipt_storage_prefix = request_receipt_storage_key(&id)[0..32].to_vec();
    let response_receipt_storage_prefix = response_receipt_storage_key(&id)[0..32].to_vec();
    assert_ne!(request_receipt_storage_prefix, response_receipt_storage_prefix);
}

#[test]
fn parent_proof_does_not_answer_for_child_keys() {
    let (child, parent) = test_db();
    let parent_root = parent.root();
    let proof = prove_read(&parent, &vec![b"value3".to_vec(), b"value1".to_vec()]);
    let r = read_proof_check(
        &parent_root,
        &proof,
        &vec![b"value3".to_vec(), b"value1".to_vec()],
    )
    .unwrap();
    assert_eq!(r, vec![(b"value3".to_vec(), None), (b"value1".to_vec(), Some(vec![42]))]);
    assert_ne!(parent_root, child.root());
}

#[test]
fn unrecorded_sibling_is_incomplete() {
    let (child, _) = test_db();
    let root = child.root();
    let proof = prove_read(&child, &vec![b"value3".to_vec()]);
    let r = read_proof_check(&root, &proof, &vec![b"value4".to_vec()]);
    assert_eq!(r, Err(child_trie::error::TrieError::IncompleteProofError));
}

#[test]
fn proof_nodes_are_deduplicated() {
    let (child, _) = test_db();
    let one = prove_read(&child, &vec![b"value3".to_vec()]).into_nodes();
    let twice = prove_read(&child, &vec![b"value3".to_vec(), b"value3".to_vec()]).into_nodes();
    assert_eq!(one, twice);
    let proof = StorageProof::new(twice);
    let r = read_proof_check(&child.root(), &proof, &vec![b"value3".to_vec()]).unwrap();
    assert_eq!(r, vec![(b"value3".to_vec(), Some(vec![142; 33]))]);
}
