use child_trie::error::TrieError;
use child_trie::hashing::hash_node;
use child_trie::proof_check::{read_proof_check, StorageProof};
use child_trie::prover::prove_read;
use child_trie::recorder::Recorder;
use child_trie::trie::TrieEngine;

fn trie_of(pairs: &[(&[u8], &[u8])]) -> TrieEngine {
    let mut t = TrieEngine::new();
    for (k, v) in pairs {
        t.insert(&k.to_vec(), &v.to_vec()).unwrap();
    }
    t
}

#[test]
fn get_returns_inserted_values() {
    let t = trie_of(&[(b"a", b"1"), (b"ab", b"2"), (b"b", b"3"), (b"", b"4")]);
    assert_eq!(t.get(&b"a".to_vec()), Some(b"1".to_vec()));
    assert_eq!(t.get(&b"ab".to_vec()), Some(b"2".to_vec()));
    assert_eq!(t.get(&b"b".to_vec()), Some(b"3".to_vec()));
    assert_eq!(t.get(&b"".to_vec()), Some(b"4".to_vec()));
    assert_eq!(t.get(&b"abc".to_vec()), None);
}

#[test]
fn insert_replaces_value() {
    let mut t = trie_of(&[(b"k", b"old")]);
    let before = t.root();
    t.insert(&b"k".to_vec(), &b"new".to_vec()).unwrap();
    assert_eq!(t.get(&b"k".to_vec()), Some(b"new".to_vec()));
    assert_ne!(t.root(), before);
}

#[test]
fn oversized_key_or_value_is_refused() {
    let mut t = TrieEngine::new();
    assert_eq!(t.insert(&vec![1u8; 65], &vec![1]), Err(TrieError::EncodingError));
    assert_eq!(t.insert(&vec![1u8; 64], &vec![1]), Ok(()));
    assert_eq!(t.insert(&vec![2u8], &vec![0u8; 65537]), Err(TrieError::EncodingError));
    assert_eq!(t.insert(&vec![2u8], &vec![0u8; 65536]), Ok(()));
    assert_eq!(t.get(&vec![1u8; 65]), None);
}

#[test]
fn insertion_order_does_not_change_root() {
    let a = trie_of(&[(b"dog", b"1"), (b"doge", b"2"), (b"cat", b"3"), (b"do", b"4")]);
    let b = trie_of(&[(b"do", b"4"), (b"cat", b"3"), (b"doge", b"2"), (b"dog", b"1")]);
    assert_eq!(a.root(), b.root());
    assert_eq!(a.root().len(), 32);
}

#[test]
fn empty_trie_root_is_hash_of_empty_node() {
    let t = TrieEngine::new();
    assert_eq!(t.root(), hash_node(&vec![0u8]));
    assert_ne!(t.root(), vec![0u8]);
    assert_ne!(hash_node(&vec![0u8]), hash_node(&vec![1u8]));
}

#[test]
fn round_trip_and_absence_through_proofs() {
    let pairs: Vec<(Vec<u8>, Vec<u8>)> =
        (0u8..40).map(|i| (vec![i, i.wrapping_mul(7)], vec![i; (i as usize) + 1])).collect();
    let mut t = TrieEngine::new();
    for (k, v) in &pairs {
        t.insert(k, v).unwrap();
    }
    let root = t.root();
    for (k, v) in &pairs {
        assert_eq!(t.get(k), Some(v.clone()));
        let proof = prove_read(&t, &vec![k.clone()]);
        let r = read_proof_check(&root, &proof, &vec![k.clone()]).unwrap();
        assert_eq!(r, vec![(k.clone(), Some(v.clone()))]);
    }
    let missing = vec![200u8, 1];
    let proof = prove_read(&t, &vec![missing.clone()]);
    assert_eq!(read_proof_check(&root, &proof, &vec![missing.clone()]).unwrap(), vec![(missing, None)]);
}

#[test]
fn subset_of_queried_keys_verifies() {
    let t = trie_of(&[(b"alpha", b"1"), (b"beta", b"2"), (b"gamma", b"3"), (b"delta", b"4")]);
    let root = t.root();
    let keys = vec![b"alpha".to_vec(), b"gamma".to_vec(), b"omega".to_vec()];
    let proof = prove_read(&t, &keys);
    let all = read_proof_check(&root, &proof, &keys).unwrap();
    assert_eq!(
        all,
        vec![
            (b"alpha".to_vec(), Some(b"1".to_vec())),
            (b"gamma".to_vec(), Some(b"3".to_vec())),
            (b"omega".to_vec(), None)
        ]
    );
    let one = read_proof_check(&root, &proof, &vec![b"gamma".to_vec()]).unwrap();
    assert_eq!(one, vec![(b"gamma".to_vec(), Some(b"3".to_vec()))]);
    assert_eq!(
        read_proof_check(&root, &proof, &vec![b"beta".to_vec()]),
        Err(TrieError::IncompleteProofError)
    );
}

#[test]
fn empty_proof_is_incomplete() {
    let t = trie_of(&[(b"x", b"1")]);
    let r = read_proof_check(&t.root(), &StorageProof::new(vec![]), &vec![b"x".to_vec()]);
    assert_eq!(r, Err(TrieError::IncompleteProofError));
}

#[test]
fn undecodable_node_is_corrupt() {
    let node = vec![9u8, 9];
    let root = hash_node(&node);
    let r = read_proof_check(&root, &StorageProof::new(vec![node]), &vec![b"x".to_vec()]);
    assert_eq!(r, Err(TrieError::CorruptNodeError));
}

#[test]
fn wrong_root_is_incomplete() {
    let t = trie_of(&[(b"x", b"1")]);
    let proof = prove_read(&t, &vec![b"x".to_vec()]);
    let other = trie_of(&[(b"x", b"2")]).root();
    assert_eq!(
        read_proof_check(&other, &proof, &vec![b"x".to_vec()]),
        Err(TrieError::IncompleteProofError)
    );
}

#[test]
fn shared_prefix_is_carried_by_extensions() {
    let t = trie_of(&[(b"value3", b"a"), (b"value4", b"b")]);
    let nodes = prove_read(&t, &vec![b"value3".to_vec()]).into_nodes();
    let extensions = nodes.iter().filter(|n| n.len() == 34 && n[0] == 3).count();
    // "value" and the high nibble of '3' and '4' are shared: eleven nibbles
    assert_eq!(extensions, 11);
    assert_eq!(nodes.iter().filter(|n| n[0] == 2).count(), 1);
    assert_eq!(nodes.iter().filter(|n| n[0] == 1).count(), 1);
}

#[test]
fn recorded_get_matches_get_and_records_path() {
    let t = trie_of(&[(b"a", b"1"), (b"b", b"2")]);
    let mut rec = Recorder::new();
    assert_eq!(t.get_recorded(&b"a".to_vec(), &mut rec), Some(b"1".to_vec()));
    let proof = StorageProof::new(rec.drain());
    let r = read_proof_check(&t.root(), &proof, &vec![b"a".to_vec()]).unwrap();
    assert_eq!(r, vec![(b"a".to_vec(), Some(b"1".to_vec()))]);
    assert!(rec.drain().is_empty());
}
