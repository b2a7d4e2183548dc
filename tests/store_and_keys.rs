use child_trie::child::{
    child_root, derived_storage_key, request_commitment_storage_key, response_commitment_storage_key,
    ChildInfo, StoragePurpose,
};
use child_trie::error::TrieError;
use child_trie::recorder::Recorder;
use child_trie::store::NodeStore;
use child_trie::trie::TrieEngine;
use child_trie::weights::{RuntimeDbWeight, Weight, WeightInfo};

#[test]
fn empty_child_id_is_refused() {
    assert!(matches!(ChildInfo::new_default(&vec![]), Err(TrieError::KeyspaceCollisionError)));
    let c = ChildInfo::new_default(&b"sub1".to_vec()).unwrap();
    assert_eq!(c.keyspace(), b"sub1".to_vec());
    assert_eq!(c.storage_key(), b"sub1".to_vec());
    assert_eq!(c.prefixed_storage_key(), b":child_storage:default:sub1".to_vec());
}

#[test]
fn child_and_parent_nodes_live_apart() {
    let mut child = TrieEngine::new();
    child.insert(&b"a".to_vec(), &b"1".to_vec()).unwrap();
    let mut parent = TrieEngine::new();
    parent.insert(&b"a".to_vec(), &b"1".to_vec()).unwrap();
    let info = ChildInfo::new_default(&b"sub1".to_vec()).unwrap();
    let other = ChildInfo::new_default(&b"sub2".to_vec()).unwrap();

    let mut store = NodeStore::new();
    let parent_root = store.commit(&parent, &vec![]);
    let parent_node = store.get(&vec![], &parent_root);
    assert!(parent_node.is_some());

    let child_root = store.commit(&child, &info.keyspace());
    assert_eq!(child_root, parent_root);
    assert_eq!(store.get(&vec![], &parent_root), parent_node);
    assert_eq!(store.get(&info.keyspace(), &child_root), parent_node);
    assert_eq!(store.get(&other.keyspace(), &child_root), None);
}

#[test]
fn store_insert_addresses_by_keyspace_and_hash() {
    let mut store = NodeStore::new();
    let a = store.insert(&b"ks".to_vec(), vec![0u8]);
    assert_eq!(a.len(), 34);
    assert_eq!(&a[0..2], b"ks");
    assert_eq!(store.get(&b"ks".to_vec(), &a[2..].to_vec()), Some(vec![0u8]));
    assert_eq!(store.get(&vec![], &a[2..].to_vec()), None);
}

#[test]
fn purposes_have_disjoint_prefixes() {
    let id = vec![7u8; 32];
    let purposes = [
        StoragePurpose::RequestCommitment,
        StoragePurpose::ResponseCommitment,
        StoragePurpose::RequestReceipt,
        StoragePurpose::ResponseReceipt,
    ];
    for a in purposes {
        for b in purposes {
            let ka = derived_storage_key(a, &id);
            let kb = derived_storage_key(b, &id);
            assert_eq!(a == b, ka[0..32] == kb[0..32]);
        }
    }
    let k = request_commitment_storage_key(&id);
    assert_eq!(&k[0..18], b"RequestCommitments");
    assert_eq!(&k[18..], &id[..]);
    assert_eq!(&response_commitment_storage_key(&id)[0..19], b"ResponseCommitments");
}

#[test]
fn recorder_drains_once() {
    let mut rec = Recorder::new();
    rec.record(vec![1, 2]);
    rec.record(vec![3]);
    rec.record(vec![1, 2]);
    assert_eq!(rec.drain(), vec![vec![1, 2], vec![3]]);
    assert_eq!(rec.drain(), Vec::<Vec<u8>>::new());
}

#[test]
fn session_weights() {
    let db = RuntimeDbWeight { read: 25_000_000, write: 100_000_000 };
    assert_eq!(
        WeightInfo::set_keys(db),
        Weight { ref_time: 274_827_000, proof_size: 3800 }
    );
    assert_eq!(
        WeightInfo::purge_keys(db),
        Weight { ref_time: 242_663_000, proof_size: 3782 }
    );
    let huge = RuntimeDbWeight { read: u64::MAX, write: 1 };
    assert_eq!(WeightInfo::set_keys(huge).ref_time, u64::MAX);
    assert_eq!(Weight::from_parts(u64::MAX, 1).saturating_add(Weight::from_parts(1, 1)),
        Weight { ref_time: u64::MAX, proof_size: 2 });
}

#[test]
fn child_root_applies_pending_writes_without_touching_child() {
    let mut child = TrieEngine::new();
    child.insert(&b"value3".to_vec(), &vec![142; 33]).unwrap();
    let before = child.root();
    let pending = vec![(b"value4".to_vec(), vec![124u8; 33])];
    let r = child_root(&child, &pending).unwrap();
    assert_eq!(child.root(), before);
    assert_eq!(child.get(&b"value4".to_vec()), None);
    child.insert(&b"value4".to_vec(), &vec![124; 33]).unwrap();
    assert_eq!(child.root(), r);
    assert_eq!(child_root(&child, &vec![]).unwrap(), r);
    let bad = vec![(b"ok".to_vec(), vec![1u8]), (vec![0u8; 65], vec![1u8])];
    assert_eq!(child_root(&child, &bad), Err(TrieError::EncodingError));
}
