use grovedb::{Element, Error, GroveDb, LeafTree, ProofQuery, Query};

fn fresh() -> GroveDb {
    GroveDb::open(None, None, &vec![]).expect("opening a fresh store")
}

fn p(segs: &[&[u8]]) -> Vec<Vec<u8>> {
    segs.iter().map(|s| s.to_vec()).collect()
}

#[test]
fn empty_database_has_defined_root_and_rejects_root_gets() {
    let db = fresh();
    let other = fresh();
    let root = db.root_hash();
    assert_eq!(root.len(), 32);
    assert_eq!(root, other.root_hash());
    assert_eq!(root, vec![0u8; 32]);
    let r = db.get(&p(&[]), &b"k".to_vec());
    assert!(matches!(r, Err(Error::InvalidPath(_))));
}

#[test]
fn only_subtrees_are_allowed_at_the_root_level() {
    let mut db = fresh();
    let r = db.insert(&p(&[]), b"k".to_vec(), Element::Item(b"v".to_vec()));
    assert!(matches!(r, Err(Error::InvalidPath(_))));
}

#[test]
fn insert_into_missing_subtree_is_an_invalid_path() {
    let mut db = fresh();
    let r = db.insert(&p(&[b"nope"]), b"k".to_vec(), Element::Item(b"v".to_vec()));
    assert!(matches!(r, Err(Error::InvalidPath(_))));
}

#[test]
fn single_top_subtree_and_item() {
    let mut db = fresh();
    let empty_root = db.root_hash();
    db.insert(&p(&[]), b"t".to_vec(), Element::empty_tree())
        .expect("inserting a top subtree");
    db.insert(&p(&[b"t"]), b"k".to_vec(), Element::Item(b"v".to_vec()))
        .expect("inserting an item");
    assert_eq!(
        db.get(&p(&[b"t"]), &b"k".to_vec()).expect("getting the item"),
        Element::Item(b"v".to_vec())
    );
    assert_ne!(db.root_hash(), empty_root);
}

#[test]
fn nested_subtrees_propagate_inner_roots() {
    let mut db = fresh();
    db.insert(&p(&[]), b"a".to_vec(), Element::empty_tree())
        .expect("inserting a top subtree");
    db.insert(&p(&[b"a"]), b"b".to_vec(), Element::empty_tree())
        .expect("inserting a nested subtree");
    db.insert(&p(&[b"a", b"b"]), b"k".to_vec(), Element::Item(b"x".to_vec()))
        .expect("inserting an item");
    assert_eq!(
        db.get(&p(&[b"a", b"b"]), &b"k".to_vec()).expect("getting the item"),
        Element::Item(b"x".to_vec())
    );
    // The tree marker stored at (["a"], "b") carries the current root of the
    // inner leaf tree: recompute that root from an equal standalone tree.
    let marker = db.get_raw(&p(&[b"a"]), &b"b".to_vec()).expect("getting the marker");
    let mut standalone = LeafTree::new();
    Element::Item(b"x".to_vec())
        .insert(&mut standalone, &vec![], &b"k".to_vec())
        .expect("building the standalone twin");
    match marker {
        Element::Tree(h) => assert_eq!(h, standalone.root_hash()),
        other => panic!("expected a tree marker, got {:?}", other),
    }
}

#[test]
fn references_are_followed_within_one_leaf_tree() {
    let mut db = fresh();
    db.insert(&p(&[]), b"t".to_vec(), Element::empty_tree())
        .expect("inserting a top subtree");
    db.insert(&p(&[b"t"]), b"k1".to_vec(), Element::Item(b"v".to_vec()))
        .expect("inserting an item");
    db.insert(&p(&[b"t"]), b"k2".to_vec(), Element::Reference(b"k1".to_vec()))
        .expect("inserting a reference");
    db.insert(&p(&[b"t"]), b"k3".to_vec(), Element::Reference(b"k2".to_vec()))
        .expect("inserting a second reference");
    assert_eq!(
        db.get(&p(&[b"t"]), &b"k3".to_vec()).expect("following the chain"),
        Element::Item(b"v".to_vec())
    );
}

#[test]
fn cyclic_references_are_detected() {
    let mut db = fresh();
    db.insert(&p(&[]), b"t".to_vec(), Element::empty_tree())
        .expect("inserting a top subtree");
    db.insert(&p(&[b"t"]), b"r1".to_vec(), Element::Reference(b"r2".to_vec()))
        .expect("inserting a reference");
    db.insert(&p(&[b"t"]), b"r2".to_vec(), Element::Reference(b"r1".to_vec()))
        .expect("inserting the back reference");
    let r = db.get(&p(&[b"t"]), &b"r1".to_vec());
    assert!(matches!(r, Err(Error::CyclicReference)));
    let r2 = db.get(&p(&[b"t"]), &b"r2".to_vec());
    assert!(matches!(r2, Err(Error::CyclicReference)));
}

#[test]
fn reference_chains_hit_the_hop_limit() {
    let mut db = fresh();
    db.insert(&p(&[]), b"t".to_vec(), Element::empty_tree())
        .expect("inserting a top subtree");
    db.insert(&p(&[b"t"]), b"k0".to_vec(), Element::Item(b"v".to_vec()))
        .expect("inserting the chain's end");
    for i in 1..12u8 {
        let cur = format!("k{}", i).into_bytes();
        let prev = format!("k{}", i - 1).into_bytes();
        db.insert(&p(&[b"t"]), cur, Element::Reference(prev))
            .expect("inserting a chain link");
    }
    // Ten hops away resolves; eleven exceeds the limit.
    assert_eq!(
        db.get(&p(&[b"t"]), &b"k10".to_vec()).expect("resolving at the limit"),
        Element::Item(b"v".to_vec())
    );
    let r = db.get(&p(&[b"t"]), &b"k11".to_vec());
    assert!(matches!(r, Err(Error::ReferenceLimit)));
}

#[test]
fn insert_if_not_exists_reports_prior_presence() {
    let mut db = fresh();
    assert!(db
        .insert_if_not_exists(&p(&[]), b"t".to_vec(), Element::empty_tree())
        .expect("first insertion"));
    assert!(db
        .insert_if_not_exists(&p(&[b"t"]), b"k".to_vec(), Element::Item(b"v".to_vec()))
        .expect("second insertion"));
    assert!(!db
        .insert_if_not_exists(&p(&[b"t"]), b"k".to_vec(), Element::Item(b"w".to_vec()))
        .expect("repeated insertion"));
    assert_eq!(
        db.get(&p(&[b"t"]), &b"k".to_vec()).expect("value untouched"),
        Element::Item(b"v".to_vec())
    );
}

#[test]
fn persisted_topology_survives_reopen() {
    let mut db = fresh();
    db.insert(&p(&[]), b"a".to_vec(), Element::empty_tree()).expect("insert a");
    db.insert(&p(&[]), b"b".to_vec(), Element::empty_tree()).expect("insert b");
    db.insert(&p(&[b"a"]), b"k".to_vec(), Element::Item(b"x".to_vec())).expect("insert item");
    let (subtrees_blob, root_leafs_blob) =
        db.store_subtrees_keys_data().expect("serializing meta");
    let stored = db.dump_subtrees();
    let db2 = GroveDb::open(Some(&subtrees_blob), Some(&root_leafs_blob), &stored)
        .expect("reopening the store");
    assert_eq!(db2.root_hash(), db.root_hash());
    assert_eq!(
        db2.get(&p(&[b"a"]), &b"k".to_vec()).expect("reading after reopen"),
        Element::Item(b"x".to_vec())
    );
}

#[test]
fn checkpoint_preserves_entries_and_root_hash() {
    let mut db = fresh();
    db.insert(&p(&[]), b"t".to_vec(), Element::empty_tree()).expect("insert tree");
    db.insert(&p(&[b"t"]), b"k".to_vec(), Element::Item(b"v".to_vec())).expect("insert item");
    let db2 = db.checkpoint().expect("checkpointing");
    assert_eq!(db2.root_hash(), db.root_hash());
    assert_eq!(
        db2.get(&p(&[b"t"]), &b"k".to_vec()).expect("reading the checkpoint"),
        Element::Item(b"v".to_vec())
    );
}

#[test]
fn corrupted_meta_blob_is_rejected() {
    let r = GroveDb::open(Some(&vec![255u8, 1, 2]), None, &vec![]);
    assert!(matches!(r, Err(Error::CorruptedData(_))));
}

#[test]
fn root_hash_changes_with_content() {
    let mut db = fresh();
    db.insert(&p(&[]), b"t".to_vec(), Element::empty_tree()).expect("insert tree");
    let r1 = db.root_hash();
    db.insert(&p(&[b"t"]), b"k".to_vec(), Element::Item(b"v".to_vec())).expect("insert item");
    let r2 = db.root_hash();
    db.insert(&p(&[b"t"]), b"k".to_vec(), Element::Item(b"w".to_vec())).expect("overwrite item");
    let r3 = db.root_hash();
    assert_ne!(r1, r2);
    assert_ne!(r2, r3);
    assert_ne!(r1, r3);
}

fn single_path_proof(db: &GroveDb, proof: &grovedb::Proof, seg: &[u8]) -> Vec<Vec<u8>> {
    let (_, root_leafs_blob) = db.store_subtrees_keys_data().expect("serializing meta");
    let leaf = proof.proof_for(&p(&[seg])).expect("a proof for the path");
    vec![leaf, proof.root_proof_bytes(), root_leafs_blob]
}

#[test]
fn multi_path_proof_verifies_both_items() {
    let mut db = fresh();
    db.insert(&p(&[]), b"a".to_vec(), Element::empty_tree()).expect("insert a");
    db.insert(&p(&[]), b"b".to_vec(), Element::empty_tree()).expect("insert b");
    db.insert(&p(&[b"a"]), b"ka".to_vec(), Element::Item(b"va".to_vec())).expect("item a");
    db.insert(&p(&[b"b"]), b"kb".to_vec(), Element::Item(b"vb".to_vec())).expect("item b");

    let mut qa = Query::new();
    qa.insert_key(b"ka".to_vec());
    let mut qb = Query::new();
    qb.insert_key(b"kb".to_vec());
    let proof = db
        .prove(vec![
            ProofQuery { path: p(&[b"a"]), query: qa },
            ProofQuery { path: p(&[b"b"]), query: qb },
        ])
        .expect("planning the combined proof");

    let expected_root = db.root_hash();
    let (_, root_leafs_blob) = db.store_subtrees_keys_data().expect("serializing meta");
    let (root, result_maps) = proof.execute(&root_leafs_blob).expect("executing the proof");
    assert_eq!(root, expected_root);
    assert_eq!(result_maps.len(), 2);
    for (i, (seg, key, value)) in [
        (&b"a"[..], &b"ka"[..], &b"va"[..]),
        (&b"b"[..], &b"kb"[..], &b"vb"[..]),
    ]
    .iter()
    .enumerate()
    {
        let raw = result_maps[i].get(&key.to_vec()).expect("the queried key is disclosed");
        let element = Element::decode(&raw).expect("decoding the disclosed element");
        assert_eq!(element, Element::Item(value.to_vec()));
        assert_eq!(&element, &db.get(&p(&[seg]), &key.to_vec()).expect("a fresh get"));
    }
}

#[test]
fn single_path_proofs_verify_against_the_root() {
    let mut db = fresh();
    db.insert(&p(&[]), b"a".to_vec(), Element::empty_tree()).expect("insert a");
    db.insert(&p(&[]), b"b".to_vec(), Element::empty_tree()).expect("insert b");
    db.insert(&p(&[b"a"]), b"ka".to_vec(), Element::Item(b"va".to_vec())).expect("item a");
    db.insert(&p(&[b"b"]), b"kb".to_vec(), Element::Item(b"vb".to_vec())).expect("item b");
    let expected_root = db.root_hash();
    for (seg, key, value) in [
        (&b"a"[..], &b"ka"[..], &b"va"[..]),
        (&b"b"[..], &b"kb"[..], &b"vb"[..]),
    ] {
        let mut q = Query::new();
        q.insert_key(key.to_vec());
        let proof = db
            .prove(vec![ProofQuery { path: p(&[seg]), query: q }])
            .expect("planning a single-path proof");
        let proofs = single_path_proof(&db, &proof, seg);
        let (root, result_map) =
            GroveDb::execute_proof(&p(&[seg]), &proofs).expect("executing the proof");
        assert_eq!(root, expected_root);
        let raw = result_map.get(&key.to_vec()).expect("the queried key is disclosed");
        let element = Element::decode(&raw).expect("decoding the disclosed element");
        assert_eq!(element, Element::Item(value.to_vec()));
    }
}

#[test]
fn nested_path_proof_verifies_through_intermediate_levels() {
    let mut db = fresh();
    db.insert(&p(&[]), b"a".to_vec(), Element::empty_tree()).expect("insert a");
    db.insert(&p(&[b"a"]), b"b".to_vec(), Element::empty_tree()).expect("insert b");
    db.insert(&p(&[b"a", b"b"]), b"k".to_vec(), Element::Item(b"x".to_vec())).expect("item");

    let mut q = Query::new();
    q.insert_key(b"k".to_vec());
    let proof = db
        .prove(vec![ProofQuery { path: p(&[b"a", b"b"]), query: q }])
        .expect("planning the proof");
    let (_, root_leafs_blob) = db.store_subtrees_keys_data().expect("serializing meta");
    let proofs = vec![
        proof.proof_for(&p(&[b"a", b"b"])).expect("leaf proof"),
        proof.proof_for(&p(&[b"a"])).expect("intermediate proof"),
        proof.root_proof_bytes(),
        root_leafs_blob,
    ];
    let (root, result_map) =
        GroveDb::execute_proof(&p(&[b"a", b"b"]), &proofs).expect("executing the proof");
    assert_eq!(root, db.root_hash());
    let raw = result_map.get(&b"k".to_vec()).expect("the queried key is disclosed");
    assert_eq!(
        Element::decode(&raw).expect("decoding"),
        Element::Item(b"x".to_vec())
    );
}

#[test]
fn assembled_single_path_proofs_execute_to_the_root() {
    let mut db = fresh();
    db.insert(&p(&[]), b"a".to_vec(), Element::empty_tree()).expect("insert a");
    db.insert(&p(&[b"a"]), b"b".to_vec(), Element::empty_tree()).expect("insert b");
    db.insert(&p(&[b"a", b"b"]), b"k".to_vec(), Element::Item(b"x".to_vec())).expect("item");
    let proofs = db.prove_path(&p(&[b"a", b"b"])).expect("assembling the proof sequence");
    let (root, result_map) =
        GroveDb::execute_proof(&p(&[b"a", b"b"]), &proofs).expect("executing the proof");
    assert_eq!(root, db.root_hash());
    let raw = result_map.get(&b"k".to_vec()).expect("the key is disclosed");
    assert_eq!(
        Element::decode(&raw).expect("decoding"),
        Element::Item(b"x".to_vec())
    );
}

#[test]
fn proof_for_missing_path_is_an_invalid_path() {
    let mut db = fresh();
    db.insert(&p(&[]), b"a".to_vec(), Element::empty_tree()).expect("insert a");
    let r = db.prove(vec![ProofQuery { path: p(&[b"nope"]), query: Query::new() }]);
    assert!(matches!(r, Err(Error::InvalidPath(_))));
}

#[test]
fn execute_proof_rejects_bad_arity() {
    let r = GroveDb::execute_proof(&p(&[b"a"]), &vec![vec![0u8]]);
    assert!(matches!(r, Err(Error::InvalidProof(_))));
    let r2 = GroveDb::execute_proof(&p(&[b"a"]), &vec![vec![0u8], vec![0u8], vec![0u8], vec![0u8]]);
    assert!(matches!(r2, Err(Error::InvalidProof(_))));
}

#[test]
fn mutated_proof_components_never_verify_to_the_same_root() {
    let mut db = fresh();
    db.insert(&p(&[]), b"a".to_vec(), Element::empty_tree()).expect("insert a");
    db.insert(&p(&[b"a"]), b"ka".to_vec(), Element::Item(b"va".to_vec())).expect("item a");
    let mut q = Query::new();
    q.insert_key(b"ka".to_vec());
    let proof = db
        .prove(vec![ProofQuery { path: p(&[b"a"]), query: q }])
        .expect("planning the proof");
    let expected_root = db.root_hash();
    let good = single_path_proof(&db, &proof, b"a");
    let (root, _) = GroveDb::execute_proof(&p(&[b"a"]), &good).expect("the intact proof verifies");
    assert_eq!(root, expected_root);

    for component in 0..good.len() {
        for byte in 0..good[component].len() {
            let mut mutated = good.clone();
            mutated[component][byte] ^= 0x01;
            match GroveDb::execute_proof(&p(&[b"a"]), &mutated) {
                Err(Error::InvalidProof(_)) | Err(Error::CorruptedData(_)) => {},
                Err(other) => panic!("unexpected error kind: {:?}", other),
                Ok((root, _)) => assert_ne!(root, expected_root),
            }
        }
    }
}

#[test]
fn empty_keys_and_segments_are_permitted() {
    let mut db = fresh();
    db.insert(&p(&[]), b"".to_vec(), Element::empty_tree()).expect("empty top key");
    db.insert(&p(&[b""]), b"k".to_vec(), Element::Item(b"v".to_vec()))
        .expect("item under the empty segment");
    assert_eq!(
        db.get(&p(&[b""]), &b"k".to_vec()).expect("reading it back"),
        Element::Item(b"v".to_vec())
    );
    assert_ne!(db.root_hash(), vec![0u8; 32]);
}

#[test]
fn query_keys_are_kept_in_order() {
    let mut q = Query::new();
    assert_eq!(q.len(), 0);
    q.insert_key(b"b".to_vec());
    q.insert_key(b"a".to_vec());
    assert_eq!(q.len(), 2);
    assert_eq!(q.key_at(0), b"b".to_vec());
    assert_eq!(q.key_at(1), b"a".to_vec());
}

#[test]
fn leaf_tree_roots_are_deterministic_and_content_sensitive() {
    let mut a = LeafTree::new();
    let mut b = LeafTree::new();
    a.apply(&b"k".to_vec(), &b"v".to_vec());
    b.apply(&b"k".to_vec(), &b"v".to_vec());
    assert_eq!(a.root_hash(), b.root_hash());
    assert_ne!(a.root_hash(), vec![0u8; 32]);
    let mut c = LeafTree::new();
    c.apply(&b"k".to_vec(), &b"w".to_vec());
    assert_ne!(a.root_hash(), c.root_hash());
}

#[test]
fn leaf_proofs_round_trip_through_execution() {
    let mut lt = LeafTree::new();
    lt.apply(&b"k1".to_vec(), &b"v1".to_vec());
    lt.apply(&b"k2".to_vec(), &b"v2".to_vec());
    let bytes = lt.prove();
    let (root, back) = grovedb::execute_leaf_proof(&bytes).expect("executing the leaf proof");
    assert_eq!(root, lt.root_hash());
    assert_eq!(back.get(&b"k1".to_vec()), Some(b"v1".to_vec()));
    assert_eq!(back.get(&b"k2".to_vec()), Some(b"v2".to_vec()));
    assert_eq!(back.get(&b"k3".to_vec()), None);
}
