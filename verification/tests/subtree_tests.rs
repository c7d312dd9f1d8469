use grovedb::{Element, LeafTree};

#[test]
fn test_success_insert() {
    let mut merk = LeafTree::new();
    Element::empty_tree()
        .insert(&mut merk, &vec![], &b"mykey".to_vec())
        .expect("expected successful insertion");
    Element::Item(b"value".to_vec())
        .insert(&mut merk, &vec![b"mykey".to_vec()], &b"another-key".to_vec())
        .expect("expected successful insertion 2");

    assert_eq!(
        Element::get(&merk, &vec![b"mykey".to_vec()], &b"another-key".to_vec())
            .expect("expected successful get"),
        Element::Item(b"value".to_vec()),
    );
}

#[test]
fn test_follow_references() {
    let mut merk = LeafTree::new();
    Element::empty_tree()
        .insert(&mut merk, &vec![], &b"mykey".to_vec())
        .expect("expected successful insertion");
    Element::Item(b"value".to_vec())
        .insert(&mut merk, &vec![b"mykey".to_vec()], &b"another-key".to_vec())
        .expect("expected successful insertion 2");
    Element::new_reference(&vec![b"mykey".to_vec()], &b"another-key".to_vec())
        .insert(&mut merk, &vec![b"mykey".to_vec()], &b"reference".to_vec())
        .expect("expected successful reference insertion");
    Element::new_reference(&vec![b"mykey".to_vec()], &b"reference".to_vec())
        .insert(&mut merk, &vec![b"mykey".to_vec()], &b"another-reference".to_vec())
        .expect("expected successful reference insertion 2");

    assert_eq!(
        Element::get(&merk, &vec![b"mykey".to_vec()], &b"another-reference".to_vec())
            .expect("expected successful get"),
        Element::Item(b"value".to_vec()),
    );
}

#[test]
fn test_circular_references() {
    let mut merk = LeafTree::new();
    Element::empty_tree()
        .insert(&mut merk, &vec![], &b"tree-key".to_vec())
        .expect("expected successful insertion");

    // r1 points to r2 and r2 points to r1 (cycle!)
    Element::new_reference(&vec![b"tree-key".to_vec()], &b"reference-2".to_vec())
        .insert(&mut merk, &vec![b"tree-key".to_vec()], &b"reference-1".to_vec())
        .expect("expected successful reference insertion");
    Element::new_reference(&vec![b"tree-key".to_vec()], &b"reference-1".to_vec())
        .insert(&mut merk, &vec![b"tree-key".to_vec()], &b"reference-2".to_vec())
        .expect("expected successful reference insertion");

    assert!(Element::get(&merk, &vec![b"tree-key".to_vec()], &b"reference-1".to_vec()).is_err());
}
