use grovedb::{Element, Error};

#[test]
fn item_encoding_is_exact_and_round_trips() {
    let e = Element::Item(vec![7u8]);
    let bytes = e.encode();
    assert_eq!(bytes, vec![0u8, 1, 0, 0, 0, 0, 0, 0, 0, 7]);
    let back = Element::decode(&bytes).expect("decoding an encoded item");
    assert_eq!(back, e);
}

#[test]
fn reference_encoding_is_exact_and_round_trips() {
    let e = Element::Reference(b"ab".to_vec());
    let bytes = e.encode();
    assert_eq!(bytes, vec![1u8, 2, 0, 0, 0, 0, 0, 0, 0, b'a', b'b']);
    let back = Element::decode(&bytes).expect("decoding an encoded reference");
    assert_eq!(back, e);
}

#[test]
fn tree_encoding_is_exact_and_round_trips() {
    let e = Element::empty_tree();
    let bytes = e.encode();
    let mut expected = vec![2u8];
    expected.extend(std::iter::repeat(0u8).take(32));
    assert_eq!(bytes, expected);
    let back = Element::decode(&bytes).expect("decoding an encoded tree");
    assert_eq!(back, e);
}

#[test]
fn decode_rejects_unknown_tag() {
    let r = Element::decode(&vec![9u8, 0, 0]);
    assert!(matches!(r, Err(Error::CorruptedData(_))));
}

#[test]
fn decode_rejects_truncated_body() {
    let r = Element::decode(&vec![0u8, 5, 0, 0]);
    assert!(matches!(r, Err(Error::CorruptedData(_))));
}

#[test]
fn decode_rejects_trailing_bytes() {
    let mut bytes = Element::Item(vec![7u8]).encode();
    bytes.push(0u8);
    let r = Element::decode(&bytes);
    assert!(matches!(r, Err(Error::CorruptedData(_))));
}

#[test]
fn decode_rejects_short_tree_body() {
    let r = Element::decode(&vec![2u8, 1, 2, 3]);
    assert!(matches!(r, Err(Error::CorruptedData(_))));
}

#[test]
fn build_merk_key_concatenates_segments() {
    let key = Element::build_merk_key(
        &vec![b"ab".to_vec(), b"cd".to_vec()],
        &b"k".to_vec(),
    );
    assert_eq!(key, b"abcdk".to_vec());
}
