use photo_sync_merkle::{hex_digit, hex_encode, Node};

#[test]
fn hash_of_abc_is_the_known_sha256() {
    assert_eq!(
        Node::hash("abc"),
        "ba7816bf8f01cfea414140de5dae2223b00361a396177a9cb410ff61f20015ad"
    );
}

#[test]
fn hash_of_the_empty_text() {
    assert_eq!(
        Node::hash(""),
        "e3b0c44298fc1c149afbf4c8996fb92427ae41e4649b934ca495991b7852b855"
    );
}

#[test]
fn hash_of_a_single_letter() {
    assert_eq!(
        Node::hash("A"),
        "559aead08264d5795d3909718cdd05abd49572e84fe55590eef31a88a08fdffd"
    );
}

#[test]
fn hash_goes_over_the_utf8_bytes() {
    assert_eq!(
        Node::hash("é"),
        "4a99557e4033c3539de2eb65472017cad5f9557f7a0625a09f1c3f6e2ba69c4c"
    );
}

#[test]
fn hash_is_not_its_argument() {
    let digest = Node::hash("AB");
    assert_ne!(digest, "AB");
    assert_eq!(digest.len(), 64);
    assert_eq!(
        digest,
        "38164fbd17603d73f696b8b4d72664d735bb6a7c88577687fd2ae33fd6964153"
    );
}

#[test]
fn hash_is_deterministic() {
    assert_eq!(Node::hash("photo-0001.jpg"), Node::hash("photo-0001.jpg"));
    assert_ne!(Node::hash("photo-0001.jpg"), Node::hash("photo-0002.jpg"));
}

#[test]
fn hex_encode_writes_two_lowercase_digits_per_byte() {
    assert_eq!(hex_encode(&[10, 20, 30]), "0a141e");
    assert_eq!(hex_encode(&[0x00, 0x0f, 0xf0, 0xff, 0x9a]), "000ff0ff9a");
}

#[test]
fn hex_encode_of_nothing_is_empty() {
    assert_eq!(hex_encode(&[]), "");
}

#[test]
fn hex_digit_covers_all_sixteen_values() {
    let mut all = String::new();
    for n in 0u8..16 {
        all.push_str(hex_digit(n));
    }
    assert_eq!(all, "0123456789abcdef");
}
