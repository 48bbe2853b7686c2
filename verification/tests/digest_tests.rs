use ast_indexer::digest::{calculate_hash, content_hash, meta_hash};

#[test]
fn hash_of_known_inputs() {
    assert_eq!(
        calculate_hash(b"abc"),
        "ba7816bf8f01cfea414140de5dae2223b00361a396177a9cb410ff61f20015ad"
    );
    assert_eq!(
        calculate_hash(b""),
        "e3b0c44298fc1c149afbf4c8996fb92427ae41e4649b934ca495991b7852b855"
    );
}

#[test]
fn content_hash_is_the_hash_of_the_utf8_bytes() {
    assert_eq!(content_hash("abc"), calculate_hash(b"abc"));
    assert_eq!(content_hash("héllo"), calculate_hash("héllo".as_bytes()));
    assert_ne!(content_hash("abc"), content_hash("abd"));
}

#[test]
fn hash_is_sixty_four_lower_case_hex_digits() {
    let h = content_hash("def foo(): bar()\n");
    assert_eq!(h.len(), 64);
    assert!(h.chars().all(|c| c.is_ascii_digit() || ('a'..='f').contains(&c)));
    assert_ne!(h, "def foo(): bar()\n");
}

#[test]
fn meta_sentinel_holds_size_and_mtime() {
    assert_eq!(meta_hash(12, 1700000000), "meta:12:1700000000");
    assert_eq!(meta_hash(0, 0), "meta:0:0");
    assert_eq!(meta_hash(5, -3), "meta:5:-3");
}

#[test]
fn sentinel_is_never_a_content_hash() {
    let sentinel = meta_hash(3, 4);
    assert!(sentinel.starts_with('m'));
    assert!(!content_hash("abc").starts_with('m'));
    assert_ne!(sentinel, content_hash("abc"));
}
