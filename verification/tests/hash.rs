use solidate::hash::Merkle;

type Digest = solidate::hash::Hash;

#[test]
fn hex_round_trip() {
    let h = Digest::of_str("hello");
    assert_eq!(Digest::parse(&h.to_hex()).unwrap(), h);
    assert_eq!(h.short().len(), 12);
    assert!(Digest::parse("nope").is_err());
}

#[test]
fn merkle_is_order_independent_and_sensitive_to_content() {
    let mut a = Merkle::new();
    a.insert("a".to_owned(), Digest::of_str("1"));
    a.insert("b".to_owned(), Digest::of_str("2"));
    let mut b = Merkle::new();
    b.insert("b".to_owned(), Digest::of_str("2"));
    b.insert("a".to_owned(), Digest::of_str("1"));
    let mut c = Merkle::new();
    c.insert("a".to_owned(), Digest::of_str("1"));
    c.insert("b".to_owned(), Digest::of_str("3"));
    assert_eq!(a.finish(), b.finish());
    assert_ne!(a.finish(), c.finish());
}

#[test]
fn hashes_match_blake3() {
    // The BLAKE3 digest of the empty input.
    assert_eq!(
        Digest::of(&[]).to_hex(),
        "af1349b9f5f9a1a6a0404dea36dcc9499bcb25c9adc112b7cc9a93cae41f3262"
    );
    assert_eq!(Digest::of_str("hello"), Digest::of("hello".as_bytes()));
    assert_ne!(Digest::of_str("hello"), Digest::of_str("hello "));
    let h = Digest::of_str("x");
    assert_eq!(Digest::from_bytes(*h.as_bytes()), h);
    assert_eq!(h.short(), h.to_hex()[..12].to_owned());
    assert_eq!(Digest::parse(&h.to_hex().to_uppercase()).unwrap(), h);
    assert!(Digest::parse(&h.to_hex()[..63]).is_err());
    assert_eq!(Digest::parse("zz").unwrap_err().to_string(), "invalid hash: expected 64 hex characters");
}

#[test]
fn merkle_insert_replaces_and_empty_key_counts() {
    let mut a = Merkle::new();
    a.insert("k".to_owned(), Digest::of_str("1"));
    a.insert("k".to_owned(), Digest::of_str("2"));
    let mut b = Merkle::new();
    b.insert("k".to_owned(), Digest::of_str("2"));
    assert_eq!(a.finish(), b.finish());
    let mut c = Merkle::new();
    c.insert(String::new(), Digest::of_str("2"));
    assert_ne!(b.finish(), c.finish());
    assert_ne!(Merkle::new().finish(), b.finish());
}
