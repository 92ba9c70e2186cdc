use oxicache::cache::key::{same_bytes, Key};

#[test]
fn inline_and_heap_agree() {
    assert_eq!(std::mem::size_of::<Key>(), 32);
    let short = Key::new(b"abc");
    let long = Key::new(&[7u8; 100]);
    assert!(matches!(short, Key::Inline(3, _)));
    assert!(matches!(long, Key::Heap(_)));
    assert_eq!(short.as_slice(), b"abc");
    assert_eq!(long.as_slice(), &[7u8; 100][..]);
    assert_eq!(Key::new(b"abc"), short);
}

#[test]
fn keys_switch_to_the_heap_at_thirty_one_bytes() {
    for n in 0..64 {
        let k = vec![n as u8; n];
        let key = Key::new(&k);
        assert_eq!(matches!(key, Key::Inline(..)), n <= 30);
        assert_eq!(key.as_slice(), &k[..]);
        assert!(key.is(&k));
        assert!(!key.is(b"something else"));
        assert_eq!(key.clone(), key);
    }
    assert!(same_bytes(b"ab", b"ab"));
    assert!(!same_bytes(b"ab", b"ac"));
    assert!(!same_bytes(b"ab", b"abc"));
}
