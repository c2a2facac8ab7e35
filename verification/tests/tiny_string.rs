use circuit_lab::tiny_string::TinyString;

#[test]
fn new_tiny_string_is_empty() {
    let t = TinyString::new();
    assert_eq!(t.len(), 0);
    assert!(t.buffer.iter().all(|&b| b == 0xFF));
}

#[test]
fn fromstr_keeps_at_most_fifteen_bytes() {
    let t = TinyString::fromstr("hello");
    assert_eq!(t.len(), 5);
    assert!(t.is_samestr("hello"));
    assert!(!t.is_samestr("hell"));
    let long = TinyString::fromstr("abcdefghijklmnopqrstuvwxyz");
    assert_eq!(long.len(), 15);
    assert!(long.is_samestr("abcdefghijklmno"));
    assert!(!long.is_samestr("abcdefghijklmnopqrstuvwxyz"));
}

#[test]
fn copystr_overwrites_the_front_only() {
    let mut t = TinyString::fromstr("abcdef");
    t.copystr("xy");
    assert_eq!(t.len(), 2);
    assert!(t.is_samestr("xy"));
    assert_eq!(t.buffer[2], b'c');
}

#[test]
fn copy_and_is_same() {
    let a = TinyString::fromstr("circuit");
    let mut b = TinyString::new();
    assert!(!b.is_same(&a));
    b.copy(&a);
    assert!(b.is_same(&a));
    assert_eq!(b.len(), 7);
}

#[test]
fn as_ref_gives_the_text_or_an_error_mark() {
    assert_eq!(TinyString::fromstr("ohm").as_ref(), "ohm");
    let mut bad = TinyString::new();
    bad.buffer[0] = 0xC3;
    bad.cursor = 1;
    assert_eq!(bad.as_ref(), "?Error?");
    // A cut in the middle of a two-byte character leaves invalid bytes.
    let cut = TinyString::fromstr("abcdefghijklmnΩ");
    assert_eq!(cut.len(), 15);
    assert_eq!(cut.as_ref(), "?Error?");
}
