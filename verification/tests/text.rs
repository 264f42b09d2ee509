use greatest::text::{bytes_precede, string_precedes};

#[test]
fn bytes_are_compared_from_the_front() {
    assert!(bytes_precede(b"", b"a"));
    assert!(!bytes_precede(b"", b""));
    assert!(!bytes_precede(b"a", b""));
    assert!(bytes_precede(b"abc", b"abd"));
    assert!(!bytes_precede(b"abd", b"abc"));
    assert!(bytes_precede(b"ab", b"abc"));
    assert!(!bytes_precede(b"abc", b"ab"));
    assert!(!bytes_precede(b"abc", b"abc"));
    assert!(bytes_precede(&[0x7f], &[0x80]));
    assert!(bytes_precede(&[1, 255], &[2, 0]));
}

#[test]
fn strings_are_compared_as_the_language_compares_them() {
    let samples = [
        "", "a", "A", "ab", "abc", "b", "apple", "banana", "\u{e9}", "e\u{301}", "\u{7ff}",
        "\u{800}", "\u{ffff}", "\u{10000}", "zebra", "Zebra",
    ];
    for a in samples.iter() {
        for b in samples.iter() {
            assert_eq!(string_precedes(&a.to_string(), &b.to_string()), a < b, "{:?} {:?}", a, b);
        }
    }
}
