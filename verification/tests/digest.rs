use rsync_chunks::digest::sha1_hex;

#[test]
fn sha1_hex_of_known_inputs() {
    assert_eq!(sha1_hex(b"abc"), "a9993e364706816aba3e25717850c26c9cd0d89d");
    assert_eq!(sha1_hex(b""), "da39a3ee5e6b4b0d3255bfef95601890afd80709");
}

#[test]
fn sha1_hex_is_forty_lowercase_digits() {
    for input in [&b""[..], b"a", b"line one\nline two\n", &[0u8; 1000][..]] {
        let h = sha1_hex(input);
        assert_eq!(h.len(), 40);
        assert!(h.chars().all(|c| c.is_ascii_digit() || ('a'..='f').contains(&c)));
    }
}
