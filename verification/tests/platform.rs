use ssh2socks::platform::{decode, decode_fallback, decode_in};

#[test]
fn decodes_utf8_and_replaces_the_rest() {
    assert_eq!(decode("连接成功 ok".as_bytes()), "连接成功 ok");
    assert_eq!(decode(&[b'a', 0xff, b'b']), "a\u{fffd}b");
}

#[test]
fn decodes_in_the_ansi_code_page() {
    // "连接" in GBK (code page 936), which is not UTF-8.
    let gbk = [0xc1u8, 0xac, 0xbd, 0xd3];
    assert_eq!(decode_in(&gbk, Some(936)), "连接");
    assert_eq!(decode_in("连接".as_bytes(), Some(936)), "连接");
    assert_eq!(decode_in(&[b'a', 0xff, b'b'], None), "a\u{fffd}b");
    assert_eq!(decode_in(&[b'a', 0xff, b'b'], Some(1)), "a\u{fffd}b");
    assert_eq!(decode_fallback(&[0xe9], Some(1252)), "é");
}
