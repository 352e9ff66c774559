use ssh2socks::reaper::parse_stat;

#[test]
fn parses_names_with_parens() {
    let stat = "42 (a) b) S 1 42 42 0 -1 0 0 0 0 0 0 0 0 0 20 0 1 0 12345 0 0";
    let p = parse_stat(42, stat).unwrap();
    assert_eq!((p.name.as_str(), p.start), ("a) b", 12345));
    let zombie = stat.replace(") S ", ") Z ");
    assert!(parse_stat(42, &zombie).is_none());
}
