#[test]
fn parse_size() {
    assert_eq!(disk::size::parse_size("1mib"), Some(2 << 20));
    assert_eq!(disk::size::parse_size("4MiB"), Some(4 * 2 << 20));
    assert_eq!(disk::size::parse_size("35kb"), Some(35 * 1_000));
}

#[test]
fn parse_size_units() {
    assert_eq!(disk::size::parse_size("7kib"), Some(7 * 1_024));
    assert_eq!(disk::size::parse_size("3mb"), Some(3_000_000));
    assert_eq!(disk::size::parse_size("3MB"), Some(3_000_000));
    assert_eq!(disk::size::parse_size("0kb"), Some(0));
    assert_eq!(disk::size::parse_size("007Kb"), Some(7_000));
}

#[test]
fn parse_size_rejects() {
    assert_eq!(disk::size::parse_size(""), None);
    assert_eq!(disk::size::parse_size("kb"), None);
    assert_eq!(disk::size::parse_size("12"), None);
    assert_eq!(disk::size::parse_size("12 kb"), None);
    assert_eq!(disk::size::parse_size("12gb"), None);
    assert_eq!(disk::size::parse_size("12kbx"), None);
    assert_eq!(disk::size::parse_size("-1kb"), None);
    assert_eq!(disk::size::parse_size("99999999999999999999999999kb"), None);
    assert_eq!(disk::size::parse_size("18446744073709551615mib"), None);
}
