use diskscan::text::format_size;
use diskscan::text::parse_du_line;
use diskscan::text::parse_human_size;
use diskscan::text::parse_stat_line;

#[test]
fn human_size_whole_megabytes() {
    assert_eq!(parse_human_size("294M"), 294 * 1024 * 1024);
}

#[test]
fn human_size_zero_bytes() {
    assert_eq!(parse_human_size("0B"), 0);
}

#[test]
fn human_size_empty() {
    assert_eq!(parse_human_size(""), 0);
}

#[test]
fn human_size_fractional_gigabytes() {
    // 3.5 * 1024^3 is an integer exactly.
    assert_eq!(parse_human_size("3.5G"), 3758096384);
}

#[test]
fn human_size_kilobytes() {
    assert_eq!(parse_human_size("4.0K"), 4096);
    assert_eq!(parse_human_size("2kb"), 2048);
}

#[test]
fn human_size_plain_bytes_and_unknown_unit() {
    assert_eq!(parse_human_size("17"), 17);
    assert_eq!(parse_human_size("16X"), 16);
}

#[test]
fn human_size_terabytes_petabytes() {
    assert_eq!(parse_human_size("2T"), 2 * 1024u64.pow(4));
    assert_eq!(parse_human_size("1PB"), 1024u64.pow(5));
}

#[test]
fn human_size_malformed() {
    assert_eq!(parse_human_size("abc"), 0);
    assert_eq!(parse_human_size("1.2.3"), 0);
    assert_eq!(parse_human_size("   "), 0);
    assert_eq!(parse_human_size("."), 0);
}

#[test]
fn human_size_surrounding_whitespace() {
    assert_eq!(parse_human_size(" 3.5 G "), 3758096384);
}

#[test]
fn human_size_saturates() {
    assert_eq!(parse_human_size("99999999999999999999P"), u64::MAX);
}

#[test]
fn format_size_kilobytes() {
    assert_eq!(format_size(1536), "1.5KB");
}

#[test]
fn format_size_zero() {
    assert_eq!(format_size(0), "0.0B");
}

#[test]
fn format_size_other_units() {
    assert_eq!(format_size(1023), "1023.0B");
    assert_eq!(format_size(1048576), "1.0MB");
    assert_eq!(format_size(1073741824), "1.0GB");
    assert_eq!(format_size(1099511627776), "1.0TB");
}

#[test]
fn du_line_with_spaces_in_name() {
    // A kilobyte count and a name holding a space.
    let parsed = parse_du_line("1024\tfoo bar");
    assert!(parsed.is_some());
    let (size, name) = parsed.unwrap();
    assert_eq!(size, 1024 * 1024);
    assert_eq!(name, "foo bar");
}

#[test]
fn du_line_malformed() {
    assert_eq!(parse_du_line(""), None);
    assert_eq!(parse_du_line("x foo"), None);
    assert_eq!(parse_du_line("123"), None);
    // Scaling this kilobyte count to bytes would overflow.
    assert_eq!(parse_du_line("18446744073709551615\tx"), None);
}

#[test]
fn stat_line_parses() {
    let parsed = parse_stat_line("123 /a/b");
    assert!(parsed.is_some());
    let (size, path) = parsed.unwrap();
    assert_eq!(size, 123);
    assert_eq!(path, "/a/b");
}

#[test]
fn stat_line_malformed() {
    assert_eq!(parse_stat_line("nope"), None);
    assert_eq!(parse_stat_line("12x /a"), None);
}
