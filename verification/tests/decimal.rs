use zero_to_prod::decimal::{parse_decimal, to_decimal};
use zero_to_prod::routes_index::{last_write_header, parse_last_write, replace_last_write};

#[test]
fn to_decimal_examples() {
    assert_eq!(to_decimal(0), "0");
    assert_eq!(to_decimal(7), "7");
    assert_eq!(to_decimal(1700000000), "1700000000");
    assert_eq!(to_decimal(u64::MAX), "18446744073709551615");
}

#[test]
fn parse_decimal_matches_str_parse() {
    for text in [
        "0", "42", "+42", "", "+", "-1", "4 2", "18446744073709551615", "18446744073709551616",
        "0007", "99999999999999999999999", "12a",
    ] {
        assert_eq!(parse_decimal(text), text.parse::<u64>().ok(), "for {:?}", text);
    }
}

#[test]
fn parse_last_write_reads_header() {
    assert_eq!(parse_last_write("last_write:0\n"), Some(0));
    assert_eq!(parse_last_write("last_write:1700000000"), Some(1700000000));
    assert_eq!(parse_last_write("last_write:12 \t\r\n"), Some(12));
    assert_eq!(parse_last_write("xlast_write:5last_write:6"), Some(5));
}

#[test]
fn parse_last_write_rejects_bad_headers() {
    assert_eq!(parse_last_write("last_write:"), None);
    assert_eq!(parse_last_write("last write:5"), None);
    assert_eq!(parse_last_write("last_write: 5"), None);
    assert_eq!(parse_last_write(""), None);
}

#[test]
fn last_write_header_round_trip() {
    for ts in [0u64, 9, 10, 1700000000, u64::MAX] {
        let header = last_write_header(ts);
        assert_eq!(header, format!("last_write:{}", ts));
        assert_eq!(parse_last_write(&header), Some(ts));
        assert_eq!(parse_last_write(&format!("{}\n", header)), Some(ts));
    }
}

fn replace_like_std(content: &str, ts: u64) -> String {
    let mut lines = content.lines().map(|s| s.to_string()).collect::<Vec<String>>();
    lines.remove(0);
    lines.insert(0, format!("last_write:{}", ts));
    lines.join("\n")
}

#[test]
fn replace_last_write_matches_lines_and_join() {
    for content in [
        "last_write:0\n",
        "last_write:0",
        "\n",
        "last_write:3\nA:/a.rs\nB:/b.rs",
        "last_write:3\r\nA:/a.rs\r\nB:/b.rs\r\n",
        "x\n\ny\n\n",
        "x\ry\r",
        "only\r",
    ] {
        assert_eq!(replace_last_write(content, 42), replace_like_std(content, 42), "for {:?}", content);
    }
}

#[test]
fn replaced_header_reads_back() {
    let out = replace_last_write("last_write:1\nA:/a.rs", 1700000000);
    assert_eq!(out, "last_write:1700000000\nA:/a.rs");
    assert_eq!(parse_last_write(out.lines().next().unwrap()), Some(1700000000));
}

#[test]
fn replace_last_write_keeps_other_lines() {
    let content = "last_write:1\nA:/a.rs\n\nB:/b.rs\n";
    let out = replace_last_write(content, 5);
    let before: Vec<&str> = content.lines().skip(1).collect();
    let after: Vec<&str> = out.lines().skip(1).collect();
    assert_eq!(before, after);
    assert_eq!(out.lines().next(), Some("last_write:5"));
}

#[test]
fn replace_last_write_drops_a_trailing_empty_line() {
    assert_eq!(replace_last_write("h\nx\n\n", 5), "last_write:5\nx\n");
}
