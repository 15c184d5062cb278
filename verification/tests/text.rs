use iana::addr::{parse_hex_group, parse_ipv4, parse_ipv6, parse_octet, IpAddress};
use iana::cidr::Ipv6Cidr;
use iana::notation::prefixed;
use iana::text::{
    blank, chars_equal, copy_range, decimal_text, ends_with_text, field_bounds, join_texts,
    parse_decimal, same_text, split_chars, starts_with_text, text_is, to_chars, to_text,
};

fn chars(s: &str) -> Vec<char> {
    s.chars().collect()
}

fn fields(s: &str, sep: char) -> Vec<String> {
    split_chars(&chars(s), sep).iter().map(|f| f.iter().collect()).collect()
}

#[test]
fn characters_of_a_string() {
    assert_eq!(to_chars("añ|z"), vec!['a', 'ñ', '|', 'z']);
    assert_eq!(to_chars(""), Vec::<char>::new());
    assert_eq!(to_text(&vec!['a', 'ñ', 'z']), "añz");
    assert_eq!(to_text(&Vec::new()), "");
    assert_eq!(copy_range(&chars("abcdef"), 2, 4), vec!['c', 'd']);
    assert_eq!(copy_range(&chars("abcdef"), 3, 3), Vec::<char>::new());
}

#[test]
fn splitting_at_a_separator() {
    assert_eq!(fields("a|b|c", '|'), vec!["a", "b", "c"]);
    assert_eq!(fields("", '|'), vec![""]);
    assert_eq!(fields("abc", '|'), vec!["abc"]);
    assert_eq!(fields("|", '|'), vec!["", ""]);
    assert_eq!(fields("a||b|", '|'), vec!["a", "", "b", ""]);
    assert_eq!(fields("|a", '|'), vec!["", "a"]);
    assert_eq!(field_bounds(&chars("ab||c"), '|'), vec![(0, 2), (3, 3), (4, 5)]);
    assert_eq!(field_bounds(&chars(""), '|'), vec![(0, 0)]);
}

#[test]
fn joining_gives_the_text_back() {
    for s in ["a|b|c", "", "|", "a||b|", "no separator"] {
        let parts = fields(s, '|');
        assert_eq!(join_texts(&parts, '|'), s);
    }
    assert_eq!(join_texts(&Vec::new(), ' '), "");
    assert_eq!(join_texts(&vec!["x".to_string(), "y".to_string()], ' '), "x y");
}

#[test]
fn comparing_texts() {
    assert!(same_text("ipv4", "ipv4"));
    assert!(!same_text("ipv4", "ipv6"));
    assert!(!same_text("ipv4", "ipv"));
    assert!(same_text("", ""));
    assert!(chars_equal(&chars("ab"), &chars("ab")));
    assert!(!chars_equal(&chars("ab"), &chars("ba")));
    assert!(text_is(&chars("summary"), "summary"));
    assert!(!text_is(&chars("summary"), "summarY"));
    assert!(starts_with_text(&chars("# note"), "#"));
    assert!(!starts_with_text(&chars(" # note"), "#"));
    assert!(!starts_with_text(&chars(""), "#"));
    assert!(starts_with_text(&chars(""), ""));
    assert!(ends_with_text(&chars("apnic|*|ipv4|*|5|summary"), "summary"));
    assert!(ends_with_text(&chars("summary"), "summary"));
    assert!(!ends_with_text(&chars("ummary"), "summary"));
    assert!(!ends_with_text(&chars("summary "), "summary"));
}

#[test]
fn blank_texts() {
    assert!(blank(&chars("")));
    assert!(blank(&chars(" \t\r\n")));
    assert!(blank(&chars("\u{a0}\u{2003}\u{3000}")));
    assert!(!blank(&chars(" a ")));
    assert!(!blank(&chars("\u{200b}")));
}

#[test]
fn decimal_numbers() {
    assert_eq!(parse_decimal(&chars("0"), 10), Some(0));
    assert_eq!(parse_decimal(&chars("256"), 0xffff_ffff), Some(256));
    assert_eq!(parse_decimal(&chars("+256"), 0xffff_ffff), Some(256));
    assert_eq!(parse_decimal(&chars("007"), 0xffff_ffff), Some(7));
    assert_eq!(parse_decimal(&chars("4294967295"), 0xffff_ffff), Some(4294967295));
    assert_eq!(parse_decimal(&chars("4294967296"), 0xffff_ffff), None);
    assert_eq!(parse_decimal(&chars("99999999999999999999999999"), 0xffff_ffff), None);
    assert_eq!(parse_decimal(&chars("128"), 128), Some(128));
    assert_eq!(parse_decimal(&chars("129"), 128), None);
    assert_eq!(parse_decimal(&chars("18446744073709551615"), u64::MAX), Some(u64::MAX));
    assert_eq!(parse_decimal(&chars("18446744073709551616"), u64::MAX), None);
    assert_eq!(parse_decimal(&chars("18446744073709551609"), u64::MAX - 6), Some(u64::MAX - 6));
    assert_eq!(parse_decimal(&chars("18446744073709551610"), u64::MAX - 6), None);
    assert_eq!(parse_decimal(&chars("184467440737095516150"), u64::MAX), None);
    assert_eq!(parse_decimal(&chars("0"), 0), Some(0));
    assert_eq!(parse_decimal(&chars("1"), 0), None);
    for bad in ["", "+", "-1", "1 ", " 1", "1_0", "0x10", "१"] {
        assert_eq!(parse_decimal(&chars(bad), 0xffff_ffff), None);
    }
}

#[test]
fn numbers_in_decimal_digits() {
    assert_eq!(decimal_text(0), "0");
    assert_eq!(decimal_text(7), "7");
    assert_eq!(decimal_text(10), "10");
    assert_eq!(decimal_text(16777216), "16777216");
    assert_eq!(decimal_text(u128::MAX), "340282366920938463463374607431768211455");
    assert_eq!(prefixed("10.0.0.0", 8), "10.0.0.0/8");
    assert_eq!(prefixed("::", 0), "::/0");
}

#[test]
fn dotted_ipv4_addresses() {
    assert_eq!(parse_ipv4(&chars("1.0.1.0")), Some(0x0100_0100));
    assert_eq!(parse_ipv4(&chars("0.0.0.0")), Some(0));
    assert_eq!(parse_ipv4(&chars("255.255.255.255")), Some(u32::MAX));
    assert_eq!(parse_ipv4(&chars("23.18.23.255")), Some(u32::from_be_bytes([23, 18, 23, 255])));
    for bad in [
        "", "1.2.3", "1.2.3.4.5", "1.2.3.256", "1.2.3.-4", "01.2.3.4", "1.2.3.4 ", "1..3.4", "a.b.c.d",
        "1.2.3.+4", "1.2.3.0004", ".1.2.3", "1.2.3.",
    ] {
        assert_eq!(parse_ipv4(&chars(bad)), None);
    }
    assert_eq!(parse_octet(&chars("0")), Some(0));
    assert_eq!(parse_octet(&chars("255")), Some(255));
    assert_eq!(parse_octet(&chars("256")), None);
    assert_eq!(parse_octet(&chars("00")), None);
}

#[test]
fn ipv6_addresses() {
    assert_eq!(parse_ipv6(&chars("::")), Some(0));
    assert_eq!(parse_ipv6(&chars("::1")), Some(1));
    assert_eq!(parse_ipv6(&chars("1::")), Some(1 << 112));
    assert_eq!(parse_ipv6(&chars("2001:218::")), Some(0x2001_0218u128 << 96));
    assert_eq!(parse_ipv6(&chars("2001:db8::ff00:42:8329")), Some(0x2001_0db8_0000_0000_0000_ff00_0042_8329));
    assert_eq!(
        parse_ipv6(&chars("2001:0db8:0000:0000:0000:ff00:0042:8329")),
        Some(0x2001_0db8_0000_0000_0000_ff00_0042_8329)
    );
    assert_eq!(parse_ipv6(&chars("FFFF:ffff:FFFF:ffff:FFFF:ffff:FFFF:ffff")), Some(u128::MAX));
    assert_eq!(parse_ipv6(&chars("1:2:3:4:5:6:7::")), Some(0x0001_0002_0003_0004_0005_0006_0007_0000));
    assert_eq!(parse_ipv6(&chars("::2:3:4:5:6:7:8")), Some(0x0000_0002_0003_0004_0005_0006_0007_0008));
    for bad in [
        "", ":", ":::", "1", "1:2:3:4:5:6:7", "1:2:3:4:5:6:7:8:9", "1::2::3", "12345::", "g::",
        "1:2:3:4:5:6:7:8::", "::1:2:3:4:5:6:7:8", ":1:2:3:4:5:6:7", "1:2:3:4:5:6:7:", "1::2:", " ::",
    ] {
        assert_eq!(parse_ipv6(&chars(bad)), None);
    }
    assert_eq!(parse_hex_group(&chars("0")), Some(0));
    assert_eq!(parse_hex_group(&chars("fFfF")), Some(0xffff));
    assert_eq!(parse_hex_group(&chars("")), None);
    assert_eq!(parse_hex_group(&chars("10000")), None);
}

#[test]
fn ipv6_addresses_with_a_dotted_tail() {
    assert_eq!(parse_ipv6(&chars("::ffff:1.2.3.4")), Some(0xffff_0102_0304));
    assert_eq!(parse_ipv6(&chars("::1.2.3.4")), Some(0x0102_0304));
    assert_eq!(parse_ipv6(&chars("::0.0.0.0")), Some(0));
    assert_eq!(
        parse_ipv6(&chars("1:2:3:4:5:6:1.2.3.4")),
        Some(0x0001_0002_0003_0004_0005_0006_0102_0304)
    );
    assert_eq!(
        parse_ipv6(&chars("64:ff9b::192.0.2.33")),
        Some(0x0064_ff9b_0000_0000_0000_0000_c000_0221)
    );
    assert_eq!(
        parse_ipv6(&chars("1:2:3:4:5::255.255.255.255")),
        Some(0x0001_0002_0003_0004_0005_0000_ffff_ffff)
    );
    for bad in [
        "1.2.3.4",
        "::1.2.3",
        "::1.2.3.4.5",
        "::01.2.3.4",
        "::1.2.3.256",
        "1.2.3.4::",
        "1.2.3.4::1",
        "::1.2.3.4:5",
        "1:2:3:4:5:6:7:1.2.3.4",
        "1:2:3:4:5:1.2.3.4",
        "1:2:3:4:5:6::1.2.3.4",
        "1:2:3:1.2.3.4:5:6:7",
    ] {
        assert_eq!(parse_ipv6(&chars(bad)), None);
    }
}

#[test]
fn addresses_as_text() {
    assert_eq!(IpAddress::Ipv4(0x0100_0100).to_text(), "1.0.1.0");
    assert_eq!(IpAddress::Ipv4(u32::MAX).to_text(), "255.255.255.255");
    assert_eq!(IpAddress::Ipv4(0).to_text(), "0.0.0.0");
    assert_eq!(IpAddress::Ipv6(0x2001_0218u128 << 96).to_text(), "2001:218::");
    assert_eq!(IpAddress::Ipv6(1).to_text(), "::1");
    assert_eq!(Ipv6Cidr::new(0x2a00u128 << 112, 20).unwrap().to_text(), "2a00::/20");
}

#[test]
fn ipv6_text_is_read_back() {
    for addr in [
        0u128,
        1,
        0x2001_0218u128 << 96,
        0x2001_0db8_0000_0000_0000_ff00_0042_8329,
        0x0001_0000_0000_0002_0000_0000_0000_0003,
        0xffff_0102_0304,
        0xffff_0000_0000,
        0xffff_ffff_ffff,
        u128::MAX,
    ] {
        let text = IpAddress::Ipv6(addr).to_text();
        assert_eq!(parse_ipv6(&chars(&text)), Some(addr));
    }
    // An address that holds an IPv4 address is written with a dotted tail.
    assert_eq!(IpAddress::Ipv6(0xffff_0102_0304).to_text(), "::ffff:1.2.3.4");
    for addr in [0u32, 1, 0x0100_0100, u32::MAX] {
        let text = IpAddress::Ipv4(addr).to_text();
        assert_eq!(parse_ipv4(&chars(&text)), Some(addr));
    }
}
