use lagent::text::{parse_u64, split_str, str_eq, trim, u64_to_decimal};

#[test]
fn decimal_matches_display() {
    for n in [0u64, 7, 10, 42, 99, 100, 8192, 1_000_000_007, u64::MAX] {
        assert_eq!(u64_to_decimal(n), n.to_string());
    }
}

#[test]
fn parse_matches_std() {
    let samples = [
        "", "+", "-", "0", "+0", "-0", "42", "+42", "007", " 1", "1 ", "1a", "18446744073709551615",
        "18446744073709551616", "99999999999999999999", "+18446744073709551615", "١",
    ];
    for s in samples {
        assert_eq!(parse_u64(s), s.parse::<u64>().ok(), "parse of {s:?}");
    }
}

#[test]
fn decimal_round_trip() {
    for n in [0u64, 1, 12345, u64::MAX] {
        assert_eq!(parse_u64(&u64_to_decimal(n)), Some(n));
    }
}

#[test]
fn trim_matches_std() {
    let samples = ["", "  ", "a", " a ", "\t/exit\n", "\u{3000}x\u{85}", "a b", "\u{200b}a"];
    for s in samples {
        assert_eq!(trim(s), s.trim(), "trim of {s:?}");
    }
}

#[test]
fn split_matches_std() {
    let samples = ["", ",", "a", "a,b", "a,,b", ",a,", "http://x:1/mcp,http://y:2/mcp"];
    for s in samples {
        let expected: Vec<String> = s.split(',').map(|p| p.to_string()).collect();
        assert_eq!(split_str(s, ','), expected, "split of {s:?}");
        assert_eq!(split_str(s, ',').join(","), s);
    }
}

#[test]
fn str_eq_compares_text() {
    assert!(str_eq("/exit", "/exit"));
    assert!(!str_eq("/exit", "/exi"));
    assert!(!str_eq("/q", "/Q"));
}

#[test]
fn white_space_matches_std() {
    for u in 0u32..0x3100 {
        if let Some(c) = char::from_u32(u) {
            assert_eq!(lagent::text::char_is_white_space(c), c.is_whitespace(), "U+{u:04X}");
        }
    }
}
