use websocket_server::text;

fn cs(s: &str) -> Vec<char> {
    s.chars().collect()
}

#[test]
fn chars_and_strings() {
    assert_eq!(text::chars_of("h\u{e9}!"), vec!['h', '\u{e9}', '!']);
    let v = cs("abcdef");
    assert_eq!(text::string_from_chars(&v, 1, 4), "bcd");
    assert_eq!(text::string_from_chars(&v, 2, 2), "");
}

#[test]
fn whitespace_chars() {
    for c in [' ', '\t', '\n', '\r', '\u{b}', '\u{c}', '\u{85}', '\u{a0}', '\u{2003}', '\u{3000}'] {
        assert!(text::is_whitespace(c));
        assert_eq!(text::is_whitespace(c), c.is_whitespace());
    }
    for c in ['a', '0', '\u{0}', '\u{200b}', ':'] {
        assert!(!text::is_whitespace(c));
    }
}

#[test]
fn trim_both_ends() {
    assert_eq!(text::trim(&cs("  a b \t")), cs("a b"));
    assert_eq!(text::trim(&cs("   ")), cs(""));
    assert_eq!(text::trim(&cs("")), cs(""));
    assert_eq!(text::trim(&cs("\u{3000}x\u{a0}")), cs("x"));
}

#[test]
fn ascii_case() {
    assert_eq!(text::ascii_lower('Q'), 'q');
    assert_eq!(text::ascii_lower('\u{c9}'), '\u{c9}');
    assert_eq!(text::to_ascii_lowercase(&cs("WebSocket-\u{c9}")), cs("websocket-\u{c9}"));
    assert!(text::eq_ignore_ascii_case(&cs("Content-Length"), &cs("CONTENT-length")));
    assert!(!text::eq_ignore_ascii_case(&cs("Content-Length"), &cs("Content-Lengths")));
    assert!(!text::eq_ignore_ascii_case(&cs("\u{c9}"), &cs("\u{e9}")));
}

#[test]
fn substring_search() {
    assert!(text::contains(&cs("GET /chat"), &cs("GET")));
    assert!(text::contains(&cs("xGETx"), &cs("GET")));
    assert!(!text::contains(&cs("GE"), &cs("GET")));
    assert!(text::contains(&cs(""), &cs("")));
    assert!(!text::contains(&cs("get"), &cs("GET")));
}

#[test]
fn usize_parsing() {
    assert_eq!(text::parse_usize(&cs("0")), Some(0));
    assert_eq!(text::parse_usize(&cs("+42")), Some(42));
    assert_eq!(text::parse_usize(&cs("007")), Some(7));
    assert_eq!(text::parse_usize(&cs("")), None);
    assert_eq!(text::parse_usize(&cs("+")), None);
    assert_eq!(text::parse_usize(&cs("-1")), None);
    assert_eq!(text::parse_usize(&cs("1 ")), None);
    assert_eq!(text::parse_usize(&cs("++1")), None);
    let max = usize::MAX.to_string();
    assert_eq!(text::parse_usize(&cs(&max)), Some(usize::MAX));
    let over = format!("{}0", max);
    assert_eq!(text::parse_usize(&cs(&over)), None);
    for s in ["12", "+3", "x", "", "99999999999999999999999"] {
        assert_eq!(text::parse_usize(&cs(s)), s.parse::<usize>().ok());
    }
}
