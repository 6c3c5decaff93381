use net_test3::headers::HeaderMap;
use net_test3::text::{char_is_whitespace, chars_of, find_char, line_ranges, split_ranges, substring, trim_range};

fn pieces(s: &str, rs: &[(usize, usize)]) -> Vec<String> {
    rs.iter().map(|&(a, b)| substring(s, a, b)).collect()
}

#[test]
fn split_ranges_like_str_split() {
    for s in ["a b  c", "", " ", "abc", " x "] {
        let cs = chars_of(s);
        let rs = split_ranges(&cs, 0, cs.len(), ' ');
        let expected: Vec<String> = s.split(' ').map(|p| p.to_owned()).collect();
        assert_eq!(pieces(s, &rs), expected, "{:?}", s);
    }
}

#[test]
fn line_ranges_like_str_lines() {
    for s in ["a\r\nb\n", "", "\n", "a", "a\n\nb", "x\r", "\r\n\r\n", "é\r\nü"] {
        let cs = chars_of(s);
        let rs = line_ranges(&cs, 0, cs.len());
        let expected: Vec<String> = s.lines().map(|p| p.to_owned()).collect();
        assert_eq!(pieces(s, &rs), expected, "{:?}", s);
    }
}

#[test]
fn trim_range_like_str_trim() {
    for s in ["  a b ", "\t\r\n", "x", "\u{3000}ä\u{2003}", "", " \u{85}y\u{a0}"] {
        let cs = chars_of(s);
        let (a, b) = trim_range(&cs, 0, cs.len());
        assert_eq!(substring(s, a, b), s.trim(), "{:?}", s);
    }
}

#[test]
fn find_char_finds_the_first() {
    let cs = chars_of("k:v:w");
    assert_eq!(find_char(&cs, 0, cs.len(), ':'), Some(1));
    assert_eq!(find_char(&cs, 2, cs.len(), ':'), Some(3));
    assert_eq!(find_char(&cs, 4, cs.len(), ':'), None);
}

#[test]
fn header_map_insert_and_get() {
    let mut h = HeaderMap::new();
    assert_eq!(h.len(), 0);
    assert_eq!(h.insert("a".to_owned(), "1".to_owned()), None);
    assert_eq!(h.insert("b".to_owned(), "2".to_owned()), None);
    assert_eq!(h.insert("a".to_owned(), "3".to_owned()), Some("1".to_owned()));
    assert_eq!(h.get("a").map(|s| s.as_str()), Some("3"));
    assert_eq!(h.get("b").map(|s| s.as_str()), Some("2"));
    assert_eq!(h.get("c"), None);
    assert_eq!(h.len(), 2);
    assert_eq!(h.entry(0), ("a", "3"));
    h.names_distinct();
}

#[test]
fn char_is_whitespace_like_std_on_every_char() {
    for c in (0u32..=0x10ffff).filter_map(char::from_u32) {
        assert_eq!(char_is_whitespace(c), c.is_whitespace(), "{:?}", c);
    }
}

#[test]
fn trim_range_keeps_letters_and_strips_unicode_spaces() {
    let s = "\u{3000}\u{a0}ab\u{2029}";
    let cs = chars_of(s);
    let (a, b) = trim_range(&cs, 0, cs.len());
    assert_eq!(substring(s, a, b), "ab");
    let cs = chars_of("a");
    assert_eq!(trim_range(&cs, 0, 1), (0, 1));
}
