use nexus_os::text::{chars_of, decimal_string, less_than, parse_usize, split_lines, split_tokens, trimmed, Separator};

fn chars(s: &str) -> Vec<char> {
    s.chars().collect()
}

#[test]
fn decimals() {
    assert_eq!(decimal_string(0), "0");
    assert_eq!(decimal_string(7), "7");
    assert_eq!(decimal_string(1024), "1024");
    assert_eq!(decimal_string(u64::MAX), "18446744073709551615");
}

#[test]
fn parsing_like_str_parse() {
    assert_eq!(parse_usize(&chars("42")), Some(42));
    assert_eq!(parse_usize(&chars("+7")), Some(7));
    assert_eq!(parse_usize(&chars("007")), Some(7));
    assert_eq!(parse_usize(&chars("")), None);
    assert_eq!(parse_usize(&chars("+")), None);
    assert_eq!(parse_usize(&chars("-1")), None);
    assert_eq!(parse_usize(&chars("1 2")), None);
    assert_eq!(parse_usize(&chars("18446744073709551615")), Some(usize::MAX));
    assert_eq!(parse_usize(&chars("18446744073709551616")), None);
    for s in ["0", "+12", "99999", "", "x", "+", "12a"] {
        assert_eq!(parse_usize(&chars(s)), s.parse::<usize>().ok());
    }
}

#[test]
fn lines_like_str_lines() {
    for s in ["", "a", "a\n", "a\nb", "a\r\nb\r\n", "\n\n", "x\r", "x\r\ry\n", "é\nü"] {
        let expected: Vec<String> = s.lines().map(|l| l.to_string()).collect();
        assert_eq!(split_lines(s), expected, "{:?}", s);
    }
}

#[test]
fn tokens_like_split() {
    assert_eq!(split_tokens("  a  b\tc\u{3000}d ", &Separator::Space), vec!["a", "b", "c", "d"]);
    assert_eq!(split_tokens("/a//b/", &Separator::Slash), vec!["a", "b"]);
    assert!(split_tokens("///", &Separator::Slash).is_empty());
    let s = " x\u{85}y\u{a0}z ";
    let expected: Vec<&str> = s.split_whitespace().collect();
    assert_eq!(split_tokens(s, &Separator::Space), expected);
}

#[test]
fn trimming_like_str_trim() {
    for s in ["", "  ", " a b ", "\u{2003}x\u{2029}", "\ty\n"] {
        assert_eq!(trimmed(&chars(s)), chars(s.trim()));
    }
    assert_eq!(chars_of("héllo"), chars("héllo"));
}

#[test]
fn order_like_string_order() {
    let words = ["", "a", "ab", "b", "B", "é", "z", "aa", "Ω"];
    for x in words {
        for y in words {
            assert_eq!(less_than(&chars(x), &chars(y)), x < y, "{} {}", x, y);
        }
    }
}
