use wwsim::text::{
    contains_text, decimal_string, join_texts, parse_i32, parse_u16, split_lines, split_text, str_eq,
    text_less, trim_trailing_commas,
};

#[test]
fn lines_like_std() {
    for s in ["a\nb", "a\r\nb\n", "", "\n", "x\n\ny\r", "one"] {
        let expected: Vec<String> = s.lines().map(|l| l.to_string()).collect();
        assert_eq!(split_lines(s), expected, "{:?}", s);
    }
}

#[test]
fn split_like_std() {
    for s in ["a;b;c", ";x;", "", "abc"] {
        let expected: Vec<String> = s.split(';').map(|l| l.to_string()).collect();
        assert_eq!(split_text(s, ';'), expected, "{:?}", s);
    }
}

#[test]
fn substring_search() {
    assert!(contains_text("Check the full map at https://worldwarbot.com", "worldwarbot.com"));
    assert!(!contains_text("worldwarbot.co", "worldwarbot.com"));
    assert!(contains_text("abc", ""));
}

#[test]
fn joining_with_separator() {
    let parts = vec!["a".to_string(), "bc".to_string(), "".to_string()];
    assert_eq!(join_texts(&parts, " "), "a bc ");
    assert_eq!(join_texts(&vec![], ", "), "");
}

#[test]
fn signed_parsing_like_std() {
    for s in ["2025", "-12", "+7", "-", "+", "", "2147483647", "2147483648", "-2147483648", "-2147483649", "1a"] {
        assert_eq!(parse_i32(s), s.parse::<i32>().ok(), "{:?}", s);
    }
}

#[test]
fn unsigned_parsing_like_std() {
    for s in ["0", "65535", "65536", "+3", "x", ""] {
        assert_eq!(parse_u16(s), s.parse::<u16>().ok(), "{:?}", s);
    }
}

#[test]
fn trailing_commas_removed() {
    assert_eq!(trim_trailing_commas("2025,,"), "2025");
    assert_eq!(trim_trailing_commas(",a,"), ",a");
    assert_eq!(trim_trailing_commas(""), "");
}

#[test]
fn text_ordering_like_string() {
    let pairs = [("a", "b"), ("ab", "a"), ("", "a"), ("same", "same"), ("Zed", "alpha"), ("é", "z")];
    for (a, b) in pairs {
        assert_eq!(text_less(a, b), a < b, "{:?} {:?}", a, b);
    }
}

#[test]
fn decimals_and_equality() {
    assert_eq!(decimal_string(0), "0");
    assert_eq!(decimal_string(1234567), "1234567");
    assert!(str_eq("abc", "abc"));
    assert!(!str_eq("abc", "abd"));
}
