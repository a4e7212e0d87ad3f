use std::io::BufRead;
use sysctl_config::text::{
    chars_of, contains_white_space, find_arrow, find_char, split_dots, split_lines, string_of, trim,
};

fn chars(s: &str) -> Vec<char> {
    s.chars().collect()
}

#[test]
fn chars_and_strings_go_both_ways() {
    for s in ["", "a", "hoge = fuga", "日本語 = ねこ", "a\u{1F600}b"] {
        assert_eq!(chars_of(s), chars(s));
        assert_eq!(string_of(&chars_of(s)), s);
    }
    assert_eq!(string_of(&['a', 'b', 'c']), "abc");
}

#[test]
fn trim_removes_white_space_at_both_ends() {
    assert_eq!(string_of(trim(&chars("  a b \t"))), "a b");
    assert_eq!(string_of(trim(&chars("a"))), "a");
    assert_eq!(string_of(trim(&chars("   "))), "");
    assert_eq!(string_of(trim(&chars(""))), "");
    assert_eq!(string_of(trim(&chars("\u{3000}x\u{a0}"))), "x");
}

#[test]
fn trim_agrees_with_the_standard_trim() {
    for s in ["", " ", "a", " a", "a ", "\ta b\r\n", "\u{2003}k\u{2003}", "  = ", "x\u{200b}"] {
        assert_eq!(string_of(trim(&chars(s))), s.trim(), "{:?}", s);
    }
}

#[test]
fn white_space_is_found_anywhere() {
    assert!(contains_white_space(&chars("foo bar")));
    assert!(contains_white_space(&chars("foo\tbar")));
    assert!(contains_white_space(&chars(" foo")));
    assert!(contains_white_space(&chars("foo\u{3000}")));
    assert!(!contains_white_space(&chars("foo.bar")));
    assert!(!contains_white_space(&chars("")));
}

#[test]
fn find_char_gives_the_first_place() {
    assert_eq!(find_char(&chars("a=b=c"), '='), Some(1));
    assert_eq!(find_char(&chars("=a"), '='), Some(0));
    assert_eq!(find_char(&chars("abc"), '='), None);
    assert_eq!(find_char(&chars(""), '='), None);
}

#[test]
fn find_arrow_gives_the_first_place() {
    assert_eq!(find_arrow(&chars("a -> b -> c")), Some(2));
    assert_eq!(find_arrow(&chars("->")), Some(0));
    assert_eq!(find_arrow(&chars("a-->b")), Some(2));
    assert_eq!(find_arrow(&chars("a - > b")), None);
    assert_eq!(find_arrow(&chars("a-")), None);
    assert_eq!(find_arrow(&chars(">-")), None);
    assert_eq!(find_arrow(&chars("")), None);
}

#[test]
fn split_dots_gives_the_segments() {
    assert_eq!(split_dots(&chars("a.b.c")), vec!["a", "b", "c"]);
    assert_eq!(split_dots(&chars("abc")), vec!["abc"]);
    assert_eq!(split_dots(&chars("")), vec![""]);
    assert_eq!(split_dots(&chars(".")), vec!["", ""]);
    assert_eq!(split_dots(&chars("a..b")), vec!["a", "", "b"]);
    assert_eq!(split_dots(&chars(".a.")), vec!["", "a", ""]);
}

#[test]
fn split_dots_agrees_with_the_standard_split() {
    for s in ["", ".", "..", "a", "a.b", "net.ipv4.ip_forward", "a..b", ".a", "a.", "日.本"] {
        let expected: Vec<String> = s.split('.').map(|p| p.to_string()).collect();
        assert_eq!(split_dots(&chars(s)), expected, "{:?}", s);
    }
}

#[test]
fn split_lines_gives_the_lines() {
    assert_eq!(split_lines(&chars("a\nb\n")), vec!["a", "b"]);
    assert_eq!(split_lines(&chars("a\nb")), vec!["a", "b"]);
    assert_eq!(split_lines(&chars("a\r\nb\r\n")), vec!["a", "b"]);
    assert_eq!(split_lines(&chars("a\n\nb")), vec!["a", "", "b"]);
    assert_eq!(split_lines(&chars("")), Vec::<String>::new());
    assert_eq!(split_lines(&chars("\n")), vec![""]);
    assert_eq!(split_lines(&chars("a\r")), vec!["a\r"]);
    assert_eq!(split_lines(&chars("a\r\r\n")), vec!["a\r"]);
}

#[test]
fn split_lines_agrees_with_a_line_reader() {
    for s in ["", "\n", "\n\n", "a", "a\n", "a\nb", "a\r\nb\r\n", "\r\n", "\r", "a\rb\n", "x\n\r\ny"]
    {
        let expected: Vec<String> =
            std::io::Cursor::new(s.as_bytes()).lines().map(|l| l.unwrap()).collect();
        assert_eq!(split_lines(&chars(s)), expected, "{:?}", s);
    }
}

#[test]
fn white_space_is_the_unicode_property() {
    for code in 0..=0x10ffffu32 {
        if let Some(c) = char::from_u32(code) {
            let listed = matches!(
                c,
                '\u{9}'..='\u{d}'
                    | ' '
                    | '\u{85}'
                    | '\u{a0}'
                    | '\u{1680}'
                    | '\u{2000}'..='\u{200a}'
                    | '\u{2028}'
                    | '\u{2029}'
                    | '\u{202f}'
                    | '\u{205f}'
                    | '\u{3000}'
            );
            assert_eq!(contains_white_space(&[c]), listed, "{:?}", c);
            assert_eq!(trim(&[c, 'a', c]).len(), if listed { 1 } else { 3 }, "{:?}", c);
        }
    }
}
