use sysctl_config::parser::{apply_line, split_entry};
use sysctl_config::text::string_of;
use sysctl_config::{
    insert_entry_of_line, load_sysctl, load_sysctl_from_reader, SysctlConfig, SysctlConfigValue,
    SysctlError,
};

fn chars(s: &str) -> Vec<char> {
    s.chars().collect()
}

fn leaf(tree: &SysctlConfig, key: &str) -> Option<String> {
    match tree.get(key) {
        Some(SysctlConfigValue::String(v)) => Some(v.clone()),
        _ => None,
    }
}

fn is_subtree(tree: &SysctlConfig, key: &str) -> bool {
    matches!(tree.get(key), Some(SysctlConfigValue::SysctlConfig(_)))
}

fn malformed(line: &str) -> SysctlError {
    SysctlError::MalformedLine(line.to_string())
}

#[test]
fn entry_line_puts_its_leaf_at_its_key() {
    for (line, key, value) in [
        ("key = value", "key", "value"),
        ("key=value", "key", "value"),
        ("  key   =   value  ", "key", "value"),
        ("net.ipv4.ip_forward = 1", "net.ipv4.ip_forward", "1"),
        ("a.b = x y z", "a.b", "x y z"),
        ("k = a = b", "k", "a = b"),
        ("k = # not a comment", "k", "# not a comment"),
        ("キー = 値", "キー", "値"),
    ] {
        let tree = load_sysctl(line).unwrap();
        assert_eq!(leaf(&tree, key), Some(value.to_string()), "{:?}", line);
    }
}

#[test]
fn nested_key_gives_three_levels() {
    let tree = load_sysctl("a.b.c = v\n").unwrap();
    assert!(is_subtree(&tree, "a"));
    assert!(is_subtree(&tree, "a.b"));
    assert_eq!(leaf(&tree, "a.b.c"), Some("v".to_string()));
}

#[test]
fn leaf_used_as_subtree_fails_the_load() {
    let r = load_sysctl("a = 1\na.b = 2\n");
    assert_eq!(r.unwrap_err(), SysctlError::ConflictingPath("a.b".to_string()));
}

#[test]
fn lenient_conflict_keeps_the_first_definition() {
    let tree = load_sysctl("a = 1\n-a.b = 2\n").unwrap();
    assert_eq!(leaf(&tree, "a"), Some("1".to_string()));
    assert!(tree.get("a.b").is_none());
}

#[test]
fn subtree_used_as_leaf_fails_the_load() {
    let r = load_sysctl("a.b = 2\na = 1\n");
    assert_eq!(r.unwrap_err(), SysctlError::ConflictingPath("a".to_string()));
    let tree = load_sysctl("a.b = 2\n- a = 1\n").unwrap();
    assert_eq!(leaf(&tree, "a.b"), Some("2".to_string()));
    assert!(is_subtree(&tree, "a"));
}

#[test]
fn comments_and_empty_lines_say_nothing() {
    let tree = load_sysctl("# a = 1\n; b = 2\n\n#\n;\n#= \nc = 3\n").unwrap();
    assert!(tree.get("a").is_none());
    assert!(tree.get("b").is_none());
    assert!(tree.get("# a").is_none());
    assert_eq!(leaf(&tree, "c"), Some("3".to_string()));
    let tree = load_sysctl("").unwrap();
    assert!(tree.get("c").is_none());
    let tree = load_sysctl("\n\n\n").unwrap();
    assert!(tree.get("").is_none());
}

#[test]
fn malformed_lines_fail_the_load() {
    for line in ["foo", " = foo", "foo =", "foo bar = baz", "=", "foo\tbar = baz", "   ", "a = \t"] {
        let text = format!("ok = 1\n{}\nlater = 2\n", line);
        assert_eq!(load_sysctl(&text).unwrap_err(), malformed(line), "{:?}", line);
    }
}

#[test]
fn lenient_malformed_lines_are_passed_over() {
    for line in ["-foo", "- = foo", "-foo =", "-foo bar = baz", "-=", "-", "- ", "-# x = 1"] {
        let text = format!("ok = 1\n{}\nlater = 2\n", line);
        let tree = load_sysctl(&text).unwrap();
        assert_eq!(leaf(&tree, "ok"), Some("1".to_string()), "{:?}", line);
        assert_eq!(leaf(&tree, "later"), Some("2".to_string()), "{:?}", line);
        assert!(tree.get("foo").is_none());
        assert!(tree.get("foo bar").is_none());
    }
}

#[test]
fn lenient_line_that_is_well_formed_is_read() {
    let tree = load_sysctl("-a.b = 1\n- c = 2\n").unwrap();
    assert_eq!(leaf(&tree, "a.b"), Some("1".to_string()));
    assert_eq!(leaf(&tree, "c"), Some("2".to_string()));
}

#[test]
fn only_the_first_dash_is_dropped() {
    let tree = load_sysctl("--a = 1\n").unwrap();
    assert_eq!(leaf(&tree, "-a"), Some("1".to_string()));
}

#[test]
fn comment_sign_counts_at_the_start_only() {
    assert_eq!(load_sysctl(" # a = 1\n").unwrap_err(), malformed(" # a = 1"));
    let tree = load_sysctl("a#b = 1\n").unwrap();
    assert_eq!(leaf(&tree, "a#b"), Some("1".to_string()));
}

#[test]
fn last_line_wins_for_a_leaf() {
    let tree = load_sysctl("a = 1\nb = x\na = 2\n").unwrap();
    assert_eq!(leaf(&tree, "a"), Some("2".to_string()));
    assert_eq!(leaf(&tree, "b"), Some("x".to_string()));
}

#[test]
fn line_ends_are_handled() {
    let tree = load_sysctl("a = 1\r\nb = 2\r\n").unwrap();
    assert_eq!(leaf(&tree, "a"), Some("1".to_string()));
    assert_eq!(leaf(&tree, "b"), Some("2".to_string()));
    let tree = load_sysctl("a = 1\nb = 2").unwrap();
    assert_eq!(leaf(&tree, "b"), Some("2".to_string()));
}

#[test]
fn keys_with_empty_segments_are_read() {
    let tree = load_sysctl("a..b = 1\n.c = 2\nd. = 3\n").unwrap();
    assert_eq!(leaf(&tree, "a..b"), Some("1".to_string()));
    assert_eq!(leaf(&tree, ".c"), Some("2".to_string()));
    assert_eq!(leaf(&tree, "d."), Some("3".to_string()));
}

#[test]
fn split_entry_splits_at_the_first_equals_sign() {
    let body = chars(" a.b =  c = d ");
    let (key, value) = split_entry(&body).unwrap();
    assert_eq!(string_of(key), "a.b");
    assert_eq!(string_of(value), "c = d");
    assert!(split_entry(&chars("abc")).is_none());
    assert!(split_entry(&chars(" = x")).is_none());
    assert!(split_entry(&chars("x = ")).is_none());
    assert!(split_entry(&chars("x y = z")).is_none());
    assert!(split_entry(&chars("")).is_none());
}

#[test]
fn failing_line_leaves_the_tree_as_it_was() {
    let mut tree = SysctlConfig::new();
    insert_entry_of_line(&mut tree, "a.b = 1".to_string()).unwrap();
    let r = insert_entry_of_line(&mut tree, "a.b.c = 2".to_string());
    assert_eq!(r, Err(SysctlError::ConflictingPath("a.b.c".to_string())));
    let r = insert_entry_of_line(&mut tree, "nonsense".to_string());
    assert_eq!(r, Err(malformed("nonsense")));
    assert_eq!(insert_entry_of_line(&mut tree, "-nonsense".to_string()), Ok(()));
    assert_eq!(insert_entry_of_line(&mut tree, "# a.b = 3".to_string()), Ok(()));
    assert_eq!(insert_entry_of_line(&mut tree, String::new()), Ok(()));
    assert_eq!(leaf(&tree, "a.b"), Some("1".to_string()));
    assert!(tree.get("nonsense").is_none());
}

#[test]
fn apply_line_reads_characters() {
    let mut tree = SysctlConfig::new();
    assert_eq!(apply_line(&mut tree, &chars("x.y = z")), Ok(()));
    assert_eq!(apply_line(&mut tree, &chars("x = z")), Err(SysctlError::ConflictingPath("x".to_string())));
    assert_eq!(apply_line(&mut tree, &chars("-x = z")), Ok(()));
    assert_eq!(leaf(&tree, "x.y"), Some("z".to_string()));
}

#[test]
fn reader_takes_lines_in_order() {
    let lines = vec!["a = 1".to_string(), String::new(), "a = 2".to_string(), "b.c = 3".to_string()];
    let tree = load_sysctl_from_reader(&lines).unwrap();
    assert_eq!(leaf(&tree, "a"), Some("2".to_string()));
    assert_eq!(leaf(&tree, "b.c"), Some("3".to_string()));
    let lines = vec!["a = 1".to_string(), "b".to_string(), "c = ".to_string()];
    assert_eq!(load_sysctl_from_reader(&lines).unwrap_err(), malformed("b"));
    assert!(load_sysctl_from_reader(&[]).unwrap().get("a").is_none());
}

#[test]
fn line_feed_inside_a_reader_line_is_part_of_the_value() {
    let lines = vec!["a = 1\nb = 2".to_string()];
    let tree = load_sysctl_from_reader(&lines).unwrap();
    assert_eq!(leaf(&tree, "a"), Some("1\nb = 2".to_string()));
}
