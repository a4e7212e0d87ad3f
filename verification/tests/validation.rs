use sysctl_config::{
    load_sysctl, KeySet, SysctlConfig, SysctlConfigLoader, SysctlConfigType, SysctlConfigValue,
    SysctlError,
};

fn leaf(tree: &SysctlConfig, key: &str) -> Option<String> {
    match tree.get(key) {
        Some(SysctlConfigValue::String(v)) => Some(v.clone()),
        _ => None,
    }
}

fn surplus(keys: &[&str]) -> SysctlError {
    SysctlError::SurplusKeys(keys.iter().map(|k| k.to_string()).collect())
}

fn sorted(e: SysctlError) -> SysctlError {
    match e {
        SysctlError::SurplusKeys(mut keys) => {
            keys.sort();
            SysctlError::SurplusKeys(keys)
        }
        other => other,
    }
}

fn mismatch(key: &str, value: Option<&str>, expected: SysctlConfigType) -> SysctlError {
    SysctlError::TypeMismatch {
        key: key.to_string(),
        value: value.map(|v| v.to_string()),
        expected,
    }
}

#[test]
fn schema_and_config_round_trip() {
    let loader = SysctlConfigLoader::new("a.b -> int\n").unwrap();
    let tree = loader.load_sysctl("a.b = 42\n").unwrap();
    assert_eq!(leaf(&tree, "a.b"), Some("42".to_string()));
    assert!(matches!(tree.get("a.b"), Some(SysctlConfigValue::String(v)) if v == "42"));
}

#[test]
fn undeclared_leaf_is_surplus() {
    let loader = SysctlConfigLoader::new("a -> int\n").unwrap();
    let err = loader.load_sysctl("a = 1\nz = 1\n").unwrap_err();
    assert_eq!(err, surplus(&["z"]));
}

#[test]
fn all_surplus_leaves_are_named() {
    let loader = SysctlConfigLoader::new("hoge.fuga -> float\n").unwrap();
    let err = loader
        .load_sysctl("z.y.x = 1\nhoge.fuga = 1\nhoge.piyo = false\nfuga.fuga = fuga\n")
        .unwrap_err();
    assert_eq!(sorted(err), surplus(&["fuga.fuga", "hoge.piyo", "z.y.x"]));
}

#[test]
fn surplus_comes_before_other_failures() {
    let loader = SysctlConfigLoader::new("a -> int\nw -> string\n").unwrap();
    let err = loader.load_sysctl("a = x\nz = 1\n").unwrap_err();
    assert_eq!(err, surplus(&["z"]));
}

#[test]
fn declared_key_that_is_absent_is_missing() {
    let loader = SysctlConfigLoader::new("a -> int\nw -> string\n").unwrap();
    let err = loader.load_sysctl("a = 1\n").unwrap_err();
    assert_eq!(err, SysctlError::MissingKey("w".to_string()));
}

#[test]
fn declared_key_below_a_missing_subtree_is_missing() {
    let loader = SysctlConfigLoader::new("hoge.fuga -> float\nhoge.piyo -> bool\nx.y.z -> int\n")
        .unwrap();
    let err = loader.load_sysctl("hoge.fuga = 1\nhoge.piyo = true\n").unwrap_err();
    assert_eq!(err, SysctlError::MissingKey("x.y.z".to_string()));
}

#[test]
fn declared_key_below_a_leaf_is_missing() {
    let loader = SysctlConfigLoader::new("a -> int\na.b -> int\n").unwrap();
    let err = loader.load_sysctl("a = 1\n").unwrap_err();
    assert_eq!(err, SysctlError::MissingKey("a.b".to_string()));
}

#[test]
fn leaf_of_the_wrong_type_is_a_mismatch() {
    let loader = SysctlConfigLoader::new("a -> int\nb -> float\nc -> bool\nd -> string\n").unwrap();
    assert!(loader.load_sysctl("a = -7\nb = 1e3\nc = false\nd = \u{1F600}\n").is_ok());
    assert_eq!(
        loader.load_sysctl("a = 4.2\nb = 1\nc = true\nd = x\n").unwrap_err(),
        mismatch("a", Some("4.2"), SysctlConfigType::Int)
    );
    assert_eq!(
        loader.load_sysctl("a = 4\nb = abc\nc = true\nd = x\n").unwrap_err(),
        mismatch("b", Some("abc"), SysctlConfigType::Float)
    );
    assert_eq!(
        loader.load_sysctl("a = 4\nb = 1\nc = 1\nd = x\n").unwrap_err(),
        mismatch("c", Some("1"), SysctlConfigType::Bool)
    );
}

#[test]
fn first_declaration_that_fails_is_reported() {
    let loader = SysctlConfigLoader::new("a -> int\nb -> int\nc -> int\n").unwrap();
    assert_eq!(
        loader.load_sysctl("a = 1\nb = x\nc = y\n").unwrap_err(),
        mismatch("b", Some("x"), SysctlConfigType::Int)
    );
    let loader = SysctlConfigLoader::new("c -> int\nb -> int\na -> int\n").unwrap();
    assert_eq!(
        loader.load_sysctl("a = 1\nb = x\nc = y\n").unwrap_err(),
        mismatch("c", Some("y"), SysctlConfigType::Int)
    );
}

#[test]
fn declared_key_that_names_a_subtree_is_a_mismatch() {
    let loader = SysctlConfigLoader::new("a.b -> int\na -> string\n").unwrap();
    let err = loader.load_sysctl("a.b = 1\n").unwrap_err();
    assert_eq!(err, mismatch("a", None, SysctlConfigType::String));
}

#[test]
fn keys_are_joined_by_dots() {
    let loader = SysctlConfigLoader::new(".a -> int\nb..c -> int\n").unwrap();
    let tree = loader.load_sysctl(".a = 1\nb..c = 2\n").unwrap();
    assert_eq!(leaf(&tree, ".a"), Some("1".to_string()));
    assert_eq!(leaf(&tree, "b..c"), Some("2".to_string()));
}

#[test]
fn declaring_a_key_twice_checks_it_twice() {
    let loader = SysctlConfigLoader::new("a -> string\na -> float\n").unwrap();
    assert!(loader.load_sysctl("a = 1.5\n").is_ok());
    assert_eq!(
        loader.load_sysctl("a = x\n").unwrap_err(),
        mismatch("a", Some("x"), SysctlConfigType::Float)
    );
}

#[test]
fn empty_schema_accepts_the_empty_config_only() {
    let loader = SysctlConfigLoader::new("").unwrap();
    assert!(loader.load_sysctl("").is_ok());
    assert!(loader.load_sysctl("# nothing\n\n").is_ok());
    assert_eq!(loader.load_sysctl("a = 1\n").unwrap_err(), surplus(&["a"]));
}

#[test]
fn reading_failure_comes_before_validation() {
    let loader = SysctlConfigLoader::new("a -> int\n").unwrap();
    assert_eq!(
        loader.load_sysctl("z = 1\nbroken\n").unwrap_err(),
        SysctlError::MalformedLine("broken".to_string())
    );
    assert!(loader.load_sysctl("a = 1\n-broken\n").is_ok());
}

#[test]
fn validating_twice_gives_the_same() {
    let loader = SysctlConfigLoader::new("a.b -> int\nc -> bool\n").unwrap();
    let text = "a.b = 1\nc = true\n";
    let first = loader.load_sysctl(text).unwrap();
    let second = loader.load_sysctl(text).unwrap();
    for key in ["a.b", "c", "a", "b", ""] {
        assert_eq!(leaf(&first, key), leaf(&second, key));
        assert_eq!(first.get(key).is_some(), second.get(key).is_some());
    }
    assert_eq!(loader.validate(&first), Ok(()));
    assert_eq!(loader.validate(&first), Ok(()));
    assert_eq!(leaf(&first, "a.b"), Some("1".to_string()));
    let bad = "a.b = 1\nc = 2\n";
    assert_eq!(loader.load_sysctl(bad).unwrap_err(), loader.load_sysctl(bad).unwrap_err());
}

#[test]
fn validate_checks_a_tree_that_was_read_before() {
    let tree = load_sysctl("a = 1\nb.c = x\n").unwrap();
    let loader = SysctlConfigLoader::new("a -> int\nb.c -> string\n").unwrap();
    assert_eq!(loader.validate(&tree), Ok(()));
    let loader = SysctlConfigLoader::new("a -> int\n").unwrap();
    assert_eq!(loader.validate(&tree), Err(surplus(&["b.c"])));
    let loader = SysctlConfigLoader::new("a -> bool\nb.c -> string\n").unwrap();
    assert_eq!(loader.validate(&tree), Err(mismatch("a", Some("1"), SysctlConfigType::Bool)));
}

#[test]
fn loader_reads_without_validating() {
    let loader = SysctlConfigLoader::new("a -> int\n").unwrap();
    let lines = vec!["z = 1".to_string(), "a = x".to_string()];
    let tree = loader.load_sysctl_from_reader(&lines).unwrap();
    assert_eq!(leaf(&tree, "z"), Some("1".to_string()));
    let mut tree = SysctlConfig::new();
    loader.insert_entry_of_line(&mut tree, "q.r = s").unwrap();
    assert_eq!(
        loader.insert_entry_of_line(&mut tree, "q = s"),
        Err(SysctlError::ConflictingPath("q".to_string()))
    );
    assert_eq!(loader.insert_entry_of_line(&mut tree, "- q = s"), Ok(()));
    assert_eq!(leaf(&tree, "q.r"), Some("s".to_string()));
}

#[test]
fn all_keys_are_the_dotted_keys_of_the_leaves() {
    let tree = load_sysctl("a = 1\nb.c = 2\nb.d.e = 3\n.f = 4\n").unwrap();
    let keys = SysctlConfigLoader::get_all_keys(&tree);
    for key in ["a", "b.c", "b.d.e", ".f"] {
        assert!(keys.contains(key), "{}", key);
    }
    for key in ["b", "b.d", "", "f", "c"] {
        assert!(!keys.contains(key), "{}", key);
    }
    let mut keys = keys.into_keys();
    keys.sort();
    assert_eq!(keys, vec![".f", "a", "b.c", "b.d.e"]);
    assert!(SysctlConfigLoader::get_all_keys(&SysctlConfig::new()).is_empty());
}

#[test]
fn insert_key_joins_the_parent_key_by_a_dot() {
    let mut tree = SysctlConfig::new();
    tree.insert("b", "1".to_string()).unwrap();
    tree.insert("c.d", "2".to_string()).unwrap();
    let mut set = KeySet::new();
    set.insert("x".to_string());
    SysctlConfigLoader::insert_key(&tree, "a", &mut set);
    SysctlConfigLoader::insert_key(&tree, "a", &mut set);
    let mut keys = set.into_keys();
    keys.sort();
    assert_eq!(keys, vec!["a.b", "a.c.d", "x"]);
}

#[test]
fn insert_key_without_parent_key_gives_the_keys_as_they_are() {
    let tree = load_sysctl("a = 1\nb.c = 2\n.f = 3\n").unwrap();
    let mut set = KeySet::new();
    set.insert("old".to_string());
    SysctlConfigLoader::insert_key(&tree, "", &mut set);
    let mut keys = set.into_keys();
    keys.sort();
    assert_eq!(keys, vec![".f", "a", "b.c", "old"]);
    let mut set = KeySet::new();
    SysctlConfigLoader::insert_key(&tree, "top.", &mut set);
    let mut keys = set.into_keys();
    keys.sort();
    assert_eq!(keys, vec!["top...f", "top..a", "top..b.c"]);
}

#[test]
fn messages_name_what_failed() {
    assert_eq!(SysctlError::MalformedLine("foo".to_string()).message(), "invalid line: foo");
    assert_eq!(
        SysctlError::ConflictingPath("a.b".to_string()).message(),
        "conflicting path: key=a.b"
    );
    assert_eq!(SysctlError::UnknownType("text".to_string()).message(), "unknown type: text");
    assert_eq!(surplus(&["z"]).message(), "surplus keys: z");
    assert_eq!(surplus(&["z", "a.b", "c"]).message(), "surplus keys: z, a.b, c");
    assert_eq!(surplus(&[]).message(), "surplus keys: ");
    assert_eq!(SysctlError::MissingKey("w".to_string()).message(), "key not found: key=w");
    assert_eq!(
        mismatch("a", Some("4.2"), SysctlConfigType::Int).message(),
        "invalid value: key=a, value=4.2, type=int"
    );
    assert_eq!(
        mismatch("a", None, SysctlConfigType::Bool).message(),
        "invalid value: key=a, type=bool"
    );
}

#[test]
fn large_config_is_read_and_validated() {
    let mut config = String::new();
    let mut schema = String::new();
    for i in 0..2000 {
        config.push_str(&format!("group{}.item{} = {}\n", i % 40, i, i));
        schema.push_str(&format!("group{}.item{} -> int\n", i % 40, i));
    }
    let deep: Vec<String> = (0..200).map(|i| format!("s{}", i)).collect();
    let deep = deep.join(".");
    config.push_str(&format!("{} = 1.5\n", deep));
    schema.push_str(&format!("{} -> float\n", deep));
    let loader = SysctlConfigLoader::new(&schema).unwrap();
    let tree = loader.load_sysctl(&config).unwrap();
    assert_eq!(leaf(&tree, "group7.item47"), Some("47".to_string()));
    assert_eq!(leaf(&tree, "group39.item1999"), Some("1999".to_string()));
    assert_eq!(leaf(&tree, &deep), Some("1.5".to_string()));
    config.push_str("extra.key = 1\n");
    assert_eq!(loader.load_sysctl(&config).unwrap_err(), surplus(&["extra.key"]));
}
