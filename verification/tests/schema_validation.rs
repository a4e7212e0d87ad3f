use sysctl_config::{SysctlConfigLoader, SysctlConfigValue};

#[test]
fn ok_str() {
    let test_data_value = "hoge = fuga
piyo = hoge
";

    let test_data_schema = "hoge -> string
piyo -> string
";

    let loader = SysctlConfigLoader::new(test_data_schema).unwrap();

    let map = loader.load_sysctl(test_data_value).unwrap();

    let hoge = map.get("hoge").unwrap();
    if let SysctlConfigValue::String(v) = hoge {
        assert_eq!(v, "fuga");
    } else {
        panic!("expected SysctlConfigValue::String, but got SysctlConfigValue::SysctlConfig: key={}", "hoge");
    }

    let piyo = map.get("piyo").unwrap();
    if let SysctlConfigValue::String(v) = piyo {
        assert_eq!(v, "hoge");
    } else {
        panic!("expected SysctlConfigValue::String, but got SysctlConfigValue::SysctlConfig: key={}", "piyo");
    }
}

#[test]
fn ok_nested_str() {
    let test_data_value = "hoge.fuga = hoge
hoge.piyo = hoge
";

    let test_data_schema = "hoge.fuga -> string
hoge.piyo -> string
";

    let loader = SysctlConfigLoader::new(test_data_schema).unwrap();

    let map = loader.load_sysctl(test_data_value).unwrap();

    let hoge = map.get("hoge").unwrap();
    if let SysctlConfigValue::SysctlConfig(hoge) = hoge {
        let fuga = hoge.get("fuga").unwrap();
        if let SysctlConfigValue::String(v) = fuga {
            assert_eq!(v, "hoge");
        } else {
            panic!("expected SysctlConfigValue::String, but got SysctlConfigValue::SysctlConfig: key={}", "fuga");
        }

        let piyo = hoge.get("piyo").unwrap();
        if let SysctlConfigValue::String(v) = piyo {
            assert_eq!(v, "hoge");
        } else {
            panic!("expected SysctlConfigValue::String, but got SysctlConfigValue::SysctlConfig: key={}", "piyo");
        }
    } else {
        panic!("expected SysctlConfigValue::SysctlConfig, but got SysctlConfigValue::String: key={}", "hoge");
    }
}

#[test]
fn ok_int() {
    let test_data_value = "hoge = 1
piyo = 2
";

    let test_data_schema = "hoge -> int
piyo -> int
";

    let loader = SysctlConfigLoader::new(test_data_schema).unwrap();

    let map = loader.load_sysctl(test_data_value).unwrap();

    let hoge = map.get("hoge").unwrap();
    if let SysctlConfigValue::String(v) = hoge {
        assert_eq!(v, "1");
    } else {
        panic!("expected SysctlConfigValue::String, but got SysctlConfigValue::SysctlConfig: key={}", "hoge");
    }

    let piyo = map.get("piyo").unwrap();
    if let SysctlConfigValue::String(v) = piyo {
        assert_eq!(v, "2");
    } else {
        panic!("expected SysctlConfigValue::String, but got SysctlConfigValue::SysctlConfig: key={}", "piyo");
    }
}

#[test]
fn ok_float() {
    let test_data_value = "hoge = 1.1
piyo = 2
";

    let test_data_schema = "hoge -> float
piyo -> float
";

    let loader = SysctlConfigLoader::new(test_data_schema).unwrap();

    let map = loader.load_sysctl(test_data_value).unwrap();

    let hoge = map.get("hoge").unwrap();
    if let SysctlConfigValue::String(v) = hoge {
        assert_eq!(v, "1.1");
    } else {
        panic!("expected SysctlConfigValue::String, but got SysctlConfigValue::SysctlConfig: key={}", "hoge");
    }

    let piyo = map.get("piyo").unwrap();
    if let SysctlConfigValue::String(v) = piyo {
        assert_eq!(v, "2");
    } else {
        panic!("expected SysctlConfigValue::String, but got SysctlConfigValue::SysctlConfig: key={}", "piyo");
    }
}

#[test]
fn ok_bool() {
    let test_data_value = "hoge = true
piyo = false
";

    let test_data_schema = "hoge -> bool
piyo -> bool
";

    let loader = SysctlConfigLoader::new(test_data_schema).unwrap();

    let map = loader.load_sysctl(test_data_value).unwrap();

    let hoge = map.get("hoge").unwrap();
    if let SysctlConfigValue::String(v) = hoge {
        assert_eq!(v, "true");
    } else {
        panic!("expected SysctlConfigValue::String, but got SysctlConfigValue::SysctlConfig: key={}", "hoge");
    }

    let piyo = map.get("piyo").unwrap();
    if let SysctlConfigValue::String(v) = piyo {
        assert_eq!(v, "false");
    } else {
        panic!("expected SysctlConfigValue::String, but got SysctlConfigValue::SysctlConfig: key={}", "piyo");
    }
}

#[test]
fn ng_int() {
    let test_data_value = "hoge = fuga
piyo = hoge
";

    let test_data_schema = "hoge -> int
piyo -> string
";

    let loader = SysctlConfigLoader::new(test_data_schema).unwrap();

    let result = loader.load_sysctl(test_data_value);
    assert!(result.is_err());
}

#[test]
fn ng_float() {
    let test_data_value = "hoge = true
piyo = hoge
";

    let test_data_schema = "hoge -> float
piyo -> string
";

    let loader = SysctlConfigLoader::new(test_data_schema).unwrap();

    let result = loader.load_sysctl(test_data_value);
    assert!(result.is_err());
}

#[test]
fn ng_bool() {
    let test_data_value = "hoge = 1
piyo = hoge
";

    let test_data_schema = "hoge -> bool
piyo -> string
";

    let loader = SysctlConfigLoader::new(test_data_schema).unwrap();

    let result = loader.load_sysctl(test_data_value);
    assert!(result.is_err());
}

#[test]
fn ng_missing() {
    let test_data_value = "hoge = 1
piyo = hoge
";

    let test_data_schema = "hoge -> int
piyo -> string
fuga -> string
";

    let loader = SysctlConfigLoader::new(test_data_schema).unwrap();

    let result = loader.load_sysctl(test_data_value);
    assert!(result.is_err());
}

#[test]
fn ng_missing_nested() {
    let test_data_value = "hoge.fuga = 1
piyo = false
";

    let test_data_schema = "hoge.fuga -> float
hoge.piyo -> bool
piyo -> string
";

    let loader = SysctlConfigLoader::new(test_data_schema).unwrap();

    let result = loader.load_sysctl(test_data_value);
    assert!(result.is_err());
}

#[test]
fn ng_surplus() {
    let test_data_value = "hoge = 1
piyo = false
";

    let test_data_schema = "hoge -> int
";

    let loader = SysctlConfigLoader::new(test_data_schema).unwrap();

    let result = loader.load_sysctl(test_data_value);
    assert!(result.is_err());
}

#[test]
fn ng_surplus_nested() {
    let test_data_value = "hoge.fuga = 1
hoge.piyo = false
piyo = 1.1
fuga.fuga = fuga
";

    let test_data_schema = "hoge.fuga -> float
hoge.piyo -> bool
piyo -> float
";

    let loader = SysctlConfigLoader::new(test_data_schema).unwrap();

    let result = loader.load_sysctl(test_data_value);
    assert!(result.is_err());
}

