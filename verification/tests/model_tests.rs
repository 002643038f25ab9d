use deparch::model::{contains_token, normalize, token_scan_would_panic, StrMap};

#[test]
fn normalize_lowercases_and_collapses_separators() {
    assert_eq!(normalize("Foo_Bar.baz"), "foo-bar-baz");
    assert_eq!(normalize("a--__..b"), "a-b");
    assert_eq!(normalize("PyYAML"), "pyyaml");
}

#[test]
fn normalize_trims_whitespace_and_dashes() {
    assert_eq!(normalize("  --Ab__c--  "), "ab-c");
    assert_eq!(normalize("\u{3000}Zope.Interface\t"), "zope-interface");
    assert_eq!(normalize(""), "");
    assert_eq!(normalize("---"), "");
}

#[test]
fn normalize_keeps_non_ascii_case() {
    assert_eq!(normalize("Ébène"), "Ébène");
}

#[test]
fn normalize_is_idempotent_on_ordinary_names() {
    for n in ["Flask", "zope.interface", "@babel/Core", "__init__", "a b"] {
        let once = normalize(n);
        assert_eq!(normalize(&once), once);
    }
}

#[test]
fn normalize_inner_whitespace_exception() {
    // the `-` goes, the blank it hid becomes leading, a second pass trims it
    assert_eq!(normalize("- x"), " x");
    assert_eq!(normalize(" x"), "x");
}

#[test]
fn contains_token_whole_tokens_only() {
    assert!(!contains_token("chalk-next", "chalk"));
    assert!(contains_token("require('chalk');", "chalk"));
    assert!(contains_token("chalk", "chalk"));
    assert!(!contains_token("@scope/chalk", "chalk"));
    assert!(!contains_token("a chalk.b", "chalk"));
    assert!(contains_token("chalk-next chalk", "chalk"));
}

#[test]
fn contains_token_empty_needle() {
    assert!(!contains_token("anything", ""));
    assert!(!contains_token("", ""));
}

#[test]
fn contains_token_non_ascii_haystack() {
    assert!(contains_token("é prettier é", "prettier"));
    assert!(contains_token("é", "é"));
}

#[test]
fn token_scan_panic_case_is_detected() {
    assert!(token_scan_would_panic("aé", "é"));
    assert!(!token_scan_would_panic("é", "é"));
    assert!(!token_scan_would_panic("chalk-next", "chalk"));
}

#[test]
fn str_map_read_gives_back_last_write() {
    let mut m: StrMap<String> = StrMap::new();
    m.insert("a".to_string(), "1".to_string());
    m.insert("b".to_string(), "2".to_string());
    m.insert("a".to_string(), "3".to_string());
    assert_eq!(m.len(), 2);
    assert_eq!(m.get("a"), Some(&"3".to_string()));
    assert_eq!(m.get("b"), Some(&"2".to_string()));
    assert_eq!(m.get("c"), None);
    assert!(m.contains_key("b"));
    assert_eq!(m.index_of("b"), Some(1));
}

#[test]
fn str_map_entries_and_clone() {
    let mut m = StrMap::new();
    m.insert("x".to_string(), "1".to_string());
    m.insert("y".to_string(), "2".to_string());
    m.insert("x".to_string(), "3".to_string());
    let c = m.clone();
    assert_eq!(c.len(), 2);
    let (k0, v0) = c.entry(0);
    assert_eq!((k0.as_str(), v0.as_str()), ("x", "3"));
    let (k1, _) = c.entry(1);
    assert_eq!(k1, "y");
}
