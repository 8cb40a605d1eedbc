use estrace::patterns::{
    PatternRegistry, add_pattern, set_active_pattern, delete_pattern, get_patterns,
    get_active_patterns, initialize_patterns, test_regex_pattern, DEFAULT_UFS_PATTERN_NAME,
    DEFAULT_BLOCK_PATTERN_NAME, DEFAULT_BLOCK_REGEX, DEFAULT_UFS_REGEX, ACTIVE_UFS_REGEX,
};

fn fresh_registry() -> PatternRegistry {
    PatternRegistry::new().expect("default patterns compile")
}

#[test]
fn new_registry_has_default_active_patterns_and_no_entries() {
    let reg = fresh_registry();
    assert!(get_patterns(&reg, None).unwrap().is_empty());
    let active = get_active_patterns(&reg);
    assert_eq!(active.len(), 2);
    assert_eq!(active[0].0, "ufs");
    assert_eq!(active[0].1.name, DEFAULT_UFS_PATTERN_NAME);
    assert_eq!(active[0].1.pattern, ACTIVE_UFS_REGEX);
    assert!(active[0].1.is_active);
    assert_eq!(active[1].0, "block");
    assert_eq!(active[1].1.pattern_type, "block");
    assert_eq!(active[1].1.pattern, DEFAULT_BLOCK_REGEX);
}

#[test]
fn initialize_registers_both_defaults() {
    let mut reg = fresh_registry();
    initialize_patterns(&mut reg).unwrap();
    let all = get_patterns(&reg, None).unwrap();
    assert_eq!(all.len(), 2);
    assert_eq!(all[0].name, DEFAULT_UFS_PATTERN_NAME);
    assert_eq!(all[0].pattern_type, "ufs");
    assert_eq!(all[0].pattern, DEFAULT_UFS_REGEX);
    assert!(all[0].is_active);
    assert_eq!(all[1].name, DEFAULT_BLOCK_PATTERN_NAME);
    assert!(all[1].is_active);
    initialize_patterns(&mut reg).unwrap();
    assert_eq!(get_patterns(&reg, None).unwrap().len(), 2);
}

#[test]
fn added_pattern_can_be_made_active() {
    let mut reg = fresh_registry();
    add_pattern(&mut reg, "mine".to_string(), "ufs".to_string(), r"(?P<time>\d+)".to_string()).unwrap();
    set_active_pattern(&mut reg, "mine".to_string(), "ufs".to_string()).unwrap();
    let active = get_active_patterns(&reg);
    assert_eq!(active[0].1.name, "mine");
    assert_eq!(active[0].1.pattern, r"(?P<time>\d+)");
    assert_eq!(reg.active_ufs_pattern().source(), r"(?P<time>\d+)");
    let listed = get_patterns(&reg, Some("ufs".to_string())).unwrap();
    assert_eq!(listed.len(), 1);
    assert!(listed[0].is_active);
}

#[test]
fn adding_an_existing_name_replaces_its_expression() {
    let mut reg = fresh_registry();
    add_pattern(&mut reg, "p".to_string(), "block".to_string(), "a".to_string()).unwrap();
    add_pattern(&mut reg, "p".to_string(), "block".to_string(), "b".to_string()).unwrap();
    let listed = get_patterns(&reg, Some("block".to_string())).unwrap();
    assert_eq!(listed.len(), 1);
    assert_eq!(listed[0].pattern, "b");
    assert!(!listed[0].is_active);
}

#[test]
fn invalid_regex_is_refused_before_the_kind() {
    let mut reg = fresh_registry();
    let err = add_pattern(&mut reg, "bad".to_string(), "nope".to_string(), "(".to_string()).unwrap_err();
    assert!(err.starts_with("Invalid regex pattern: "));
    assert!(get_patterns(&reg, None).unwrap().is_empty());
}

#[test]
fn unsupported_kind_is_refused() {
    let mut reg = fresh_registry();
    assert_eq!(
        add_pattern(&mut reg, "x".to_string(), "disk".to_string(), "a".to_string()),
        Err("Unsupported pattern type: disk".to_string())
    );
    assert_eq!(
        set_active_pattern(&mut reg, "x".to_string(), "disk".to_string()),
        Err("Unsupported pattern type: disk".to_string())
    );
    assert_eq!(
        delete_pattern(&mut reg, "x".to_string(), "disk".to_string()),
        Err("Unsupported pattern type: disk".to_string())
    );
    assert_eq!(
        get_patterns(&reg, Some("disk".to_string())).err(),
        Some("Unsupported pattern type: disk".to_string())
    );
}

#[test]
fn unknown_name_is_not_found() {
    let mut reg = fresh_registry();
    assert_eq!(
        set_active_pattern(&mut reg, "ghost".to_string(), "ufs".to_string()),
        Err("Pattern 'ghost' not found".to_string())
    );
    assert_eq!(
        delete_pattern(&mut reg, "ghost".to_string(), "block".to_string()),
        Err("Pattern 'ghost' not found".to_string())
    );
}

#[test]
fn active_pattern_cannot_be_deleted_but_others_can() {
    let mut reg = fresh_registry();
    initialize_patterns(&mut reg).unwrap();
    assert_eq!(
        delete_pattern(&mut reg, DEFAULT_UFS_PATTERN_NAME.to_string(), "ufs".to_string()),
        Err("Cannot delete an active pattern".to_string())
    );
    add_pattern(&mut reg, "other".to_string(), "ufs".to_string(), "x".to_string()).unwrap();
    delete_pattern(&mut reg, "other".to_string(), "ufs".to_string()).unwrap();
    assert_eq!(
        set_active_pattern(&mut reg, "other".to_string(), "ufs".to_string()),
        Err("Pattern 'other' not found".to_string())
    );
    assert_eq!(get_patterns(&reg, Some("ufs".to_string())).unwrap().len(), 1);
}

#[test]
fn regex_test_reports_matches_and_named_groups() {
    let r = test_regex_pattern("a1\n\n  \nb22\nc".to_string(), r"(?P<letter>[a-z])(?P<num>\d+)?".to_string());
    assert!(r.success);
    assert!(r.error.is_none());
    let m = r.matches.unwrap();
    assert_eq!(m.len(), 3);
    assert_eq!(m[0].full_match, "a1");
    assert_eq!(m[0].captures, vec!["a1".to_string(), "a".to_string(), "1".to_string()]);
    assert_eq!(m[0].groups, Some(vec![("letter".to_string(), "a".to_string()), ("num".to_string(), "1".to_string())]));
    assert_eq!(m[2].full_match, "c");
    assert_eq!(m[2].captures, vec!["c".to_string(), "c".to_string(), "".to_string()]);
    assert_eq!(m[2].groups, Some(vec![("letter".to_string(), "c".to_string())]));
}

#[test]
fn regex_test_without_names_or_matches() {
    let r = test_regex_pattern("xyz".to_string(), r"\d".to_string());
    assert!(r.success);
    assert!(r.matches.is_none());
    let r = test_regex_pattern("a1".to_string(), r"[a-z]\d".to_string());
    let m = r.matches.unwrap();
    assert!(m[0].groups.is_none());
    assert_eq!(m[0].captures, vec!["a1".to_string()]);
}

#[test]
fn regex_test_reports_a_bad_pattern() {
    let r = test_regex_pattern("abc".to_string(), "[".to_string());
    assert!(!r.success);
    assert!(r.matches.is_none());
    assert!(r.error.unwrap().starts_with("Invalid regex pattern: "));
}
