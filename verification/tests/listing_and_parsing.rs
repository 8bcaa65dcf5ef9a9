use kvmap::error::PathmapError;
use kvmap::listing::classify;
use kvmap::path::parse_path;
use kvmap::scheduler::CleanupTracker;
use kvmap::Pathmap;

fn bytes(s: &str) -> Vec<u8> {
    s.as_bytes().to_vec()
}

#[test]
fn parse_splits_at_first_separator() {
    assert_eq!(parse_path("ns::a.b").unwrap(), ("ns", "a.b"));
    assert_eq!(parse_path("ns::a::b").unwrap(), ("ns", "a::b"));
    assert_eq!(parse_path("::key").unwrap(), ("", "key"));
    assert_eq!(parse_path("ns::").unwrap(), ("ns", ""));
}

#[test]
fn parse_rejects_missing_separator() {
    assert!(matches!(parse_path("plain"), Err(PathmapError::InvalidPath(ref p)) if p == "plain"));
    assert!(matches!(parse_path("a.b:c"), Err(PathmapError::InvalidPath(_))));
    assert!(matches!(parse_path(""), Err(PathmapError::InvalidPath(_))));
}

#[test]
fn listing_of_namespace_root() {
    let mut pm = Pathmap::new();
    pm.init_ns("ns").unwrap();
    pm.overwrite("ns::a.b", bytes("1")).unwrap();
    pm.overwrite("ns::a.c", bytes("2")).unwrap();
    pm.overwrite("ns::d", bytes("3")).unwrap();
    let root = pm.list("ns").unwrap();
    assert_eq!(root.groups, vec!["a".to_string()]);
    assert_eq!(root.values, vec!["d".to_string()]);
}

#[test]
fn listing_of_group() {
    let mut pm = Pathmap::new();
    pm.init_ns("ns").unwrap();
    pm.overwrite("ns::a.b", bytes("1")).unwrap();
    pm.overwrite("ns::a.c", bytes("2")).unwrap();
    pm.overwrite("ns::d", bytes("3")).unwrap();
    let inner = pm.list("ns::a").unwrap();
    assert!(inner.groups.is_empty());
    assert_eq!(inner.values, vec!["b".to_string(), "c".to_string()]);
}

#[test]
fn listing_of_nested_groups() {
    let mut pm = Pathmap::new();
    pm.overwrite("words::english.greeting", bytes("Hello")).unwrap();
    pm.overwrite("words::english.farewell", bytes("Goodbye")).unwrap();
    pm.overwrite("words::french.greeting", bytes("Bonjour")).unwrap();
    pm.overwrite("words::config", bytes("42")).unwrap();
    let root = pm.list("words").unwrap();
    assert_eq!(root.groups, vec!["english".to_string(), "french".to_string()]);
    assert_eq!(root.values, vec!["config".to_string()]);
    let english = pm.list("words::english").unwrap();
    assert!(english.groups.is_empty());
    assert_eq!(english.values, vec!["greeting".to_string(), "farewell".to_string()]);
}

#[test]
fn listing_ignores_boundary_free_prefixes() {
    let mut pm = Pathmap::new();
    pm.overwrite("ns::abc.x", bytes("1")).unwrap();
    pm.overwrite("ns::ab", bytes("2")).unwrap();
    let l = pm.list("ns::ab").unwrap();
    // `abc.x` shares characters with `ab` but is not below it
    assert!(l.groups.is_empty());
    assert!(l.values.is_empty());
}

#[test]
fn listing_of_missing_namespace_fails() {
    let mut pm = Pathmap::new();
    assert!(matches!(pm.list("nope"), Err(PathmapError::NamespaceNotFound(ref n)) if n == "nope"));
    assert!(matches!(pm.list("nope::g"), Err(PathmapError::NamespaceNotFound(ref n)) if n == "nope"));
}

#[test]
fn classify_deduplicates_in_first_seen_order() {
    let keys = vec![
        "b.one".to_string(),
        "a.two".to_string(),
        "b.three".to_string(),
        "plain".to_string(),
        "plain".to_string(),
    ];
    let l = classify(&keys, "");
    assert_eq!(l.groups, vec!["b".to_string(), "a".to_string()]);
    assert_eq!(l.values, vec!["plain".to_string()]);
}

#[test]
fn classify_with_deep_nesting() {
    let keys = vec!["g.sub.leaf".to_string(), "g.sub2.leaf".to_string(), "g.direct".to_string()];
    let l = classify(&keys, "g");
    assert_eq!(l.groups, vec!["sub".to_string(), "sub2".to_string()]);
    assert_eq!(l.values, vec!["direct".to_string()]);
}

#[test]
fn tracker_first_sighting_only_records() {
    let mut t = CleanupTracker::new();
    assert!(!t.due("ns", 1000, 50));
}

#[test]
fn tracker_reports_idle_namespace_and_resets() {
    let mut t = CleanupTracker::new();
    assert!(!t.due("ns", 1000, 50));
    // not yet past the threshold
    assert!(!t.due("ns", 1050, 50));
    // idle beyond the threshold: due, and the record resets to now
    assert!(t.due("ns", 1101, 50));
    assert!(!t.due("ns", 1102, 50));
    assert!(t.due("ns", 1153, 50));
}

#[test]
fn tracker_handles_namespaces_independently() {
    let mut t = CleanupTracker::new();
    assert!(!t.due("a", 0, 10));
    assert!(!t.due("b", 5, 10));
    assert!(t.due("a", 11, 10));
    assert!(!t.due("b", 11, 10));
    assert!(t.due("b", 16, 10));
}

#[test]
fn tracker_tolerates_clock_going_backwards() {
    let mut t = CleanupTracker::new();
    assert!(!t.due("ns", 1000, 50));
    assert!(!t.due("ns", 900, 50));
}

#[test]
fn listing_rejects_empty_group_path() {
    let mut pm = Pathmap::new();
    pm.init_ns("ns").unwrap();
    assert!(matches!(pm.list("ns::"), Err(PathmapError::InvalidPath(ref p)) if p == "ns::"));
}

#[test]
fn listing_of_empty_namespace_is_empty() {
    let mut pm = Pathmap::new();
    pm.init_ns("ns").unwrap();
    let l = pm.list("ns").unwrap();
    assert!(l.groups.is_empty());
    assert!(l.values.is_empty());
}

#[test]
fn set_works_in_namespace_created_by_overwrite() {
    let mut pm = Pathmap::new();
    pm.overwrite("ns::a", bytes("1")).unwrap();
    pm.set("ns::b", bytes("2")).unwrap();
    assert_eq!(pm.get("ns::b").unwrap(), bytes("2"));
}
