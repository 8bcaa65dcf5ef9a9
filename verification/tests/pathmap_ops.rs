use kvmap::error::PathmapError;
use kvmap::Pathmap;

fn bytes(s: &str) -> Vec<u8> {
    s.as_bytes().to_vec()
}

#[test]
fn init_succeeds_once_then_fails() {
    let mut pm = Pathmap::new();
    assert!(matches!(pm.init_ns("words"), Ok(true)));
    let second = pm.init_ns("words");
    assert!(matches!(second, Err(PathmapError::NamespaceAlreadyExists(ref n)) if n == "words"));
}

#[test]
fn init_succeeds_again_after_delete() {
    let mut pm = Pathmap::new();
    assert!(matches!(pm.init_ns("words"), Ok(true)));
    assert!(matches!(pm.delete_ns("words"), Ok(true)));
    assert!(matches!(pm.init_ns("words"), Ok(true)));
}

#[test]
fn set_then_get_round_trip() {
    let mut pm = Pathmap::new();
    pm.init_ns("ns").unwrap();
    pm.set("ns::a.b", bytes("one")).unwrap();
    assert_eq!(pm.get("ns::a.b").unwrap(), bytes("one"));
}

#[test]
fn second_set_fails_and_keeps_value() {
    let mut pm = Pathmap::new();
    pm.init_ns("ns").unwrap();
    pm.set("ns::a.b", bytes("one")).unwrap();
    let second = pm.set("ns::a.b", bytes("two"));
    assert!(matches!(second, Err(PathmapError::ValueAlreadyExists(ref k)) if k == "a.b"));
    assert_eq!(pm.get("ns::a.b").unwrap(), bytes("one"));
}

#[test]
fn overwrite_twice_keeps_last() {
    let mut pm = Pathmap::new();
    pm.init_ns("ns").unwrap();
    pm.overwrite("ns::k", bytes("v1")).unwrap();
    pm.overwrite("ns::k", bytes("v2")).unwrap();
    assert_eq!(pm.get("ns::k").unwrap(), bytes("v2"));
}

#[test]
fn overwrite_creates_missing_namespace() {
    let mut pm = Pathmap::new();
    assert!(matches!(pm.exists_path("fresh"), Ok(false)));
    pm.overwrite("fresh::k", bytes("v")).unwrap();
    assert!(matches!(pm.exists_path("fresh"), Ok(true)));
    assert_eq!(pm.get("fresh::k").unwrap(), bytes("v"));
}

#[test]
fn delete_absent_key_is_not_an_error() {
    let mut pm = Pathmap::new();
    pm.init_ns("ns").unwrap();
    assert!(pm.delete("ns::never.there").is_ok());
}

#[test]
fn exists_tracks_value_lifecycle() {
    let mut pm = Pathmap::new();
    pm.init_ns("ns").unwrap();
    assert!(matches!(pm.exists_path("ns::a.b"), Ok(false)));
    pm.set("ns::a.b", bytes("v")).unwrap();
    assert!(matches!(pm.exists_path("ns::a.b"), Ok(true)));
    pm.delete("ns::a.b").unwrap();
    assert!(matches!(pm.exists_path("ns::a.b"), Ok(false)));
}

#[test]
fn exists_honours_group_boundary() {
    let mut pm = Pathmap::new();
    pm.init_ns("words").unwrap();
    pm.overwrite("words::englishx", bytes("v")).unwrap();
    // a shared character prefix without a group boundary does not count
    assert!(matches!(pm.exists_path("words::english"), Ok(false)));
    pm.overwrite("words::english.greeting", bytes("Hello")).unwrap();
    assert!(matches!(pm.exists_path("words::english"), Ok(true)));
}

#[test]
fn exists_never_creates_a_namespace() {
    let mut pm = Pathmap::new();
    assert!(matches!(pm.exists_path("ghost::k"), Ok(false)));
    assert!(matches!(pm.exists_path("ghost"), Ok(false)));
    assert!(pm.list_ns().is_empty());
}

#[test]
fn destroy_removes_and_reports_missing() {
    let mut pm = Pathmap::new();
    pm.init_ns("ns").unwrap();
    pm.overwrite("ns::k", bytes("v")).unwrap();
    assert!(matches!(pm.delete_ns("ns"), Ok(true)));
    assert!(matches!(pm.exists_path("ns"), Ok(false)));
    let again = pm.delete_ns("ns");
    assert!(matches!(again, Err(PathmapError::NamespaceNotFound(ref n)) if n == "ns"));
}

#[test]
fn destroyed_namespace_comes_back_empty() {
    let mut pm = Pathmap::new();
    pm.init_ns("ns").unwrap();
    pm.overwrite("ns::k", bytes("v")).unwrap();
    pm.delete_ns("ns").unwrap();
    pm.init_ns("ns").unwrap();
    assert!(matches!(pm.get("ns::k"), Err(PathmapError::ValueNotFound(ref k)) if k == "k"));
}

#[test]
fn words_scenario() {
    let mut pm = Pathmap::new();
    assert!(matches!(pm.init_ns("words"), Ok(true)));
    pm.overwrite("words::english.greeting", bytes("Hello")).unwrap();
    assert!(matches!(pm.exists_path("words::english"), Ok(true)));
    assert!(matches!(pm.exists_path("words::french"), Ok(false)));
    pm.delete("words::english.greeting").unwrap();
    assert!(matches!(pm.exists_path("words::english.greeting"), Ok(false)));
}

#[test]
fn path_without_separator_is_invalid_for_get() {
    let mut pm = Pathmap::new();
    let r = pm.get("loneword");
    assert!(matches!(r, Err(PathmapError::InvalidPath(ref p)) if p == "loneword"));
}

#[test]
fn empty_key_after_separator_is_invalid() {
    let mut pm = Pathmap::new();
    pm.init_ns("ns").unwrap();
    assert!(matches!(pm.get("ns::"), Err(PathmapError::InvalidPath(_))));
    assert!(matches!(pm.set("ns::", bytes("v")), Err(PathmapError::InvalidPath(_))));
    assert!(matches!(pm.overwrite("ns::", bytes("v")), Err(PathmapError::InvalidPath(_))));
    assert!(matches!(pm.exists_path("ns::"), Err(PathmapError::InvalidPath(_))));
}

#[test]
fn operations_on_missing_namespace_report_it() {
    let mut pm = Pathmap::new();
    assert!(matches!(pm.get("nope::k"), Err(PathmapError::NamespaceNotFound(ref n)) if n == "nope"));
    assert!(
        matches!(pm.set("nope::k", bytes("v")), Err(PathmapError::NamespaceNotFound(ref n)) if n == "nope")
    );
    assert!(matches!(pm.delete("nope::k"), Err(PathmapError::NamespaceNotFound(ref n)) if n == "nope"));
    assert!(matches!(pm.manual_cleanup("nope"), Err(PathmapError::NamespaceNotFound(ref n)) if n == "nope"));
}

#[test]
fn get_missing_value_reports_it() {
    let mut pm = Pathmap::new();
    pm.init_ns("ns").unwrap();
    assert!(matches!(pm.get("ns::gone"), Err(PathmapError::ValueNotFound(ref k)) if k == "gone"));
}

#[test]
fn manual_cleanup_keeps_contents() {
    let mut pm = Pathmap::new();
    pm.init_ns("ns").unwrap();
    pm.overwrite("ns::k", bytes("v")).unwrap();
    pm.manual_cleanup("ns").unwrap();
    assert_eq!(pm.get("ns::k").unwrap(), bytes("v"));
}

#[test]
fn list_ns_names_namespaces_in_creation_order() {
    let mut pm = Pathmap::new();
    pm.init_ns("words").unwrap();
    pm.init_ns("users").unwrap();
    assert_eq!(pm.list_ns(), vec!["words".to_string(), "users".to_string()]);
    pm.delete_ns("words").unwrap();
    assert_eq!(pm.list_ns(), vec!["users".to_string()]);
}

#[test]
fn base_path_is_configurable_once() {
    let pm = Pathmap::new();
    assert_eq!(pm.get_db_path("ns"), "/opt/pathmap/ns.sqlite".to_string());
    let pm = Pathmap::new().with_base_path("/tmp/data");
    assert_eq!(pm.get_db_path("ns"), "/tmp/data/ns.sqlite".to_string());
    let pm = Pathmap::new().with_base_path("/tmp/data/");
    assert_eq!(pm.get_db_path("ns"), "/tmp/data/ns.sqlite".to_string());
}

#[test]
fn default_matches_new() {
    let pm = Pathmap::default();
    assert_eq!(pm.get_db_path("ns"), "/opt/pathmap/ns.sqlite".to_string());
    assert!(pm.list_ns().is_empty());
}
