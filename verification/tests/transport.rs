use lore::transport::{open, Endpoint};

#[test]
fn open_dispatches_on_scheme() {
    assert!(open("https://lorehub.com/r", None).is_ok());
    assert!(open("/tmp/some/repo", None).is_ok());
    assert!(open("file:///tmp/some/repo", None).is_ok());
}

#[test]
fn open_strips_slashes_and_file_prefix() {
    assert_eq!(
        open("https://lorehub.com/r//", Some("t".to_string())).unwrap(),
        Endpoint::Http { base: "https://lorehub.com/r".to_string(), token: Some("t".to_string()) }
    );
    assert_eq!(
        open("file:///tmp/some/repo", None).unwrap(),
        Endpoint::Local { root: "/tmp/some/repo".to_string() }
    );
    assert_eq!(
        open("http://h", None).unwrap(),
        Endpoint::Http { base: "http://h".to_string(), token: None }
    );
    assert_eq!(open("relative/dir", None).unwrap(), Endpoint::Local { root: "relative/dir".to_string() });
}

#[test]
fn refs_bodies_parse_into_sorted_maps() {
    let m = lore::transport::parse_refs(r#"{"main":"abc","dev":"d\u0065f"}"#).unwrap();
    assert_eq!(m.keys(), vec!["dev", "main"]);
    assert_eq!(m.get("dev").map(String::as_str), Some("def"));
    assert_eq!(m.get("main").map(String::as_str), Some("abc"));
    assert_eq!(lore::transport::parse_refs("{}").unwrap().len(), 0);
    assert!(lore::transport::parse_refs("[1]").is_none());
    assert!(lore::transport::parse_refs(r#"{"main":1}"#).is_none());
    assert!(lore::transport::parse_refs("not json").is_none());
}
