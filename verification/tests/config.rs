use lore::config::{Config, Identity, Remote};
use lore::strmap::StrMap;

#[test]
fn label_with_and_without_email() {
    assert_eq!(Identity::new("Ray", "ray@x.com").label(), "Ray <ray@x.com>");
    assert_eq!(Identity::new("Ray", "").label(), "Ray");
}

#[test]
fn default_config_is_empty() {
    let c = Config::default();
    assert_eq!(c.user.name, "");
    assert_eq!(c.user.email, "");
    assert_eq!(c.remotes.len(), 0);
}

#[test]
fn remotes_are_kept_sorted_by_name() {
    let mut m: StrMap<Remote> = StrMap::new();
    m.insert("upstream".to_string(), Remote { url: "/u".to_string() });
    m.insert("origin".to_string(), Remote { url: "/o".to_string() });
    m.insert("origin".to_string(), Remote { url: "/o2".to_string() });
    assert_eq!(m.keys(), vec!["origin", "upstream"]);
    assert_eq!(m.get("origin").map(|r| r.url.as_str()), Some("/o2"));
    assert!(m.remove("upstream").is_some());
    assert!(m.get("upstream").is_none());
    assert_eq!(m.len(), 1);
}
