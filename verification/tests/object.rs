use lore::object::{object_to_json, to_hex, Commit, Entry, Object};
use sha2::{Digest, Sha256};

fn entry(kind: &str, author: &str, ts: u64, text: &str) -> Object {
    Object::Entry(Entry { kind: kind.into(), author: author.into(), timestamp: ts, text: text.into() })
}

#[test]
fn entry_id_is_intent_only() {
    let a = entry("note", "alice", 1, "use sqlite");
    let b = entry("note", "bob", 999, "use sqlite");
    assert_eq!(a.id(), b.id());
}

#[test]
fn entry_id_changes_with_kind_or_text() {
    let base = entry("note", "alice", 1, "use sqlite");
    assert_ne!(base.id(), entry("decision", "alice", 1, "use sqlite").id());
    assert_ne!(base.id(), entry("note", "alice", 1, "use postgres").id());
}

#[test]
fn commit_id_covers_every_field() {
    let mk = |msg: &str, ts: u64| {
        Object::Commit(Commit {
            parents: vec![],
            author: "alice".into(),
            timestamp: ts,
            message: msg.into(),
            entries: vec!["e1".into()],
        })
    };
    assert_eq!(mk("init", 1).id(), mk("init", 1).id());
    assert_ne!(mk("init", 1).id(), mk("init", 2).id());
    assert_ne!(mk("init", 1).id(), mk("start", 1).id());
}

#[test]
fn id_is_lowercase_hex_of_expected_length() {
    let id = entry("note", "alice", 1, "x").id();
    assert_eq!(id.len(), 64);
    assert!(id.bytes().all(|b| b.is_ascii_hexdigit() && !b.is_ascii_uppercase()));
}

#[test]
fn bytes_round_trip_through_json() {
    let obj = entry("prompt", "alice", 7, "make it fast");
    let v: serde_json::Value = serde_json::from_slice(&obj.to_bytes()).unwrap();
    assert_eq!(v["type"], "entry");
    assert_eq!(v["kind"], "prompt");
    assert_eq!(v["author"], "alice");
    assert_eq!(v["timestamp"], 7);
    assert_eq!(v["text"], "make it fast");
    assert_eq!(v.as_object().unwrap().len(), 5);
}

#[test]
fn entry_id_is_sha256_of_kind_and_text() {
    let obj = entry("note", "alice", 1, "use sqlite");
    let mut h = Sha256::new();
    h.update(b"entry\0note\0use sqlite");
    let expected: String = h.finalize().iter().map(|b| format!("{b:02x}")).collect();
    assert_eq!(obj.id(), expected);
}

#[test]
fn commit_id_is_sha256_of_its_compact_json() {
    let c = Commit {
        parents: vec!["p1".into()],
        author: "Ray <ray@x.com>".into(),
        timestamp: 42,
        message: "say \"hi\"\n".into(),
        entries: vec!["e1".into(), "e2".into()],
    };
    let json = r#"{"parents":["p1"],"author":"Ray <ray@x.com>","timestamp":42,"message":"say \"hi\"\n","entries":["e1","e2"]}"#;
    let mut h = Sha256::new();
    h.update(b"commit\0");
    h.update(json.as_bytes());
    let expected: String = h.finalize().iter().map(|b| format!("{b:02x}")).collect();
    assert_eq!(Object::Commit(c).id(), expected);
}

#[test]
fn json_matches_the_stored_layout() {
    let c = Object::Commit(Commit {
        parents: vec![],
        author: "a".into(),
        timestamp: 0,
        message: "m".into(),
        entries: vec!["e".into()],
    });
    assert_eq!(
        object_to_json(&c),
        r#"{"type":"commit","parents":[],"author":"a","timestamp":0,"message":"m","entries":["e"]}"#
    );
    let e = entry("note", "b", 18446744073709551615, "t");
    assert_eq!(
        object_to_json(&e),
        r#"{"type":"entry","kind":"note","author":"b","timestamp":18446744073709551615,"text":"t"}"#
    );
}

#[test]
fn json_escapes_round_trip() {
    let text = "quote \" backslash \\ newline \n tab \t bell \u{7} nul \u{0} del \u{7f} é 😀";
    let obj = entry("note", "al\"ice", 3, text);
    let bytes = obj.to_bytes();
    let v: serde_json::Value = serde_json::from_slice(&bytes).unwrap();
    assert_eq!(v["text"], text);
    assert_eq!(v["author"], "al\"ice");
    let s = String::from_utf8(bytes).unwrap();
    let escaped = serde_json::to_string(text).unwrap();
    assert!(s.contains(&format!("\"text\":{escaped}}}")), "{s}");
}

#[test]
fn hex_is_two_lowercase_digits_per_byte() {
    assert_eq!(to_hex(&[0x00, 0x0f, 0xa0, 0xff]), "000fa0ff");
    assert_eq!(to_hex(&[]), "");
}

#[test]
fn short_ids_keep_ten_bytes() {
    assert_eq!(lore::brief::short("0123456789abcdef"), "0123456789");
    assert_eq!(lore::brief::short("abc"), "abc");
    assert_eq!(lore::brief::short(&"é".repeat(7)), "ééééé");
}
