use lore::config::{Config, Identity, Remote};
use lore::error::LoreError;
use lore::repo::{index_text, parse_index, parse_ref, ref_text, Merge, Repo};

fn who(name: &str) -> Identity {
    Identity::new(name, &format!("{name}@test"))
}

#[test]
fn init_lays_out_the_store() {
    let r = Repo::init();
    assert_eq!(r.head(), "ref: refs/heads/main\n");
    assert_eq!(r.object_count(), 0);
    assert_eq!(r.refs().len(), 0);
    assert_eq!(r.remote_refs().len(), 0);
    assert!(r.index().is_empty());
}

#[test]
fn config_round_trips_on_disk() {
    let mut r = Repo::init();
    assert_eq!(*r.config(), Config::default());
    let mut c = Config::default();
    c.user = who("ray");
    c.remotes.insert("origin".to_string(), Remote { url: "/srv".into() });
    let mut expected = Config::default();
    expected.user = who("ray");
    expected.remotes.insert("origin".to_string(), Remote { url: "/srv".into() });
    r.save_config(c);
    assert_eq!(*r.config(), expected);
}

#[test]
fn add_stages_and_dedupes() {
    let mut r = Repo::init();
    r.add(&who("alice"), "use sqlite", 1).unwrap();
    r.add(&who("bob"), "use sqlite", 2).unwrap();
    r.add(&who("alice"), "ship it", 3).unwrap();
    let staged = r.status().unwrap().staged;
    assert_eq!(staged.len(), 2);
}

#[test]
fn empty_intent_is_rejected() {
    let mut r = Repo::init();
    assert!(r.add(&who("alice"), "   ", 1).is_err());
    assert_eq!(r.add(&who("alice"), "\n\t", 1), Err(LoreError::EmptyIntent));
}

#[test]
fn commit_advances_head_and_clears_index() {
    let mut r = Repo::init();
    r.add(&who("alice"), "a", 1).unwrap();
    let c = r.commit(&who("alice"), "first", 10).unwrap();
    assert_eq!(r.head_commit().unwrap(), Some(c.clone()));
    assert!(r.status().unwrap().staged.is_empty());
    assert_eq!(r.read_commit(&c).unwrap().parents, Vec::<String>::new());
}

#[test]
fn identity_is_recorded_in_the_brief() {
    let mut r = Repo::init();
    r.add(&Identity::new("Ray", "ray@x.com"), "a", 1).unwrap();
    r.commit(&who("alice"), "c", 10).unwrap();
    assert!(r.materialize("HEAD", 100).unwrap().contains("Ray <ray@x.com>"));
}

#[test]
fn second_commit_links_to_first() {
    let mut r = Repo::init();
    r.add(&who("alice"), "a", 1).unwrap();
    let c1 = r.commit(&who("alice"), "first", 10).unwrap();
    r.add(&who("alice"), "b", 2).unwrap();
    let c2 = r.commit(&who("alice"), "second", 20).unwrap();
    assert_eq!(r.read_commit(&c2).unwrap().parents, vec![c1]);
}

#[test]
fn commit_with_nothing_staged_errors() {
    let mut r = Repo::init();
    assert!(r.commit(&who("alice"), "x", 1).is_err());
    assert_eq!(r.commit(&who("alice"), "x", 1), Err(LoreError::NothingStaged));
}

#[test]
fn log_is_newest_first() {
    let mut r = Repo::init();
    r.add(&who("alice"), "a", 1).unwrap();
    r.commit(&who("alice"), "first", 10).unwrap();
    r.add(&who("alice"), "b", 2).unwrap();
    r.commit(&who("alice"), "second", 20).unwrap();
    let msgs: Vec<_> = r.log().unwrap().into_iter().map(|(_, c)| c.message).collect();
    assert_eq!(msgs, vec!["second", "first"]);
}

#[test]
fn log_is_empty_before_any_commit() {
    let r = Repo::init();
    assert!(r.log().unwrap().is_empty());
}

#[test]
fn branch_and_checkout() {
    let mut r = Repo::init();
    r.add(&who("alice"), "a", 1).unwrap();
    r.commit(&who("alice"), "first", 10).unwrap();
    r.create_branch("feature").unwrap();
    assert!(r.create_branch("feature").is_err());
    assert_eq!(r.branches().unwrap(), vec!["feature", "main"]);
    r.checkout("feature", false).unwrap();
    assert_eq!(r.current_branch().unwrap(), "feature");
    assert!(r.checkout("ghost", false).is_err());
}

#[test]
fn checkout_dash_b_creates() {
    let mut r = Repo::init();
    r.add(&who("alice"), "a", 1).unwrap();
    r.commit(&who("alice"), "first", 10).unwrap();
    r.checkout("feature", true).unwrap();
    assert_eq!(r.current_branch().unwrap(), "feature");
}

#[test]
fn branch_without_commits_errors() {
    let mut r = Repo::init();
    assert!(r.create_branch("x").is_err());
    assert_eq!(r.create_branch("x"), Err(LoreError::NoCommitsToBranch));
}

#[test]
fn merge_fast_forwards() {
    let mut r = Repo::init();
    r.add(&who("alice"), "a", 1).unwrap();
    let base = r.commit(&who("alice"), "base", 10).unwrap();
    r.checkout("feature", true).unwrap();
    r.add(&who("alice"), "b", 2).unwrap();
    let tip = r.commit(&who("alice"), "feat", 20).unwrap();
    r.checkout("main", false).unwrap();
    assert_eq!(r.head_commit().unwrap(), Some(base));
    assert_eq!(r.merge("feature", &who("alice"), "m", 30).unwrap(), Merge::FastForward(tip.clone()));
    assert_eq!(r.head_commit().unwrap(), Some(tip));
}

#[test]
fn merge_up_to_date() {
    let mut r = Repo::init();
    r.add(&who("alice"), "a", 1).unwrap();
    r.commit(&who("alice"), "base", 10).unwrap();
    r.create_branch("feature").unwrap();
    assert_eq!(r.merge("feature", &who("alice"), "m", 30).unwrap(), Merge::UpToDate);
}

#[test]
fn merge_creates_a_merge_commit_and_unions_intent() {
    let mut r = Repo::init();
    r.add(&who("alice"), "base", 1).unwrap();
    r.commit(&who("alice"), "base", 10).unwrap();
    r.checkout("feature", true).unwrap();
    r.add(&who("alice"), "from-feature", 2).unwrap();
    r.commit(&who("alice"), "feat", 20).unwrap();
    r.checkout("main", false).unwrap();
    r.add(&who("alice"), "from-main", 3).unwrap();
    r.commit(&who("alice"), "main work", 25).unwrap();

    let outcome = r.merge("feature", &who("alice"), "merge feature", 30).unwrap();
    let Merge::Merged(mid) = outcome else { panic!("expected a merge commit") };
    assert_eq!(r.read_commit(&mid).unwrap().parents.len(), 2);

    let brief = r.materialize("HEAD", 99).unwrap();
    assert!(brief.contains("base"));
    assert!(brief.contains("from-feature"));
    assert!(brief.contains("from-main"));
}

#[test]
fn merge_of_a_missing_branch_errors() {
    let mut r = Repo::init();
    r.add(&who("alice"), "a", 1).unwrap();
    r.commit(&who("alice"), "base", 10).unwrap();
    assert_eq!(
        r.merge("ghost", &who("alice"), "m", 30),
        Err(LoreError::NothingToMerge("ghost".to_string()))
    );
}

#[test]
fn materialize_is_chronological_and_deduped() {
    let mut r = Repo::init();
    r.add(&who("alice"), "second", 20).unwrap();
    r.add(&who("bob"), "first", 10).unwrap();
    r.add(&who("carol"), "first", 11).unwrap();
    r.commit(&who("alice"), "c", 30).unwrap();
    let brief = r.materialize("HEAD", 100).unwrap();
    assert_eq!(brief.matches("first").count(), 1);
    assert!(brief.find("first").unwrap() < brief.find("second").unwrap());
    assert!(brief.contains("Intent entries: 2"));
}

#[test]
fn resolve_by_head_branch_and_prefix() {
    let mut r = Repo::init();
    r.add(&who("alice"), "a", 1).unwrap();
    let c = r.commit(&who("alice"), "first", 10).unwrap();
    assert_eq!(r.resolve("HEAD").unwrap(), c);
    assert_eq!(r.resolve("main").unwrap(), c);
    assert_eq!(r.resolve(&c[..8]).unwrap(), c);
    assert!(r.resolve("nope").is_err());
}

#[test]
fn resolve_handles_remote_tracking_ref() {
    let mut r = Repo::init();
    r.add(&who("alice"), "a", 1).unwrap();
    let c = r.commit(&who("alice"), "first", 10).unwrap();
    r.write_remote_ref("origin", "main", &c);
    assert_eq!(r.read_remote_ref("origin", "main"), Some(c.clone()));
    assert_eq!(r.resolve("origin/main").unwrap(), c);
}

#[test]
fn resolve_before_any_commit_errors() {
    let r = Repo::init();
    assert_eq!(r.resolve("HEAD"), Err(LoreError::HeadHasNoCommits));
    assert_eq!(r.resolve("abc"), Err(LoreError::UnknownRef("abc".to_string())));
}

#[test]
fn materialize_specific_commit_excludes_later_intent() {
    let mut r = Repo::init();
    r.add(&who("alice"), "early", 1).unwrap();
    let first = r.commit(&who("alice"), "first", 10).unwrap();
    r.add(&who("alice"), "late", 2).unwrap();
    r.commit(&who("alice"), "second", 20).unwrap();
    let brief = r.materialize(&first, 100).unwrap();
    assert!(brief.contains("early"));
    assert!(!brief.contains("late"));
}

#[test]
fn materialize_head_follows_the_current_branch() {
    let mut r = Repo::init();
    r.add(&who("alice"), "on main", 1).unwrap();
    r.commit(&who("alice"), "main", 10).unwrap();
    r.checkout("feature", true).unwrap();
    r.add(&who("alice"), "on feature", 2).unwrap();
    r.commit(&who("alice"), "feat", 20).unwrap();

    assert!(r.materialize("HEAD", 100).unwrap().contains("on feature"));
    r.checkout("main", false).unwrap();
    let on_main = r.materialize("HEAD", 100).unwrap();
    assert!(on_main.contains("on main"));
    assert!(!on_main.contains("on feature"));
}

#[test]
fn long_intent_round_trips_in_full() {
    let mut r = Repo::init();
    let long = "x".repeat(5000);
    r.add(&who("alice"), &long, 1).unwrap();
    r.commit(&who("alice"), "c", 10).unwrap();
    assert!(r.materialize("HEAD", 100).unwrap().contains(&long));
}

#[test]
fn materialize_orders_intent_within_the_same_second() {
    let mut r = Repo::init();
    let s = 1_700_000_000 * 1_000_000_000;
    r.add(&who("alice"), "make-red", s + 10).unwrap();
    r.add(&who("alice"), "swap", s + 20).unwrap();
    r.commit(&who("alice"), "c", s + 30).unwrap();
    let brief = r.materialize("HEAD", s + 40).unwrap();
    assert!(brief.find("make-red").unwrap() < brief.find("swap").unwrap());
}

#[test]
fn show_returns_commit_and_entries() {
    let mut r = Repo::init();
    r.add(&who("ray"), "use sqlite", 1).unwrap();
    let c = r.commit(&who("ray"), "a long message show keeps in full", 10).unwrap();
    let v = r.show("HEAD").unwrap();
    assert_eq!(v.id, c);
    assert_eq!(v.commit.message, "a long message show keeps in full");
    assert_eq!(v.entries.len(), 1);
    assert_eq!(v.entries[0].1.text, "use sqlite");
}

#[test]
fn brief_has_header_and_entry_lines() {
    let mut r = Repo::init();
    r.add(&Identity::new("Ray", ""), "  use sqlite  ", 0).unwrap();
    let c = r.commit(&who("ray"), "c", 0).unwrap();
    let brief = r.materialize("HEAD", 0).unwrap();
    assert!(brief.starts_with("# Lore Materialization\n"), "{brief}");
    assert!(brief.contains(&c[..10]), "{brief}");
    assert!(brief.contains("Intent entries: 1"), "{brief}");
    assert!(brief.contains("Ray"), "{brief}");
    assert!(brief.contains("1970-01-01 00:00:00 UTC"), "{brief}");
    assert!(brief.contains("use sqlite\n\n"), "{brief}");
}

#[test]
fn refs_and_index_files_round_trip() {
    assert_eq!(parse_ref("abc\n"), Some("abc".to_string()));
    assert_eq!(parse_ref("  \n"), None);
    assert_eq!(ref_text("abc"), "abc\n");
    let ids = vec!["a".to_string(), "b".to_string()];
    assert_eq!(parse_index(&index_text(&ids)), ids);
    assert_eq!(parse_index("a\n\n  b  \n"), ids);
    assert!(parse_index("").is_empty());
}

#[test]
fn checked_write_refuses_bytes_that_hash_elsewhere() {
    let mut r = Repo::init();
    let obj = lore::object::Object::Entry(lore::object::Entry {
        kind: "note".into(),
        author: "a".into(),
        timestamp: 1,
        text: "t".into(),
    });
    let id = obj.id();
    assert!(r.write_object_checked("deadbeef", &obj).is_err());
    assert!(!r.has_object(&id));
    assert!(r.write_object_checked(&id, &obj).is_ok());
    assert!(r.has_object(&id));
    assert_eq!(r.read_object(&id).unwrap(), obj);
}

#[test]
fn is_ancestor_follows_parents() {
    let mut r = Repo::init();
    r.add(&who("a"), "a", 1).unwrap();
    let c1 = r.commit(&who("a"), "1", 10).unwrap();
    r.add(&who("a"), "b", 2).unwrap();
    let c2 = r.commit(&who("a"), "2", 20).unwrap();
    assert!(r.is_ancestor(&c1, &c2).unwrap());
    assert!(!r.is_ancestor(&c2, &c1).unwrap());
    assert_eq!(r.reachable(&c2).unwrap().len(), 2);
}

#[test]
fn ref_names_that_are_directories_or_nested_are_refused() {
    let mut r = Repo::init();
    r.add(&who("alice"), "a", 1).unwrap();
    r.commit(&who("alice"), "first", 10).unwrap();
    assert_eq!(r.resolve(""), Err(LoreError::RefIsDirectory("".to_string())));
    assert_eq!(r.resolve(".."), Err(LoreError::RefIsDirectory("..".to_string())));
    assert_eq!(r.create_branch("."), Err(LoreError::BranchExists(".".to_string())));
    assert_eq!(r.create_branch("a/b"), Err(LoreError::NoRefDirectory("a/b".to_string())));
    assert_eq!(r.checkout("x/y", true), Err(LoreError::NoRefDirectory("x/y".to_string())));
    assert_eq!(r.branches().unwrap(), vec!["main"]);
}

#[test]
fn a_blank_branch_ref_exists_but_points_nowhere() {
    let mut refs = lore::strmap::StrMap::new();
    refs.insert("main".to_string(), String::new());
    refs.insert("idle".to_string(), String::new());
    let mut r = Repo::from_parts(
        lore::strmap::StrMap::new(),
        refs,
        lore::strmap::StrMap::new(),
        "ref: refs/heads/main\n".to_string(),
        Vec::new(),
        Config::default(),
    );
    assert_eq!(r.head_commit().unwrap(), None);
    assert_eq!(r.read_ref("idle"), None);
    assert_eq!(r.create_branch("idle"), Err(LoreError::BranchExists("idle".to_string())));
    assert_eq!(r.branches().unwrap(), vec!["idle", "main"]);
    r.checkout("idle", false).unwrap();
    assert_eq!(r.current_branch().unwrap(), "idle");
    r.add(&who("a"), "x", 1).unwrap();
    let c = r.commit(&who("a"), "c", 2).unwrap();
    assert!(r.read_commit(&c).unwrap().parents.is_empty());
    assert_eq!(r.read_ref("idle"), Some(c));
}
