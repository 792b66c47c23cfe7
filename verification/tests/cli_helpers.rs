use lore::cli::{
    apply_config, first_nonempty, log_line, merge_message, remove_remote, resolve_identity,
    show_commit, Cli, Command, ConfigOutcome,
};
use lore::config::{Config, Identity};
use lore::error::LoreError;
use lore::object::{Commit, Entry};
use lore::repo::CommitView;

fn commit(message: &str, parents: usize) -> Commit {
    Commit {
        parents: (0..parents).map(|i| format!("p{i}")).collect(),
        author: "Ray <ray@x.com>".into(),
        timestamp: 1_700_000_000_000_000_000,
        message: message.into(),
        entries: vec!["e1".into(), "e2".into()],
    }
}

#[test]
fn log_line_keeps_short_messages_whole() {
    let id = "0123456789abcdef";
    assert_eq!(
        log_line(id, &commit("first", 1)),
        "0123456789 2023-11-14 22:13:20 UTC Ray <ray@x.com> - first [2 intent]"
    );
}

#[test]
fn log_line_abbreviates_long_messages_and_marks_merges() {
    let long = "y".repeat(51);
    let line = log_line("abc", &commit(&long, 2));
    assert_eq!(
        line,
        format!("abc 2023-11-14 22:13:20 UTC Ray <ray@x.com> - {}... (merge) [2 intent]", "y".repeat(50))
    );
    let exact = "z".repeat(50);
    assert!(log_line("abc", &commit(&exact, 0)).contains(&format!("- {exact} [")));
}

#[test]
fn show_lists_the_whole_message_and_each_entry() {
    let v = CommitView {
        id: "c0ffee".into(),
        commit: commit(&"m".repeat(80), 0),
        entries: vec![(
            "e1".into(),
            Entry { kind: "note".into(), author: "ray".into(), timestamp: 0, text: " use sqlite \n".into() },
        )],
    };
    let text = show_commit(&v);
    assert_eq!(
        text,
        format!(
            "commit c0ffee\nAuthor: Ray <ray@x.com>\nDate:   2023-11-14 22:13:20 UTC\n\n{}\n\n  e1 ray: use sqlite\n",
            "m".repeat(80)
        )
    );
}

#[test]
fn merge_message_defaults_to_the_branch() {
    assert_eq!(merge_message("feature", None), "Merge branch 'feature'");
    assert_eq!(merge_message("feature", Some("mine".into())), "mine");
}

#[test]
fn first_nonempty_skips_missing_and_empty() {
    assert_eq!(first_nonempty(vec![None, Some(String::new()), Some("b".into()), Some("c".into())]), Some("b".into()));
    assert_eq!(first_nonempty(vec![None, Some(String::new())]), None);
}

#[test]
fn identity_falls_back_in_order() {
    let mut cfg = Config::default();
    let who = resolve_identity(&cfg, None, None, Some("unixname".into()), None, None);
    assert_eq!(who, Identity::new("unixname", ""));
    let who = resolve_identity(&cfg, None, None, None, None, None);
    assert_eq!(who.name, "anonymous");
    cfg.user = Identity::new("Configured", "c@x");
    let who = resolve_identity(&cfg, None, Some("Env".into()), Some("u".into()), None, None);
    assert_eq!(who, Identity::new("Env", "c@x"));
    let who = resolve_identity(&cfg, Some("Flag".into()), Some("Env".into()), None, Some("f@x".into()), Some("e@x".into()));
    assert_eq!(who, Identity::new("Flag", "f@x"));
}

#[test]
fn config_keys_get_and_set() {
    let mut cfg = Config::default();
    assert_eq!(apply_config(&mut cfg, Some("user.name"), Some("Ray".into())), Ok(ConfigOutcome::Updated));
    assert_eq!(apply_config(&mut cfg, Some("user.email"), Some("r@x".into())), Ok(ConfigOutcome::Updated));
    assert_eq!(apply_config(&mut cfg, Some("user.name"), None), Ok(ConfigOutcome::Show("Ray".into())));
    assert_eq!(
        apply_config(&mut cfg, None, None),
        Ok(ConfigOutcome::ShowAll { name: "Ray".into(), email: "r@x".into() })
    );
    assert_eq!(
        apply_config(&mut cfg, Some("core.editor"), Some("vi".into())),
        Err(LoreError::UnknownConfigKey("core.editor".into()))
    );
    assert_eq!(cfg.user, Identity::new("Ray", "r@x"));
}

#[test]
fn removing_a_missing_remote_errors() {
    let mut cfg = Config::default();
    assert_eq!(remove_remote(&mut cfg, "origin"), Err(LoreError::NoSuchRemote("origin".into())));
}

#[test]
fn parsing_rejects_what_the_grammar_lacks() {
    assert!(Cli::try_parse_from(&["lore"]).is_err());
    assert!(Cli::try_parse_from(&["lore", "frobnicate"]).is_err());
    assert!(Cli::try_parse_from(&["lore", "status", "extra"]).is_err());
    assert!(Cli::try_parse_from(&["lore", "log", "--message", "x"]).is_err());
    assert!(Cli::try_parse_from(&["lore", "commit", "-m"]).is_err());
}

#[test]
fn parsing_reads_flags_in_every_spelling() {
    match Cli::try_parse_from(&["lore", "checkout", "-b", "feature"]).unwrap().command {
        Command::Checkout { name, create } => {
            assert_eq!(name, "feature");
            assert!(create);
        }
        _ => panic!("wrong command"),
    }
    match Cli::try_parse_from(&["lore", "materialize", "--ref=main", "-o", "brief.md"]).unwrap().command {
        Command::Materialize { reference, out } => {
            assert_eq!(reference, "main");
            assert_eq!(out.as_deref(), Some("brief.md"));
        }
        _ => panic!("wrong command"),
    }
    match Cli::try_parse_from(&["lore", "add", "--author", "Ray", "--", "-not-a-flag"]).unwrap().command {
        Command::Add { text, author, email } => {
            assert_eq!(text, vec!["-not-a-flag"]);
            assert_eq!(author.as_deref(), Some("Ray"));
            assert!(email.is_none());
        }
        _ => panic!("wrong command"),
    }
    match Cli::try_parse_from(&["lore", "show"]).unwrap().command {
        Command::Show { reference } => assert_eq!(reference, "HEAD"),
        _ => panic!("wrong command"),
    }
}

#[test]
fn attached_short_values_drop_one_equals_sign() {
    match Cli::try_parse_from(&["lore", "commit", "-m=msg"]).unwrap().command {
        Command::Commit { message, .. } => assert_eq!(message, "msg"),
        _ => panic!("wrong command"),
    }
    match Cli::try_parse_from(&["lore", "commit", "-mmsg"]).unwrap().command {
        Command::Commit { message, .. } => assert_eq!(message, "msg"),
        _ => panic!("wrong command"),
    }
    match Cli::try_parse_from(&["lore", "commit", "-m=="]).unwrap().command {
        Command::Commit { message, .. } => assert_eq!(message, "="),
        _ => panic!("wrong command"),
    }
}
