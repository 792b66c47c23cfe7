use lore::cli::{default_clone_dir, oneline, Cli, Command, RemoteCmd};

#[test]
fn parses_add() {
    let cli = Cli::try_parse_from(&["lore", "add", "use", "sqlite"]).unwrap();
    match cli.command {
        Command::Add { text, .. } => assert_eq!(text, vec!["use", "sqlite"]),
        _ => panic!("wrong command"),
    }
}

#[test]
fn add_requires_text() {
    assert!(Cli::try_parse_from(&["lore", "add"]).is_err());
}

#[test]
fn commit_requires_message() {
    assert!(Cli::try_parse_from(&["lore", "commit"]).is_err());
}

#[test]
fn commit_takes_email() {
    let cli = Cli::try_parse_from(&["lore", "commit", "-m", "x", "--email", "a@b.com"]).unwrap();
    match cli.command {
        Command::Commit { email, .. } => assert_eq!(email.as_deref(), Some("a@b.com")),
        _ => panic!("wrong command"),
    }
}

#[test]
fn materialize_defaults_to_head() {
    let cli = Cli::try_parse_from(&["lore", "materialize"]).unwrap();
    match cli.command {
        Command::Materialize { reference, out } => {
            assert_eq!(reference, "HEAD");
            assert!(out.is_none());
        }
        _ => panic!("wrong command"),
    }
}

#[test]
fn parses_clone_with_optional_dir() {
    let cli = Cli::try_parse_from(&["lore", "clone", "https://lorehub.com/r"]).unwrap();
    match cli.command {
        Command::Clone { url, dir } => {
            assert_eq!(url, "https://lorehub.com/r");
            assert!(dir.is_none());
        }
        _ => panic!("wrong command"),
    }
}

#[test]
fn parses_remote_add_and_list() {
    let add = Cli::try_parse_from(&["lore", "remote", "add", "origin", "/srv"]).unwrap();
    match add.command {
        Command::Remote { command: Some(RemoteCmd::Add { name, url }) } => {
            assert_eq!(name, "origin");
            assert_eq!(url, "/srv");
        }
        _ => panic!("wrong command"),
    }
    let list = Cli::try_parse_from(&["lore", "remote"]).unwrap();
    assert!(matches!(list.command, Command::Remote { command: None }));
}

#[test]
fn parses_config_set() {
    let cli = Cli::try_parse_from(&["lore", "config", "user.email", "a@b.com"]).unwrap();
    match cli.command {
        Command::Config { key, value } => {
            assert_eq!(key.as_deref(), Some("user.email"));
            assert_eq!(value.as_deref(), Some("a@b.com"));
        }
        _ => panic!("wrong command"),
    }
}

#[test]
fn clone_dir_defaults_to_last_segment() {
    assert_eq!(default_clone_dir("https://lorehub.com/u/repo"), "repo");
    assert_eq!(default_clone_dir("/tmp/srv/"), "srv");
}

#[test]
fn oneline_is_untruncated_first_line() {
    assert_eq!(oneline("hi\nthere"), "hi");
    assert_eq!(oneline(&"x".repeat(100)).len(), 100);
}
