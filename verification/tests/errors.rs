use lore::error::LoreError;

#[test]
fn error_messages_read_as_sentences() {
    assert_eq!(LoreError::NothingStaged.message(), "nothing staged to commit");
    assert_eq!(LoreError::EmptyIntent.message(), "refusing to record empty intent");
    assert_eq!(LoreError::NoSuchObject("ab".into()).message(), "no such object: ab");
    assert_eq!(LoreError::NotACommit("ab".into()).message(), "ab is not a commit");
    assert_eq!(LoreError::NotAnEntry("ab".into()).message(), "ab is not an entry");
    assert_eq!(LoreError::BranchExists("f".into()).message(), "branch 'f' already exists");
    assert_eq!(LoreError::NoCommitsToBranch.message(), "cannot branch with no commits yet");
    assert_eq!(LoreError::NoSuchBranch("g".into()).message(), "branch 'g' does not exist");
    assert_eq!(LoreError::NothingToMerge("g".into()).message(), "branch 'g' has no commits to merge");
    assert_eq!(LoreError::HeadHasNoCommits.message(), "HEAD has no commits yet");
    assert_eq!(LoreError::UnknownRef("x".into()).message(), "unknown ref: x");
    assert_eq!(LoreError::AmbiguousRef("a".into(), 12).message(), "ambiguous ref 'a' matches 12 commits");
    assert_eq!(
        LoreError::IdMismatch { expected: "e".into(), actual: "a".into() }.message(),
        "object id mismatch: bytes for e hash to a"
    );
    assert_eq!(LoreError::InvalidObject("i".into()).message(), "invalid object i");
    assert_eq!(LoreError::NoSuchRemote("o".into()).message(), "no such remote: o");
    assert_eq!(LoreError::NothingToPush("m".into()).message(), "branch 'm' has no commits to push");
    assert_eq!(
        LoreError::NonFastForward { remote: "origin".into(), branch: "main".into() }.message(),
        "non-fast-forward push to origin/main; fetch and merge first"
    );
    assert_eq!(
        LoreError::RemoteHasNoBranch { remote: "origin".into(), branch: "dev".into() }.message(),
        "remote 'origin' has no branch 'dev'"
    );
    assert_eq!(
        LoreError::UnknownConfigKey("k".into()).message(),
        "unknown config key: k (use user.name or user.email)"
    );
    assert_eq!(LoreError::Usage("bad".into()).message(), "bad");
}

#[test]
fn malformed_head_is_quoted_like_debug() {
    let head = "garbage\n\"x\"";
    assert_eq!(LoreError::MalformedHead(head.into()).message(), format!("malformed HEAD: {head:?}"));
}
