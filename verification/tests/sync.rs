use lore::cli::add_remote;
use lore::config::Identity;
use lore::error::LoreError;
use lore::repo::{Merge, Repo};
use lore::strmap::StrMap;
use lore::sync::{
    adopt_default_branch, clone, clone_config, fetch, pull, push, remote_url, FetchWalk, Push, PushPlan,
};

fn who(name: &str) -> Identity {
    Identity::new(name, &format!("{name}@test"))
}

/// A remote held in memory: its store and its branch refs.
fn server() -> Repo {
    Repo::init()
}

fn with_origin(repo: &mut Repo, url: &str) {
    let mut c = lore::config::Config::default();
    add_remote(&mut c, "origin", url.to_string());
    repo.save_config(c);
}

fn advertised(srv: &Repo) -> StrMap<String> {
    let mut m = StrMap::new();
    for i in 0..srv.refs().len() {
        m.insert(srv.refs().key_at(i).clone(), srv.refs().value_at(i).clone());
    }
    m
}

fn do_push(repo: &mut Repo, srv: &mut Repo, remote: &str, branch: &str) -> Result<Push, LoreError> {
    remote_url(repo, remote)?;
    let plan = push(repo, remote, branch, &advertised(srv))?;
    if let PushPlan::Send { objects, head } = &plan {
        for id in objects {
            let obj = repo.read_object(id)?;
            srv.write_object_checked(id, &obj)?;
        }
        srv.write_ref(branch, head);
    }
    Ok(lore::sync::record_push(repo, remote, branch, &plan))
}

fn fetch_graph(repo: &mut Repo, srv: &Repo, tip: &str) -> Result<(), LoreError> {
    let mut walk = FetchWalk::new(tip);
    while let Some(id) = walk.next_missing(repo) {
        let obj = srv.read_object(&id)?;
        repo.write_object_checked(&id, &obj)?;
        walk.expand(&obj);
    }
    Ok(())
}

fn do_fetch(repo: &mut Repo, srv: &Repo, remote: &str) -> Result<StrMap<String>, LoreError> {
    let refs = advertised(srv);
    for i in 0..refs.len() {
        fetch_graph(repo, srv, refs.value_at(i))?;
    }
    fetch(repo, remote, &refs);
    Ok(refs)
}

fn do_clone(url: &str, srv: &Repo) -> Repo {
    let mut c = Repo::init();
    let refs = do_fetch(&mut c, srv, "origin").unwrap();
    clone(&mut c, url, &refs);
    c
}

#[test]
fn push_then_clone_round_trips() {
    let mut srv = server();
    let mut a = Repo::init();
    a.add(&who("ray"), "use sqlite", 1).unwrap();
    a.commit(&who("ray"), "c1", 10).unwrap();
    a.add(&who("ray"), "links expire", 2).unwrap();
    a.commit(&who("ray"), "c2", 20).unwrap();
    with_origin(&mut a, "/srv");

    assert!(matches!(do_push(&mut a, &mut srv, "origin", "main").unwrap(), Push::Pushed { .. }));
    assert_eq!(do_push(&mut a, &mut srv, "origin", "main").unwrap(), Push::UpToDate);

    let c = do_clone("/srv", &srv);
    assert_eq!(a.materialize("HEAD", 100).unwrap(), c.materialize("HEAD", 100).unwrap());
    assert!(c.materialize("HEAD", 100).unwrap().contains("ray <ray@test>"));
    assert!(c.config().remotes.contains_key("origin"));
}

#[test]
fn incremental_push_and_fetch() {
    let mut srv = server();
    let mut a = Repo::init();
    a.add(&who("ray"), "one", 1).unwrap();
    a.commit(&who("ray"), "c1", 10).unwrap();
    with_origin(&mut a, "/srv");
    do_push(&mut a, &mut srv, "origin", "main").unwrap();

    let mut c = do_clone("/srv", &srv);

    a.add(&who("ray"), "two", 2).unwrap();
    let a2 = a.commit(&who("ray"), "c2", 20).unwrap();
    assert_eq!(do_push(&mut a, &mut srv, "origin", "main").unwrap(), Push::Pushed { objects: 2 });

    let refs = do_fetch(&mut c, &srv, "origin").unwrap();
    assert_eq!(refs.get("main"), Some(&a2));
    assert_eq!(c.read_remote_ref("origin", "main"), Some(a2));
    assert!(c.materialize("origin/main", 100).unwrap().contains("two"));
}

#[test]
fn non_fast_forward_push_is_rejected() {
    let mut srv = server();
    let mut a = Repo::init();
    a.add(&who("ray"), "base", 1).unwrap();
    a.commit(&who("ray"), "base", 10).unwrap();
    with_origin(&mut a, "/srv");
    do_push(&mut a, &mut srv, "origin", "main").unwrap();

    let mut c = do_clone("/srv", &srv);
    c.add(&who("cara"), "from c", 2).unwrap();
    c.commit(&who("cara"), "c work", 20).unwrap();
    do_push(&mut c, &mut srv, "origin", "main").unwrap();

    a.add(&who("ray"), "from a", 3).unwrap();
    a.commit(&who("ray"), "a work", 30).unwrap();
    let err = do_push(&mut a, &mut srv, "origin", "main").unwrap_err().message();
    assert!(err.contains("non-fast-forward"), "got: {err}");
}

#[test]
fn pull_fast_forwards_to_remote() {
    let mut srv = server();
    let mut a = Repo::init();
    a.add(&who("ray"), "base", 1).unwrap();
    a.commit(&who("ray"), "base", 10).unwrap();
    with_origin(&mut a, "/srv");
    do_push(&mut a, &mut srv, "origin", "main").unwrap();

    let mut c = do_clone("/srv", &srv);

    a.add(&who("ray"), "more", 2).unwrap();
    let a2 = a.commit(&who("ray"), "c2", 20).unwrap();
    do_push(&mut a, &mut srv, "origin", "main").unwrap();

    do_fetch(&mut c, &srv, "origin").unwrap();
    assert_eq!(pull(&mut c, "origin", &who("cara"), 30).unwrap(), Merge::FastForward(a2.clone()));
    assert_eq!(c.head_commit().unwrap(), Some(a2));
    assert!(c.materialize("HEAD", 100).unwrap().contains("more"));
}

#[test]
fn push_to_unknown_remote_errors() {
    let mut srv = server();
    let mut a = Repo::init();
    a.add(&who("ray"), "x", 1).unwrap();
    a.commit(&who("ray"), "c", 10).unwrap();
    assert!(do_push(&mut a, &mut srv, "origin", "main").is_err());
    assert_eq!(remote_url(&a, "origin"), Err(LoreError::NoSuchRemote("origin".to_string())));
}

#[test]
fn pull_merges_diverged_work() {
    let mut srv = server();
    let mut a = Repo::init();
    a.add(&who("ray"), "base", 1).unwrap();
    a.commit(&who("ray"), "base", 10).unwrap();
    with_origin(&mut a, "/srv");
    do_push(&mut a, &mut srv, "origin", "main").unwrap();
    let mut c = do_clone("/srv", &srv);
    a.add(&who("ray"), "remote work", 2).unwrap();
    a.commit(&who("ray"), "r", 20).unwrap();
    do_push(&mut a, &mut srv, "origin", "main").unwrap();
    c.add(&who("cara"), "local work", 3).unwrap();
    c.commit(&who("cara"), "l", 30).unwrap();
    do_fetch(&mut c, &srv, "origin").unwrap();
    let Merge::Merged(m) = pull(&mut c, "origin", &who("cara"), 40).unwrap() else {
        panic!("expected a merge commit")
    };
    assert_eq!(c.read_commit(&m).unwrap().message, "Merge origin/main");
    let brief = c.materialize("HEAD", 50).unwrap();
    assert!(brief.contains("remote work") && brief.contains("local work"));
}

#[test]
fn pull_without_tracking_ref_errors() {
    let mut c = Repo::init();
    c.add(&who("cara"), "x", 1).unwrap();
    c.commit(&who("cara"), "x", 10).unwrap();
    assert_eq!(
        pull(&mut c, "origin", &who("cara"), 30),
        Err(LoreError::RemoteHasNoBranch { remote: "origin".to_string(), branch: "main".to_string() })
    );
}

#[test]
fn clone_of_an_empty_remote_stays_on_main() {
    let srv = server();
    let c = do_clone("/srv", &srv);
    assert_eq!(c.head(), "ref: refs/heads/main\n");
    assert_eq!(c.refs().len(), 0);
}

#[test]
fn fetch_records_every_advertised_branch() {
    let mut c = Repo::init();
    c.write_remote_ref("upstream", "main", "u1");
    c.write_remote_ref("origin", "old", "o0");
    let mut refs = StrMap::new();
    refs.insert("main".to_string(), "m1".to_string());
    refs.insert("dev".to_string(), "d1".to_string());
    fetch(&mut c, "origin", &refs);
    assert_eq!(c.read_remote_ref("origin", "main"), Some("m1".to_string()));
    assert_eq!(c.read_remote_ref("origin", "dev"), Some("d1".to_string()));
    assert_eq!(c.read_remote_ref("origin", "old"), Some("o0".to_string()));
    assert_eq!(c.read_remote_ref("upstream", "main"), Some("u1".to_string()));
    assert_eq!(c.refs().len(), 0);
}

#[test]
fn clone_prefers_main_else_the_first_branch() {
    let mut refs = StrMap::new();
    refs.insert("zeta".to_string(), "z1".to_string());
    refs.insert("beta".to_string(), "b1".to_string());
    let mut c = Repo::init();
    fetch(&mut c, "origin", &refs);
    clone(&mut c, "https://lorehub.com/r", &refs);
    assert_eq!(c.head(), "ref: refs/heads/beta\n");
    assert_eq!(c.read_ref("beta"), Some("b1".to_string()));
    assert_eq!(c.config().remotes.get("origin").map(|r| r.url.as_str()), Some("https://lorehub.com/r"));

    refs.insert("main".to_string(), "m1".to_string());
    let mut c = Repo::init();
    fetch(&mut c, "origin", &refs);
    clone(&mut c, "/srv", &refs);
    assert_eq!(c.head(), "ref: refs/heads/main\n");
    assert_eq!(c.read_ref("main"), Some("m1".to_string()));
    let mut empty_clone = Repo::init();
    adopt_default_branch(&mut empty_clone, &StrMap::new());
    assert_eq!(empty_clone.head(), "ref: refs/heads/main\n");
    assert_eq!(clone_config("/x").remotes.len(), 1);
}

#[test]
fn recording_a_push_moves_the_tracking_ref() {
    let mut r = Repo::init();
    let plan = PushPlan::Send { objects: vec!["a".to_string(), "b".to_string()], head: "h".to_string() };
    assert_eq!(lore::sync::record_push(&mut r, "origin", "main", &plan), Push::Pushed { objects: 2 });
    assert_eq!(r.read_remote_ref("origin", "main"), Some("h".to_string()));
    assert_eq!(lore::sync::record_push(&mut r, "origin", "main", &PushPlan::UpToDate), Push::UpToDate);
    assert_eq!(r.read_remote_ref("origin", "main"), Some("h".to_string()));
}
