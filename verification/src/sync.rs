//! Cloning, pushing, fetching, and pulling intent between repositories. Sync
//! is git-shaped: move the objects the other side is missing, then move the
//! ref.
//!
//! The remote is reached by the caller; this module decides. [`push`] takes
//! the refs the remote advertises and says what to send; [`FetchWalk`] walks
//! a remote commit's graph and names each object the store lacks; [`pull`]
//! merges what a fetch brought; [`adopt_default_branch`] picks the branch a
//! fresh clone starts on.

use vstd::prelude::*;

use crate::config::{label_of, Config, Identity, Remote};
use crate::error::{LoreError, SpecError};
use crate::graph::{
    entries_in, history, history_error, history_ok, is_walk, lemma_history_within, parents_in,
    reaches, Objects,
};
use crate::object::{Object, SpecObject};
use crate::repo::{merge_post, recorded_entries, tracking_key, Merge, Repo};
use crate::strmap::StrMap;
use crate::text::{append_str, contains_str, str_eq, strs};

verus! {

/// A walk that covered the store keeps covering it as it learns more, as
/// long as each newly visited id other than `hole` is stored with its links
/// known.
proof fn lemma_covers_grow(w1: FetchWalk, w2: FetchWalk, objs: Objects, hole: Option<Seq<char>>)
    requires
        w1.covers(objs, None),
        forall|x: Seq<char>| w1.known(x) ==> #[trigger] w2.known(x),
        forall|v: Seq<char>|
            #[trigger] w2.visited().contains(v) && hole != Some(v) ==> w1.visited().contains(v) || (
            objs.contains_key(v) && forall|i: int|
                0 <= i < links(objs[v]).len() ==> w2.known(#[trigger] links(objs[v])[i])),
    ensures
        w2.covers(objs, hole),
{
    assert forall|v: Seq<char>| #[trigger] w2.visited().contains(v) && hole != Some(v) implies objs.contains_key(v)
        && forall|i: int| 0 <= i < links(objs[v]).len() ==> w2.known(#[trigger] links(objs[v])[i]) by {
        if w1.visited().contains(v) {
            assert forall|i: int| 0 <= i < links(objs[v]).len() implies w2.known(#[trigger] links(objs[v])[i]) by {
                assert(w1.known(links(objs[v])[i]));
            }
        }
    }
}

proof fn lemma_pop(before: Seq<Seq<char>>, after: Seq<Seq<char>>)
    requires
        before.len() > 0,
        after == before.drop_last(),
    ensures
        forall|x: Seq<char>| before.contains(x) ==> after.contains(x) || x == before.last(),
{
    assert forall|x: Seq<char>| before.contains(x) implies after.contains(x) || x == before.last() by {
        let k = choose|k: int| 0 <= k < before.len() && before[k] == x;
        if k < before.len() - 1 {
            assert(after[k] == x);
        }
    }
}

/// What a push did.
#[derive(Debug, PartialEq, Eq)]
pub enum Push {
    UpToDate,
    Pushed { objects: usize },
}

/// What a push has to do: nothing, or send these objects and then point the
/// remote branch at `head`.
#[derive(Debug, PartialEq, Eq)]
pub enum PushPlan {
    UpToDate,
    Send { objects: Vec<String>, head: String },
}

impl PushPlan {
    /// What carrying out this plan did.
    pub fn outcome(&self) -> (p: Push)
        ensures
            match self {
                PushPlan::UpToDate => p == Push::UpToDate,
                PushPlan::Send { objects, .. } => p matches Push::Pushed { objects: n } && n == objects@.len(),
            },
    {
        match self {
            PushPlan::UpToDate => Push::UpToDate,
            PushPlan::Send { objects, .. } => Push::Pushed { objects: objects.len() },
        }
    }
}

/// Every object id, commits and the entries they record, reachable from
/// `tip`.
pub open spec fn graph_objects(objs: Objects, tip: Seq<char>) -> Set<Seq<char>> {
    history(objs, tip) + recorded_entries(objs, history(objs, tip))
}

/// A fast-forward push leaves nothing behind: what it sends, together with
/// what the remote's tip already reaches, is the whole graph behind the
/// pushed tip.
pub proof fn law_push_completes_remote(objs: Objects, h: Seq<char>, t: Seq<char>)
    requires
        history(objs, h).contains(t),
    ensures
        (graph_objects(objs, h) - graph_objects(objs, t)) + graph_objects(objs, t)
            == graph_objects(objs, h),
{
    lemma_history_within(objs, h, t);
    assert forall|e: Seq<char>| recorded_entries(objs, history(objs, t)).contains(e) implies recorded_entries(
        objs,
        history(objs, h),
    ).contains(e) by {
        let c = choose|c: Seq<char>| history(objs, t).contains(c) && #[trigger] entries_in(objs, c).contains(e);
        assert(history(objs, h).contains(c));
    }
    assert((graph_objects(objs, h) - graph_objects(objs, t)) + graph_objects(objs, t) =~= graph_objects(objs, h));
}

/// The refs of a remote, as values.
pub open spec fn ref_values(m: StrMap<String>) -> Map<Seq<char>, Seq<char>> {
    m@.map_values(|s: String| s@)
}

/// Every object id (commits and the entries they record) reachable from
/// `tip`, each once.
pub fn objects_reachable(repo: &Repo, tip: &str) -> (r: Result<Vec<String>, LoreError>)
    ensures
        match r {
            Ok(v) => history_ok(repo.objs(), tip@) && strs(v@).no_duplicates() && strs(v@).to_set()
                == graph_objects(repo.objs(), tip@),
            Err(e) => !history_ok(repo.objs(), tip@) && history_error(repo.objs(), tip@, e@),
        },
{
    let ghost objs = repo.objs();
    let cids = repo.reachable(tip)?;
    proof {
        assert forall|i: int| 0 <= i < cids@.len() implies crate::graph::is_commit_in(
            objs,
            #[trigger] strs(cids@)[i],
        ) by {
            assert(strs(cids@).to_set().contains(strs(cids@)[i]));
        }
    }
    let mut out = repo.collect_entry_ids(&cids);
    let ghost base = strs(out@).to_set();
    let mut i: usize = 0;
    while i < cids.len()
        invariant
            i <= cids.len(),
            strs(out@).no_duplicates(),
            strs(out@).to_set() == base + strs(cids@).take(i as int).to_set(),
        decreases cids.len() - i,
    {
        let ghost before = strs(out@);
        let id = &cids[i];
        let ghost mut pushed = false;
        if !contains_str(&out, id.as_str()) {
            out.push(id.clone());
            proof {
                pushed = true;
                assert(strs(out@) == before.push(id@));
                assert forall|a: int, b: int|
                    0 <= a < strs(out@).len() && 0 <= b < strs(out@).len() && a != b implies strs(
                    out@,
                )[a] != strs(out@)[b] by {
                    if a == before.len() {
                        if strs(out@)[b] == id@ {
                            assert(before[b] == id@);
                            assert(before.contains(id@));
                        }
                    } else if b == before.len() {
                        if strs(out@)[a] == id@ {
                            assert(before[a] == id@);
                            assert(before.contains(id@));
                        }
                    } else {
                        assert(strs(out@)[a] == before[a]);
                        assert(strs(out@)[b] == before[b]);
                    }
                }
            }
        }
        proof {
            let t = strs(cids@).take(i as int);
            assert(strs(cids@).take(i + 1) == t.push(id@));
            if !pushed {
                assert(strs(out@) == before);
            }
            assert forall|x: Seq<char>|
                strs(out@).to_set().contains(x) <==> (base + t.push(id@).to_set()).contains(x) by {
                assert(strs(out@).to_set().contains(x) == strs(out@).contains(x));
                assert(before.to_set().contains(x) == before.contains(x));
                assert(t.to_set().contains(x) == t.contains(x));
                assert(t.push(id@).to_set().contains(x) == t.push(id@).contains(x));
                if t.push(id@).contains(x) {
                    let k = choose|k: int| 0 <= k < t.len() + 1 && t.push(id@)[k] == x;
                    if k < t.len() {
                        assert(t[k] == x);
                    }
                }
                if t.contains(x) {
                    let k = choose|k: int| 0 <= k < t.len() && t[k] == x;
                    assert(t.push(id@)[k] == x);
                }
                if x == id@ {
                    assert(t.push(id@)[t.len() as int] == x);
                    if pushed {
                        assert(strs(out@)[before.len() as int] == x);
                    }
                }
                if strs(out@).contains(x) && !before.contains(x) {
                    let k = choose|k: int| 0 <= k < strs(out@).len() && strs(out@)[k] == x;
                    if k < before.len() {
                        assert(before[k] == x);
                    }
                }
                if before.contains(x) {
                    let k = choose|k: int| 0 <= k < before.len() && before[k] == x;
                    assert(strs(out@)[k] == x);
                }
            }
            assert(strs(out@).to_set() =~= base + strs(cids@).take(i + 1).to_set());
        }
        i = i + 1;
    }
    proof {
        assert(strs(cids@).take(cids.len() as int) == strs(cids@));
        assert(strs(out@).to_set() =~= graph_objects(objs, tip@));
    }
    Ok(out)
}

/// The ids of `a` that are not in `b`, in `a`'s order.
fn difference(a: &Vec<String>, b: &Vec<String>) -> (r: Vec<String>)
    requires
        strs(a@).no_duplicates(),
    ensures
        strs(r@).no_duplicates(),
        strs(r@).to_set() == strs(a@).to_set() - strs(b@).to_set(),
{
    let mut r: Vec<String> = Vec::new();
    let mut i: usize = 0;
    while i < a.len()
        invariant
            i <= a.len(),
            strs(a@).no_duplicates(),
            strs(r@).no_duplicates(),
            strs(r@).to_set() == strs(a@).take(i as int).to_set() - strs(b@).to_set(),
            forall|k: int| 0 <= k < r@.len() ==> strs(a@).take(i as int).contains(#[trigger] strs(r@)[k]),
        decreases a.len() - i,
    {
        let ghost before = strs(r@);
        let ghost t = strs(a@).take(i as int);
        let ghost x = a@[i as int]@;
        assert(strs(a@).take(i + 1) == t.push(x));
        assert(!t.contains(x)) by {
            if t.contains(x) {
                let k = choose|k: int| 0 <= k < t.len() && t[k] == x;
                assert(strs(a@)[k] == strs(a@)[i as int]);
            }
        }
        let ghost mut pushed = false;
        if !contains_str(b, a[i].as_str()) {
            r.push(a[i].clone());
            proof {
                pushed = true;
                assert(strs(r@) == before.push(x));
                assert forall|p: int, q: int|
                    0 <= p < strs(r@).len() && 0 <= q < strs(r@).len() && p != q implies strs(
                    r@,
                )[p] != strs(r@)[q] by {
                    if p == before.len() {
                        assert(t.contains(before[q]));
                    } else if q == before.len() {
                        assert(t.contains(before[p]));
                    } else {
                        assert(strs(r@)[p] == before[p]);
                        assert(strs(r@)[q] == before[q]);
                    }
                }
            }
        }
        proof {
            if !pushed {
                assert(strs(r@) == before);
            }
            assert forall|k: int| 0 <= k < r@.len() implies t.push(x).contains(
                #[trigger] strs(r@)[k],
            ) by {
                if k < before.len() {
                    assert(strs(r@)[k] == before[k]);
                    assert(t.contains(before[k]));
                    let m = choose|m: int| 0 <= m < t.len() && t[m] == before[k];
                    assert(t.push(x)[m] == before[k]);
                } else {
                    assert(t.push(x)[t.len() as int] == x);
                }
            }
            assert forall|y: Seq<char>|
                strs(r@).to_set().contains(y) <==> (t.push(x).to_set() - strs(
                    b@,
                ).to_set()).contains(y) by {
                assert(strs(r@).to_set().contains(y) == strs(r@).contains(y));
                assert(before.to_set().contains(y) == before.contains(y));
                assert(t.to_set().contains(y) == t.contains(y));
                assert(t.push(x).to_set().contains(y) == t.push(x).contains(y));
                assert(strs(b@).to_set().contains(y) == strs(b@).contains(y));
                if t.push(x).contains(y) {
                    let k = choose|k: int| 0 <= k < t.len() + 1 && t.push(x)[k] == y;
                    if k < t.len() {
                        assert(t[k] == y);
                    }
                }
                if t.contains(y) {
                    let k = choose|k: int| 0 <= k < t.len() && t[k] == y;
                    assert(t.push(x)[k] == y);
                }
                if y == x {
                    assert(t.push(x)[t.len() as int] == y);
                    if pushed {
                        assert(strs(r@)[before.len() as int] == y);
                    }
                }
                if strs(r@).contains(y) && !before.contains(y) {
                    let k = choose|k: int| 0 <= k < strs(r@).len() && strs(r@)[k] == y;
                    if k < before.len() {
                        assert(before[k] == y);
                    }
                }
                if before.contains(y) {
                    let k = choose|k: int| 0 <= k < before.len() && before[k] == y;
                    assert(strs(r@)[k] == y);
                }
            }
            assert(strs(r@).to_set() =~= strs(a@).take(i + 1).to_set() - strs(b@).to_set());
        }
        i = i + 1;
    }
    assert(strs(a@).take(a.len() as int) == strs(a@));
    r
}

/// Plan a fast-forward push of the local `branch` to `remote`, given the
/// refs the remote advertises: nothing if the remote is already there, else
/// the objects the remote's branch tip does not already reach.
pub fn push(repo: &Repo, remote: &str, branch: &str, advertised: &StrMap<String>) -> (r: Result<
    PushPlan,
    LoreError,
>)
    ensures
        match repo.branch_tip(branch@) {
            None => r matches Err(e) && e@ == SpecError::NothingToPush(branch@),
            Some(h) => match ref_values(*advertised).get(branch@) {
                Some(t) => if t == h {
                    r matches Ok(PushPlan::UpToDate)
                } else if !history_ok(repo.objs(), h) {
                    r matches Err(e) && history_error(repo.objs(), h, e@)
                } else if !history(repo.objs(), h).contains(t) {
                    r matches Err(e) && e@ == SpecError::NonFastForward {
                        remote: remote@,
                        branch: branch@,
                    }
                } else if !history_ok(repo.objs(), t) {
                    r matches Err(e) && history_error(repo.objs(), t, e@)
                } else {
                    r matches Ok(PushPlan::Send { objects, head }) && head@ == h && strs(
                        objects@,
                    ).no_duplicates() && strs(objects@).to_set() == graph_objects(repo.objs(), h)
                        - graph_objects(repo.objs(), t)
                },
                None => if !history_ok(repo.objs(), h) {
                    r matches Err(e) && history_error(repo.objs(), h, e@)
                } else {
                    r matches Ok(PushPlan::Send { objects, head }) && head@ == h && strs(
                        objects@,
                    ).no_duplicates() && strs(objects@).to_set() == graph_objects(repo.objs(), h)
                },
            },
        },
{
    let head = match repo.read_ref(branch) {
        Some(h) => h,
        None => {
            return Err(LoreError::NothingToPush(branch.to_owned()));
        },
    };
    let base = match advertised.get(branch) {
        Some(t) => {
            if str_eq(t.as_str(), head.as_str()) {
                return Ok(PushPlan::UpToDate);
            }
            if !repo.is_ancestor(t.as_str(), head.as_str())? {
                return Err(
                    LoreError::NonFastForward { remote: remote.to_owned(), branch: branch.to_owned() },
                );
            }
            Some(t.clone())
        },
        None => None,
    };
    let head_objects = objects_reachable(repo, head.as_str())?;
    let objects = match base {
        Some(b) => {
            let already = objects_reachable(repo, b.as_str())?;
            difference(&head_objects, &already)
        },
        None => {
            let none: Vec<String> = Vec::new();
            let r = difference(&head_objects, &none);
            assert(strs(none@).to_set() =~= Set::<Seq<char>>::empty());
            assert(strs(r@).to_set() =~= strs(head_objects@).to_set());
            r
        },
    };
    Ok(PushPlan::Send { objects, head })
}

/// After the objects of `plan` have been sent and the remote's `branch`
/// pointed at its head, record that `remote`'s `branch` now points there,
/// and say what the push did.
pub fn record_push(repo: &mut Repo, remote: &str, branch: &str, plan: &PushPlan) -> (p: Push)
    ensures
        match plan {
            PushPlan::UpToDate => p == Push::UpToDate && *final(repo) == *old(repo),
            PushPlan::Send { objects, head } => {
                &&& p matches Push::Pushed { objects: n } && n == objects@.len()
                &&& final(repo).tracking_refs() == old(repo).tracking_refs().insert(
                    tracking_key(remote@, branch@),
                    head@,
                )
                &&& final(repo).tracking_refs()[tracking_key(remote@, branch@)] == head@
                &&& final(repo).objs() == old(repo).objs()
                &&& final(repo).branch_refs() == old(repo).branch_refs()
                &&& final(repo).head_text() == old(repo).head_text()
                &&& final(repo).index_ids() == old(repo).index_ids()
                &&& final(repo).cfg() == old(repo).cfg()
            },
        },
{
    match plan {
        PushPlan::UpToDate => Push::UpToDate,
        PushPlan::Send { objects, head } => {
            repo.write_remote_ref(remote, branch, head.as_str());
            Push::Pushed { objects: objects.len() }
        },
    }
}

/// Merge the remote's copy of the current branch, as the last fetch left
/// it, into the current branch.
pub fn pull(repo: &mut Repo, remote: &str, who: &Identity, now: u64) -> (r: Result<Merge, LoreError>)
    ensures
        match old(repo).spec_branch() {
            None => r matches Err(e) && e@ == SpecError::MalformedHead(old(repo).head_text())
                && *final(repo) == *old(repo),
            Some(b) => match old(repo).tracking_refs().get(tracking_key(remote@, b)) {
                None => r matches Err(e) && e@ == SpecError::RemoteHasNoBranch {
                    remote: remote@,
                    branch: b,
                } && *final(repo) == *old(repo),
                Some(t) => merge_post(
                    *old(repo),
                    *final(repo),
                    t,
                    label_of(who.name@, who.email@),
                    "Merge "@ + remote@ + "/"@ + b,
                    now,
                    r,
                ),
            },
        },
{
    let branch = repo.current_branch()?;
    let tip = match repo.read_remote_ref(remote, branch.as_str()) {
        Some(t) => t,
        None => {
            return Err(
                LoreError::RemoteHasNoBranch { remote: remote.to_owned(), branch: branch },
            );
        },
    };
    let mut message = String::new();
    append_str(&mut message, "Merge ");
    append_str(&mut message, remote);
    append_str(&mut message, "/");
    append_str(&mut message, branch.as_str());
    repo.merge_commit(tip.as_str(), who, message.as_str(), now)
}

/// The URL of the remote named `remote`.
pub fn remote_url(repo: &Repo, remote: &str) -> (r: Result<String, LoreError>)
    ensures
        match r {
            Ok(u) => repo.cfg().remotes@.contains_key(remote@) && u@ == repo.cfg().remotes@[remote@].url@,
            Err(e) => !repo.cfg().remotes@.contains_key(remote@) && e@ == SpecError::NoSuchRemote(
                remote@,
            ),
        },
{
    match repo.config().remotes.get(remote) {
        Some(r) => Ok(r.url.clone()),
        None => Err(LoreError::NoSuchRemote(remote.to_owned())),
    }
}

/// The configuration of a fresh clone of `url`: no identity, one remote
/// named `origin`.
pub fn clone_config(url: &str) -> (c: Config)
    ensures
        c.user.name@.len() == 0,
        c.user.email@.len() == 0,
        c.remotes@.dom() == set!["origin"@],
        c.remotes@["origin"@].url@ == url@,
{
    let mut c = Config::default();
    c.remotes.insert("origin".to_owned(), Remote { url: url.to_owned() });
    assert(c.remotes@.dom() =~= set!["origin"@]);
    c
}

/// The branch a fresh clone starts on: `main` if the remote has it, else
/// the first branch it advertises.
pub open spec fn default_branch(refs: StrMap<String>) -> Option<Seq<char>> {
    if refs@.contains_key("main"@) {
        Some("main"@)
    } else if refs.keys_seq().len() > 0 {
        Some(refs.keys_seq()[0])
    } else {
        None
    }
}

/// After a clone has fetched the remote's `refs` into tracking refs under
/// `origin`, start the local branch the clone defaults to at the same
/// commit and check it out.
pub fn adopt_default_branch(repo: &mut Repo, refs: &StrMap<String>)
    ensures
        match default_branch(*refs) {
            Some(b) if old(repo).tracking_refs().contains_key(tracking_key("origin"@, b)) => {
                &&& final(repo).branch_refs() == old(repo).branch_refs().insert(
                    b,
                    old(repo).tracking_refs()[tracking_key("origin"@, b)],
                )
                &&& final(repo).head_text() == crate::repo::head_for(b)
            },
            _ => final(repo).branch_refs() == old(repo).branch_refs() && final(repo).head_text()
                == old(repo).head_text(),
        },
        final(repo).objs() == old(repo).objs(),
        final(repo).tracking_refs() == old(repo).tracking_refs(),
        final(repo).index_ids() == old(repo).index_ids(),
        final(repo).cfg() == old(repo).cfg(),
{
    let branch: String = if refs.contains_key("main") {
        "main".to_owned()
    } else if refs.len() > 0 {
        refs.key_at(0).clone()
    } else {
        return ;
    };
    match repo.read_remote_ref("origin", branch.as_str()) {
        Some(id) => {
            repo.write_ref(branch.as_str(), id.as_str());
            repo.set_head(branch.as_str());
        },
        None => {},
    }
}

/// `k` is the tracking key of some branch of `refs` on `remote`.
pub open spec fn fetched_key(remote: Seq<char>, refs: Map<Seq<char>, Seq<char>>, k: Seq<char>) -> bool {
    exists|b: Seq<char>| refs.contains_key(b) && k == #[trigger] tracking_key(remote, b)
}

/// The tracking keys of one remote tell its branches apart.
proof fn lemma_tracking_key_injective(remote: Seq<char>, b1: Seq<char>, b2: Seq<char>)
    requires
        tracking_key(remote, b1) == tracking_key(remote, b2),
    ensures
        b1 == b2,
{
    reveal_strlit("/");
    assert(b1 =~= tracking_key(remote, b1).skip(remote.len() as int + 1));
    assert(b2 =~= tracking_key(remote, b2).skip(remote.len() as int + 1));
}

/// Record what a fetch from `remote` brought: every branch it advertised,
/// as the tracking ref `<remote>/<branch>`. No local branch moves. The
/// caller has already walked each branch's graph with a [`FetchWalk`].
pub fn fetch(repo: &mut Repo, remote: &str, refs: &StrMap<String>)
    ensures
        forall|b: Seq<char>|
            #[trigger] ref_values(*refs).contains_key(b) ==> final(repo).tracking_refs().contains_key(
                tracking_key(remote@, b),
            ) && final(repo).tracking_refs()[tracking_key(remote@, b)] == ref_values(*refs)[b],
        forall|k: Seq<char>|
            #[trigger] final(repo).tracking_refs().contains_key(k) ==> old(repo).tracking_refs().contains_key(k)
                || fetched_key(remote@, ref_values(*refs), k),
        forall|k: Seq<char>|
            #[trigger] old(repo).tracking_refs().contains_key(k) && !fetched_key(remote@, ref_values(*refs), k)
                ==> final(repo).tracking_refs().contains_key(k) && final(repo).tracking_refs()[k]
                == old(repo).tracking_refs()[k],
        final(repo).objs() == old(repo).objs(),
        final(repo).branch_refs() == old(repo).branch_refs(),
        final(repo).head_text() == old(repo).head_text(),
        final(repo).index_ids() == old(repo).index_ids(),
        final(repo).cfg() == old(repo).cfg(),
{
    let ghost rv = ref_values(*refs);
    let ghost t0 = repo.tracking_refs();
    refs.keys_are_sorted();
    proof {
        refs.lemma_view();
    }
    let n = refs.len();
    let mut i: usize = 0;
    while i < n
        invariant
            n == refs.keys_seq().len(),
            i <= n,
            rv == ref_values(*refs),
            t0 == old(repo).tracking_refs(),
            refs.keys_seq().no_duplicates(),
            refs.keys_seq().to_set() == refs@.dom(),
            forall|j: int| 0 <= j < n ==> refs@[#[trigger] refs.keys_seq()[j]] == refs.values_seq()[j],
            forall|j: int|
                0 <= j < i ==> repo.tracking_refs().contains_key(
                    #[trigger] tracking_key(remote@, refs.keys_seq()[j]),
                ) && repo.tracking_refs()[tracking_key(remote@, refs.keys_seq()[j])]
                    == refs.values_seq()[j]@,
            forall|k: Seq<char>|
                #[trigger] repo.tracking_refs().contains_key(k) ==> t0.contains_key(k) || exists|j: int|
                    0 <= j < i && k == tracking_key(remote@, refs.keys_seq()[j]),
            forall|k: Seq<char>|
                #[trigger] t0.contains_key(k) && !(exists|j: int|
                    0 <= j < i && k == tracking_key(remote@, refs.keys_seq()[j])) ==> repo.tracking_refs().contains_key(k)
                    && repo.tracking_refs()[k] == t0[k],
            repo.objs() == old(repo).objs(),
            repo.branch_refs() == old(repo).branch_refs(),
            repo.head_text() == old(repo).head_text(),
            repo.index_ids() == old(repo).index_ids(),
            repo.cfg() == old(repo).cfg(),
        decreases n - i,
    {
        let b = refs.key_at(i);
        let id = refs.value_at(i);
        let ghost before = repo.tracking_refs();
        repo.write_remote_ref(remote, b.as_str(), id.as_str());
        proof {
            assert forall|j: int| 0 <= j < i implies repo.tracking_refs().contains_key(
                #[trigger] tracking_key(remote@, refs.keys_seq()[j]),
            ) && repo.tracking_refs()[tracking_key(remote@, refs.keys_seq()[j])]
                == refs.values_seq()[j]@ by {
                if tracking_key(remote@, refs.keys_seq()[j]) == tracking_key(remote@, b@) {
                    lemma_tracking_key_injective(remote@, refs.keys_seq()[j], b@);
                }
            }
        }
        i = i + 1;
    }
    proof {
        assert forall|b: Seq<char>| #[trigger] ref_values(*refs).contains_key(b) implies repo.tracking_refs().contains_key(
            tracking_key(remote@, b),
        ) && repo.tracking_refs()[tracking_key(remote@, b)] == ref_values(*refs)[b] by {
            assert(refs.keys_seq().to_set().contains(b));
            let j = choose|j: int| 0 <= j < n && refs.keys_seq()[j] == b;
        }
        assert forall|k: Seq<char>| #[trigger] repo.tracking_refs().contains_key(k) implies t0.contains_key(k)
            || fetched_key(remote@, ref_values(*refs), k) by {
            if !t0.contains_key(k) {
                let j = choose|j: int| 0 <= j < n && k == tracking_key(remote@, refs.keys_seq()[j]);
                assert(refs.keys_seq().to_set().contains(refs.keys_seq()[j]));
                assert(ref_values(*refs).contains_key(refs.keys_seq()[j]));
            }
        }
        assert forall|k: Seq<char>| #[trigger] t0.contains_key(k) && !fetched_key(remote@, ref_values(*refs), k)
            implies repo.tracking_refs().contains_key(k) && repo.tracking_refs()[k] == t0[k] by {
            if exists|j: int| 0 <= j < n && k == tracking_key(remote@, refs.keys_seq()[j]) {
                let j = choose|j: int| 0 <= j < n && k == tracking_key(remote@, refs.keys_seq()[j]);
                assert(refs.keys_seq().to_set().contains(refs.keys_seq()[j]));
                assert(ref_values(*refs).contains_key(refs.keys_seq()[j]));
            }
        }
    }
}

/// Finish a clone of `url` into `repo`, a fresh repository that a fetch
/// from the remote has just filled: the config names the remote `origin`,
/// and the branch the remote defaults to is checked out.
pub fn clone(repo: &mut Repo, url: &str, refs: &StrMap<String>)
    ensures
        final(repo).cfg().user.name@.len() == 0,
        final(repo).cfg().user.email@.len() == 0,
        final(repo).cfg().remotes@.dom() == set!["origin"@],
        final(repo).cfg().remotes@["origin"@].url@ == url@,
        match default_branch(*refs) {
            Some(b) if old(repo).tracking_refs().contains_key(tracking_key("origin"@, b)) => {
                &&& final(repo).branch_refs() == old(repo).branch_refs().insert(
                    b,
                    old(repo).tracking_refs()[tracking_key("origin"@, b)],
                )
                &&& final(repo).head_text() == crate::repo::head_for(b)
            },
            _ => final(repo).branch_refs() == old(repo).branch_refs() && final(repo).head_text()
                == old(repo).head_text(),
        },
        final(repo).objs() == old(repo).objs(),
        final(repo).tracking_refs() == old(repo).tracking_refs(),
        final(repo).index_ids() == old(repo).index_ids(),
{
    repo.save_config(clone_config(url));
    adopt_default_branch(repo, refs);
}

/// A walk over the object graph behind a remote commit, naming each object
/// the local store lacks so the caller can fetch it. The caller stores each
/// object it is handed under the id that was asked for and passes it to
/// [`FetchWalk::expand`]; once [`FetchWalk::next_missing`] has nothing left,
/// the store holds everything the tip reaches.
pub struct FetchWalk {
    stack: Vec<String>,
    seen: Vec<String>,
}

/// The ids an object links to: a commit's parents and entries.
pub open spec fn links(o: SpecObject) -> Seq<Seq<char>> {
    match o {
        SpecObject::Commit(c) => c.parents + c.entries,
        SpecObject::Entry(_) => Seq::empty(),
    }
}

impl FetchWalk {
    /// The ids still to visit, last first.
    pub closed spec fn pending(self) -> Seq<Seq<char>> {
        strs(self.stack@)
    }

    /// The ids already visited.
    pub closed spec fn visited(self) -> Seq<Seq<char>> {
        strs(self.seen@)
    }

    /// `x` has been visited or is still to visit.
    pub open spec fn known(self, x: Seq<char>) -> bool {
        self.visited().contains(x) || self.pending().contains(x)
    }

    /// Every visited id other than `hole` is stored, and everything its
    /// object links to is known to the walk.
    pub open spec fn covers(self, objs: Objects, hole: Option<Seq<char>>) -> bool {
        forall|v: Seq<char>|
            #[trigger] self.visited().contains(v) && hole != Some(v) ==> objs.contains_key(v)
                && forall|i: int| 0 <= i < links(objs[v]).len() ==> self.known(#[trigger] links(objs[v])[i])
    }

    /// A walk from `tip`.
    pub fn new(tip: &str) -> (w: FetchWalk)
        ensures
            w.pending() == seq![tip@],
            w.visited() == Seq::<Seq<char>>::empty(),
    {
        let mut stack: Vec<String> = Vec::new();
        stack.push(tip.to_owned());
        let w = FetchWalk { stack, seen: Vec::new() };
        assert(w.pending() =~= seq![tip@]);
        assert(w.visited() =~= Seq::<Seq<char>>::empty());
        w
    }

    /// Queue the links of an object just fetched.
    pub fn expand(&mut self, obj: &Object)
        ensures
            final(self).pending() == old(self).pending() + links(obj@),
            final(self).visited() == old(self).visited(),
    {
        match obj {
            Object::Commit(c) => {
                self.push_all(&c.parents);
                self.push_all(&c.entries);
            },
            Object::Entry(_) => {},
        }
    }

    fn push_all(&mut self, ids: &Vec<String>)
        ensures
            final(self).pending() == old(self).pending() + strs(ids@),
            final(self).visited() == old(self).visited(),
    {
        let mut i: usize = 0;
        while i < ids.len()
            invariant
                i <= ids.len(),
                self.pending() == old(self).pending() + strs(ids@).take(i as int),
                self.visited() == old(self).visited(),
            decreases ids.len() - i,
        {
            let ghost before = self.stack@;
            self.stack.push(ids[i].clone());
            proof {
                assert(strs(self.stack@) == strs(before).push(ids@[i as int]@));
                assert(strs(ids@).take(i + 1) == strs(ids@).take(i as int).push(ids@[i as int]@));
            }
            i = i + 1;
        }
        assert(strs(ids@).take(ids.len() as int) == strs(ids@));
    }

    /// Walk on through what the store already holds, and name the next
    /// object it lacks; `None` once nothing is left to visit.
    pub fn next_missing(&mut self, repo: &Repo) -> (r: Option<String>)
        ensures
            match r {
                Some(id) => !repo.objs().contains_key(id@) && final(self).visited().contains(id@),
                None => final(self).pending().len() == 0,
            },
            forall|x: Seq<char>| old(self).known(x) ==> #[trigger] final(self).known(x),
            old(self).covers(repo.objs(), None) ==> final(self).covers(
                repo.objs(),
                match r {
                    Some(id) => Some(id@),
                    None => None,
                },
            ),
    {
        let ghost objs = repo.objs();
        let ghost w0 = *self;
        let ghost mut fresh: Seq<Seq<char>> = Seq::empty();
        let bound = repo.object_count();
        while self.stack.len() > 0
            invariant
                objs == repo.objs(),
                w0 == *old(self),
                forall|x: Seq<char>| w0.known(x) ==> #[trigger] self.known(x),
                w0.covers(objs, None) ==> self.covers(objs, None),
                bound == objs.dom().len(),
                objs.dom().finite(),
                fresh.no_duplicates(),
                forall|i: int| 0 <= i < fresh.len() ==> objs.contains_key(#[trigger] fresh[i]),
                forall|i: int| 0 <= i < fresh.len() ==> strs(self.seen@).contains(#[trigger] fresh[i]),
            decreases bound - fresh.len(), self.stack.len(),
        {
            let ghost w1 = *self;
            let id = self.stack.pop().unwrap();
            proof {
                assert(self.pending() =~= w1.pending().drop_last());
                lemma_pop(w1.pending(), self.pending());
            }
            if contains_str(&self.seen, id.as_str()) {
                proof {
                    assert forall|x: Seq<char>| w1.known(x) implies #[trigger] self.known(x) by {
                        if w1.pending().contains(x) && x != id@ {
                            assert(self.pending().contains(x));
                        }
                    }
                    if w0.covers(objs, None) {
                        lemma_covers_grow(w1, *self, objs, None);
                    }
                }
                continue ;
            }
            let ghost before_seen = strs(self.seen@);
            self.seen.push(id.clone());
            assert(strs(self.seen@) == before_seen.push(id@));
            assert(strs(self.seen@)[before_seen.len() as int] == id@);
            proof {
                assert forall|x: Seq<char>| w1.known(x) implies #[trigger] self.known(x) by {
                    if w1.visited().contains(x) {
                        let k = choose|k: int| 0 <= k < before_seen.len() && before_seen[k] == x;
                        assert(self.visited()[k] == x);
                    } else if x != id@ {
                        assert(self.pending().contains(x));
                    }
                }
            }
            proof {
                assert forall|i: int| 0 <= i < fresh.len() implies strs(self.seen@).contains(#[trigger] fresh[i]) by {
                    let k = choose|k: int| 0 <= k < before_seen.len() && before_seen[k] == fresh[i];
                    assert(strs(self.seen@)[k] == fresh[i]);
                }
            }
            match repo.object_ref(id.as_str()) {
                None => {
                    proof {
                        assert forall|x: Seq<char>| w0.known(x) implies #[trigger] self.known(x) by {
                            assert(w1.known(x));
                        }
                        if w0.covers(objs, None) {
                            lemma_covers_grow(w1, *self, objs, Some(id@));
                        }
                    }
                    return Some(id);
                },
                Some(o) => {
                    proof {
                        assert(!fresh.contains(id@)) by {
                            if fresh.contains(id@) {
                                let k = choose|k: int| 0 <= k < fresh.len() && fresh[k] == id@;
                                assert(before_seen.contains(fresh[k]) || fresh[k] == id@);
                            }
                        }
                        let old_fresh = fresh;
                        fresh = fresh.push(id@);
                        assert forall|i: int| 0 <= i < fresh.len() implies objs.contains_key(#[trigger] fresh[i]) by {
                            if i < old_fresh.len() {
                                assert(fresh[i] == old_fresh[i]);
                            }
                        }
                        assert forall|i: int| 0 <= i < fresh.len() implies strs(self.seen@).contains(#[trigger] fresh[i]) by {
                            if i < old_fresh.len() {
                                assert(fresh[i] == old_fresh[i]);
                            } else {
                                assert(strs(self.seen@)[before_seen.len() as int] == id@);
                            }
                        }
                        assert forall|a: int, b: int| 0 <= a < fresh.len() && 0 <= b < fresh.len() && a != b implies fresh[a] != fresh[b] by {
                            if a == old_fresh.len() {
                                assert(fresh[b] == old_fresh[b]);
                            } else if b == old_fresh.len() {
                                assert(fresh[a] == old_fresh[a]);
                            }
                        }
                        fresh.unique_seq_to_set();
                        assert(fresh.to_set().subset_of(objs.dom()));
                        vstd::set_lib::lemma_len_subset(fresh.to_set(), objs.dom());
                    }
                    let ghost w2 = *self;
                    self.expand(o);
                    proof {
                        assert forall|x: Seq<char>| w2.known(x) implies #[trigger] self.known(x) by {
                            if w2.pending().contains(x) {
                                let k = choose|k: int| 0 <= k < w2.pending().len() && w2.pending()[k] == x;
                                assert(self.pending()[k] == x);
                            }
                        }
                        assert forall|i: int| 0 <= i < links(objs[id@]).len() implies self.known(
                            #[trigger] links(objs[id@])[i],
                        ) by {
                            assert(self.pending()[w2.pending().len() + i] == links(objs[id@])[i]);
                        }
                        if w0.covers(objs, None) {
                            lemma_covers_grow(w1, *self, objs, None);
                        }
                    }
                },
            }
        }
        None
    }
}

/// Storing the object a walk asked for, under its id, and queueing its
/// links leaves the walk covering the grown store with no hole, and loses
/// nothing the walk knew.
pub proof fn law_fetched_object_fills_the_hole(
    w: FetchWalk,
    w2: FetchWalk,
    objs: Objects,
    objs2: Objects,
    id: Seq<char>,
)
    requires
        w.covers(objs, Some(id)),
        w.visited().contains(id),
        forall|k: Seq<char>| #[trigger] objs.contains_key(k) ==> objs2.contains_key(k) && objs2[k] == objs[k],
        objs2.contains_key(id),
        w2.pending() == w.pending() + links(objs2[id]),
        w2.visited() == w.visited(),
    ensures
        w2.covers(objs2, None),
        forall|x: Seq<char>| w.known(x) ==> #[trigger] w2.known(x),
{
    assert forall|x: Seq<char>| w.known(x) implies #[trigger] w2.known(x) by {
        if w.pending().contains(x) {
            let k = choose|k: int| 0 <= k < w.pending().len() && w.pending()[k] == x;
            assert(w2.pending()[k] == x);
        }
    }
    assert forall|v: Seq<char>| #[trigger] w2.visited().contains(v) && None::<Seq<char>> != Some(v) implies objs2.contains_key(v)
        && forall|i: int| 0 <= i < links(objs2[v]).len() ==> w2.known(#[trigger] links(objs2[v])[i]) by {
        if v == id {
            assert forall|i: int| 0 <= i < links(objs2[v]).len() implies w2.known(#[trigger] links(objs2[v])[i]) by {
                assert(w2.pending()[w.pending().len() + i] == links(objs2[v])[i]);
            }
        } else {
            assert(objs.contains_key(v));
            assert forall|i: int| 0 <= i < links(objs2[v]).len() implies w2.known(#[trigger] links(objs2[v])[i]) by {
                assert(w.known(links(objs[v])[i]));
            }
        }
    }
}

/// A walk with nothing left to visit, that started from `tip` and covered
/// the store all along, leaves the store holding everything a push of `tip`
/// would send: every commit in its history and every entry they record.
pub proof fn law_finished_walk_holds_everything(w: FetchWalk, objs: Objects, tip: Seq<char>)
    requires
        w.covers(objs, None),
        w.pending().len() == 0,
        w.known(tip),
    ensures
        graph_objects(objs, tip).subset_of(objs.dom()),
{
    assert forall|x: Seq<char>| history(objs, tip).contains(x) implies w.visited().contains(x) by {
        let p = choose|p: Seq<Seq<char>>| #[trigger] is_walk(objs, p) && p[0] == tip && p.last() == x;
        lemma_walk_visited(w, objs, p, tip);
    }
    assert forall|e: Seq<char>| recorded_entries(objs, history(objs, tip)).contains(e) implies objs.contains_key(e) by {
        let c = choose|c: Seq<char>| history(objs, tip).contains(c) && #[trigger] entries_in(objs, c).contains(e);
        assert(w.visited().contains(c));
        assert(objs.contains_key(c));
        let j = choose|j: int| 0 <= j < entries_in(objs, c).len() && entries_in(objs, c)[j] == e;
        match objs[c] {
            SpecObject::Commit(cm) => {
                assert(links(objs[c])[cm.parents.len() + j] == e);
                assert(w.known(e));
            },
            SpecObject::Entry(_) => {},
        }
    }
    assert forall|x: Seq<char>| graph_objects(objs, tip).contains(x) implies objs.dom().contains(x) by {
        if history(objs, tip).contains(x) {
            assert(w.visited().contains(x));
        }
    }
}

proof fn lemma_walk_visited(w: FetchWalk, objs: Objects, p: Seq<Seq<char>>, tip: Seq<char>)
    requires
        w.covers(objs, None),
        w.pending().len() == 0,
        w.known(tip),
        is_walk(objs, p),
        p[0] == tip,
    ensures
        w.visited().contains(p.last()),
    decreases p.len(),
{
    if p.len() == 1 {
        assert(p.last() == tip);
    } else {
        let q = p.drop_last();
        assert forall|i: int| 0 <= i < q.len() - 1 implies crate::graph::is_commit_in(objs, #[trigger] q[i])
            && parents_in(objs, q[i]).contains(q[i + 1]) by {
            assert(q[i] == p[i]);
            assert(q[i + 1] == p[i + 1]);
        }
        lemma_walk_visited(w, objs, q, tip);
        let k = p.len() - 2;
        assert(q.last() == p[k]);
        assert(objs.contains_key(p[k]));
        let j = choose|j: int| 0 <= j < parents_in(objs, p[k]).len() && parents_in(objs, p[k])[j] == p[k + 1];
        match objs[p[k]] {
            SpecObject::Commit(cm) => {
                assert(links(objs[p[k]])[j] == p[k + 1]);
                assert(w.known(p[k + 1]));
            },
            SpecObject::Entry(_) => {},
        }
    }
}

} // verus!
