//! The repository: an append-only object store plus refs, modeled on git but
//! holding intent instead of code.
//!
//! A [`Repo`] is the whole state of a repository: the content-addressed
//! objects, the branch refs, the remote-tracking refs, HEAD, the staging
//! index and the config. Every command is a verified step from one state to
//! the next; reading it from disk and writing it back is the caller's part.

use vstd::prelude::*;

use crate::config::{label_of, Config, Identity};
use crate::error::{opt_str, LoreError, SpecError};
use crate::graph::{
    closed_under_parents, content_addressed, lemma_history_within, entries_in, history, history_error, history_ok, is_commit_in, is_entry_in,
    lemma_closed_holds_history, lemma_reaches_self, lemma_reaches_step, lemma_unique_within_len,
    parents_in, reaches, Objects,
};
use crate::object::{
    lemma_entry_id_is_intent_only, object_id, Commit, Entry, Object, SpecCommit, SpecEntry, SpecObject,
};
use crate::brief::{brief_text, entry_key, entry_pairs, render_brief, short_ok};
use crate::order::{ascending, key_view, sort_by_key};
use crate::strmap::{sorted_keys, StrMap};
use crate::text::{
    append_str, chars_of, contains_str, dedup, dedup_strings, has_prefix, is_blank, starts_with,
    nonblank_lines, nonblank_lines_of, str_eq, string_from_chars, strs, trim, trimmed,
};

verus! {

/// The branch a HEAD file names: its trimmed text after `ref: refs/heads/`.
pub open spec fn branch_of_head(head: Seq<char>) -> Option<Seq<char>> {
    let t = trim(head);
    let p = "ref: refs/heads/"@;
    if has_prefix(t, p) {
        Some(t.skip(p.len() as int))
    } else {
        None
    }
}

/// The HEAD text that points at `branch`.
pub open spec fn head_for(branch: Seq<char>) -> Seq<char> {
    "ref: refs/heads/"@ + branch + "\n"@
}

/// A handle to the whole state of a Lore repository.
pub struct Repo {
    objects: StrMap<Object>,
    refs: StrMap<String>,
    remote_refs: StrMap<String>,
    head: String,
    index: Vec<String>,
    config: Config,
}

impl Repo {
    /// The object store: id to object.
    pub closed spec fn objs(self) -> Objects {
        self.objects@.map_values(|o: Object| o@)
    }

    /// Branch name to commit id.
    pub closed spec fn branch_refs(self) -> Map<Seq<char>, Seq<char>> {
        self.refs@.map_values(|s: String| s@)
    }

    /// `<remote>/<branch>` to the commit id last seen there.
    pub closed spec fn tracking_refs(self) -> Map<Seq<char>, Seq<char>> {
        self.remote_refs@.map_values(|s: String| s@)
    }

    /// The text of HEAD.
    pub closed spec fn head_text(self) -> Seq<char> {
        self.head@
    }

    /// The staged entry ids, in the order they were staged, repeats kept.
    pub closed spec fn index_ids(self) -> Seq<Seq<char>> {
        strs(self.index@)
    }

    /// The configuration.
    pub closed spec fn cfg(self) -> Config {
        self.config
    }

    /// The branch HEAD names, if HEAD is well formed.
    pub open spec fn spec_branch(self) -> Option<Seq<char>> {
        branch_of_head(self.head_text())
    }

    /// The commit branch `b` points at: none when it has no ref, or only a
    /// blank one.
    pub open spec fn branch_tip(self, b: Seq<char>) -> Option<Seq<char>> {
        if self.branch_refs().contains_key(b) && self.branch_refs()[b].len() > 0 {
            Some(self.branch_refs()[b])
        } else {
            None
        }
    }

    /// The commit at the tip of the current branch, if any.
    pub open spec fn spec_head_commit(self) -> Option<Seq<char>> {
        match self.spec_branch() {
            Some(b) => self.branch_tip(b),
            None => None,
        }
    }

    /// Lay out an empty repository: HEAD on `main`, nothing stored, staged or
    /// configured.
    pub fn init() -> (r: Repo)
        ensures
            r.objs() == Map::<Seq<char>, SpecObject>::empty(),
            r.branch_refs() == Map::<Seq<char>, Seq<char>>::empty(),
            r.tracking_refs() == Map::<Seq<char>, Seq<char>>::empty(),
            r.head_text() == head_for("main"@),
            r.index_ids() == Seq::<Seq<char>>::empty(),
            r.cfg().user.name@.len() == 0,
            r.cfg().user.email@.len() == 0,
            r.cfg().remotes@ == Map::<Seq<char>, crate::config::Remote>::empty(),
    {
        let mut head = String::new();
        append_str(&mut head, "ref: refs/heads/");
        append_str(&mut head, "main");
        append_str(&mut head, "\n");
        let r = Repo {
            objects: StrMap::new(),
            refs: StrMap::new(),
            remote_refs: StrMap::new(),
            head,
            index: Vec::new(),
            config: Config::default(),
        };
        assert(r.objs() =~= Map::<Seq<char>, SpecObject>::empty());
        assert(r.branch_refs() =~= Map::<Seq<char>, Seq<char>>::empty());
        assert(r.tracking_refs() =~= Map::<Seq<char>, Seq<char>>::empty());
        assert(r.index_ids() =~= Seq::<Seq<char>>::empty());
        r
    }

    /// A repository holding exactly the given state.
    pub fn from_parts(
        objects: StrMap<Object>,
        refs: StrMap<String>,
        remote_refs: StrMap<String>,
        head: String,
        index: Vec<String>,
        config: Config,
    ) -> (r: Repo)
        ensures
            r.objs() == objects@.map_values(|o: Object| o@),
            r.branch_refs() == refs@.map_values(|s: String| s@),
            r.tracking_refs() == remote_refs@.map_values(|s: String| s@),
            r.head_text() == head@,
            r.index_ids() == strs(index@),
            r.cfg() == config,
    {
        Repo { objects, refs, remote_refs, head, index, config }
    }

    /// The stored objects, by id.
    pub fn objects(&self) -> (m: &StrMap<Object>)
        ensures
            m@.map_values(|o: Object| o@) == self.objs(),
    {
        &self.objects
    }

    /// The branch refs, by branch name.
    pub fn refs(&self) -> (m: &StrMap<String>)
        ensures
            m@.map_values(|s: String| s@) == self.branch_refs(),
    {
        &self.refs
    }

    /// The remote-tracking refs, by `<remote>/<branch>`.
    pub fn remote_refs(&self) -> (m: &StrMap<String>)
        ensures
            m@.map_values(|s: String| s@) == self.tracking_refs(),
    {
        &self.remote_refs
    }

    /// The text of HEAD.
    pub fn head(&self) -> (h: &String)
        ensures
            h@ == self.head_text(),
    {
        &self.head
    }

    /// The staged entry ids, in the order staged, repeats kept.
    pub fn index(&self) -> (v: &Vec<String>)
        ensures
            strs(v@) == self.index_ids(),
    {
        &self.index
    }

    // --- config ---
    /// The repository config (identity and remotes).
    pub fn config(&self) -> (c: &Config)
        ensures
            *c == self.cfg(),
    {
        &self.config
    }

    /// Replace the repository config.
    pub fn save_config(&mut self, config: Config)
        ensures
            final(self).cfg() == config,
            final(self).objs() == old(self).objs(),
            final(self).branch_refs() == old(self).branch_refs(),
            final(self).tracking_refs() == old(self).tracking_refs(),
            final(self).head_text() == old(self).head_text(),
            final(self).index_ids() == old(self).index_ids(),
    {
        self.config = config;
    }

    // --- object store ---
    /// Whether an object is stored under `id`.
    pub fn has_object(&self, id: &str) -> (b: bool)
        ensures
            b == self.objs().contains_key(id@),
    {
        self.objects.contains_key(id)
    }

    /// The object stored under `id`, in place.
    pub fn object_ref(&self, id: &str) -> (r: Option<&Object>)
        ensures
            match r {
                Some(o) => self.objs().contains_key(id@) && o@ == self.objs()[id@],
                None => !self.objs().contains_key(id@),
            },
    {
        self.objects.get(id)
    }

    /// How many objects are stored.
    pub fn object_count(&self) -> (n: usize)
        ensures
            n == self.objs().dom().len(),
            self.objs().dom().finite(),
    {
        self.objects.keys_are_sorted();
        proof {
            self.objects.lemma_view();
            assert(self.objs().dom() =~= self.objects@.dom());
        }
        self.objects.len()
    }

    /// Read an object by its full id.
    pub fn read_object(&self, id: &str) -> (r: Result<Object, LoreError>)
        ensures
            match r {
                Ok(o) => self.objs().contains_key(id@) && o@ == self.objs()[id@],
                Err(e) => !self.objs().contains_key(id@) && e@ == SpecError::NoSuchObject(id@),
            },
    {
        match self.objects.get(id) {
            Some(o) => Ok(o.copy()),
            None => Err(LoreError::NoSuchObject(id.to_owned())),
        }
    }

    /// Read the commit stored under `id`.
    pub fn read_commit(&self, id: &str) -> (r: Result<Commit, LoreError>)
        ensures
            match r {
                Ok(c) => is_commit_in(self.objs(), id@) && self.objs()[id@] == SpecObject::Commit(
                    c@,
                ),
                Err(e) => !is_commit_in(self.objs(), id@) && e@ == (if self.objs().contains_key(
                    id@,
                ) {
                    SpecError::NotACommit(id@)
                } else {
                    SpecError::NoSuchObject(id@)
                }),
            },
    {
        match self.objects.get(id) {
            Some(Object::Commit(c)) => Ok(c.copy()),
            Some(Object::Entry(_)) => Err(LoreError::NotACommit(id.to_owned())),
            None => Err(LoreError::NoSuchObject(id.to_owned())),
        }
    }

    /// Read the entry stored under `id`.
    pub fn read_entry(&self, id: &str) -> (r: Result<Entry, LoreError>)
        ensures
            match r {
                Ok(e) => is_entry_in(self.objs(), id@) && self.objs()[id@] == SpecObject::Entry(
                    e@,
                ),
                Err(e) => !is_entry_in(self.objs(), id@) && e@ == (if self.objs().contains_key(
                    id@,
                ) {
                    SpecError::NotAnEntry(id@)
                } else {
                    SpecError::NoSuchObject(id@)
                }),
            },
    {
        match self.objects.get(id) {
            Some(Object::Entry(e)) => Ok(e.copy()),
            Some(Object::Commit(_)) => Err(LoreError::NotAnEntry(id.to_owned())),
            None => Err(LoreError::NoSuchObject(id.to_owned())),
        }
    }

    // --- refs and HEAD ---
    /// The branch HEAD currently points at.
    pub fn current_branch(&self) -> (r: Result<String, LoreError>)
        ensures
            match r {
                Ok(b) => self.spec_branch() == Some(b@),
                Err(e) => self.spec_branch() is None && e@ == SpecError::MalformedHead(
                    self.head_text(),
                ),
            },
    {
        let t = trimmed(self.head.as_str());
        let prefix = "ref: refs/heads/";
        if starts_with(t.as_str(), prefix) {
            let cs = chars_of(t.as_str());
            let n = prefix.unicode_len();
            let b = string_from_chars(&cs, n, cs.len());
            assert(b@ == t@.skip(prefix@.len() as int));
            Ok(b)
        } else {
            Err(LoreError::MalformedHead(self.head.clone()))
        }
    }

    /// The commit id a branch points at, if it has one.
    pub fn read_ref(&self, branch: &str) -> (r: Option<String>)
        ensures
            opt_str(r) == self.branch_tip(branch@),
    {
        match self.refs.get(branch) {
            Some(id) => if id.as_str().is_empty() {
                None
            } else {
                Some(id.clone())
            },
            None => None,
        }
    }

    /// The commit at the tip of the current branch, if any.
    pub fn head_commit(&self) -> (r: Result<Option<String>, LoreError>)
        ensures
            match r {
                Ok(h) => self.spec_branch() is Some && opt_str(h) == self.spec_head_commit(),
                Err(e) => self.spec_branch() is None && e@ == SpecError::MalformedHead(
                    self.head_text(),
                ),
            },
    {
        let b = self.current_branch()?;
        Ok(self.read_ref(b.as_str()))
    }

    // --- history ---
    /// Every commit reachable from `start` by following parents, each once.
    pub fn reachable(&self, start: &str) -> (r: Result<Vec<String>, LoreError>)
        ensures
            match r {
                Ok(v) => {
                    &&& history_ok(self.objs(), start@)
                    &&& strs(v@).no_duplicates()
                    &&& strs(v@).to_set() == history(self.objs(), start@)
                },
                Err(e) => !history_ok(self.objs(), start@) && history_error(self.objs(), start@, e@),
            },
    {
        let ghost objs = self.objs();
        let ghost s0 = start@;
        self.objects.keys_are_sorted();
        proof {
            self.objects.lemma_view();
            lemma_reaches_self(objs, s0);
        }
        let n_objects = self.objects.len();
        let mut seen: Vec<String> = Vec::new();
        let mut stack: Vec<String> = Vec::new();
        stack.push(start.to_owned());
        assert(strs(stack@)[0] == s0);
        while stack.len() > 0
            invariant
                objs == self.objs(),
                s0 == start@,
                n_objects == self.objects.keys_seq().len(),
                self.objects.keys_seq().to_set() == self.objects@.dom(),
                strs(seen@).no_duplicates(),
                forall|i: int|
                    0 <= i < seen@.len() ==> is_commit_in(objs, #[trigger] strs(seen@)[i]),
                forall|i: int, j: int|
                    0 <= i < seen@.len() && 0 <= j < parents_in(objs, strs(seen@)[i]).len() ==> (
                    strs(seen@).contains(#[trigger] parents_in(objs, strs(seen@)[i])[j]) || strs(
                        stack@,
                    ).contains(parents_in(objs, strs(seen@)[i])[j])),
                forall|i: int| 0 <= i < seen@.len() ==> reaches(objs, s0, #[trigger] strs(seen@)[i]),
                forall|i: int|
                    0 <= i < stack@.len() ==> reaches(objs, s0, #[trigger] strs(stack@)[i]),
                strs(seen@).contains(s0) || strs(stack@).contains(s0),
            decreases n_objects - seen.len(), stack.len(),
        {
            let ghost old_seen = strs(seen@);
            let ghost old_stack = strs(stack@);
            let id = stack.pop().unwrap();
            assert(old_stack == strs(stack@).push(id@));
            assert(reaches(objs, s0, old_stack[old_stack.len() - 1]));
            if contains_str(&seen, id.as_str()) {
                proof {
                    assert forall|i: int, j: int|
                        0 <= i < seen@.len() && 0 <= j < parents_in(objs, strs(seen@)[i]).len()
                            implies (strs(seen@).contains(
                        #[trigger] parents_in(objs, strs(seen@)[i])[j],
                    ) || strs(stack@).contains(parents_in(objs, strs(seen@)[i])[j])) by {
                        let y = parents_in(objs, strs(seen@)[i])[j];
                        if old_stack.contains(y) && !strs(seen@).contains(y) {
                            let k = choose|k: int| 0 <= k < old_stack.len() && old_stack[k] == y;
                            if k < old_stack.len() - 1 {
                                assert(strs(stack@)[k] == y);
                            }
                        }
                    }
                    if old_stack.contains(s0) && !strs(seen@).contains(s0) {
                        let k = choose|k: int| 0 <= k < old_stack.len() && old_stack[k] == s0;
                        if k < old_stack.len() - 1 {
                            assert(strs(stack@)[k] == s0);
                        }
                    }
                    assert forall|i: int| 0 <= i < stack@.len() implies reaches(
                        objs,
                        s0,
                        #[trigger] strs(stack@)[i],
                    ) by {
                        assert(strs(stack@)[i] == old_stack[i]);
                    }
                }
                continue ;
            }
            match self.objects.get(id.as_str()) {
                None => {
                    proof {
                        assert(!history_ok(objs, s0));
                    }
                    return Err(LoreError::NoSuchObject(id));
                },
                Some(Object::Entry(_)) => {
                    proof {
                        assert(!history_ok(objs, s0));
                    }
                    return Err(LoreError::NotACommit(id));
                },
                Some(Object::Commit(c)) => {
                    let ghost x = id@;
                    proof {
                        assert(objs[x] == SpecObject::Commit(c@));
                        assert(is_commit_in(objs, x));
                        lemma_unique_within_len(old_seen.push(x), self.objects.keys_seq());
                    }
                    seen.push(id);
                    assert(strs(seen@) == old_seen.push(x));
                    let ghost mid_stack = strs(stack@);
                    let ps = &c.parents;
                    let mut k: usize = 0;
                    while k < ps.len()
                        invariant
                            objs == self.objs(),
                            is_commit_in(objs, x),
                            reaches(objs, s0, x),
                            parents_in(objs, x) == strs(ps@),
                            k <= ps.len(),
                            strs(stack@) == mid_stack + strs(ps@).take(k as int),
                        decreases ps.len() - k,
                    {
                        let ghost before = stack@;
                        stack.push(ps[k].clone());
                        assert(stack@ == before.push(ps@[k as int]));
                        assert(strs(stack@) == strs(before).push(ps@[k as int]@));
                        assert(strs(ps@).take(k + 1) == strs(ps@).take(k as int).push(ps@[k as int]@));
                        k = k + 1;
                    }
                    proof {
                        assert(strs(ps@).take(ps.len() as int) == strs(ps@));
                        let ns = strs(seen@);
                        let nt = strs(stack@);
                        assert(nt == mid_stack + parents_in(objs, x));
                        assert forall|i: int| 0 <= i < seen@.len() implies is_commit_in(
                            objs,
                            #[trigger] ns[i],
                        ) by {
                            if i < old_seen.len() {
                                assert(ns[i] == old_seen[i]);
                            }
                        }
                        assert forall|i: int| 0 <= i < seen@.len() implies reaches(
                            objs,
                            s0,
                            #[trigger] ns[i],
                        ) by {
                            if i < old_seen.len() {
                                assert(ns[i] == old_seen[i]);
                            }
                        }
                        assert forall|i: int| 0 <= i < stack@.len() implies reaches(
                            objs,
                            s0,
                            #[trigger] nt[i],
                        ) by {
                            if i < mid_stack.len() {
                                assert(nt[i] == old_stack[i]);
                            } else {
                                let j = i - mid_stack.len();
                                assert(nt[i] == parents_in(objs, x)[j]);
                                lemma_reaches_step(objs, s0, x, nt[i]);
                            }
                        }
                        assert forall|i: int, j: int|
                            0 <= i < seen@.len() && 0 <= j < parents_in(objs, ns[i]).len()
                                implies (ns.contains(#[trigger] parents_in(objs, ns[i])[j])
                            || nt.contains(parents_in(objs, ns[i])[j])) by {
                            let y = parents_in(objs, ns[i])[j];
                            if i == old_seen.len() {
                                assert(nt[mid_stack.len() + j] == y);
                            } else {
                                assert(ns[i] == old_seen[i]);
                                if old_seen.contains(y) {
                                    let k2 = choose|k2: int|
                                        0 <= k2 < old_seen.len() && old_seen[k2] == y;
                                    assert(ns[k2] == y);
                                } else {
                                    assert(old_stack.contains(y));
                                    let k2 = choose|k2: int|
                                        0 <= k2 < old_stack.len() && old_stack[k2] == y;
                                    if k2 < old_stack.len() - 1 {
                                        assert(nt[k2] == y);
                                    } else {
                                        assert(y == x);
                                        assert(ns[old_seen.len() as int] == y);
                                    }
                                }
                            }
                        }
                        if old_seen.contains(s0) {
                            let k2 = choose|k2: int| 0 <= k2 < old_seen.len() && old_seen[k2] == s0;
                            assert(ns[k2] == s0);
                        } else {
                            let k2 = choose|k2: int| 0 <= k2 < old_stack.len() && old_stack[k2] == s0;
                            if k2 < old_stack.len() - 1 {
                                assert(nt[k2] == s0);
                            } else {
                                assert(ns[old_seen.len() as int] == s0);
                            }
                        }
                    }
                },
            }
        }
        proof {
            let ns = strs(seen@);
            let set = ns.to_set();
            assert(closed_under_parents(objs, set)) by {
                assert forall|x: Seq<char>| #[trigger] set.contains(x) implies is_commit_in(objs, x)
                    && forall|i: int|
                    0 <= i < parents_in(objs, x).len() ==> set.contains(
                        #[trigger] parents_in(objs, x)[i],
                    ) by {
                    let k = choose|k: int| 0 <= k < ns.len() && ns[k] == x;
                    assert forall|i: int| 0 <= i < parents_in(objs, x).len() implies set.contains(
                        #[trigger] parents_in(objs, x)[i],
                    ) by {
                        assert(ns.contains(parents_in(objs, ns[k])[i]) || strs(stack@).contains(
                            parents_in(objs, ns[k])[i],
                        ));
                    }
                }
            }
            assert(set.contains(s0));
            assert forall|x: Seq<char>| #[trigger] reaches(objs, s0, x) implies set.contains(x) by {
                lemma_closed_holds_history(objs, set, s0, x);
            }
            assert(set =~= history(objs, s0)) by {
                assert forall|x: Seq<char>| set.contains(x) implies reaches(objs, s0, x) by {
                    let k = choose|k: int| 0 <= k < ns.len() && ns[k] == x;
                }
            }
        }
        Ok(seen)
    }

    /// Whether `ancestor` is in the history of `descendant`.
    pub fn is_ancestor(&self, ancestor: &str, descendant: &str) -> (r: Result<bool, LoreError>)
        ensures
            match r {
                Ok(b) => history_ok(self.objs(), descendant@) && b == history(
                    self.objs(),
                    descendant@,
                ).contains(ancestor@),
                Err(e) => !history_ok(self.objs(), descendant@) && history_error(
                    self.objs(),
                    descendant@,
                    e@,
                ),
            },
    {
        let v = self.reachable(descendant)?;
        Ok(contains_str(&v, ancestor))
    }

    // --- writing ---
    /// Write an object, returning its id. An object already stored under
    /// that id is left untouched, which is what gives identical intent a
    /// single stored copy.
    pub fn write_object(&mut self, obj: &Object) -> (id: String)
        ensures
            id@ == object_id(obj@),
            id@.len() == 64,
            final(self).objs() == (if old(self).objs().contains_key(id@) {
                old(self).objs()
            } else {
                old(self).objs().insert(id@, obj@)
            }),
            final(self).branch_refs() == old(self).branch_refs(),
            final(self).tracking_refs() == old(self).tracking_refs(),
            final(self).head_text() == old(self).head_text(),
            final(self).index_ids() == old(self).index_ids(),
            final(self).cfg() == old(self).cfg(),
            content_addressed(old(self).objs()) ==> content_addressed(final(self).objs()),
    {
        let id = obj.id();
        if !self.objects.contains_key(id.as_str()) {
            self.objects.insert(id.clone(), obj.copy());
            assert(self.objs() =~= old(self).objs().insert(id@, obj@));
        }
        id
    }

    /// Store an object received under `id`, after checking that it hashes
    /// to `id`, so a remote cannot poison the store.
    pub fn write_object_checked(&mut self, id: &str, obj: &Object) -> (r: Result<(), LoreError>)
        ensures
            match r {
                Ok(()) => object_id(obj@) == id@ && final(self).objs() == (if old(self).objs().contains_key(id@) {
                    old(self).objs()
                } else {
                    old(self).objs().insert(id@, obj@)
                }),
                Err(e) => object_id(obj@) != id@ && e@ == SpecError::IdMismatch {
                    expected: id@,
                    actual: object_id(obj@),
                } && final(self).objs() == old(self).objs(),
            },
            final(self).branch_refs() == old(self).branch_refs(),
            final(self).tracking_refs() == old(self).tracking_refs(),
            final(self).head_text() == old(self).head_text(),
            final(self).index_ids() == old(self).index_ids(),
            final(self).cfg() == old(self).cfg(),
            content_addressed(old(self).objs()) ==> content_addressed(final(self).objs()),
    {
        let actual = obj.id();
        if !str_eq(actual.as_str(), id) {
            return Err(LoreError::IdMismatch { expected: id.to_owned(), actual });
        }
        self.write_object(obj);
        Ok(())
    }

    /// Point `branch` at commit `id`.
    pub fn write_ref(&mut self, branch: &str, id: &str)
        ensures
            final(self).branch_refs() == old(self).branch_refs().insert(branch@, id@),
            final(self).objs() == old(self).objs(),
            final(self).tracking_refs() == old(self).tracking_refs(),
            final(self).head_text() == old(self).head_text(),
            final(self).index_ids() == old(self).index_ids(),
            final(self).cfg() == old(self).cfg(),
    {
        self.refs.insert(branch.to_owned(), id.to_owned());
        assert(self.branch_refs() =~= old(self).branch_refs().insert(branch@, id@));
    }

    /// The last-known commit a remote's branch pointed at, if known.
    pub fn read_remote_ref(&self, remote: &str, branch: &str) -> (r: Option<String>)
        ensures
            opt_str(r) == (if self.tracking_refs().contains_key(tracking_key(remote@, branch@)) {
                Some(self.tracking_refs()[tracking_key(remote@, branch@)])
            } else {
                None
            }),
    {
        let key = tracking_key_of(remote, branch);
        match self.remote_refs.get(key.as_str()) {
            Some(id) => Some(id.clone()),
            None => None,
        }
    }

    /// Record that `remote`'s `branch` points at `id`.
    pub fn write_remote_ref(&mut self, remote: &str, branch: &str, id: &str)
        ensures
            final(self).tracking_refs() == old(self).tracking_refs().insert(
                tracking_key(remote@, branch@),
                id@,
            ),
            final(self).objs() == old(self).objs(),
            final(self).branch_refs() == old(self).branch_refs(),
            final(self).head_text() == old(self).head_text(),
            final(self).index_ids() == old(self).index_ids(),
            final(self).cfg() == old(self).cfg(),
    {
        let key = tracking_key_of(remote, branch);
        self.remote_refs.insert(key, id.to_owned());
        assert(self.tracking_refs() =~= old(self).tracking_refs().insert(
            tracking_key(remote@, branch@),
            id@,
        ));
    }

    /// Point HEAD at a branch (without touching the branch ref).
    pub fn set_head(&mut self, branch: &str)
        ensures
            final(self).head_text() == head_for(branch@),
            final(self).objs() == old(self).objs(),
            final(self).branch_refs() == old(self).branch_refs(),
            final(self).tracking_refs() == old(self).tracking_refs(),
            final(self).index_ids() == old(self).index_ids(),
            final(self).cfg() == old(self).cfg(),
    {
        let mut h = String::new();
        append_str(&mut h, "ref: refs/heads/");
        append_str(&mut h, branch);
        append_str(&mut h, "\n");
        self.head = h;
    }

    // --- staging ---
    /// The staged entry ids, each once, in the order first staged.
    pub fn read_index(&self) -> (v: Vec<String>)
        ensures
            strs(v@) == dedup(self.index_ids()),
    {
        dedup_strings(&self.index)
    }

    /// Empty the staging index.
    fn clear_index(&mut self)
        ensures
            final(self).index_ids() == Seq::<Seq<char>>::empty(),
            final(self).objs() == old(self).objs(),
            final(self).branch_refs() == old(self).branch_refs(),
            final(self).tracking_refs() == old(self).tracking_refs(),
            final(self).head_text() == old(self).head_text(),
            final(self).cfg() == old(self).cfg(),
    {
        self.index = Vec::new();
        assert(self.index_ids() =~= Seq::<Seq<char>>::empty());
    }

    // --- commands ---
    /// Stage one unit of intent: one object write and one append to the
    /// index.
    pub fn add(&mut self, who: &Identity, text: &str, now: u64) -> (r: Result<String, LoreError>)
        ensures
            match r {
                Ok(id) => {
                    let e = note_entry(label_of(who.name@, who.email@), text@, now);
                    &&& trim(text@).len() > 0
                    &&& id@ == object_id(e)
                    &&& final(self).objs() == (if old(self).objs().contains_key(id@) {
                        old(self).objs()
                    } else {
                        old(self).objs().insert(id@, e)
                    })
                    &&& final(self).index_ids() == old(self).index_ids().push(id@)
                },
                Err(e) => {
                    &&& trim(text@).len() == 0
                    &&& e@ == SpecError::EmptyIntent
                    &&& final(self).objs() == old(self).objs()
                    &&& final(self).index_ids() == old(self).index_ids()
                },
            },
            final(self).branch_refs() == old(self).branch_refs(),
            final(self).tracking_refs() == old(self).tracking_refs(),
            final(self).head_text() == old(self).head_text(),
            final(self).cfg() == old(self).cfg(),
            content_addressed(old(self).objs()) ==> content_addressed(final(self).objs()),
    {
        if is_blank(text) {
            return Err(LoreError::EmptyIntent);
        }
        let entry = Object::Entry(
            Entry {
                kind: "note".to_owned(),
                author: who.label(),
                timestamp: now,
                text: text.to_owned(),
            },
        );
        let id = self.write_object(&entry);
        self.index.push(id.clone());
        assert(self.index_ids() =~= old(self).index_ids().push(id@));
        Ok(id)
    }

    /// Record staged intent as a commit on the current branch.
    pub fn commit(&mut self, who: &Identity, message: &str, now: u64) -> (r: Result<
        String,
        LoreError,
    >)
        ensures
            match r {
                Ok(id) => {
                    let b = old(self).spec_branch()->0;
                    let c = SpecObject::Commit(
                        SpecCommit {
                            parents: opt_to_seq(old(self).spec_head_commit()),
                            author: label_of(who.name@, who.email@),
                            timestamp: now,
                            message: message@,
                            entries: dedup(old(self).index_ids()),
                        },
                    );
                    &&& dedup(old(self).index_ids()).len() > 0
                    &&& old(self).spec_branch() is Some
                    &&& id@ == object_id(c)
                    &&& final(self).objs() == (if old(self).objs().contains_key(id@) {
                        old(self).objs()
                    } else {
                        old(self).objs().insert(id@, c)
                    })
                    &&& final(self).branch_refs() == old(self).branch_refs().insert(b, id@)
                    &&& final(self).index_ids() == Seq::<Seq<char>>::empty()
                    &&& final(self).spec_head_commit() == Some(id@)
                },
                Err(e) => {
                    &&& final(self).objs() == old(self).objs()
                    &&& final(self).branch_refs() == old(self).branch_refs()
                    &&& final(self).index_ids() == old(self).index_ids()
                    &&& if dedup(old(self).index_ids()).len() == 0 {
                        e@ == SpecError::NothingStaged
                    } else {
                        old(self).spec_branch() is None && e@ == SpecError::MalformedHead(
                            old(self).head_text(),
                        )
                    }
                },
            },
            final(self).tracking_refs() == old(self).tracking_refs(),
            final(self).head_text() == old(self).head_text(),
            final(self).cfg() == old(self).cfg(),
            content_addressed(old(self).objs()) ==> content_addressed(final(self).objs()),
    {
        let entries = self.read_index();
        if entries.len() == 0 {
            return Err(LoreError::NothingStaged);
        }
        let branch = self.current_branch()?;
        let head = self.read_ref(branch.as_str());
        let mut parents: Vec<String> = Vec::new();
        match head {
            Some(h) => parents.push(h),
            None => {},
        }
        assert(strs(parents@) == opt_to_seq(old(self).spec_head_commit()));
        let c = Object::Commit(
            Commit { parents, author: who.label(), timestamp: now, message: message.to_owned(), entries },
        );
        let id = self.write_object(&c);
        self.write_ref(branch.as_str(), id.as_str());
        self.clear_index();
        Ok(id)
    }

    /// The entries stored under `ids`, in order; fails on the first id that
    /// does not name an entry.
    pub fn read_entries(&self, ids: &Vec<String>) -> (r: Result<Vec<(String, Entry)>, LoreError>)
        ensures
            match r {
                Ok(v) => {
                    &&& first_non_entry(self.objs(), strs(ids@)) is None
                    &&& v@.len() == ids@.len()
                    &&& forall|i: int|
                        0 <= i < v@.len() ==> (#[trigger] v@[i]).0@ == ids@[i]@ && self.objs()[ids@[i]@]
                            == SpecObject::Entry(v@[i].1@)
                },
                Err(e) => first_non_entry(self.objs(), strs(ids@)) matches Some(x) && e@
                    == entry_error(self.objs(), x),
            },
    {
        let ghost objs = self.objs();
        let ghost all = strs(ids@);
        let mut v: Vec<(String, Entry)> = Vec::new();
        let mut i: usize = 0;
        assert(all.skip(0) == all);
        while i < ids.len()
            invariant
                objs == self.objs(),
                all == strs(ids@),
                i <= ids.len(),
                first_non_entry(objs, all) == first_non_entry(objs, all.skip(i as int)),
                v@.len() == i,
                forall|j: int|
                    0 <= j < i ==> (#[trigger] v@[j]).0@ == ids@[j]@ && objs[ids@[j]@]
                        == SpecObject::Entry(v@[j].1@),
            decreases ids.len() - i,
        {
            let e = self.read_entry(ids[i].as_str())?;
            assert(all.skip(i as int).drop_first() == all.skip(i + 1));
            v.push((ids[i].clone(), e));
            i = i + 1;
        }
        Ok(v)
    }

    /// A snapshot of branch, head, and staged intent.
    pub fn status(&self) -> (r: Result<Status, LoreError>)
        ensures
            match r {
                Ok(st) => {
                    &&& first_non_entry(self.objs(), dedup(self.index_ids())) is None
                    &&& self.spec_branch() == Some(st.branch@)
                    &&& opt_str(st.head) == self.spec_head_commit()
                    &&& st.staged@.len() == dedup(self.index_ids()).len()
                    &&& forall|i: int|
                        0 <= i < st.staged@.len() ==> (#[trigger] st.staged@[i]).0@ == dedup(
                            self.index_ids(),
                        )[i] && self.objs()[st.staged@[i].0@] == SpecObject::Entry(
                            st.staged@[i].1@,
                        )
                },
                Err(e) => match first_non_entry(self.objs(), dedup(self.index_ids())) {
                    Some(x) => e@ == entry_error(self.objs(), x),
                    None => self.spec_branch() is None && e@ == SpecError::MalformedHead(
                        self.head_text(),
                    ),
                },
            },
    {
        let ids = self.read_index();
        let staged = self.read_entries(&ids)?;
        let branch = self.current_branch()?;
        let head = self.head_commit()?;
        Ok(Status { branch, head, staged })
    }

    /// Create a branch at the current head.
    pub fn create_branch(&mut self, name: &str) -> (r: Result<(), LoreError>)
        ensures
            match r {
                Ok(()) => {
                    &&& !old(self).branch_refs().contains_key(name@)
                    &&& !is_dir_name(name@)
                    &&& !name@.contains('/')
                    &&& old(self).spec_head_commit() is Some
                    &&& final(self).branch_refs() == old(self).branch_refs().insert(
                        name@,
                        old(self).spec_head_commit()->0,
                    )
                },
                Err(e) => {
                    &&& final(self).branch_refs() == old(self).branch_refs()
                    &&& if old(self).branch_refs().contains_key(name@) || is_dir_name(name@) {
                        e@ == SpecError::BranchExists(name@)
                    } else if old(self).spec_branch() is None {
                        e@ == SpecError::MalformedHead(old(self).head_text())
                    } else if old(self).spec_head_commit() is None {
                        e@ == SpecError::NoCommitsToBranch
                    } else {
                        name@.contains('/') && e@ == SpecError::NoRefDirectory(name@)
                    }
                },
            },
            final(self).objs() == old(self).objs(),
            final(self).tracking_refs() == old(self).tracking_refs(),
            final(self).head_text() == old(self).head_text(),
            final(self).index_ids() == old(self).index_ids(),
            final(self).cfg() == old(self).cfg(),
    {
        if self.refs.contains_key(name) || dir_name(name) {
            return Err(LoreError::BranchExists(name.to_owned()));
        }
        let head = match self.head_commit()? {
            Some(h) => h,
            None => {
                return Err(LoreError::NoCommitsToBranch);
            },
        };
        if contains_char(name, '/') {
            return Err(LoreError::NoRefDirectory(name.to_owned()));
        }
        self.write_ref(name, head.as_str());
        Ok(())
    }

    /// Point HEAD at an existing branch, optionally creating it first.
    pub fn checkout(&mut self, name: &str, create: bool) -> (r: Result<(), LoreError>)
        ensures
            final(self).objs() == old(self).objs(),
            final(self).tracking_refs() == old(self).tracking_refs(),
            final(self).index_ids() == old(self).index_ids(),
            final(self).cfg() == old(self).cfg(),
            create ==> final(self).branch_refs() == old(self).branch_refs() || (
                !old(self).branch_refs().contains_key(name@) && old(self).spec_head_commit() is Some
                && final(self).branch_refs() == old(self).branch_refs().insert(
                name@,
                old(self).spec_head_commit()->0,
            )),
            !create ==> final(self).branch_refs() == old(self).branch_refs(),
            match r {
                Ok(()) => {
                    &&& create ==> !old(self).branch_refs().contains_key(name@)
                        && old(self).spec_head_commit() is Some
                    &&& old(self).spec_branch() is Some
                    &&& (old(self).spec_branch() == Some(name@) || final(self).branch_refs().contains_key(name@))
                    &&& final(self).head_text() == head_for(name@)
                },
                Err(e) => {
                    &&& final(self).head_text() == old(self).head_text()
                    &&& if create && (old(self).branch_refs().contains_key(name@) || is_dir_name(name@)) {
                        e@ == SpecError::BranchExists(name@)
                    } else if old(self).spec_branch() is None {
                        e@ == SpecError::MalformedHead(old(self).head_text())
                    } else if create && old(self).spec_head_commit() is None {
                        e@ == SpecError::NoCommitsToBranch
                    } else if create {
                        name@.contains('/') && e@ == SpecError::NoRefDirectory(name@)
                    } else {
                        old(self).spec_branch() != Some(name@) && !old(self).branch_refs().contains_key(name@) && e@ == SpecError::NoSuchBranch(name@)
                    }
                },
            },
    {
        if create {
            self.create_branch(name)?;
        }
        let current = self.current_branch()?;
        if !str_eq(name, current.as_str()) && !self.refs.contains_key(name) {
            assert(!self.branch_refs().contains_key(name@));
            assert(old(self).spec_branch() == Some(current@));
            return Err(LoreError::NoSuchBranch(name.to_owned()));
        }
        self.set_head(name);
        Ok(())
    }

    /// Branch names, with the current branch always present, sorted.
    pub fn branches(&self) -> (r: Result<Vec<String>, LoreError>)
        ensures
            match r {
                Ok(v) => {
                    &&& self.spec_branch() is Some
                    &&& sorted_keys(strs(v@))
                    &&& strs(v@).to_set() == self.branch_refs().dom().insert(
                        self.spec_branch()->0,
                    )
                },
                Err(e) => self.spec_branch() is None && e@ == SpecError::MalformedHead(
                    self.head_text(),
                ),
            },
    {
        let current = self.current_branch()?;
        let mut names: StrMap<bool> = StrMap::new();
        let keys = self.refs.keys();
        let mut i: usize = 0;
        while i < keys.len()
            invariant
                i <= keys.len(),
                strs(keys@) == self.refs.keys_seq(),
                self.refs.keys_seq().to_set() == self.refs@.dom(),
                names@.dom() == strs(keys@).take(i as int).to_set(),
            decreases keys.len() - i,
        {
            let ghost before = names@.dom();
            names.insert(keys[i].clone(), true);
            let ghost t = strs(keys@).take(i as int);
            assert(strs(keys@).take(i + 1) == t.push(keys@[i as int]@));
            assert forall|x: Seq<char>| t.push(keys@[i as int]@).contains(x) <==> (t.contains(x)
                || x == keys@[i as int]@) by {
                if t.push(keys@[i as int]@).contains(x) {
                    let j = choose|j: int| 0 <= j < t.len() + 1 && t.push(keys@[i as int]@)[j] == x;
                    if j < t.len() {
                        assert(t[j] == x);
                    }
                }
                if t.contains(x) {
                    let j = choose|j: int| 0 <= j < t.len() && t[j] == x;
                    assert(t.push(keys@[i as int]@)[j] == x);
                }
                if x == keys@[i as int]@ {
                    assert(t.push(keys@[i as int]@)[t.len() as int] == x);
                }
            }
            assert(names@.dom() == before.insert(keys@[i as int]@));
            assert(before == t.to_set());
            assert forall|x: Seq<char>| names@.dom().contains(x) <==> t.push(
                keys@[i as int]@,
            ).to_set().contains(x) by {
                assert(t.push(keys@[i as int]@).to_set().contains(x) == t.push(
                    keys@[i as int]@,
                ).contains(x));
                assert(t.to_set().contains(x) == t.contains(x));
            }
            assert(names@.dom() =~= t.push(keys@[i as int]@).to_set());
            assert(names@.dom() =~= strs(keys@).take(i + 1).to_set());
            i = i + 1;
        }
        assert(strs(keys@).take(keys.len() as int) == strs(keys@));
        names.insert(current, true);
        let v = names.keys();
        assert(strs(v@) == names.keys_seq());
        assert(strs(v@).to_set() =~= self.branch_refs().dom().insert(self.spec_branch()->0));
        Ok(v)
    }

    /// Merge another branch into the current branch.
    pub fn merge(&mut self, other: &str, who: &Identity, message: &str, now: u64) -> (r: Result<
        Merge,
        LoreError,
    >)
        ensures
            match old(self).branch_tip(other@) {
                None => r matches Err(e) && e@ == SpecError::NothingToMerge(other@) && *final(self)
                    == *old(self),
                Some(o) => merge_post(*old(self), *final(self), o, label_of(who.name@, who.email@), message@, now, r),
            },
    {
        let other_id = match self.read_ref(other) {
            Some(id) => id,
            None => {
                return Err(LoreError::NothingToMerge(other.to_owned()));
            },
        };
        self.merge_commit(other_id.as_str(), who, message, now)
    }

    /// Merge a specific commit into the current branch. Because
    /// materialization unions the whole commit graph, a merge only joins the
    /// two histories.
    pub fn merge_commit(&mut self, other_id: &str, who: &Identity, message: &str, now: u64) -> (r:
        Result<Merge, LoreError>)
        ensures
            merge_post(*old(self), *final(self), other_id@, label_of(who.name@, who.email@), message@, now, r),
    {
        let branch = self.current_branch()?;
        let head = match self.read_ref(branch.as_str()) {
            None => {
                self.write_ref(branch.as_str(), other_id);
                return Ok(Merge::FastForward(other_id.to_owned()));
            },
            Some(h) => h,
        };
        assert(old(self).spec_head_commit() == Some(head@));
        if str_eq(head.as_str(), other_id) {
            return Ok(Merge::UpToDate);
        }
        if self.is_ancestor(other_id, head.as_str())? {
            return Ok(Merge::UpToDate);
        }
        if self.is_ancestor(head.as_str(), other_id)? {
            self.write_ref(branch.as_str(), other_id);
            return Ok(Merge::FastForward(other_id.to_owned()));
        }
        let entries = self.read_index();
        let mut parents: Vec<String> = Vec::new();
        let ghost hv = head@;
        parents.push(head);
        parents.push(other_id.to_owned());
        assert(strs(parents@) =~= seq![hv, other_id@]);
        let c = Object::Commit(
            Commit { parents, author: who.label(), timestamp: now, message: message.to_owned(), entries },
        );
        let id = self.write_object(&c);
        self.write_ref(branch.as_str(), id.as_str());
        self.clear_index();
        Ok(Merge::Merged(id))
    }

    /// The commits of `ids` keyed by `(timestamp, id)`, in ascending order.
    fn sorted_time_keys(&self, ids: &Vec<String>) -> (r: Vec<(u64, String)>)
        requires
            strs(ids@).no_duplicates(),
            forall|i: int| 0 <= i < ids@.len() ==> self.objs().contains_key(#[trigger] strs(ids@)[i]),
        ensures
            ascending(key_view(r@)),
            key_view(r@).to_set() == strs(ids@).to_set().map(|id: Seq<char>| time_key(self.objs(), id)),
            forall|i: int| 0 <= i < r@.len() ==> strs(ids@).contains(#[trigger] r@[i].1@),
            forall|i: int| 0 <= i < r@.len() ==> #[trigger] key_view(r@)[i] == time_key(self.objs(), r@[i].1@),
    {
        let ghost objs = self.objs();
        let ghost f = |id: Seq<char>| time_key(objs, id);
        let mut keys: Vec<(u64, String)> = Vec::new();
        let mut i: usize = 0;
        while i < ids.len()
            invariant
                objs == self.objs(),
                f == (|id: Seq<char>| time_key(objs, id)),
                i <= ids.len(),
                forall|j: int| 0 <= j < ids@.len() ==> objs.contains_key(#[trigger] strs(ids@)[j]),
                key_view(keys@) == strs(ids@).take(i as int).map_values(f),
            decreases ids.len() - i,
        {
            let ts = match self.objects.get(ids[i].as_str()) {
                Some(Object::Commit(c)) => c.timestamp,
                Some(Object::Entry(e)) => e.timestamp,
                None => {
                    proof {
                        assert(objs.contains_key(strs(ids@)[i as int]));
                    }
                    0
                },
            };
            let ghost before = keys@;
            keys.push((ts, ids[i].clone()));
            proof {
                assert(key_view(keys@) == key_view(before).push((ts, ids@[i as int]@)));
                assert(strs(ids@).take(i + 1) == strs(ids@).take(i as int).push(strs(ids@)[i as int]));
                assert(f(strs(ids@)[i as int]) == (ts, ids@[i as int]@));
                assert(strs(ids@).take(i + 1).map_values(f) =~= strs(ids@).take(i as int).map_values(f).push(f(strs(ids@)[i as int])));
            }
            i = i + 1;
        }
        proof {
            assert(strs(ids@).take(ids.len() as int) == strs(ids@));
            strs(ids@).lemma_to_set_map_commutes(f);
            assert(key_view(keys@).no_duplicates()) by {
                assert forall|a: int, b: int| 0 <= a < key_view(keys@).len() && 0 <= b < key_view(keys@).len() && a != b implies key_view(keys@)[a] != key_view(keys@)[b] by {
                    assert(key_view(keys@)[a].1 == strs(ids@)[a]);
                    assert(key_view(keys@)[b].1 == strs(ids@)[b]);
                }
            }
        }
        let sorted = sort_by_key(keys);
        proof {
            assert forall|i: int| 0 <= i < sorted@.len() implies strs(ids@).contains(#[trigger] sorted@[i].1@) && key_view(sorted@)[i] == time_key(objs, sorted@[i].1@) by {
                assert(key_view(sorted@).to_set().contains(key_view(sorted@)[i]));
                assert(strs(ids@).to_set().map(f).contains(key_view(sorted@)[i]));
                let id = choose|id: Seq<char>| strs(ids@).to_set().contains(id) && f(id) == key_view(sorted@)[i];
                assert(strs(ids@).contains(id));
            }
        }
        sorted
    }

    /// History reachable from HEAD, newest first.
    pub fn log(&self) -> (r: Result<Vec<(String, Commit)>, LoreError>)
        ensures
            match r {
                Ok(v) => {
                    &&& self.spec_branch() is Some
                    &&& match self.spec_head_commit() {
                        None => v@.len() == 0,
                        Some(h) => {
                            &&& history_ok(self.objs(), h)
                            &&& ascending(log_keys(v@).reverse())
                            &&& log_keys(v@).to_set() == history(self.objs(), h).map(
                                |id: Seq<char>| time_key(self.objs(), id),
                            )
                            &&& forall|i: int|
                                0 <= i < v@.len() ==> self.objs()[(#[trigger] v@[i]).0@]
                                    == SpecObject::Commit(v@[i].1@)
                        },
                    }
                },
                Err(e) => match self.spec_branch() {
                    None => e@ == SpecError::MalformedHead(self.head_text()),
                    Some(_) => self.spec_head_commit() matches Some(h) && !history_ok(self.objs(), h)
                        && history_error(self.objs(), h, e@),
                },
            },
    {
        let ghost objs = self.objs();
        let head = match self.head_commit()? {
            None => {
                return Ok(Vec::new());
            },
            Some(h) => h,
        };
        let ids = self.reachable(head.as_str())?;
        proof {
            assert forall|i: int| 0 <= i < ids@.len() implies is_commit_in(objs, #[trigger] strs(ids@)[i]) by {
                assert(strs(ids@).to_set().contains(strs(ids@)[i]));
            }
            assert forall|i: int| 0 <= i < ids@.len() implies objs.contains_key(#[trigger] strs(ids@)[i]) by {
                assert(is_commit_in(objs, strs(ids@)[i]));
            }
        }
        let sorted = self.sorted_time_keys(&ids);
        proof {
            assert forall|i: int| 0 <= i < sorted@.len() implies is_commit_in(objs, #[trigger] sorted@[i].1@) by {
                assert(strs(ids@).contains(sorted@[i].1@));
                assert(strs(ids@).to_set().contains(sorted@[i].1@));
            }
        }
        let mut v: Vec<(String, Commit)> = Vec::new();
        let n = sorted.len();
        let mut k: usize = 0;
        while k < n
            invariant
                objs == self.objs(),
                n == sorted@.len(),
                k <= n,
                forall|i: int| 0 <= i < sorted@.len() ==> is_commit_in(objs, #[trigger] sorted@[i].1@),
                forall|i: int| 0 <= i < sorted@.len() ==> #[trigger] key_view(sorted@)[i] == time_key(objs, sorted@[i].1@),
                log_keys(v@) == key_view(sorted@).reverse().take(k as int),
                forall|i: int| 0 <= i < v@.len() ==> objs[(#[trigger] v@[i]).0@] == SpecObject::Commit(v@[i].1@),
            decreases n - k,
        {
            let id = &sorted[n - 1 - k].1;
            match self.read_commit(id.as_str()) {
                Ok(c) => {
                    let ghost before = v@;
                    let ghost ts = c.timestamp;
                    v.push((id.clone(), c));
                    proof {
                        assert(log_keys(v@) == log_keys(before).push((ts, id@)));
                        assert(key_view(sorted@).reverse()[k as int] == key_view(sorted@)[n - 1 - k]);
                        assert(key_view(sorted@)[n - 1 - k] == time_key(objs, sorted@[n - 1 - k].1@));
                        assert(key_view(sorted@)[n - 1 - k].0 == ts);
                        assert(key_view(sorted@).reverse().take(k + 1) =~= key_view(sorted@).reverse().take(k as int).push(key_view(sorted@).reverse()[k as int]));
                        assert forall|i: int| 0 <= i < v@.len() implies objs[(#[trigger] v@[i]).0@] == SpecObject::Commit(v@[i].1@) by {
                            if i < k {
                                assert(v@[i] == before[i]);
                            }
                        }
                    }
                },
                Err(_) => {
                    proof {
                        assert(is_commit_in(objs, sorted@[n - 1 - k].1@));
                    }
                },
            }
            k = k + 1;
        }
        proof {
            let ks = key_view(sorted@);
            assert(ks.reverse().take(n as int) == ks.reverse());
            assert(log_keys(v@).reverse() =~= ks);
            lemma_reverse_to_set(ks);
        }
        Ok(v)
    }

    /// Every stored commit whose id begins with `prefix`.
    pub open spec fn prefix_hits(self, prefix: Seq<char>) -> Set<Seq<char>> {
        self.objs().dom().filter(|id: Seq<char>| has_prefix(id, prefix) && is_commit_in(self.objs(), id))
    }

    /// What `reference` names: `HEAD`, a branch, a `<remote>/<branch>`
    /// tracking ref, or the one commit whose id it begins.
    pub open spec fn spec_resolve(self, reference: Seq<char>) -> Result<Seq<char>, SpecError> {
        if reference == "HEAD"@ {
            match self.spec_branch() {
                None => Err(SpecError::MalformedHead(self.head_text())),
                Some(_) => match self.spec_head_commit() {
                    Some(id) => Ok(id),
                    None => Err(SpecError::HeadHasNoCommits),
                },
            }
        } else if is_dir_name(reference) {
            Err(SpecError::RefIsDirectory(reference))
        } else if self.branch_tip(reference) is Some {
            Ok(self.branch_tip(reference)->0)
        } else if reference.contains('/') && self.tracking_refs().contains_key(reference) {
            Ok(self.tracking_refs()[reference])
        } else {
            let hits = self.prefix_hits(reference);
            if hits.len() == 1 {
                Ok(hits.choose())
            } else if hits.len() == 0 {
                Err(SpecError::UnknownRef(reference))
            } else {
                Err(SpecError::AmbiguousRef(reference, hits.len() as usize))
            }
        }
    }

    /// The stored commits whose ids begin with `prefix`: how many, and the
    /// first in id order.
    fn commits_with_prefix(&self, prefix: &str) -> (r: (usize, Option<String>))
        ensures
            r.0 == self.prefix_hits(prefix@).len(),
            self.prefix_hits(prefix@).finite(),
            r.0 == 1 ==> (r.1 matches Some(id) && self.prefix_hits(prefix@) == set![id@]),
    {
        let ghost objs = self.objs();
        let ghost pred = |id: Seq<char>| has_prefix(id, prefix@) && is_commit_in(objs, id);
        self.objects.keys_are_sorted();
        proof {
            self.objects.lemma_view();
        }
        let ghost ks = self.objects.keys_seq();
        let n = self.objects.len();
        let mut count: usize = 0;
        let mut first: Option<String> = None;
        let ghost mut hs: Seq<Seq<char>> = Seq::empty();
        let mut i: usize = 0;
        while i < n
            invariant
                objs == self.objs(),
                pred == (|id: Seq<char>| has_prefix(id, prefix@) && is_commit_in(objs, id)),
                ks == self.objects.keys_seq(),
                ks.no_duplicates(),
                ks.to_set() == self.objects@.dom(),
                n == ks.len(),
                i <= n,
                hs == ks.take(i as int).filter(pred),
                count == hs.len(),
                hs.len() > 0 ==> (first matches Some(f) && f@ == hs[0]),
            decreases n - i,
        {
            let k = self.objects.key_at(i);
            let o = self.objects.value_at(i);
            let hit = starts_with(k.as_str(), prefix) && o.is_commit();
            proof {
                assert(ks.take(i + 1) == ks.take(i as int).push(ks[i as int]));
                Seq::filter_distributes_over_add(ks.take(i as int), seq![ks[i as int]], pred);
                assert(ks.take(i as int).push(ks[i as int]) == ks.take(i as int) + seq![ks[i as int]]);
                reveal_with_fuel(Seq::filter, 2);
                assert(objs[ks[i as int]] == o@);
                assert(hit == pred(ks[i as int]));
                if hit {
                    assert(ks.take(i + 1).filter(pred) == hs.push(ks[i as int]));
                } else {
                    assert(ks.take(i + 1).filter(pred) == hs);
                }
                lemma_filter_len_bound(ks.take(i as int), pred);
            }
            if hit {
                if count == 0 {
                    first = Some(k.clone());
                }
                count = count + 1;
                proof {
                    hs = hs.push(ks[i as int]);
                }
            }
            i = i + 1;
        }
        proof {
            assert(ks.take(n as int) == ks);
            lemma_filter_no_duplicates(ks, pred);
            hs.unique_seq_to_set();
            assert(hs.to_set() =~= self.prefix_hits(prefix@)) by {
                assert forall|x: Seq<char>| hs.to_set().contains(x) <==> self.prefix_hits(prefix@).contains(x) by {
                    if hs.contains(x) {
                        let j = choose|j: int| 0 <= j < hs.len() && hs[j] == x;
                        ks.lemma_filter_pred(pred, j);
                        Seq::lemma_filter_contains_rev(ks, pred, x);
                        assert(ks.to_set().contains(x));
                    }
                    if self.prefix_hits(prefix@).contains(x) {
                        assert(ks.to_set().contains(x));
                        let j = choose|j: int| 0 <= j < ks.len() && ks[j] == x;
                        ks.lemma_filter_contains(pred, j);
                    }
                }
            }
            if count == 1 {
                assert(hs.to_set() =~= set![hs[0]]) by {
                    assert forall|x: Seq<char>| hs.to_set().contains(x) <==> x == hs[0] by {
                        if hs.contains(x) {
                            let j = choose|j: int| 0 <= j < hs.len() && hs[j] == x;
                        }
                        if x == hs[0] {
                            assert(hs.contains(x));
                        }
                    }
                }
            }
        }
        (count, first)
    }

    /// Resolve a ref to a commit id: `HEAD`, a branch, a `<remote>/<branch>`
    /// tracking ref, or a commit id prefix.
    pub fn resolve(&self, reference: &str) -> (r: Result<String, LoreError>)
        ensures
            result_str(r) == self.spec_resolve(reference@),
    {
        proof {
            reveal_strlit("HEAD");
        }
        if str_eq(reference, "HEAD") {
            return match self.head_commit()? {
                Some(id) => Ok(id),
                None => Err(LoreError::HeadHasNoCommits),
            };
        }
        if dir_name(reference) {
            return Err(LoreError::RefIsDirectory(reference.to_owned()));
        }
        if let Some(id) = self.read_ref(reference) {
            return Ok(id);
        }
        if contains_char(reference, '/') {
            if let Some(id) = self.remote_refs.get(reference) {
                return Ok(id.clone());
            }
        }
        let (count, first) = self.commits_with_prefix(reference);
        if count == 1 {
            match first {
                Some(id) => {
                    proof {
                        let hits = self.prefix_hits(reference@);
                        assert(hits.contains(hits.choose()));
                    }
                    Ok(id)
                },
                None => Err(LoreError::UnknownRef(reference.to_owned())),
            }
        } else if count == 0 {
            Err(LoreError::UnknownRef(reference.to_owned()))
        } else {
            Err(LoreError::AmbiguousRef(reference.to_owned(), count))
        }
    }

    /// A specific commit and the entries it recorded.
    pub fn show(&self, reference: &str) -> (r: Result<CommitView, LoreError>)
        ensures
            match r {
                Ok(v) => {
                    &&& self.spec_resolve(reference@) == Ok::<Seq<char>, SpecError>(v.id@)
                    &&& self.objs().contains_key(v.id@)
                    &&& self.objs()[v.id@] == SpecObject::Commit(v.commit@)
                    &&& first_non_entry(self.objs(), v.commit@.entries) is None
                    &&& v.entries@.len() == v.commit@.entries.len()
                    &&& forall|i: int|
                        0 <= i < v.entries@.len() ==> (#[trigger] v.entries@[i]).0@
                            == v.commit@.entries[i] && self.objs()[v.entries@[i].0@]
                            == SpecObject::Entry(v.entries@[i].1@)
                },
                Err(e) => match self.spec_resolve(reference@) {
                    Err(e2) => e@ == e2,
                    Ok(id) => if !is_commit_in(self.objs(), id) {
                        e@ == (if self.objs().contains_key(id) {
                            SpecError::NotACommit(id)
                        } else {
                            SpecError::NoSuchObject(id)
                        })
                    } else {
                        first_non_entry(self.objs(), entries_in(self.objs(), id)) matches Some(x)
                            && e@ == entry_error(self.objs(), x)
                    },
                },
            },
    {
        let id = self.resolve(reference)?;
        let commit = self.read_commit(id.as_str())?;
        let entries = self.read_entries(&commit.entries)?;
        Ok(CommitView { id, commit, entries })
    }

    /// The entry ids that the commits `cs` record, each once.
    pub(crate) fn collect_entry_ids(&self, cs: &Vec<String>) -> (r: Vec<String>)
        requires
            forall|i: int| 0 <= i < cs@.len() ==> is_commit_in(self.objs(), #[trigger] strs(cs@)[i]),
        ensures
            strs(r@).no_duplicates(),
            strs(r@).to_set() == recorded_entries(self.objs(), strs(cs@).to_set()),
    {
        let ghost objs = self.objs();
        let mut r: Vec<String> = Vec::new();
        let mut i: usize = 0;
        while i < cs.len()
            invariant
                objs == self.objs(),
                i <= cs.len(),
                forall|k: int| 0 <= k < cs@.len() ==> is_commit_in(objs, #[trigger] strs(cs@)[k]),
                strs(r@).no_duplicates(),
                strs(r@).to_set() == recorded_entries(objs, strs(cs@).take(i as int).to_set()),
            decreases cs.len() - i,
        {
            let c = match self.read_commit(cs[i].as_str()) {
                Ok(c) => c,
                Err(_) => {
                    proof {
                        assert(is_commit_in(objs, strs(cs@)[i as int]));
                    }
                    return r;
                },
            };
            let ghost cid = strs(cs@)[i as int];
            assert(entries_in(objs, cid) == strs(c.entries@));
            let ghost base = strs(r@).to_set();
            let mut j: usize = 0;
            while j < c.entries.len()
                invariant
                    j <= c.entries.len(),
                    strs(r@).no_duplicates(),
                    strs(r@).to_set() == base + strs(c.entries@).take(j as int).to_set(),
                decreases c.entries.len() - j,
            {
                let ghost before = strs(r@);
                let eid = &c.entries[j];
                let ghost mut pushed = false;
                if !contains_str(&r, eid.as_str()) {
                    r.push(eid.clone());
                    proof {
                        pushed = true;
                    }
                    proof {
                        assert(strs(r@) == before.push(eid@));
                        assert forall|a: int, b: int| 0 <= a < strs(r@).len() && 0 <= b < strs(r@).len() && a != b implies strs(r@)[a] != strs(r@)[b] by {
                            if a == before.len() {
                                assert(!before.contains(strs(r@)[b]) || strs(r@)[b] != eid@);
                            } else if b == before.len() {
                                if strs(r@)[a] == eid@ {
                                    assert(before[a] == eid@);
                                    assert(before.contains(eid@));
                                }
                            } else {
                                assert(strs(r@)[a] == before[a]);
                                assert(strs(r@)[b] == before[b]);
                            }
                        }
                    }
                }
                proof {
                    let t = strs(c.entries@).take(j as int);
                    assert(strs(c.entries@).take(j + 1) == t.push(eid@));
                    assert forall|x: Seq<char>| strs(r@).to_set().contains(x) <==> (base + t.push(eid@).to_set()).contains(x) by {
                        assert(strs(r@).to_set().contains(x) == strs(r@).contains(x));
                        assert(before.to_set().contains(x) == before.contains(x));
                        assert(t.to_set().contains(x) == t.contains(x));
                        assert(t.push(eid@).to_set().contains(x) == t.push(eid@).contains(x));
                        if t.push(eid@).contains(x) {
                            let k = choose|k: int| 0 <= k < t.len() + 1 && t.push(eid@)[k] == x;
                            if k < t.len() {
                                assert(t[k] == x);
                            }
                        }
                        if t.contains(x) {
                            let k = choose|k: int| 0 <= k < t.len() && t[k] == x;
                            assert(t.push(eid@)[k] == x);
                        }
                        if x == eid@ {
                            assert(t.push(eid@)[t.len() as int] == x);
                            if pushed {
                                assert(strs(r@)[before.len() as int] == x);
                            } else {
                                assert(before.contains(eid@));
                                assert(strs(r@) == before);
                            }
                        }
                        if !pushed {
                            assert(strs(r@) == before);
                        }
                        if strs(r@).contains(x) && !before.contains(x) {
                            let k = choose|k: int| 0 <= k < strs(r@).len() && strs(r@)[k] == x;
                            if k < before.len() {
                                assert(before[k] == x);
                            }
                        }
                        if before.contains(x) {
                            let k = choose|k: int| 0 <= k < before.len() && before[k] == x;
                            assert(strs(r@)[k] == x);
                        }
                    }
                    assert(strs(r@).to_set() =~= base + strs(c.entries@).take(j + 1).to_set());
                }
                j = j + 1;
            }
            proof {
                assert(strs(c.entries@).take(c.entries.len() as int) == strs(c.entries@));
                let before_set = strs(cs@).take(i as int).to_set();
                let after_set = strs(cs@).take(i + 1).to_set();
                assert(strs(cs@).take(i + 1) == strs(cs@).take(i as int).push(cid));
                assert(after_set =~= before_set.insert(cid)) by {
                    assert forall|x: Seq<char>| after_set.contains(x) <==> before_set.insert(cid).contains(x) by {
                        let t = strs(cs@).take(i as int);
                        if t.push(cid).contains(x) {
                            let k = choose|k: int| 0 <= k < t.len() + 1 && t.push(cid)[k] == x;
                            if k < t.len() {
                                assert(t[k] == x);
                            }
                        }
                        if t.contains(x) {
                            let k = choose|k: int| 0 <= k < t.len() && t[k] == x;
                            assert(t.push(cid)[k] == x);
                        }
                        if x == cid {
                            assert(t.push(cid)[t.len() as int] == x);
                        }
                    }
                }
                assert(strs(r@).to_set() =~= recorded_entries(objs, after_set)) by {
                    assert forall|x: Seq<char>| strs(r@).to_set().contains(x) <==> recorded_entries(objs, after_set).contains(x) by {
                        if recorded_entries(objs, after_set).contains(x) {
                            let c2 = choose|c2: Seq<char>| after_set.contains(c2) && entries_in(objs, c2).contains(x);
                            if c2 != cid {
                                assert(recorded_entries(objs, before_set).contains(x));
                            } else {
                                assert(strs(c.entries@).to_set().contains(x));
                            }
                        }
                        if base.contains(x) {
                            let c2 = choose|c2: Seq<char>| before_set.contains(c2) && entries_in(objs, c2).contains(x);
                            assert(after_set.contains(c2));
                        }
                        if strs(c.entries@).to_set().contains(x) {
                            assert(after_set.contains(cid));
                        }
                    }
                }
            }
            i = i + 1;
        }
        assert(strs(cs@).take(cs.len() as int) == strs(cs@));
        r
    }

    /// Collect the deduplicated, chronological intent reachable from
    /// `reference` and render it as a brief an agent can act on.
    pub fn materialize(&self, reference: &str, now: u64) -> (r: Result<String, LoreError>)
        requires
            self.spec_resolve(reference@) matches Ok(cid) ==> short_ok(cid),
        ensures
            match self.spec_resolve(reference@) {
                Err(e2) => r matches Err(e) && e@ == e2,
                Ok(cid) => if !history_ok(self.objs(), cid) {
                    r matches Err(e) && history_error(self.objs(), cid, e@)
                } else {
                    let u = recorded_entries(self.objs(), history(self.objs(), cid));
                    match r {
                        Ok(brief) => {
                            &&& forall|x: Seq<char>| #[trigger] u.contains(x) ==> is_entry_in(self.objs(), x)
                            &&& is_listing(self.objs(), u, intent_listing(self.objs(), u))
                            &&& brief@ == brief_text(
                                reference@,
                                cid,
                                history(self.objs(), cid).len(),
                                intent_listing(self.objs(), u),
                                now,
                            )
                        },
                        Err(e) => exists|x: Seq<char>|
                            #[trigger] u.contains(x) && !is_entry_in(self.objs(), x) && e@
                                == entry_error(self.objs(), x),
                    }
                },
            },
    {
        let ghost objs = self.objs();
        let commit_id = self.resolve(reference)?;
        let commit_ids = self.reachable(commit_id.as_str())?;
        let ghost hist = history(objs, commit_id@);
        proof {
            assert forall|i: int| 0 <= i < commit_ids@.len() implies is_commit_in(objs, #[trigger] strs(commit_ids@)[i]) by {
                assert(strs(commit_ids@).to_set().contains(strs(commit_ids@)[i]));
            }
            strs(commit_ids@).unique_seq_to_set();
        }
        let entry_ids = self.collect_entry_ids(&commit_ids);
        let ghost u = recorded_entries(objs, hist);
        assert(strs(entry_ids@).to_set() == u);
        let entries = match self.read_entries(&entry_ids) {
            Ok(v) => v,
            Err(e) => {
                proof {
                    let x = first_non_entry(objs, strs(entry_ids@))->0;
                    lemma_first_non_entry(objs, strs(entry_ids@));
                    assert(strs(entry_ids@).to_set().contains(x));
                }
                return Err(e);
            },
        };
        proof {
            lemma_first_non_entry(objs, strs(entry_ids@));
            assert forall|i: int| 0 <= i < entry_ids@.len() implies objs.contains_key(#[trigger] strs(entry_ids@)[i]) by {
                assert(is_entry_in(objs, strs(entry_ids@)[i]));
            }
        }
        let sorted = self.sorted_time_keys(&entry_ids);
        let mut listing: Vec<(String, Entry)> = Vec::new();
        let mut k: usize = 0;
        while k < sorted.len()
            invariant
                objs == self.objs(),
                k <= sorted@.len(),
                forall|i: int| 0 <= i < entry_ids@.len() ==> is_entry_in(objs, #[trigger] strs(entry_ids@)[i]),
                forall|i: int| 0 <= i < sorted@.len() ==> strs(entry_ids@).contains(#[trigger] sorted@[i].1@),
                forall|i: int| 0 <= i < sorted@.len() ==> #[trigger] key_view(sorted@)[i] == time_key(objs, sorted@[i].1@),
                listing@.len() == k,
                forall|i: int| 0 <= i < k ==> (#[trigger] entry_pairs(listing@)[i]).0 == sorted@[i].1@
                    && objs[entry_pairs(listing@)[i].0] == SpecObject::Entry(entry_pairs(listing@)[i].1),
            decreases sorted@.len() - k,
        {
            let id = &sorted[k].1;
            proof {
                let j = choose|j: int| 0 <= j < strs(entry_ids@).len() && strs(entry_ids@)[j] == sorted@[k as int].1@;
                assert(is_entry_in(objs, strs(entry_ids@)[j]));
            }
            match self.read_entry(id.as_str()) {
                Ok(e) => {
                    let ghost before = listing@;
                    let ghost ev = e@;
                    listing.push((id.clone(), e));
                    proof {
                        assert(entry_pairs(listing@)[k as int] == (id@, ev));
                        assert(objs[id@] == SpecObject::Entry(ev));
                        assert(id@ == sorted@[k as int].1@);
                        assert forall|i: int| 0 <= i < k + 1 implies (#[trigger] entry_pairs(listing@)[i]).0 == sorted@[i].1@
                            && objs[entry_pairs(listing@)[i].0] == SpecObject::Entry(entry_pairs(listing@)[i].1) by {
                            if i < k {
                                assert(listing@[i] == before[i]);
                                assert(entry_pairs(listing@)[i] == entry_pairs(before)[i]);
                            }
                        }
                    }
                },
                Err(_) => {
                    proof {
                        assert(false);
                    }
                },
            }
            k = k + 1;
        }
        proof {
            let l = entry_pairs(listing@);
            assert(l.map_values(|p: (Seq<char>, SpecEntry)| entry_key(p)) =~= key_view(sorted@)) by {
                assert forall|i: int| 0 <= i < l.len() implies #[trigger] entry_key(l[i]) == key_view(sorted@)[i] by {
                    assert(key_view(sorted@)[i] == time_key(objs, sorted@[i].1@));
                }
            }
            assert(l.map_values(|p: (Seq<char>, SpecEntry)| p.0) =~= key_view(sorted@).map_values(|p: (u64, Seq<char>)| p.1));
            lemma_keys_ids(key_view(sorted@), strs(entry_ids@), objs);
            assert(is_listing(objs, u, l));
            lemma_listing_unique(objs, u, l, intent_listing(objs, u));
        }
        Ok(render_brief(reference, commit_id.as_str(), commit_ids.len(), &listing, now))
    }
}

/// A commit with the entries it recorded, returned by [`Repo::show`].
pub struct CommitView {
    pub id: String,
    pub commit: Commit,
    pub entries: Vec<(String, Entry)>,
}

/// A result with its string and error as values.
pub open spec fn result_str(r: Result<String, LoreError>) -> Result<Seq<char>, SpecError> {
    match r {
        Ok(s) => Ok(s@),
        Err(e) => Err(e@),
    }
}

/// Filtering a sequence keeps it no longer.
proof fn lemma_filter_len_bound(s: Seq<Seq<char>>, pred: spec_fn(Seq<char>) -> bool)
    ensures
        s.filter(pred).len() <= s.len(),
{
    s.lemma_filter_len(pred);
}

/// Filtering a sequence without repeats keeps it without repeats.
proof fn lemma_filter_no_duplicates(s: Seq<Seq<char>>, pred: spec_fn(Seq<char>) -> bool)
    requires
        s.no_duplicates(),
    ensures
        s.filter(pred).no_duplicates(),
    decreases s.len(),
{
    reveal_with_fuel(Seq::filter, 1);
    if s.len() > 0 {
        lemma_filter_no_duplicates(s.drop_last(), pred);
        let f = s.drop_last().filter(pred);
        if pred(s.last()) {
            assert(s.filter(pred) == f.push(s.last()));
            if f.contains(s.last()) {
                Seq::lemma_filter_contains_rev(s.drop_last(), pred, s.last());
                let j = choose|j: int| 0 <= j < s.drop_last().len() && s.drop_last()[j] == s.last();
                assert(s[j] == s[s.len() - 1]);
            }
            assert forall|a: int, b: int| 0 <= a < s.filter(pred).len() && 0 <= b < s.filter(pred).len() && a != b implies s.filter(pred)[a] != s.filter(pred)[b] by {
                if a < f.len() && b < f.len() {
                } else if a < f.len() {
                    assert(f.contains(f[a]));
                } else if b < f.len() {
                    assert(f.contains(f[b]));
                }
            }
        }
    }
}

/// Whether `s` holds the character `c`.
pub fn contains_char(s: &str, c: char) -> (b: bool)
    ensures
        b == s@.contains(c),
{
    let cs = chars_of(s);
    let mut i: usize = 0;
    while i < cs.len()
        invariant
            cs@ == s@,
            i <= cs.len(),
            forall|j: int| 0 <= j < i ==> s@[j] != c,
        decreases cs.len() - i,
    {
        if cs[i] == c {
            assert(s@[i as int] == c);
            return true;
        }
        i = i + 1;
    }
    false

}

/// The entry ids recorded by any commit of `commits`.
pub open spec fn recorded_entries(objs: Objects, commits: Set<Seq<char>>) -> Set<Seq<char>> {
    Set::new(|e: Seq<char>| exists|c: Seq<char>| commits.contains(c) && #[trigger] entries_in(objs, c).contains(e))
}

/// `l` lists the entries `ids`, each with its stored value, in
/// chronological order (ties by id).
pub open spec fn is_listing(objs: Objects, ids: Set<Seq<char>>, l: Seq<(Seq<char>, SpecEntry)>) -> bool {
    &&& ascending(l.map_values(|p: (Seq<char>, SpecEntry)| entry_key(p)))
    &&& l.map_values(|p: (Seq<char>, SpecEntry)| p.0).to_set() == ids
    &&& forall|i: int| 0 <= i < l.len() ==> objs[(#[trigger] l[i]).0] == SpecObject::Entry(l[i].1)
}

/// The chronological listing of the entries `ids`.
pub open spec fn intent_listing(objs: Objects, ids: Set<Seq<char>>) -> Seq<(Seq<char>, SpecEntry)> {
    choose|l: Seq<(Seq<char>, SpecEntry)>| is_listing(objs, ids, l)
}

/// Entries listed chronologically come in one order only.
pub proof fn lemma_listing_unique(
    objs: Objects,
    ids: Set<Seq<char>>,
    a: Seq<(Seq<char>, SpecEntry)>,
    b: Seq<(Seq<char>, SpecEntry)>,
)
    requires
        is_listing(objs, ids, a),
        is_listing(objs, ids, b),
    ensures
        a == b,
{
    let f = |p: (Seq<char>, SpecEntry)| entry_key(p);
    let g = |p: (Seq<char>, SpecEntry)| p.0;
    let tk = |id: Seq<char>| time_key(objs, id);
    assert forall|i: int| 0 <= i < a.len() implies #[trigger] a.map_values(f)[i] == tk(a.map_values(g)[i]) by {
        assert(objs[a[i].0] == SpecObject::Entry(a[i].1));
    }
    assert forall|i: int| 0 <= i < b.len() implies #[trigger] b.map_values(f)[i] == tk(b.map_values(g)[i]) by {
        assert(objs[b[i].0] == SpecObject::Entry(b[i].1));
    }
    assert(a.map_values(f) =~= a.map_values(g).map_values(tk));
    assert(b.map_values(f) =~= b.map_values(g).map_values(tk));
    a.map_values(g).lemma_to_set_map_commutes(tk);
    b.map_values(g).lemma_to_set_map_commutes(tk);
    crate::order::lemma_ascending_unique(a.map_values(f), b.map_values(f));
    assert(a.len() == b.len()) by {
        assert(a.map_values(f).len() == b.map_values(f).len());
    }
    assert forall|i: int| 0 <= i < a.len() implies a[i] == b[i] by {
        assert(a.map_values(f)[i] == b.map_values(f)[i]);
        assert(a[i].0 == b[i].0);
        assert(objs[a[i].0] == SpecObject::Entry(a[i].1));
        assert(objs[b[i].0] == SpecObject::Entry(b[i].1));
    }
    assert(a =~= b);
}

/// Sorted keys drawn from `ids`: their ids are exactly `ids`.
proof fn lemma_keys_ids(ks: Seq<(u64, Seq<char>)>, ids: Seq<Seq<char>>, objs: Objects)
    requires
        ks.to_set() == ids.to_set().map(|id: Seq<char>| time_key(objs, id)),
    ensures
        ks.map_values(|p: (u64, Seq<char>)| p.1).to_set() == ids.to_set(),
{
    let tk = |id: Seq<char>| time_key(objs, id);
    let g = |p: (u64, Seq<char>)| p.1;
    assert forall|x: Seq<char>| ks.map_values(g).to_set().contains(x) <==> ids.to_set().contains(x) by {
        if ks.map_values(g).contains(x) {
            let i = choose|i: int| 0 <= i < ks.len() && ks.map_values(g)[i] == x;
            assert(ks.to_set().contains(ks[i]));
            let id = choose|id: Seq<char>| ids.to_set().contains(id) && tk(id) == ks[i];
            assert(tk(id).1 == id);
        }
        if ids.to_set().contains(x) {
            assert(ids.to_set().map(tk).contains(tk(x)));
            assert(ks.to_set().contains(tk(x)));
            let i = choose|i: int| 0 <= i < ks.len() && ks[i] == tk(x);
            assert(ks.map_values(g)[i] == x);
        }
    }
    assert(ks.map_values(g).to_set() =~= ids.to_set());
}

/// What the first failure of reading entries says about the ids.
proof fn lemma_first_non_entry(objs: Objects, ids: Seq<Seq<char>>)
    ensures
        first_non_entry(objs, ids) matches Some(x) ==> ids.contains(x) && !is_entry_in(objs, x),
        first_non_entry(objs, ids) is None ==> forall|i: int| 0 <= i < ids.len() ==> is_entry_in(objs, #[trigger] ids[i]),
    decreases ids.len(),
{
    if ids.len() > 0 {
        lemma_first_non_entry(objs, ids.drop_first());
        if first_non_entry(objs, ids) is Some && is_entry_in(objs, ids[0]) {
            let x = first_non_entry(objs, ids)->0;
            let j = choose|j: int| 0 <= j < ids.drop_first().len() && ids.drop_first()[j] == x;
            assert(ids[j + 1] == x);
        }
        if first_non_entry(objs, ids) is None {
            assert forall|i: int| 0 <= i < ids.len() implies is_entry_in(objs, #[trigger] ids[i]) by {
                if i > 0 {
                    assert(ids[i] == ids.drop_first()[i - 1]);
                }
            }
        }
    }
}

/// `(timestamp, id)` for the object stored under `id`.
pub open spec fn time_key(objs: Objects, id: Seq<char>) -> (u64, Seq<char>) {
    match objs[id] {
        SpecObject::Commit(c) => (c.timestamp, id),
        SpecObject::Entry(e) => (e.timestamp, id),
    }
}

/// The `(timestamp, id)` keys of listed commits.
pub open spec fn log_keys(v: Seq<(String, Commit)>) -> Seq<(u64, Seq<char>)> {
    v.map_values(|p: (String, Commit)| (p.1.timestamp, p.0@))
}

/// Reversing a sequence keeps its items.
pub proof fn lemma_reverse_to_set<A>(s: Seq<A>)
    ensures
        s.reverse().to_set() == s.to_set(),
{
    assert forall|x: A| s.reverse().to_set().contains(x) <==> s.to_set().contains(x) by {
        if s.reverse().contains(x) {
            let i = choose|i: int| 0 <= i < s.len() && s.reverse()[i] == x;
            assert(s[s.len() - 1 - i] == x);
        }
        if s.contains(x) {
            let i = choose|i: int| 0 <= i < s.len() && s[i] == x;
            assert(s.reverse()[s.len() - 1 - i] == x);
        }
    }
    assert(s.reverse().to_set() =~= s.to_set());
}

/// What a merge of `other` into the current branch decides, once HEAD is
/// known to name a branch.
pub enum MergeKind {
    UpToDate,
    FastForward,
    Merged,
}

/// The decision a merge takes: `None` where a history walk it needs fails.
pub open spec fn merge_kind(objs: Objects, head: Option<Seq<char>>, other: Seq<char>) -> Option<
    MergeKind,
> {
    match head {
        None => Some(MergeKind::FastForward),
        Some(h) => if h == other {
            Some(MergeKind::UpToDate)
        } else if !history_ok(objs, h) {
            None
        } else if history(objs, h).contains(other) {
            Some(MergeKind::UpToDate)
        } else if !history_ok(objs, other) {
            None
        } else if history(objs, other).contains(h) {
            Some(MergeKind::FastForward)
        } else {
            Some(MergeKind::Merged)
        },
    }
}

/// The merge commit joining the head `h` and `other`, recording what was
/// staged.
pub open spec fn merge_commit_of(
    old: Repo,
    h: Seq<char>,
    other: Seq<char>,
    author: Seq<char>,
    message: Seq<char>,
    now: u64,
) -> SpecObject {
    SpecObject::Commit(
        SpecCommit {
            parents: seq![h, other],
            author,
            timestamp: now,
            message,
            entries: dedup(old.index_ids()),
        },
    )
}

/// A name that, under the directory of branch refs, is a directory itself:
/// empty, `.` or `..`.
pub open spec fn is_dir_name(n: Seq<char>) -> bool {
    n.len() == 0 || n == seq!['.'] || n == seq!['.', '.']
}

/// Whether `n` is empty, `.` or `..`.
pub fn dir_name(n: &str) -> (b: bool)
    ensures
        b == is_dir_name(n@),
{
    let cs = chars_of(n);
    let b = cs.len() == 0 || (cs.len() == 1 && cs[0] == '.') || (cs.len() == 2 && cs[0] == '.' && cs[1]
        == '.');
    proof {
        if cs.len() == 1 && cs[0] == '.' {
            assert(n@ =~= seq!['.']);
        }
        if cs.len() == 2 && cs[0] == '.' && cs[1] == '.' {
            assert(n@ =~= seq!['.', '.']);
        }
    }
    b
}

/// The entry `add` records: a note by `author` at `now` saying `text`.
pub open spec fn note_entry(author: Seq<char>, text: Seq<char>, now: u64) -> SpecObject {
    SpecObject::Entry(SpecEntry { kind: "note"@, author, timestamp: now, text })
}

/// Two people who record the same intent, at any times, record one object:
/// the id of a note depends on its text alone.
pub proof fn law_same_intent_same_id(a1: Seq<char>, a2: Seq<char>, text: Seq<char>, t1: u64, t2: u64)
    ensures
        object_id(note_entry(a1, text, t1)) == object_id(note_entry(a2, text, t2)),
{
    lemma_entry_id_is_intent_only(
        SpecEntry { kind: "note"@, author: a1, timestamp: t1, text },
        SpecEntry { kind: "note"@, author: a2, timestamp: t2, text },
    );
}

/// A merge never loses the current branch's history. When the commit
/// merged in is already in that history, the merge is up to date and no
/// branch moves. When it moves the branch, the new tip's history holds
/// everything the old tip's did, and the commit merged in (for a new merge
/// commit, one whose id was not stored before).
pub proof fn law_merge_keeps_history(
    old: Repo,
    new: Repo,
    other: Seq<char>,
    author: Seq<char>,
    message: Seq<char>,
    now: u64,
    r: Result<Merge, LoreError>,
)
    requires
        merge_post(old, new, other, author, message, now, r),
        r is Ok,
    ensures
        r == Ok::<Merge, LoreError>(Merge::UpToDate) ==> new == old,
        match old.spec_head_commit() {
            Some(h) => {
                &&& history(old.objs(), h).contains(other) ==> r == Ok::<Merge, LoreError>(
                    Merge::UpToDate,
                ) && new.branch_refs() == old.branch_refs()
                &&& match new.spec_head_commit() {
                    Some(n) => (r matches Ok(Merge::FastForward(_))) ==> history(old.objs(), h).subset_of(
                        history(new.objs(), n),
                    ) && history(new.objs(), n).contains(other),
                    None => true,
                }
                &&& match r {
                    Ok(Merge::Merged(m)) => !old.objs().contains_key(m@) ==> new.spec_head_commit()
                        == Some(m@) && history(old.objs(), h).subset_of(history(new.objs(), m@))
                        && history(old.objs(), other).subset_of(history(new.objs(), m@)),
                    _ => true,
                }
            },
            None => true,
        },
{
    match old.spec_head_commit() {
        None => {},
        Some(h) => {
            let objs = old.objs();
            match (r, new.spec_head_commit()) {
                (Ok(Merge::FastForward(_)), Some(n)) => {
                    assert(n == other);
                    assert(history(objs, other).contains(h));
                    lemma_history_within(objs, other, h);
                    lemma_reaches_self(objs, other);
                },
                _ => {},
            }
            match r {
                Ok(Merge::Merged(m)) => {
                    if !objs.contains_key(m@) {
                        let c = merge_commit_of(old, h, other, author, message, now);
                        let objs2 = new.objs();
                        assert(objs2 == objs.insert(m@, c));
                        assert(is_commit_in(objs2, m@));
                        assert(parents_in(objs2, m@) =~= seq![h, other]);
                        crate::graph::law_merge_history_is_union(objs2, m@, h, other);
                        assert forall|x: Seq<char>| history(objs, h).contains(x) implies history(
                            objs2,
                            m@,
                        ).contains(x) by {
                            crate::graph::lemma_reaches_grow(objs, objs2, h, x);
                        }
                        assert forall|x: Seq<char>| history(objs, other).contains(x) implies history(
                            objs2,
                            m@,
                        ).contains(x) by {
                            crate::graph::lemma_reaches_grow(objs, objs2, other, x);
                        }
                    }
                },
                _ => {},
            }
        },
    }
}

/// How merging `other` as `author` takes `old` to `new` with result `r`.
pub open spec fn merge_post(
    old: Repo,
    new: Repo,
    other: Seq<char>,
    author: Seq<char>,
    message: Seq<char>,
    now: u64,
    r: Result<Merge, LoreError>,
) -> bool {
    &&& new.tracking_refs() == old.tracking_refs()
    &&& new.head_text() == old.head_text()
    &&& new.cfg() == old.cfg()
    &&& match old.spec_branch() {
        None => r matches Err(e) && e@ == SpecError::MalformedHead(old.head_text()) && new == old,
        Some(b) => match merge_kind(old.objs(), old.spec_head_commit(), other) {
            None => {
                let h = old.spec_head_commit()->0;
                &&& r matches Err(e) && if !history_ok(old.objs(), h) {
                    history_error(old.objs(), h, e@)
                } else {
                    history_error(old.objs(), other, e@)
                }
                &&& new == old
            },
            Some(MergeKind::UpToDate) => r matches Ok(Merge::UpToDate) && new == old,
            Some(MergeKind::FastForward) => r matches Ok(Merge::FastForward(id)) && id@ == other
                && new.objs() == old.objs() && new.index_ids() == old.index_ids()
                && new.branch_refs() == old.branch_refs().insert(b, other)
                && new.spec_head_commit() == (if other.len() > 0 {
                    Some(other)
                } else {
                    None
                }),
            Some(MergeKind::Merged) => {
                let c = merge_commit_of(old, old.spec_head_commit()->0, other, author, message, now);
                &&& r matches Ok(Merge::Merged(id))
                &&& id@ == object_id(c)
                &&& new.objs() == (if old.objs().contains_key(id@) {
                    old.objs()
                } else {
                    old.objs().insert(id@, c)
                })
                &&& new.branch_refs() == old.branch_refs().insert(b, id@)
                &&& new.index_ids() == Seq::<Seq<char>>::empty()
                &&& new.spec_head_commit() == Some(id@)
            },
        },
    }
    &&& content_addressed(old.objs()) ==> content_addressed(new.objs())
}

/// The first of `ids` that does not name a stored entry.
pub open spec fn first_non_entry(objs: Objects, ids: Seq<Seq<char>>) -> Option<Seq<char>>
    decreases ids.len(),
{
    if ids.len() == 0 {
        None
    } else if !is_entry_in(objs, ids[0]) {
        Some(ids[0])
    } else {
        first_non_entry(objs, ids.drop_first())
    }
}

/// Why `x` could not be read as an entry.
pub open spec fn entry_error(objs: Objects, x: Seq<char>) -> SpecError {
    if objs.contains_key(x) {
        SpecError::NotAnEntry(x)
    } else {
        SpecError::NoSuchObject(x)
    }
}

/// What a snapshot of the repository looks like right now.
pub struct Status {
    pub branch: String,
    pub head: Option<String>,
    pub staged: Vec<(String, Entry)>,
}

/// The result of a merge.
#[derive(Debug, PartialEq, Eq)]
pub enum Merge {
    /// Already contains the other branch's intent.
    UpToDate,
    /// The ref advanced directly to the given commit.
    FastForward(String),
    /// A new merge commit was created.
    Merged(String),
}

/// What a ref file holds: its trimmed text, if any.
pub open spec fn ref_of_text(raw: Seq<char>) -> Option<Seq<char>> {
    if trim(raw).len() == 0 {
        None
    } else {
        Some(trim(raw))
    }
}

/// Read a ref file's text: the trimmed commit id, or `None` if empty.
pub fn parse_ref(raw: &str) -> (r: Option<String>)
    ensures
        opt_str(r) == ref_of_text(raw@),
{
    let t = trimmed(raw);
    if t.as_str().unicode_len() == 0 {
        None
    } else {
        Some(t)
    }
}

/// The text of a ref file pointing at `id`.
pub fn ref_text(id: &str) -> (s: String)
    ensures
        s@ == id@ + "\n"@,
{
    let mut s = id.to_owned();
    append_str(&mut s, "\n");
    s
}

/// The staged ids an index file lists: its trimmed non-blank lines.
pub fn parse_index(raw: &str) -> (v: Vec<String>)
    ensures
        strs(v@) == nonblank_lines(raw@),
{
    let v = nonblank_lines_of(raw);
    assert(strs(v@) == v@.map_values(|x: String| x@));
    v
}

/// One line per id.
pub open spec fn lines_text(ids: Seq<Seq<char>>) -> Seq<char>
    decreases ids.len(),
{
    if ids.len() == 0 {
        Seq::empty()
    } else {
        lines_text(ids.drop_last()) + ids.last() + "\n"@
    }
}

/// The text of an index file staging `ids`.
pub fn index_text(ids: &Vec<String>) -> (s: String)
    ensures
        s@ == lines_text(strs(ids@)),
{
    let mut s = String::new();
    let mut i: usize = 0;
    while i < ids.len()
        invariant
            i <= ids.len(),
            s@ == lines_text(strs(ids@).take(i as int)),
        decreases ids.len() - i,
    {
        append_str(&mut s, ids[i].as_str());
        append_str(&mut s, "\n");
        assert(strs(ids@).take(i + 1).drop_last() == strs(ids@).take(i as int));
        i = i + 1;
    }
    assert(strs(ids@).take(ids.len() as int) == strs(ids@));
    s
}

/// The tracking-ref key for `remote`'s `branch`: `<remote>/<branch>`, the
/// path of the ref under `refs/remotes/`.
pub open spec fn tracking_key(remote: Seq<char>, branch: Seq<char>) -> Seq<char> {
    remote + "/"@ + branch
}

/// Once a remote's branch is recorded as `id`, reading it gives `id` back,
/// and so does resolving its `<remote>/<branch>` name, unless a local branch
/// bears that very name.
pub proof fn law_tracking_ref_read_after_write(
    before: Repo,
    after: Repo,
    remote: Seq<char>,
    branch: Seq<char>,
    id: Seq<char>,
)
    requires
        after.tracking_refs() == before.tracking_refs().insert(tracking_key(remote, branch), id),
    ensures
        after.tracking_refs().contains_key(tracking_key(remote, branch)),
        after.tracking_refs()[tracking_key(remote, branch)] == id,
        after.branch_tip(tracking_key(remote, branch)) is None ==> after.spec_resolve(
            tracking_key(remote, branch),
        ) == Ok::<Seq<char>, SpecError>(id),
{
    let k = tracking_key(remote, branch);
    reveal_strlit("/");
    reveal_strlit("HEAD");
    assert(k[remote.len() as int] == '/');
    assert(k.contains('/'));
    assert(k != "HEAD"@) by {
        if k == "HEAD"@ {
            assert("HEAD"@.contains('/'));
        }
    }
}

fn tracking_key_of(remote: &str, branch: &str) -> (k: String)
    ensures
        k@ == tracking_key(remote@, branch@),
{
    let mut k = remote.to_owned();
    append_str(&mut k, "/");
    append_str(&mut k, branch);
    k
}

/// An optional id as a sequence of zero or one ids.
pub open spec fn opt_to_seq(o: Option<Seq<char>>) -> Seq<Seq<char>> {
    match o {
        Some(x) => seq![x],
        None => Seq::empty(),
    }
}

} // verus!
