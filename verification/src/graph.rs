//! The commit graph of an object store, stated over the store's model: a
//! map from ids to objects. A commit's edges go to its parents; history is
//! everything a walk along those edges reaches.

use vstd::prelude::*;

use crate::error::SpecError;
use crate::object::{object_id, SpecObject};

verus! {

/// The model of an object store.
pub type Objects = Map<Seq<char>, SpecObject>;

/// `id` names a stored commit.
pub open spec fn is_commit_in(objs: Objects, id: Seq<char>) -> bool {
    objs.contains_key(id) && objs[id] is Commit
}

/// `id` names a stored entry.
pub open spec fn is_entry_in(objs: Objects, id: Seq<char>) -> bool {
    objs.contains_key(id) && objs[id] is Entry
}

/// The parents of the commit `id`.
pub open spec fn parents_in(objs: Objects, id: Seq<char>) -> Seq<Seq<char>> {
    match objs[id] {
        SpecObject::Commit(c) => c.parents,
        SpecObject::Entry(_) => Seq::empty(),
    }
}

/// The entries the commit `id` records.
pub open spec fn entries_in(objs: Objects, id: Seq<char>) -> Seq<Seq<char>> {
    match objs[id] {
        SpecObject::Commit(c) => c.entries,
        SpecObject::Entry(_) => Seq::empty(),
    }
}

/// `p` steps from each commit to one of its parents.
pub open spec fn is_walk(objs: Objects, p: Seq<Seq<char>>) -> bool {
    &&& p.len() >= 1
    &&& forall|i: int|
        0 <= i < p.len() - 1 ==> is_commit_in(objs, #[trigger] p[i]) && parents_in(
            objs,
            p[i],
        ).contains(p[i + 1])
}

/// Some walk leads from `from` to `to`.
pub open spec fn reaches(objs: Objects, from: Seq<char>, to: Seq<char>) -> bool {
    exists|p: Seq<Seq<char>>| #[trigger] is_walk(objs, p) && p[0] == from && p.last() == to
}

/// Every id reachable from `start` by following parents, `start` included.
pub open spec fn history(objs: Objects, start: Seq<char>) -> Set<Seq<char>> {
    Set::new(|x: Seq<char>| reaches(objs, start, x))
}

/// Every id reachable from `start` names a stored commit.
pub open spec fn history_ok(objs: Objects, start: Seq<char>) -> bool {
    forall|x: Seq<char>| #[trigger] reaches(objs, start, x) ==> is_commit_in(objs, x)
}

/// `e` is the error for an id that the history of `start` reaches and that
/// names no stored commit: what a walk of that history runs into.
pub open spec fn history_error(objs: Objects, start: Seq<char>, e: SpecError) -> bool {
    exists|x: Seq<char>|
        #![trigger reaches(objs, start, x)]
        reaches(objs, start, x) && !is_commit_in(objs, x) && e == (if objs.contains_key(x) {
            SpecError::NotACommit(x)
        } else {
            SpecError::NoSuchObject(x)
        })
}

/// `s` holds stored commits only, and every parent of each.
pub open spec fn closed_under_parents(objs: Objects, s: Set<Seq<char>>) -> bool {
    forall|x: Seq<char>|
        #[trigger] s.contains(x) ==> is_commit_in(objs, x) && forall|i: int|
            0 <= i < parents_in(objs, x).len() ==> s.contains(#[trigger] parents_in(objs, x)[i])
}

pub proof fn lemma_reaches_self(objs: Objects, s: Seq<char>)
    ensures
        reaches(objs, s, s),
{
    let p = seq![s];
    assert(is_walk(objs, p));
}

pub proof fn lemma_reaches_step(objs: Objects, s: Seq<char>, x: Seq<char>, y: Seq<char>)
    requires
        reaches(objs, s, x),
        is_commit_in(objs, x),
        parents_in(objs, x).contains(y),
    ensures
        reaches(objs, s, y),
{
    let p = choose|p: Seq<Seq<char>>| #[trigger] is_walk(objs, p) && p[0] == s && p.last() == x;
    let q = p.push(y);
    assert forall|i: int| 0 <= i < q.len() - 1 implies is_commit_in(objs, #[trigger] q[i])
        && parents_in(objs, q[i]).contains(q[i + 1]) by {
        if i < p.len() - 1 {
            assert(q[i] == p[i]);
            assert(q[i + 1] == p[i + 1]);
        }
    }
    assert(is_walk(objs, q));
}

/// A set closed under parents holds everything reachable from its members.
pub proof fn lemma_closed_holds_history(
    objs: Objects,
    s: Set<Seq<char>>,
    start: Seq<char>,
    x: Seq<char>,
)
    requires
        closed_under_parents(objs, s),
        s.contains(start),
        reaches(objs, start, x),
    ensures
        s.contains(x),
{
    let p = choose|p: Seq<Seq<char>>| #[trigger] is_walk(objs, p) && p[0] == start && p.last() == x;
    lemma_walk_in_closed(objs, s, p);
}

proof fn lemma_walk_in_closed(objs: Objects, s: Set<Seq<char>>, p: Seq<Seq<char>>)
    requires
        closed_under_parents(objs, s),
        is_walk(objs, p),
        s.contains(p[0]),
    ensures
        s.contains(p.last()),
    decreases p.len(),
{
    if p.len() > 1 {
        let q = p.drop_last();
        assert forall|i: int| 0 <= i < q.len() - 1 implies is_commit_in(objs, #[trigger] q[i])
            && parents_in(objs, q[i]).contains(q[i + 1]) by {
            assert(q[i] == p[i]);
            assert(q[i + 1] == p[i + 1]);
        }
        lemma_walk_in_closed(objs, s, q);
        let k = p.len() - 2;
        assert(q.last() == p[k]);
        assert(is_commit_in(objs, p[k]) && parents_in(objs, p[k]).contains(p[k + 1]));
        let j = choose|j: int|
            0 <= j < parents_in(objs, p[k]).len() && parents_in(objs, p[k])[j] == p[k + 1];
        assert(s.contains(parents_in(objs, p[k])[j]));
    }
}

/// A sequence without repeats whose items all occur in `b` is no longer
/// than `b`.
pub proof fn lemma_unique_within_len<A>(a: Seq<A>, b: Seq<A>)
    requires
        a.no_duplicates(),
        forall|i: int| 0 <= i < a.len() ==> b.contains(#[trigger] a[i]),
    ensures
        a.len() <= b.len(),
{
    a.unique_seq_to_set();
    b.lemma_cardinality_of_set();
    assert(a.to_set().subset_of(b.to_set()));
    vstd::set_lib::lemma_len_subset(a.to_set(), b.to_set());
}

/// Every object is stored under its own id.
pub open spec fn content_addressed(objs: Objects) -> bool {
    forall|k: Seq<char>| #[trigger] objs.contains_key(k) ==> object_id(objs[k]) == k
}

/// The store after `obj` is written: unchanged when its id is taken, else
/// with `obj` added under its id.
pub open spec fn stored(objs: Objects, obj: SpecObject) -> Objects {
    if objs.contains_key(object_id(obj)) {
        objs
    } else {
        objs.insert(object_id(obj), obj)
    }
}

/// Writing an object keeps the store content addressed, and a read of the
/// object's id afterwards finds an object with that id: the one written,
/// unless the id was taken already.
pub proof fn law_write_then_read(objs: Objects, obj: SpecObject)
    requires
        content_addressed(objs),
    ensures
        content_addressed(stored(objs, obj)),
        stored(objs, obj).contains_key(object_id(obj)),
        object_id(stored(objs, obj)[object_id(obj)]) == object_id(obj),
        !objs.contains_key(object_id(obj)) ==> stored(objs, obj)[object_id(obj)] == obj,
        forall|k: Seq<char>| #[trigger] objs.contains_key(k) ==> stored(objs, obj).contains_key(k)
            && stored(objs, obj)[k] == objs[k],
{
}

/// A walk from a parent of commit `c` becomes a walk from `c`.
proof fn lemma_reaches_from_parent(objs: Objects, c: Seq<char>, p: Seq<char>, x: Seq<char>)
    requires
        is_commit_in(objs, c),
        parents_in(objs, c).contains(p),
        reaches(objs, p, x),
    ensures
        reaches(objs, c, x),
{
    let w = choose|w: Seq<Seq<char>>| #[trigger] is_walk(objs, w) && w[0] == p && w.last() == x;
    let q = seq![c] + w;
    assert forall|i: int| 0 <= i < q.len() - 1 implies is_commit_in(objs, #[trigger] q[i])
        && parents_in(objs, q[i]).contains(q[i + 1]) by {
        if i > 0 {
            assert(q[i] == w[i - 1]);
            assert(q[i + 1] == w[i]);
        } else {
            assert(q[1] == w[0]);
        }
    }
    assert(is_walk(objs, q));
    assert(q.last() == w.last());
}

/// Anything `c` reaches other than `c` is reached from one of its parents.
proof fn lemma_reaches_through_parent(objs: Objects, c: Seq<char>, x: Seq<char>)
    requires
        reaches(objs, c, x),
        x != c,
    ensures
        exists|p: Seq<char>| #[trigger] parents_in(objs, c).contains(p) && reaches(objs, p, x),
{
    let w = choose|w: Seq<Seq<char>>| #[trigger] is_walk(objs, w) && w[0] == c && w.last() == x;
    assert(w.len() >= 2);
    let q = w.drop_first();
    assert forall|i: int| 0 <= i < q.len() - 1 implies is_commit_in(objs, #[trigger] q[i])
        && parents_in(objs, q[i]).contains(q[i + 1]) by {
        assert(q[i] == w[i + 1]);
        assert(q[i + 1] == w[i + 2]);
    }
    assert(is_walk(objs, q));
    assert(parents_in(objs, c).contains(q[0]));
    assert(q.last() == x);
}

/// The history of a merge commit is the commit itself, the history of the
/// branch it was made on and the history of the branch merged in: a merge
/// joins the two histories and loses nothing of either.
pub proof fn law_merge_history_is_union(objs: Objects, m: Seq<char>, h: Seq<char>, o: Seq<char>)
    requires
        is_commit_in(objs, m),
        parents_in(objs, m) == seq![h, o],
    ensures
        history(objs, m) == set![m].union(history(objs, h)).union(history(objs, o)),
{
    assert forall|x: Seq<char>| history(objs, m).contains(x) <==> set![m].union(
        history(objs, h),
    ).union(history(objs, o)).contains(x) by {
        if history(objs, m).contains(x) && x != m {
            lemma_reaches_through_parent(objs, m, x);
            let p = choose|p: Seq<char>| #[trigger] parents_in(objs, m).contains(p) && reaches(objs, p, x);
            let j = choose|j: int| 0 <= j < parents_in(objs, m).len() && parents_in(objs, m)[j] == p;
            assert(p == h || p == o);
        }
        if x == m {
            lemma_reaches_self(objs, m);
        }
        if reaches(objs, h, x) {
            assert(parents_in(objs, m)[0] == h);
            lemma_reaches_from_parent(objs, m, h, x);
        }
        if reaches(objs, o, x) {
            assert(parents_in(objs, m)[1] == o);
            lemma_reaches_from_parent(objs, m, o, x);
        }
    }
    assert(history(objs, m) =~= set![m].union(history(objs, h)).union(history(objs, o)));
}

/// Reaching is transitive.
pub proof fn lemma_reaches_trans(objs: Objects, a: Seq<char>, b: Seq<char>, c: Seq<char>)
    requires
        reaches(objs, a, b),
        reaches(objs, b, c),
    ensures
        reaches(objs, a, c),
{
    let p = choose|p: Seq<Seq<char>>| #[trigger] is_walk(objs, p) && p[0] == a && p.last() == b;
    let q = choose|q: Seq<Seq<char>>| #[trigger] is_walk(objs, q) && q[0] == b && q.last() == c;
    let w = p + q.drop_first();
    assert forall|i: int| 0 <= i < w.len() - 1 implies is_commit_in(objs, #[trigger] w[i])
        && parents_in(objs, w[i]).contains(w[i + 1]) by {
        if i < p.len() - 1 {
            assert(w[i] == p[i]);
            assert(w[i + 1] == p[i + 1]);
        } else {
            let j = i - (p.len() - 1);
            assert(w[i] == q[j]);
            assert(w[i + 1] == q[j + 1]);
        }
    }
    assert(is_walk(objs, w));
    if q.len() == 1 {
        assert(w.last() == p.last());
    } else {
        assert(w.last() == q.last());
    }
}

/// What a commit in the history of `h` reaches, `h` reaches too.
pub proof fn lemma_history_within(objs: Objects, h: Seq<char>, t: Seq<char>)
    requires
        history(objs, h).contains(t),
    ensures
        history(objs, t).subset_of(history(objs, h)),
{
    assert forall|x: Seq<char>| history(objs, t).contains(x) implies history(objs, h).contains(x) by {
        lemma_reaches_trans(objs, h, t, x);
    }
}

/// What a store reaches it still reaches once more objects are stored.
pub proof fn lemma_reaches_grow(objs: Objects, objs2: Objects, a: Seq<char>, b: Seq<char>)
    requires
        forall|k: Seq<char>| #[trigger] objs.contains_key(k) ==> objs2.contains_key(k) && objs2[k] == objs[k],
        reaches(objs, a, b),
    ensures
        reaches(objs2, a, b),
{
    let p = choose|p: Seq<Seq<char>>| #[trigger] is_walk(objs, p) && p[0] == a && p.last() == b;
    assert forall|i: int| 0 <= i < p.len() - 1 implies is_commit_in(objs2, #[trigger] p[i]) && parents_in(
        objs2,
        p[i],
    ).contains(p[i + 1]) by {
        assert(is_commit_in(objs, p[i]));
    }
    assert(is_walk(objs2, p));
}

} // verus!
