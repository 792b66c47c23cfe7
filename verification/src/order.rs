//! Chronological order: objects are listed by timestamp, ties broken by id,
//! as `(timestamp, id)` keys compared field by field.

use vstd::prelude::*;

use crate::text::{
    lemma_seq_lt_irreflexive, lemma_seq_lt_total, lemma_seq_lt_transitive, seq_lt, str_lt,
};

verus! {

/// `(timestamp, id)` order: earlier first, then by id.
pub open spec fn key_lt(a: (u64, Seq<char>), b: (u64, Seq<char>)) -> bool {
    a.0 < b.0 || (a.0 == b.0 && seq_lt(a.1, b.1))
}

/// Each key is strictly below every later key.
pub open spec fn ascending(s: Seq<(u64, Seq<char>)>) -> bool {
    forall|i: int, j: int| 0 <= i < j < s.len() ==> key_lt(#[trigger] s[i], #[trigger] s[j])
}

/// The keys of `v`, with ids as characters.
pub open spec fn key_view(v: Seq<(u64, String)>) -> Seq<(u64, Seq<char>)> {
    v.map_values(|p: (u64, String)| (p.0, p.1@))
}

pub proof fn lemma_key_lt_irreflexive(a: (u64, Seq<char>))
    ensures
        !key_lt(a, a),
{
    lemma_seq_lt_irreflexive(a.1);
}

pub proof fn lemma_key_lt_transitive(a: (u64, Seq<char>), b: (u64, Seq<char>), c: (u64, Seq<char>))
    requires
        key_lt(a, b),
        key_lt(b, c),
    ensures
        key_lt(a, c),
{
    if a.0 == b.0 && b.0 == c.0 {
        lemma_seq_lt_transitive(a.1, b.1, c.1);
    }
}

pub proof fn lemma_key_lt_total(a: (u64, Seq<char>), b: (u64, Seq<char>))
    requires
        a != b,
    ensures
        key_lt(a, b) || key_lt(b, a),
{
    if a.0 == b.0 {
        lemma_seq_lt_total(a.1, b.1);
    }
}

pub proof fn lemma_key_lt_asymmetric(a: (u64, Seq<char>), b: (u64, Seq<char>))
    requires
        key_lt(a, b),
    ensures
        !key_lt(b, a),
{
    if key_lt(b, a) {
        lemma_key_lt_transitive(a, b, a);
        lemma_key_lt_irreflexive(a);
    }
}

/// An ascending sequence holds no key twice.
pub proof fn lemma_ascending_no_duplicates(s: Seq<(u64, Seq<char>)>)
    requires
        ascending(s),
    ensures
        s.no_duplicates(),
{
    assert forall|i: int, j: int| 0 <= i < s.len() && 0 <= j < s.len() && i != j implies s[i]
        != s[j] by {
        lemma_key_lt_irreflexive(s[i]);
    }
}

/// There is one ascending listing of a set of keys: two ascending
/// sequences with the same keys are equal.
pub proof fn lemma_ascending_unique(a: Seq<(u64, Seq<char>)>, b: Seq<(u64, Seq<char>)>)
    requires
        ascending(a),
        ascending(b),
        a.to_set() == b.to_set(),
    ensures
        a == b,
    decreases a.len(),
{
    lemma_ascending_no_duplicates(a);
    lemma_ascending_no_duplicates(b);
    a.unique_seq_to_set();
    b.unique_seq_to_set();
    if a.len() > 0 {
        assert(a.to_set().contains(a[0]));
        assert(b.to_set().contains(b[0]));
        let j = choose|j: int| 0 <= j < b.len() && b[j] == a[0];
        let k = choose|k: int| 0 <= k < a.len() && a[k] == b[0];
        if j != 0 {
            assert(key_lt(b[0], b[j]));
            if k != 0 {
                assert(key_lt(a[0], a[k]));
                lemma_key_lt_asymmetric(a[0], b[0]);
            } else {
                lemma_key_lt_irreflexive(a[0]);
            }
        }
        assert(a[0] == b[0]);
        let a1 = a.drop_first();
        let b1 = b.drop_first();
        assert(a1.to_set() =~= b1.to_set()) by {
            assert forall|x: (u64, Seq<char>)| a1.to_set().contains(x) <==> b1.to_set().contains(
                x,
            ) by {
                if a1.contains(x) {
                    let i = choose|i: int| 0 <= i < a1.len() && a1[i] == x;
                    assert(a[i + 1] == x);
                    assert(b.to_set().contains(x));
                    let i2 = choose|i2: int| 0 <= i2 < b.len() && b[i2] == x;
                    assert(i2 != 0);
                    assert(b1[i2 - 1] == x);
                }
                if b1.contains(x) {
                    let i = choose|i: int| 0 <= i < b1.len() && b1[i] == x;
                    assert(b[i + 1] == x);
                    assert(a.to_set().contains(x));
                    let i2 = choose|i2: int| 0 <= i2 < a.len() && a[i2] == x;
                    assert(i2 != 0);
                    assert(a1[i2 - 1] == x);
                }
            }
        }
        lemma_ascending_unique(a1, b1);
        assert(a =~= b) by {
            assert forall|i: int| 0 <= i < a.len() implies a[i] == b[i] by {
                if i > 0 {
                    assert(a[i] == a1[i - 1]);
                    assert(b[i] == b1[i - 1]);
                }
            }
        }
    } else {
        assert(b.len() == 0);
        assert(a =~= b);
    }
}

fn key_less(a: &(u64, String), b: &(u64, String)) -> (r: bool)
    ensures
        r == key_lt((a.0, a.1@), (b.0, b.1@)),
{
    a.0 < b.0 || (a.0 == b.0 && str_lt(a.1.as_str(), b.1.as_str()))
}

/// The keys of `v` in ascending `(timestamp, id)` order.
pub fn sort_by_key(v: Vec<(u64, String)>) -> (r: Vec<(u64, String)>)
    requires
        key_view(v@).no_duplicates(),
    ensures
        ascending(key_view(r@)),
        key_view(r@).to_set() == key_view(v@).to_set(),
        r@.len() == v@.len(),
{
    let mut r: Vec<(u64, String)> = Vec::new();
    let mut i: usize = 0;
    while i < v.len()
        invariant
            i <= v.len(),
            key_view(v@).no_duplicates(),
            ascending(key_view(r@)),
            key_view(r@).to_set() == key_view(v@).take(i as int).to_set(),
            r@.len() == i,
        decreases v.len() - i,
    {
        let x = (v[i].0, v[i].1.clone());
        let ghost kx = (x.0, x.1@);
        let ghost old_r = key_view(r@);
        assert(kx == key_view(v@)[i as int]);
        // kx is new: the earlier keys of v are distinct from it
        assert(!old_r.contains(kx)) by {
            if old_r.contains(kx) {
                assert(old_r.to_set().contains(kx));
                assert(key_view(v@).take(i as int).contains(kx));
                let j = choose|j: int| 0 <= j < i && key_view(v@).take(i as int)[j] == kx;
                assert(key_view(v@)[j] == key_view(v@)[i as int]);
            }
        }
        let mut p: usize = 0;
        while p < r.len() && key_less(&r[p], &x)
            invariant
                p <= r.len(),
                old_r == key_view(r@),
                kx == (x.0, x.1@),
                forall|j: int| 0 <= j < p ==> key_lt(#[trigger] old_r[j], kx),
            decreases r.len() - p,
        {
            p = p + 1;
        }
        proof {
            if p < old_r.len() {
                assert(old_r[p as int] != kx);
                lemma_key_lt_total(old_r[p as int], kx);
            }
        }
        r.insert(p, x);
        proof {
            let nr = key_view(r@);
            assert(nr =~= old_r.insert(p as int, kx));
            assert forall|a: int, b: int| 0 <= a < b < nr.len() implies key_lt(
                #[trigger] nr[a],
                #[trigger] nr[b],
            ) by {
                if a < p && b == p {
                } else if a < p && b > p {
                    if p < old_r.len() {
                        lemma_key_lt_transitive(old_r[a], kx, old_r[p as int]);
                        if b - 1 > p {
                            lemma_key_lt_transitive(old_r[a], old_r[p as int], old_r[b - 1]);
                        }
                    }
                } else if a == p {
                    if b - 1 > p {
                        lemma_key_lt_transitive(kx, old_r[p as int], old_r[b - 1]);
                    }
                } else if a < p {
                } else {
                    assert(key_lt(old_r[a - 1], old_r[b - 1]));
                }
            }
            let t = key_view(v@).take(i as int);
            assert(key_view(v@).take(i + 1) == t.push(kx));
            assert forall|y: (u64, Seq<char>)| nr.to_set().contains(y) <==> t.push(
                kx,
            ).to_set().contains(y) by {
                assert(nr.to_set().contains(y) == nr.contains(y));
                assert(old_r.to_set().contains(y) == old_r.contains(y));
                assert(t.to_set().contains(y) == t.contains(y));
                assert(t.push(kx).to_set().contains(y) == t.push(kx).contains(y));
                if nr.contains(y) {
                    let j = choose|j: int| 0 <= j < nr.len() && nr[j] == y;
                    if j < p {
                        assert(old_r[j] == y);
                    } else if j > p {
                        assert(old_r[j - 1] == y);
                    }
                    if y != kx {
                        assert(old_r.contains(y));
                        assert(t.contains(y));
                        let m = choose|m: int| 0 <= m < t.len() && t[m] == y;
                        assert(t.push(kx)[m] == y);
                    } else {
                        assert(t.push(kx)[t.len() as int] == y);
                    }
                }
                if t.push(kx).contains(y) {
                    let j = choose|j: int| 0 <= j < t.len() + 1 && t.push(kx)[j] == y;
                    if j < t.len() {
                        assert(t[j] == y);
                        assert(t.contains(y));
                        assert(old_r.contains(y));
                        let m = choose|m: int| 0 <= m < old_r.len() && old_r[m] == y;
                        if m < p {
                            assert(nr[m] == y);
                        } else {
                            assert(nr[m + 1] == y);
                        }
                    } else {
                        assert(nr[p as int] == y);
                    }
                }
            }
            assert(nr.to_set() =~= key_view(v@).take(i + 1).to_set());
        }
        i = i + 1;
    }
    assert(key_view(v@).take(v.len() as int) == key_view(v@));
    r
}

} // verus!
