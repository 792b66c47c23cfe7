//! `StrMap`: a map from strings to values that keeps its keys in `String`
//! order, as a `BTreeMap<String, V>` does. Its view is a `Map` keyed by the
//! keys' characters; `keys_seq` lists the keys in ascending order.

use vstd::prelude::*;

use crate::text::{
    lemma_seq_lt_asymmetric, lemma_seq_lt_irreflexive, lemma_seq_lt_total,
    lemma_seq_lt_transitive, seq_lt, str_eq, str_lt,
};

verus! {

/// Every key is strictly below every later key.
pub open spec fn sorted_keys(ks: Seq<Seq<char>>) -> bool {
    forall|i: int, j: int| 0 <= i < j < ks.len() ==> seq_lt(#[trigger] ks[i], #[trigger] ks[j])
}

/// In a sorted key sequence, a key's position is the one `index_of` names.
pub proof fn lemma_sorted_index_of(ks: Seq<Seq<char>>, i: int)
    requires
        sorted_keys(ks),
        0 <= i < ks.len(),
    ensures
        ks.index_of(ks[i]) == i,
        ks.contains(ks[i]),
{
    assert(ks.contains(ks[i]));
    let j = ks.index_of(ks[i]);
    if j < i {
        assert(seq_lt(ks[j], ks[i]));
        lemma_seq_lt_irreflexive(ks[i]);
    } else if j > i {
        assert(seq_lt(ks[i], ks[j]));
        lemma_seq_lt_irreflexive(ks[i]);
    }
}

/// A sorted key sequence holds no key twice.
pub proof fn lemma_sorted_no_duplicates(ks: Seq<Seq<char>>)
    requires
        sorted_keys(ks),
    ensures
        ks.no_duplicates(),
{
    assert forall|i: int, j: int| 0 <= i < ks.len() && 0 <= j < ks.len() && i != j implies ks[i]
        != ks[j] by {
        if ks[i] == ks[j] {
            lemma_seq_lt_irreflexive(ks[i]);
            if i < j {
                assert(seq_lt(ks[i], ks[j]));
            } else {
                assert(seq_lt(ks[j], ks[i]));
            }
        }
    }
}

#[derive(Debug, PartialEq, Eq)]
pub struct StrMap<V> {
    entries: Vec<(String, V)>,
}

impl<V> StrMap<V> {
    /// The keys, in ascending order.
    pub closed spec fn keys_seq(self) -> Seq<Seq<char>> {
        self.entries@.map_values(|e: (String, V)| e.0@)
    }

    /// The values, in the order of their keys.
    pub closed spec fn values_seq(self) -> Seq<V> {
        self.entries@.map_values(|e: (String, V)| e.1)
    }

    #[verifier::type_invariant]
    closed spec fn inv(self) -> bool {
        sorted_keys(self.keys_seq())
    }

    /// The keys are sorted, each names its value, and together they are the
    /// map's domain.
    pub proof fn lemma_view(self)
        requires
            sorted_keys(self.keys_seq()),
        ensures
            self.keys_seq().len() == self.values_seq().len(),
            self.keys_seq().no_duplicates(),
            self.keys_seq().to_set() == self@.dom(),
            forall|i: int|
                0 <= i < self.keys_seq().len() ==> self@[#[trigger] self.keys_seq()[i]]
                    == self.values_seq()[i],
    {
        lemma_sorted_no_duplicates(self.keys_seq());
        assert forall|i: int| 0 <= i < self.keys_seq().len() implies self@[
            #[trigger] self.keys_seq()[i]] == self.values_seq()[i] by {
            lemma_sorted_index_of(self.keys_seq(), i);
        }
        assert(self.keys_seq().to_set() =~= self@.dom());
    }

    /// The sorted keys of a live map.
    pub fn keys_are_sorted(&self)
        ensures
            sorted_keys(self.keys_seq()),
    {
        proof {
            use_type_invariant(self);
        }
    }

    pub fn new() -> (m: Self)
        ensures
            m@ == Map::<Seq<char>, V>::empty(),
            m.keys_seq().len() == 0,
    {
        let m = StrMap { entries: Vec::new() };
        assert(m@ =~= Map::<Seq<char>, V>::empty());
        m
    }

    pub fn len(&self) -> (n: usize)
        ensures
            n == self.keys_seq().len(),
            n == self@.dom().len(),
    {
        proof {
            use_type_invariant(self);
            self.lemma_view();
            self.keys_seq().unique_seq_to_set();
        }
        self.entries.len()
    }

    /// The key at position `i` in ascending order.
    pub fn key_at(&self, i: usize) -> (k: &String)
        requires
            i < self.keys_seq().len(),
        ensures
            k@ == self.keys_seq()[i as int],
    {
        &self.entries[i].0
    }

    /// The value of the key at position `i`.
    pub fn value_at(&self, i: usize) -> (v: &V)
        requires
            i < self.keys_seq().len(),
        ensures
            *v == self.values_seq()[i as int],
            *v == self@[self.keys_seq()[i as int]],
    {
        proof {
            use_type_invariant(self);
            self.lemma_view();
        }
        &self.entries[i].1
    }

    /// The keys, in ascending order.
    pub fn keys(&self) -> (r: Vec<String>)
        ensures
            r@.map_values(|s: String| s@) == self.keys_seq(),
            sorted_keys(self.keys_seq()),
            self.keys_seq().to_set() == self@.dom(),
            self.keys_seq().no_duplicates(),
    {
        proof {
            use_type_invariant(self);
            self.lemma_view();
        }
        let mut r: Vec<String> = Vec::new();
        let mut i: usize = 0;
        while i < self.entries.len()
            invariant
                i <= self.entries.len(),
                r@.map_values(|s: String| s@) == self.keys_seq().take(i as int),
            decreases self.entries.len() - i,
        {
            r.push(self.entries[i].0.clone());
            assert(self.keys_seq().take(i + 1) == self.keys_seq().take(i as int).push(
                self.keys_seq()[i as int],
            ));
            assert(r@.map_values(|s: String| s@) == r@.drop_last().map_values(|s: String| s@).push(
                r@.last()@,
            ));
            i = i + 1;
        }
        assert(self.keys_seq().take(self.entries.len() as int) == self.keys_seq());
        r
    }

    /// The position of `k`, if it is a key.
    pub fn find(&self, k: &str) -> (r: Option<usize>)
        ensures
            match r {
                Some(i) => i < self.keys_seq().len() && self.keys_seq()[i as int] == k@
                    && self@.contains_key(k@),
                None => !self@.contains_key(k@),
            },
    {
        proof {
            use_type_invariant(self);
            self.lemma_view();
        }
        let mut i: usize = 0;
        while i < self.entries.len()
            invariant
                i <= self.entries.len(),
                forall|j: int| 0 <= j < i ==> self.keys_seq()[j] != k@,
            decreases self.entries.len() - i,
        {
            if str_eq(self.entries[i].0.as_str(), k) {
                assert(self.keys_seq()[i as int] == k@);
                assert(self.keys_seq().contains(k@));
                return Some(i);
            }
            i = i + 1;
        }
        proof {
            if self@.contains_key(k@) {
                let j = self.keys_seq().index_of(k@);
                assert(self.keys_seq()[j] == k@);
            }
        }
        None
    }

    pub fn contains_key(&self, k: &str) -> (b: bool)
        ensures
            b == self@.contains_key(k@),
    {
        self.find(k).is_some()
    }

    pub fn get(&self, k: &str) -> (r: Option<&V>)
        ensures
            match r {
                Some(v) => self@.contains_key(k@) && *v == self@[k@],
                None => !self@.contains_key(k@),
            },
    {
        match self.find(k) {
            Some(i) => Some(self.value_at(i)),
            None => None,
        }
    }

    /// The first position whose key is not below `k`.
    fn lower_bound(&self, k: &str) -> (p: usize)
        ensures
            p <= self.keys_seq().len(),
            forall|j: int| 0 <= j < p ==> seq_lt(#[trigger] self.keys_seq()[j], k@),
            p < self.keys_seq().len() ==> !seq_lt(self.keys_seq()[p as int], k@),
    {
        let mut i: usize = 0;
        while i < self.entries.len() && str_lt(self.entries[i].0.as_str(), k)
            invariant
                i <= self.entries.len(),
                forall|j: int| 0 <= j < i ==> seq_lt(#[trigger] self.keys_seq()[j], k@),
            decreases self.entries.len() - i,
        {
            i = i + 1;
        }
        i
    }

    /// Sets `k` to `v`, replacing any earlier value.
    pub fn insert(&mut self, k: String, v: V)
        ensures
            final(self)@ == old(self)@.insert(k@, v),
    {
        proof {
            use_type_invariant(&*self);
        }
        let p = self.lower_bound(k.as_str());
        let ghost ks = self.keys_seq();
        let ghost vs = self.values_seq();
        let ghost old_view = self@;
        let ghost kv = k@;
        if p < self.entries.len() && str_eq(self.entries[p].0.as_str(), k.as_str()) {
            let mut es: Vec<(String, V)> = Vec::new();
            std::mem::swap(&mut es, &mut self.entries);
            es.set(p, (k, v));
            assert(es@.map_values(|e: (String, V)| e.0@) =~= ks);
            self.entries = es;
            proof {
                assert(self.keys_seq() =~= ks);
                assert(self.values_seq() =~= vs.update(p as int, v));
                lemma_sorted_index_of(ks, p as int);
                assert forall|q: Seq<char>| #[trigger]
                    self@.contains_key(q) implies self@[q] == old_view.insert(kv, v)[q] by {
                    let i = ks.index_of(q);
                    assert(ks.contains(q));
                    lemma_sorted_index_of(ks, i);
                }
                assert(self@ =~= old_view.insert(kv, v));
            }
        } else {
            let mut es: Vec<(String, V)> = Vec::new();
            std::mem::swap(&mut es, &mut self.entries);
            es.insert(p, (k, v));
            proof {
                let nks = es@.map_values(|e: (String, V)| e.0@);
                assert(nks =~= ks.insert(p as int, kv));
                if p < ks.len() {
                    lemma_seq_lt_total(ks[p as int], kv);
                }
                assert forall|i: int, j: int| 0 <= i < j < nks.len() implies seq_lt(
                    #[trigger] nks[i],
                    #[trigger] nks[j],
                ) by {
                    if i < p && j == p {
                    } else if i < p && j > p {
                        if p < ks.len() {
                            lemma_seq_lt_transitive(ks[i], kv, ks[p as int]);
                            if j - 1 > p {
                                lemma_seq_lt_transitive(ks[i], ks[p as int], ks[j - 1]);
                            }
                        }
                    } else if i == p {
                        if j - 1 > p {
                            lemma_seq_lt_transitive(kv, ks[p as int], ks[j - 1]);
                        }
                    } else if i < p {
                    } else {
                        assert(seq_lt(ks[i - 1], ks[j - 1]));
                    }
                }
            }
            self.entries = es;
            proof {
                let nks = self.keys_seq();
                assert(nks =~= ks.insert(p as int, kv));
                assert(self.values_seq() =~= vs.insert(p as int, v));
                if p < ks.len() {
                    lemma_seq_lt_total(ks[p as int], kv);
                }
                assert forall|i: int, j: int| 0 <= i < j < nks.len() implies seq_lt(
                    #[trigger] nks[i],
                    #[trigger] nks[j],
                ) by {
                    if i < p && j == p {
                    } else if i < p && j > p {
                        if p < ks.len() {
                            lemma_seq_lt_transitive(ks[i], kv, ks[p as int]);
                            if j - 1 > p {
                                lemma_seq_lt_transitive(ks[i], ks[p as int], ks[j - 1]);
                            }
                        }
                    } else if i == p {
                        if j - 1 > p {
                            lemma_seq_lt_transitive(kv, ks[p as int], ks[j - 1]);
                        }
                    } else if i < p {
                    } else {
                        assert(seq_lt(ks[i - 1], ks[j - 1]));
                    }
                }
                assert(sorted_keys(nks));
                lemma_sorted_index_of(nks, p as int);
                assert forall|q: Seq<char>| #[trigger]
                    old_view.insert(kv, v).contains_key(q) implies self@.contains_key(q) by {
                    if q != kv {
                        let i = ks.index_of(q);
                        assert(ks.contains(q));
                        if i < p {
                            assert(nks[i] == q);
                        } else {
                            assert(nks[i + 1] == q);
                        }
                    }
                }
                assert forall|q: Seq<char>| #[trigger]
                    self@.contains_key(q) implies old_view.insert(kv, v).contains_key(q) && self@[q]
                    == old_view.insert(kv, v)[q] by {
                    let i = nks.index_of(q);
                    assert(nks.contains(q));
                    lemma_sorted_index_of(nks, i);
                    if i < p {
                        assert(ks[i] == q);
                        lemma_sorted_index_of(ks, i);
                        assert(q != kv) by {
                            lemma_seq_lt_irreflexive(kv);
                        }
                    } else if i > p {
                        assert(ks[i - 1] == q);
                        lemma_sorted_index_of(ks, i - 1);
                        assert(q != kv) by {
                            lemma_seq_lt_irreflexive(kv);
                        }
                    }
                }
                assert(self@ =~= old_view.insert(kv, v));
            }
        }
    }

    /// Removes `k`, handing back its value if it was a key.
    pub fn remove(&mut self, k: &str) -> (r: Option<V>)
        ensures
            final(self)@ == old(self)@.remove(k@),
            match r {
                Some(v) => old(self)@.contains_key(k@) && v == old(self)@[k@],
                None => !old(self)@.contains_key(k@),
            },
    {
        proof {
            use_type_invariant(&*self);
            self.lemma_view();
        }
        let ghost ks = self.keys_seq();
        let ghost old_view = self@;
        match self.find(k) {
            None => {
                assert(self@ =~= old_view.remove(k@));
                None
            },
            Some(p) => {
                let mut es: Vec<(String, V)> = Vec::new();
                std::mem::swap(&mut es, &mut self.entries);
                let (_, v) = es.remove(p);
                proof {
                    let nks = es@.map_values(|e: (String, V)| e.0@);
                    assert(nks =~= ks.remove(p as int));
                    assert forall|i: int, j: int| 0 <= i < j < nks.len() implies seq_lt(
                        #[trigger] nks[i],
                        #[trigger] nks[j],
                    ) by {
                        if i < p && j >= p {
                            assert(seq_lt(ks[i], ks[j + 1]));
                        } else if i >= p {
                            assert(seq_lt(ks[i + 1], ks[j + 1]));
                        }
                    }
                }
                self.entries = es;
                proof {
                    let nks = self.keys_seq();
                    assert(nks =~= ks.remove(p as int));
                    assert(sorted_keys(nks)) by {
                        assert forall|i: int, j: int| 0 <= i < j < nks.len() implies seq_lt(
                            #[trigger] nks[i],
                            #[trigger] nks[j],
                        ) by {
                            if i < p && j >= p {
                                assert(seq_lt(ks[i], ks[j + 1]));
                            } else if i >= p {
                                assert(seq_lt(ks[i + 1], ks[j + 1]));
                            }
                        }
                    }
                    lemma_sorted_index_of(ks, p as int);
                    assert forall|q: Seq<char>| #[trigger]
                        old_view.remove(k@).contains_key(q) implies self@.contains_key(q) by {
                        let i = ks.index_of(q);
                        assert(ks.contains(q));
                        if i < p {
                            assert(nks[i] == q);
                        } else {
                            assert(i != p);
                            assert(nks[i - 1] == q);
                        }
                    }
                    assert forall|q: Seq<char>| #[trigger]
                        self@.contains_key(q) implies old_view.remove(k@).contains_key(q)
                        && self@[q] == old_view[q] by {
                        let i = nks.index_of(q);
                        assert(nks.contains(q));
                        lemma_sorted_index_of(nks, i);
                        if i < p {
                            lemma_sorted_index_of(ks, i);
                            assert(q != k@) by {
                                lemma_sorted_no_duplicates(ks);
                            }
                        } else {
                            lemma_sorted_index_of(ks, i + 1);
                            assert(q != k@) by {
                                lemma_sorted_no_duplicates(ks);
                            }
                        }
                    }
                    assert(self@ =~= old_view.remove(k@));
                }
                Some(v)
            },
        }
    }
}

impl<V> View for StrMap<V> {
    type V = Map<Seq<char>, V>;

    closed spec fn view(&self) -> Map<Seq<char>, V> {
        Map::new(
            |k: Seq<char>| self.keys_seq().contains(k),
            |k: Seq<char>| self.values_seq()[self.keys_seq().index_of(k)],
        )
    }
}

} // verus!
