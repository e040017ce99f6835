//! Association maps over string keys, the routing table's backing stores.
//!
//! `StrMap` keeps its entries in insertion order; `SortedStrMap` keeps them
//! in ascending lexicographic key order, so that a reverse walk visits keys
//! from the greatest downward.
use vstd::prelude::*;
use crate::text::{lex_lt, lemma_lex_connected, lemma_lex_trans, str_eq, str_lt};

verus! {

/// The mapping described by a sequence of key-value pairs; a later pair
/// wins over an earlier one with the same key.
pub open spec fn map_of<T>(pairs: Seq<(String, T)>) -> Map<Seq<char>, T>
    decreases pairs.len(),
{
    if pairs.len() == 0 {
        Map::empty()
    } else {
        map_of(pairs.drop_last()).insert(pairs.last().0@, pairs.last().1)
    }
}

/// No two pairs share a key.
pub open spec fn unique_keys<T>(pairs: Seq<(String, T)>) -> bool {
    forall|i: int, j: int| 0 <= i < j < pairs.len() ==> pairs[i].0@ != pairs[j].0@
}

/// Keys appear in strictly ascending lexicographic order.
pub open spec fn sorted_keys<T>(pairs: Seq<(String, T)>) -> bool {
    forall|i: int, j: int| 0 <= i < j < pairs.len() ==> lex_lt(pairs[i].0@, pairs[j].0@)
}

pub proof fn lemma_lex_irrefl(a: Seq<char>)
    ensures
        !lex_lt(a, a),
    decreases a.len(),
{
    if a.len() != 0 {
        lemma_lex_irrefl(a.drop_first());
    }
}

pub proof fn lemma_sorted_implies_unique<T>(pairs: Seq<(String, T)>)
    requires
        sorted_keys(pairs),
    ensures
        unique_keys(pairs),
{
    assert forall|i: int, j: int| 0 <= i < j < pairs.len() implies pairs[i].0@ != pairs[j].0@ by {
        lemma_lex_irrefl(pairs[i].0@);
    }
}

pub proof fn lemma_map_of_contained<T>(pairs: Seq<(String, T)>, i: int)
    requires
        0 <= i < pairs.len(),
        unique_keys(pairs),
    ensures
        map_of(pairs).contains_key(pairs[i].0@),
        map_of(pairs)[pairs[i].0@] == pairs[i].1,
    decreases pairs.len(),
{
    if i < pairs.len() - 1 {
        lemma_map_of_contained(pairs.drop_last(), i);
    }
}

pub proof fn lemma_map_of_absent<T>(pairs: Seq<(String, T)>, k: Seq<char>)
    requires
        forall|i: int| 0 <= i < pairs.len() ==> pairs[i].0@ != k,
    ensures
        !map_of(pairs).contains_key(k),
    decreases pairs.len(),
{
    if pairs.len() != 0 {
        lemma_map_of_absent(pairs.drop_last(), k);
    }
}

pub proof fn lemma_map_of_dom<T>(pairs: Seq<(String, T)>, k: Seq<char>)
    requires
        map_of(pairs).contains_key(k),
    ensures
        exists|i: int| 0 <= i < pairs.len() && pairs[i].0@ == k,
    decreases pairs.len(),
{
    if pairs.len() != 0 && pairs.last().0@ != k {
        lemma_map_of_dom(pairs.drop_last(), k);
        let i = choose|i: int| 0 <= i < pairs.drop_last().len() && pairs.drop_last()[i].0@ == k;
        assert(pairs[i].0@ == k);
    }
}

pub proof fn lemma_map_of_remove<T>(pairs: Seq<(String, T)>, i: int)
    requires
        0 <= i < pairs.len(),
        unique_keys(pairs),
    ensures
        map_of(pairs.remove(i)) == map_of(pairs).remove(pairs[i].0@),
    decreases pairs.len(),
{
    let k = pairs[i].0@;
    if i == pairs.len() - 1 {
        assert(pairs.remove(i) =~= pairs.drop_last());
        lemma_map_of_absent(pairs.drop_last(), k);
        assert(map_of(pairs.drop_last()) =~= map_of(pairs).remove(k));
    } else {
        assert(pairs.remove(i).drop_last() =~= pairs.drop_last().remove(i));
        assert(pairs.remove(i).last() == pairs.last());
        lemma_map_of_remove(pairs.drop_last(), i);
        assert(map_of(pairs.drop_last()).remove(k).insert(pairs.last().0@, pairs.last().1)
            =~= map_of(pairs.drop_last()).insert(pairs.last().0@, pairs.last().1).remove(k));
    }
}

pub proof fn lemma_map_of_insert_at<T>(pairs: Seq<(String, T)>, i: int, p: (String, T))
    requires
        0 <= i <= pairs.len(),
        forall|j: int| 0 <= j < pairs.len() ==> pairs[j].0@ != p.0@,
    ensures
        map_of(pairs.insert(i, p)) == map_of(pairs).insert(p.0@, p.1),
    decreases pairs.len(),
{
    if i == pairs.len() {
        assert(pairs.insert(i, p).drop_last() =~= pairs);
    } else {
        assert(pairs.insert(i, p).drop_last() =~= pairs.drop_last().insert(i, p));
        assert(pairs.insert(i, p).last() == pairs.last());
        lemma_map_of_insert_at(pairs.drop_last(), i, p);
        assert(map_of(pairs.drop_last()).insert(p.0@, p.1).insert(pairs.last().0@, pairs.last().1)
            =~= map_of(pairs.drop_last()).insert(pairs.last().0@, pairs.last().1).insert(
            p.0@,
            p.1,
        ));
    }
}

/// A map from strings to `T`, backed by a vector of pairs with unique keys,
/// kept in insertion order.
#[derive(PartialEq, Debug)]
pub struct StrMap<T> {
    pub pairs: Vec<(String, T)>,
}

impl<T> View for StrMap<T> {
    type V = Map<Seq<char>, T>;

    open spec fn view(&self) -> Map<Seq<char>, T> {
        map_of(self.pairs@)
    }
}

impl<T> StrMap<T> {
    pub open spec fn wf(&self) -> bool {
        unique_keys(self.pairs@)
    }

    /// The entries, in insertion order.
    pub open spec fn entries_seq(&self) -> Seq<(String, T)> {
        self.pairs@
    }

    pub fn new() -> (r: StrMap<T>)
        ensures
            r.wf(),
            r@ == Map::<Seq<char>, T>::empty(),
            r.entries_seq() == Seq::<(String, T)>::empty(),
    {
        StrMap { pairs: Vec::new() }
    }

    pub fn len(&self) -> (r: usize)
        ensures
            r == self.entries_seq().len(),
    {
        self.pairs.len()
    }

    pub fn entries(&self) -> (r: &Vec<(String, T)>)
        ensures
            r@ == self.entries_seq(),
    {
        &self.pairs
    }

    fn index_of(&self, k: &str) -> (r: Option<usize>)
        requires
            self.wf(),
        ensures
            match r {
                Option::Some(i) => i < self.pairs@.len() && self.pairs@[i as int].0@ == k@,
                Option::None => forall|i: int| 0 <= i < self.pairs@.len() ==> self.pairs@[i].0@
                    != k@,
            },
    {
        let n = self.pairs.len();
        let mut i: usize = 0;
        while i < n
            invariant
                i <= n,
                n == self.pairs@.len(),
                forall|j: int| 0 <= j < i ==> self.pairs@[j].0@ != k@,
            decreases n - i,
        {
            if str_eq(self.pairs[i].0.as_str(), k) {
                return Some(i);
            }
            i += 1;
        }
        None
    }

    pub fn contains_key(&self, k: &str) -> (r: bool)
        requires
            self.wf(),
        ensures
            r == self@.contains_key(k@),
    {
        match self.index_of(k) {
            Some(i) => {
                proof {
                    lemma_map_of_contained(self.pairs@, i as int);
                }
                true
            },
            None => {
                proof {
                    lemma_map_of_absent(self.pairs@, k@);
                }
                false
            },
        }
    }

    pub fn get(&self, k: &str) -> (r: Option<&T>)
        requires
            self.wf(),
        ensures
            match r {
                Option::Some(v) => self@.contains_key(k@) && *v == self@[k@],
                Option::None => !self@.contains_key(k@),
            },
    {
        match self.index_of(k) {
            Some(i) => {
                proof {
                    lemma_map_of_contained(self.pairs@, i as int);
                }
                Some(&self.pairs[i].1)
            },
            None => {
                proof {
                    lemma_map_of_absent(self.pairs@, k@);
                }
                None
            },
        }
    }

    /// Takes the entry for `k` out of the map, if present.
    pub fn remove_entry(&mut self, k: &str) -> (r: Option<T>)
        requires
            old(self).wf(),
        ensures
            final(self).wf(),
            final(self)@ == old(self)@.remove(k@),
            match r {
                Option::Some(v) => old(self)@.contains_key(k@) && v == old(self)@[k@],
                Option::None => !old(self)@.contains_key(k@) && final(self)@ == old(self)@,
            },
    {
        match self.index_of(k) {
            Some(i) => {
                proof {
                    lemma_map_of_contained(self.pairs@, i as int);
                    lemma_map_of_remove(self.pairs@, i as int);
                }
                let (_, v) = self.pairs.remove(i);
                Some(v)
            },
            None => {
                proof {
                    lemma_map_of_absent(self.pairs@, k@);
                    assert(old(self)@.remove(k@) =~= old(self)@);
                }
                None
            },
        }
    }

    /// Inserts `v` under `k`, replacing any existing entry.
    pub fn insert(&mut self, k: String, v: T)
        requires
            old(self).wf(),
        ensures
            final(self).wf(),
            final(self)@ == old(self)@.insert(k@, v),
    {
        let _ = self.remove_entry(k.as_str());
        let ghost mid = self.pairs@;
        proof {
            if exists|i: int| 0 <= i < mid.len() && mid[i].0@ == k@ {
                let i = choose|i: int| 0 <= i < mid.len() && mid[i].0@ == k@;
                lemma_map_of_contained(mid, i);
                assert(false);
            }
        }
        self.pairs.push((k, v));
        proof {
            assert(self.pairs@.drop_last() =~= mid);
            assert(old(self)@.remove(k@).insert(k@, v) =~= old(self)@.insert(k@, v));
        }
    }
}

/// A map from strings to `T`, backed by a vector of pairs in strictly
/// ascending lexicographic key order.
#[derive(PartialEq, Debug)]
pub struct SortedStrMap<T> {
    pub pairs: Vec<(String, T)>,
}

impl<T> View for SortedStrMap<T> {
    type V = Map<Seq<char>, T>;

    open spec fn view(&self) -> Map<Seq<char>, T> {
        map_of(self.pairs@)
    }
}

impl<T> SortedStrMap<T> {
    pub open spec fn wf(&self) -> bool {
        sorted_keys(self.pairs@)
    }

    /// The entries, in ascending key order.
    pub open spec fn entries_seq(&self) -> Seq<(String, T)> {
        self.pairs@
    }

    pub fn new() -> (r: SortedStrMap<T>)
        ensures
            r.wf(),
            r@ == Map::<Seq<char>, T>::empty(),
            r.entries_seq() == Seq::<(String, T)>::empty(),
    {
        SortedStrMap { pairs: Vec::new() }
    }

    pub fn len(&self) -> (r: usize)
        ensures
            r == self.entries_seq().len(),
    {
        self.pairs.len()
    }

    pub fn entries(&self) -> (r: &Vec<(String, T)>)
        ensures
            r@ == self.entries_seq(),
    {
        &self.pairs
    }

    pub fn contains_key(&self, k: &str) -> (r: bool)
        requires
            self.wf(),
        ensures
            r == self@.contains_key(k@),
    {
        self.get(k).is_some()
    }

    pub fn get(&self, k: &str) -> (r: Option<&T>)
        requires
            self.wf(),
        ensures
            match r {
                Option::Some(v) => self@.contains_key(k@) && *v == self@[k@],
                Option::None => !self@.contains_key(k@),
            },
    {
        proof {
            lemma_sorted_implies_unique(self.pairs@);
        }
        let n = self.pairs.len();
        let mut i: usize = 0;
        while i < n
            invariant
                i <= n,
                n == self.pairs@.len(),
                sorted_keys(self.pairs@),
                forall|j: int| 0 <= j < i ==> self.pairs@[j].0@ != k@,
            decreases n - i,
        {
            if str_eq(self.pairs[i].0.as_str(), k) {
                proof {
                    lemma_sorted_implies_unique(self.pairs@);
                    lemma_map_of_contained(self.pairs@, i as int);
                }
                return Some(&self.pairs[i].1);
            }
            i += 1;
        }
        proof {
            lemma_map_of_absent(self.pairs@, k@);
        }
        None
    }

    /// First position whose key does not precede `k`.
    fn lower_bound(&self, k: &str) -> (r: usize)
        requires
            self.wf(),
        ensures
            r <= self.pairs@.len(),
            forall|j: int| 0 <= j < r ==> lex_lt(self.pairs@[j].0@, k@),
            r < self.pairs@.len() ==> !lex_lt(self.pairs@[r as int].0@, k@),
    {
        let n = self.pairs.len();
        let mut i: usize = 0;
        while i < n && str_lt(self.pairs[i].0.as_str(), k)
            invariant
                i <= n,
                n == self.pairs@.len(),
                forall|j: int| 0 <= j < i ==> lex_lt(self.pairs@[j].0@, k@),
            decreases n - i,
        {
            i += 1;
        }
        i
    }

    /// Inserts `v` under `k`, replacing any existing entry and keeping the
    /// entries sorted.
    pub fn insert(&mut self, k: String, v: T)
        requires
            old(self).wf(),
        ensures
            final(self).wf(),
            final(self)@ == old(self)@.insert(k@, v),
    {
        proof {
            lemma_sorted_implies_unique(self.pairs@);
        }
        let n = self.pairs.len();
        let i = self.lower_bound(k.as_str());
        if i < n && str_eq(self.pairs[i].0.as_str(), k.as_str()) {
            proof {
                lemma_sorted_implies_unique(self.pairs@);
                lemma_map_of_contained(self.pairs@, i as int);
                lemma_map_of_remove(self.pairs@, i as int);
            }
            let ghost before = self.pairs@;
            let _ = self.pairs.remove(i);
            proof {
                assert forall|j: int| 0 <= j < self.pairs@.len() implies self.pairs@[j].0@ != k@
                    by {
                    if j < i {
                        assert(self.pairs@[j] == before[j]);
                        lemma_lex_irrefl(k@);
                    } else {
                        assert(self.pairs@[j] == before[j + 1]);
                    }
                }
                assert(sorted_keys(self.pairs@)) by {
                    assert forall|a: int, b: int|
                        0 <= a < b < self.pairs@.len() implies lex_lt(
                        self.pairs@[a].0@,
                        self.pairs@[b].0@,
                    ) by {
                        let aa = if a < i {
                            a
                        } else {
                            a + 1
                        };
                        let bb = if b < i {
                            b
                        } else {
                            b + 1
                        };
                        assert(self.pairs@[a] == before[aa]);
                        assert(self.pairs@[b] == before[bb]);
                    }
                }
                lemma_map_of_insert_at(self.pairs@, i as int, (k, v));
            }
            let ghost mid = self.pairs@;
            self.pairs.insert(i, (k, v));
            proof {
                assert(sorted_keys(self.pairs@)) by {
                    assert forall|a: int, b: int|
                        0 <= a < b < self.pairs@.len() implies lex_lt(
                        self.pairs@[a].0@,
                        self.pairs@[b].0@,
                    ) by {
                        lemma_sorted_insert_at(before, mid, self.pairs@, i as int, k@, a, b);
                    }
                }
                assert(old(self)@.remove(k@).insert(k@, v) =~= old(self)@.insert(k@, v));
            }
        } else {
            proof {
                assert forall|j: int| 0 <= j < self.pairs@.len() implies self.pairs@[j].0@ != k@
                    by {
                    if j < i {
                        lemma_lex_irrefl(k@);
                    } else if j == i {
                    } else {
                        lemma_lex_trans_not(self.pairs@, i as int, j, k@);
                        lemma_lex_irrefl(self.pairs@[j].0@);
                    }
                }
                lemma_map_of_absent(self.pairs@, k@);
                lemma_map_of_insert_at(self.pairs@, i as int, (k, v));
                assert(old(self)@.insert(k@, v) =~= map_of(self.pairs@).insert(k@, v));
            }
            let ghost before = self.pairs@;
            self.pairs.insert(i, (k, v));
            proof {
                assert(sorted_keys(self.pairs@)) by {
                    assert forall|a: int, b: int|
                        0 <= a < b < self.pairs@.len() implies lex_lt(
                        self.pairs@[a].0@,
                        self.pairs@[b].0@,
                    ) by {
                        lemma_sorted_insert_fresh(before, self.pairs@, i as int, k@, a, b);
                    }
                }
            }
        }
    }
}

/// In a sorted run, a key that does not precede the entry at `i` precedes
/// no entry at or past `i` either.
proof fn lemma_lex_trans_not<T>(pairs: Seq<(String, T)>, i: int, j: int, k: Seq<char>)
    requires
        sorted_keys(pairs),
        0 <= i < j < pairs.len(),
        !lex_lt(pairs[i].0@, k),
    ensures
        lex_lt(k, pairs[j].0@),
{
    lemma_lex_connected_or(pairs[i].0@, k);
    if lex_lt(k, pairs[i].0@) {
        lemma_lex_trans(k, pairs[i].0@, pairs[j].0@);
    } else {
        assert(pairs[i].0@ == k);
    }
}

/// Two sequences are lexicographically comparable or equal.
proof fn lemma_lex_connected_or(a: Seq<char>, b: Seq<char>)
    ensures
        lex_lt(a, b) || lex_lt(b, a) || a == b,
{
    if !lex_lt(a, b) && !lex_lt(b, a) {
        lemma_lex_connected(a, b);
    }
}

proof fn lemma_sorted_insert_fresh<T>(
    before: Seq<(String, T)>,
    after: Seq<(String, T)>,
    i: int,
    k: Seq<char>,
    a: int,
    b: int,
)
    requires
        sorted_keys(before),
        0 <= i <= before.len(),
        after == before.insert(i, (after[i].0, after[i].1)),
        after[i].0@ == k,
        forall|j: int| 0 <= j < i ==> lex_lt(before[j].0@, k),
        i < before.len() ==> !lex_lt(before[i].0@, k) && before[i].0@ != k,
        0 <= a < b < after.len(),
    ensures
        lex_lt(after[a].0@, after[b].0@),
{
    assert forall|j: int| i <= j < before.len() implies lex_lt(k, before[j].0@) by {
        lemma_lex_connected_or(before[i].0@, k);
        if j > i {
            lemma_lex_trans(k, before[i].0@, before[j].0@);
        }
    }
    if a < i && b == i {
    } else if a == i && b > i {
        assert(after[b] == before[b - 1]);
    } else if a < i && b > i {
        assert(after[a] == before[a]);
        assert(after[b] == before[b - 1]);
    } else if a < i && b < i {
        assert(after[a] == before[a]);
        assert(after[b] == before[b]);
    } else {
        assert(after[a] == before[a - 1]);
        assert(after[b] == before[b - 1]);
    }
}

proof fn lemma_sorted_insert_at<T>(
    before: Seq<(String, T)>,
    mid: Seq<(String, T)>,
    after: Seq<(String, T)>,
    i: int,
    k: Seq<char>,
    a: int,
    b: int,
)
    requires
        sorted_keys(before),
        0 <= i < before.len(),
        before[i].0@ == k,
        mid == before.remove(i),
        after == mid.insert(i, (after[i].0, after[i].1)),
        after[i].0@ == k,
        0 <= a < b < after.len(),
    ensures
        lex_lt(after[a].0@, after[b].0@),
{
    assert forall|j: int| 0 <= j < after.len() implies after[j].0@ == before[j].0@ by {
        if j < i {
            assert(mid[j] == before[j]);
            assert(after[j] == mid[j]);
        } else if j > i {
            assert(after[j] == mid[j - 1]);
            assert(mid[j - 1] == before[j]);
        }
    }
}

} // verus!
