//! Association maps from lattice sites to cell records, backed by vectors of
//! entries with pairwise distinct keys and viewed as mathematical maps.

use vstd::pervasive::VecAdditionalExecFns;
use vstd::prelude::*;
use vstd::seq_lib::*;
use vstd::set_lib::*;

use crate::cell::{BranchCell, GiftCell};
use crate::hex::{BranchPoint, GiftPoint, HexPoint};

verus! {

/// The map denoted by a key-value sequence, later entries winning; the
/// backing vectors keep their keys distinct, so order never matters.
pub open spec fn map_of<K, V>(s: Seq<(K, V)>) -> Map<K, V>
    decreases s.len(),
{
    if s.len() == 0 {
        Map::empty()
    } else {
        map_of(s.drop_last()).insert(s.last().0, s.last().1)
    }
}

/// Pairwise distinct keys.
pub open spec fn distinct_keys<K, V>(s: Seq<(K, V)>) -> bool {
    forall|i: int, j: int| 0 <= i < j < s.len() ==> s[i].0 != s[j].0
}

/// The denoted map's domain is finite and holds exactly the keys of the
/// sequence.
pub proof fn lemma_map_of_dom<K, V>(s: Seq<(K, V)>)
    ensures
        map_of(s).dom().finite(),
        forall|k: K|
            map_of(s).contains_key(k) <==> exists|i: int| 0 <= i < s.len() && #[trigger] s[i].0
                == k,
    decreases s.len(),
{
    if s.len() > 0 {
        lemma_map_of_dom(s.drop_last());
        assert forall|k: K| #[trigger]
            map_of(s).contains_key(k) implies exists|i: int|
            0 <= i < s.len() && #[trigger] s[i].0 == k by {
            if k == s.last().0 {
                assert(s[s.len() - 1].0 == k);
            } else {
                let i = choose|i: int| 0 <= i < s.drop_last().len() && #[trigger] s.drop_last()[i].0
                    == k;
                assert(s[i].0 == k);
            }
        }
        assert forall|k: K|
            (exists|i: int| 0 <= i < s.len() && #[trigger] s[i].0 == k) implies map_of(
            s,
        ).contains_key(k) by {
            let i = choose|i: int| 0 <= i < s.len() && #[trigger] s[i].0 == k;
            if i < s.len() - 1 {
                assert(s.drop_last()[i].0 == k);
            }
        }
    }
}

/// With distinct keys, the denoted map sends each key of the sequence to the
/// value beside it.
pub proof fn lemma_map_of_index<K, V>(s: Seq<(K, V)>, i: int)
    requires
        distinct_keys(s),
        0 <= i < s.len(),
    ensures
        map_of(s).contains_key(s[i].0),
        map_of(s)[s[i].0] == s[i].1,
    decreases s.len(),
{
    lemma_map_of_dom(s);
    if i < s.len() - 1 {
        assert(distinct_keys(s.drop_last()));
        lemma_map_of_index(s.drop_last(), i);
        assert(s.drop_last()[i] == s[i]);
        assert(s[i].0 != s.last().0);
    }
}

/// With distinct keys, replacing the value at one position updates the
/// denoted map at that key.
pub proof fn lemma_map_of_update<K, V>(s: Seq<(K, V)>, i: int, v: V)
    requires
        distinct_keys(s),
        0 <= i < s.len(),
    ensures
        map_of(s.update(i, (s[i].0, v))) == map_of(s).insert(s[i].0, v),
        distinct_keys(s.update(i, (s[i].0, v))),
    decreases s.len(),
{
    let s2 = s.update(i, (s[i].0, v));
    assert(distinct_keys(s2));
    if i == s.len() - 1 {
        assert(s2.drop_last() =~= s.drop_last());
        assert(map_of(s2) == map_of(s.drop_last()).insert(s[i].0, v));
        assert(map_of(s).insert(s[i].0, v) =~= map_of(s.drop_last()).insert(s[i].0, v));
    } else {
        assert(distinct_keys(s.drop_last()));
        lemma_map_of_update(s.drop_last(), i, v);
        assert(s2.drop_last() =~= s.drop_last().update(i, (s[i].0, v)));
        assert(s2.last() == s.last());
        assert(map_of(s2) == map_of(s.drop_last()).insert(s[i].0, v).insert(s.last().0, s.last().1));
        assert(s[i].0 != s.last().0);
        assert(map_of(s.drop_last()).insert(s[i].0, v).insert(s.last().0, s.last().1)
            =~= map_of(s.drop_last()).insert(s.last().0, s.last().1).insert(s[i].0, v));
    }
}

/// With distinct keys, removing one position removes that key from the
/// denoted map.
pub proof fn lemma_map_of_remove<K, V>(s: Seq<(K, V)>, i: int)
    requires
        distinct_keys(s),
        0 <= i < s.len(),
    ensures
        map_of(s.remove(i)) == map_of(s).remove(s[i].0),
        distinct_keys(s.remove(i)),
    decreases s.len(),
{
    let s2 = s.remove(i);
    assert(distinct_keys(s2));
    lemma_map_of_dom(s.drop_last());
    if i == s.len() - 1 {
        assert(s2 =~= s.drop_last());
        assert(!map_of(s.drop_last()).contains_key(s[i].0)) by {
            if map_of(s.drop_last()).contains_key(s[i].0) {
                let j = choose|j: int|
                    0 <= j < s.drop_last().len() && #[trigger] s.drop_last()[j].0 == s[i].0;
                assert(s[j].0 == s[i].0);
            }
        }
        assert(map_of(s).remove(s[i].0) =~= map_of(s.drop_last()));
    } else {
        assert(distinct_keys(s.drop_last()));
        lemma_map_of_remove(s.drop_last(), i);
        assert(s2.drop_last() =~= s.drop_last().remove(i));
        assert(s2.last() == s.last());
        assert(map_of(s2) == map_of(s.drop_last().remove(i)).insert(s.last().0, s.last().1));
        assert(s[i].0 != s.last().0);
        assert(map_of(s.drop_last()).remove(s[i].0).insert(s.last().0, s.last().1) =~= map_of(
            s.drop_last(),
        ).insert(s.last().0, s.last().1).remove(s[i].0));
    }
}

/// With distinct keys the denoted map has exactly one entry per position.
pub proof fn lemma_map_of_len<K, V>(s: Seq<(K, V)>)
    requires
        distinct_keys(s),
    ensures
        map_of(s).dom().len() == s.len(),
    decreases s.len(),
{
    lemma_map_of_dom(s);
    if s.len() > 0 {
        assert(distinct_keys(s.drop_last()));
        lemma_map_of_len(s.drop_last());
        lemma_map_of_dom(s.drop_last());
        assert(!map_of(s.drop_last()).contains_key(s.last().0)) by {
            if map_of(s.drop_last()).contains_key(s.last().0) {
                let j = choose|j: int|
                    0 <= j < s.drop_last().len() && #[trigger] s.drop_last()[j].0 == s.last().0;
                assert(s[j].0 == s[s.len() - 1].0);
            }
        }
    }
}

/// The coordinate box that holds the whole playable region and the root
/// site; distinct positions inside it are finitely many.
pub open spec fn in_box(h: HexPoint) -> bool {
    -10 <= h.q <= 10 && -40 <= h.r <= 2
}

/// An injective encoding of box positions into `0..903`.
pub open spec fn box_code(h: HexPoint) -> int {
    (h.q + 10) * 43 + (h.r + 40)
}

/// A sequence of pairwise distinct box positions has at most 903 elements.
pub proof fn lemma_distinct_box_points_bounded(ps: Seq<HexPoint>)
    requires
        ps.no_duplicates(),
        forall|i: int| 0 <= i < ps.len() ==> in_box(#[trigger] ps[i]),
    ensures
        ps.len() <= 903,
{
    let codes = Seq::new(ps.len(), |i: int| box_code(ps[i]));
    assert forall|i: int, j: int| 0 <= i < j < codes.len() implies codes[i] != codes[j] by {
        assert(ps[i] != ps[j]);
        assert(in_box(ps[i]) && in_box(ps[j]));
        assert(0 <= ps[i].r + 40 < 43 && 0 <= ps[j].r + 40 < 43);
    }
    assert(codes.no_duplicates());
    codes.unique_seq_to_set();
    assert(codes.to_set().subset_of(set_int_range(0, 903))) by {
        assert forall|c: int| codes.to_set().contains(c) implies set_int_range(0, 903).contains(
            c,
        ) by {
            let i = choose|i: int| 0 <= i < codes.len() && codes[i] == c;
            assert(in_box(ps[i]));
        }
    }
    lemma_int_range(0, 903);
    lemma_len_subset(codes.to_set(), set_int_range(0, 903));
}

/// Sites at gift positions, keyed by position.
pub struct GiftMap {
    pub entries: Vec<(GiftPoint, GiftCell)>,
}

impl View for GiftMap {
    type V = Map<GiftPoint, GiftCell>;

    open spec fn view(&self) -> Map<GiftPoint, GiftCell> {
        map_of(self.entries@)
    }
}

impl GiftMap {
    /// Keys are pairwise distinct.
    pub open spec fn inv(&self) -> bool {
        distinct_keys(self.entries@)
    }

    pub fn new() -> (m: GiftMap)
        ensures
            m.inv(),
            m@ == Map::<GiftPoint, GiftCell>::empty(),
            m.entries@.len() == 0,
    {
        GiftMap { entries: Vec::new() }
    }

    pub fn len(&self) -> (n: usize)
        requires
            self.inv(),
        ensures
            n == self.entries@.len(),
            n == self@.dom().len(),
    {
        proof {
            lemma_map_of_len(self.entries@);
        }
        self.entries.len()
    }

    pub fn get(&self, k: GiftPoint) -> (r: Option<GiftCell>)
        requires
            self.inv(),
        ensures
            r == if self@.contains_key(k) {
                Some(self@[k])
            } else {
                None::<GiftCell>
            },
    {
        let mut i: usize = 0;
        while i < self.entries.len()
            invariant
                self.inv(),
                i <= self.entries@.len(),
                forall|j: int| 0 <= j < i ==> self.entries@[j].0 != k,
            decreases self.entries@.len() - i,
        {
            let e = self.entries[i];
            if e.0 == k {
                proof {
                    lemma_map_of_index(self.entries@, i as int);
                }
                return Some(e.1);
            }
            i = i + 1;
        }
        proof {
            lemma_map_of_dom(self.entries@);
        }
        None
    }

    pub fn contains(&self, k: GiftPoint) -> (b: bool)
        requires
            self.inv(),
        ensures
            b == self@.contains_key(k),
    {
        self.get(k).is_some()
    }

    /// Insert or replace.
    pub fn insert(&mut self, k: GiftPoint, v: GiftCell)
        requires
            old(self).inv(),
        ensures
            final(self).inv(),
            final(self)@ == old(self)@.insert(k, v),
            final(self).entries@.len() == old(self).entries@.len() + if old(self)@.contains_key(k) {
                0int
            } else {
                1int
            },
            forall|i: int|
                0 <= i < final(self).entries@.len() ==> final(self).entries@[i].0 == k
                    || (exists|j: int|
                    0 <= j < old(self).entries@.len() && old(self).entries@[j] == #[trigger] final(self).entries@[i]),
    {
        proof {
            lemma_map_of_dom(self.entries@);
        }
        let mut i: usize = 0;
        while i < self.entries.len()
            invariant
                self.inv(),
                self == old(self),
                i <= self.entries@.len(),
                forall|j: int| 0 <= j < i ==> self.entries@[j].0 != k,
            decreases self.entries@.len() - i,
        {
            if self.entries[i].0 == k {
                proof {
                    lemma_map_of_update(self.entries@, i as int, v);
                    lemma_map_of_index(self.entries@, i as int);
                }
                self.entries.set(i, (k, v));
                return ;
            }
            i = i + 1;
        }
        self.entries.push((k, v));
        proof {
            assert(self.entries@.drop_last() =~= old(self).entries@);
            assert(distinct_keys(self.entries@));
        }
    }

    /// Remove if present.
    pub fn remove(&mut self, k: GiftPoint)
        requires
            old(self).inv(),
        ensures
            final(self).inv(),
            final(self)@ == old(self)@.remove(k),
            final(self).entries@.len() == old(self).entries@.len() - if old(self)@.contains_key(k) {
                1int
            } else {
                0int
            },
            forall|i: int|
                0 <= i < final(self).entries@.len() ==> exists|j: int|
                    0 <= j < old(self).entries@.len() && old(self).entries@[j] == #[trigger] final(self).entries@[i],
    {
        proof {
            lemma_map_of_dom(self.entries@);
        }
        let mut i: usize = 0;
        while i < self.entries.len()
            invariant
                self.inv(),
                self == old(self),
                i <= self.entries@.len(),
                forall|j: int| 0 <= j < i ==> self.entries@[j].0 != k,
            decreases self.entries@.len() - i,
        {
            if self.entries[i].0 == k {
                proof {
                    lemma_map_of_remove(self.entries@, i as int);
                    lemma_map_of_index(self.entries@, i as int);
                }
                self.entries.remove(i);
                return ;
            }
            i = i + 1;
        }
        proof {
            assert(old(self)@ =~= old(self)@.remove(k));
        }
    }

    /// An owned copy, for the automaton's frozen previous-generation view.
    pub fn snapshot(&self) -> (m: GiftMap)
        ensures
            m.entries@ == self.entries@,
            m@ == self@,
            self.inv() ==> m.inv(),
    {
        let mut entries: Vec<(GiftPoint, GiftCell)> = Vec::new();
        let mut i: usize = 0;
        while i < self.entries.len()
            invariant
                i <= self.entries@.len(),
                entries@ == self.entries@.take(i as int),
            decreases self.entries@.len() - i,
        {
            entries.push(self.entries[i]);
            proof {
                assert(entries@ =~= self.entries@.take(i + 1 as int));
            }
            i = i + 1;
        }
        proof {
            assert(entries@ =~= self.entries@);
        }
        GiftMap { entries }
    }
}

/// Sites at branch positions, keyed by position.
pub struct BranchMap {
    pub entries: Vec<(BranchPoint, BranchCell)>,
}

impl View for BranchMap {
    type V = Map<BranchPoint, BranchCell>;

    open spec fn view(&self) -> Map<BranchPoint, BranchCell> {
        map_of(self.entries@)
    }
}

impl BranchMap {
    /// Keys are pairwise distinct.
    pub open spec fn inv(&self) -> bool {
        distinct_keys(self.entries@)
    }

    pub fn new() -> (m: BranchMap)
        ensures
            m.inv(),
            m@ == Map::<BranchPoint, BranchCell>::empty(),
            m.entries@.len() == 0,
    {
        BranchMap { entries: Vec::new() }
    }

    pub fn len(&self) -> (n: usize)
        requires
            self.inv(),
        ensures
            n == self.entries@.len(),
            n == self@.dom().len(),
    {
        proof {
            lemma_map_of_len(self.entries@);
        }
        self.entries.len()
    }

    pub fn get(&self, k: BranchPoint) -> (r: Option<BranchCell>)
        requires
            self.inv(),
        ensures
            r == if self@.contains_key(k) {
                Some(self@[k])
            } else {
                None::<BranchCell>
            },
    {
        let mut i: usize = 0;
        while i < self.entries.len()
            invariant
                self.inv(),
                i <= self.entries@.len(),
                forall|j: int| 0 <= j < i ==> self.entries@[j].0 != k,
            decreases self.entries@.len() - i,
        {
            let e = self.entries[i];
            if e.0 == k {
                proof {
                    lemma_map_of_index(self.entries@, i as int);
                }
                return Some(e.1);
            }
            i = i + 1;
        }
        proof {
            lemma_map_of_dom(self.entries@);
        }
        None
    }

    pub fn contains(&self, k: BranchPoint) -> (b: bool)
        requires
            self.inv(),
        ensures
            b == self@.contains_key(k),
    {
        self.get(k).is_some()
    }

    /// Insert or replace.
    pub fn insert(&mut self, k: BranchPoint, v: BranchCell)
        requires
            old(self).inv(),
        ensures
            final(self).inv(),
            final(self)@ == old(self)@.insert(k, v),
            final(self).entries@.len() == old(self).entries@.len() + if old(self)@.contains_key(k) {
                0int
            } else {
                1int
            },
            forall|i: int|
                0 <= i < final(self).entries@.len() ==> final(self).entries@[i].0 == k
                    || (exists|j: int|
                    0 <= j < old(self).entries@.len() && old(self).entries@[j] == #[trigger] final(self).entries@[i]),
    {
        proof {
            lemma_map_of_dom(self.entries@);
        }
        let mut i: usize = 0;
        while i < self.entries.len()
            invariant
                self.inv(),
                self == old(self),
                i <= self.entries@.len(),
                forall|j: int| 0 <= j < i ==> self.entries@[j].0 != k,
            decreases self.entries@.len() - i,
        {
            if self.entries[i].0 == k {
                proof {
                    lemma_map_of_update(self.entries@, i as int, v);
                    lemma_map_of_index(self.entries@, i as int);
                }
                self.entries.set(i, (k, v));
                return ;
            }
            i = i + 1;
        }
        self.entries.push((k, v));
        proof {
            assert(self.entries@.drop_last() =~= old(self).entries@);
            assert(distinct_keys(self.entries@));
        }
    }

    /// Remove if present.
    pub fn remove(&mut self, k: BranchPoint)
        requires
            old(self).inv(),
        ensures
            final(self).inv(),
            final(self)@ == old(self)@.remove(k),
            final(self).entries@.len() == old(self).entries@.len() - if old(self)@.contains_key(k) {
                1int
            } else {
                0int
            },
            forall|i: int|
                0 <= i < final(self).entries@.len() ==> exists|j: int|
                    0 <= j < old(self).entries@.len() && old(self).entries@[j] == #[trigger] final(self).entries@[i],
    {
        proof {
            lemma_map_of_dom(self.entries@);
        }
        let mut i: usize = 0;
        while i < self.entries.len()
            invariant
                self.inv(),
                self == old(self),
                i <= self.entries@.len(),
                forall|j: int| 0 <= j < i ==> self.entries@[j].0 != k,
            decreases self.entries@.len() - i,
        {
            if self.entries[i].0 == k {
                proof {
                    lemma_map_of_remove(self.entries@, i as int);
                    lemma_map_of_index(self.entries@, i as int);
                }
                self.entries.remove(i);
                return ;
            }
            i = i + 1;
        }
        proof {
            assert(old(self)@ =~= old(self)@.remove(k));
        }
    }
}

/// How many entries of a map satisfy a predicate on key and value.
pub open spec fn count_matching<K, V>(m: Map<K, V>, p: spec_fn(K, V) -> bool) -> nat {
    m.dom().filter(|k: K| p(k, m[k])).len()
}

/// Inserting changes a matching count by the new entry's worth, minus that
/// of the entry it replaces.
pub proof fn lemma_count_insert<K, V>(m: Map<K, V>, p: spec_fn(K, V) -> bool, k: K, v: V)
    requires
        m.dom().finite(),
    ensures
        count_matching(m.insert(k, v), p) as int == count_matching(m, p) + (if p(k, v) {
            1int
        } else {
            0int
        }) - (if m.contains_key(k) && p(k, m[k]) {
            1int
        } else {
            0int
        }),
{
    broadcast use vstd::set::group_set_axioms;

    let a = m.dom().filter(|x: K| p(x, m[x]));
    let m2 = m.insert(k, v);
    let b = m2.dom().filter(|x: K| p(x, m2[x]));
    m.dom().lemma_len_filter(|x: K| p(x, m[x]));
    if p(k, v) {
        assert(b =~= a.remove(k).insert(k));
    } else {
        assert(b =~= a.remove(k));
    }
    assert(a.contains(k) <==> m.contains_key(k) && p(k, m[k]));
}

/// Removing changes a matching count by the removed entry's worth.
pub proof fn lemma_count_remove<K, V>(m: Map<K, V>, p: spec_fn(K, V) -> bool, k: K)
    requires
        m.dom().finite(),
    ensures
        count_matching(m.remove(k), p) as int == count_matching(m, p) - (if m.contains_key(k)
            && p(k, m[k]) {
            1int
        } else {
            0int
        }),
{
    broadcast use vstd::set::group_set_axioms;

    let a = m.dom().filter(|x: K| p(x, m[x]));
    let m2 = m.remove(k);
    let b = m2.dom().filter(|x: K| p(x, m2[x]));
    m.dom().lemma_len_filter(|x: K| p(x, m[x]));
    assert(b =~= a.remove(k));
    assert(a.contains(k) <==> m.contains_key(k) && p(k, m[k]));
}

/// A matching count never exceeds the number of entries.
pub proof fn lemma_count_le_dom<K, V>(m: Map<K, V>, p: spec_fn(K, V) -> bool)
    requires
        m.dom().finite(),
    ensures
        count_matching(m, p) <= m.dom().len(),
{
    m.dom().lemma_len_filter(|x: K| p(x, m[x]));
}

/// An entry that satisfies the predicate makes the count positive.
pub proof fn lemma_count_ge_one<K, V>(m: Map<K, V>, p: spec_fn(K, V) -> bool, k: K)
    requires
        m.dom().finite(),
        m.contains_key(k),
        p(k, m[k]),
    ensures
        count_matching(m, p) >= 1,
{
    broadcast use vstd::set::group_set_axioms;

    let a = m.dom().filter(|x: K| p(x, m[x]));
    m.dom().lemma_len_filter(|x: K| p(x, m[x]));
    assert(a.contains(k));
    assert(a.remove(k).len() == a.len() - 1);
}

/// The empty map has empty counts.
pub proof fn lemma_count_empty<K, V>(m: Map<K, V>, p: spec_fn(K, V) -> bool)
    requires
        m == Map::<K, V>::empty(),
    ensures
        count_matching(m, p) == 0,
{
    assert(m.dom().filter(|x: K| p(x, m[x])) =~= Set::empty());
}

/// An entry that fails the predicate keeps the count strictly below the
/// number of entries.
pub proof fn lemma_count_lt_dom<K, V>(m: Map<K, V>, p: spec_fn(K, V) -> bool, k: K)
    requires
        m.dom().finite(),
        m.contains_key(k),
        !p(k, m[k]),
    ensures
        count_matching(m, p) < m.dom().len(),
{
    broadcast use vstd::set::group_set_axioms;

    let a = m.dom().filter(|x: K| p(x, m[x]));
    m.dom().lemma_len_filter(|x: K| p(x, m[x]));
    assert(a.subset_of(m.dom().remove(k)));
    lemma_len_subset(a, m.dom().remove(k));
    assert(m.dom().remove(k).len() == m.dom().len() - 1);
}

} // verus!
