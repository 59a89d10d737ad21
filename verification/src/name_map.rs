//! Maps and sets keyed by symbolic names. A name is a tree (its accesses may hold symbolic
//! values), so the maps keep their entries in a vector and compare keys by meaning.
use crate::symbolic_value::{name_eq, SpecName, SymbolicName};
use vstd::prelude::*;

verus! {

/// A map from symbolic names to values; the first entry for a name is the one that counts.
#[derive(Debug)]
pub struct NameMap<V> {
    pub entries: Vec<(SymbolicName, V)>,
}

/// The map that a list of entries denotes: earlier entries win.
pub open spec fn entries_view<V: View>(s: Seq<(SymbolicName, V)>) -> Map<SpecName, V::V>
    decreases s.len(),
{
    if s.len() == 0 {
        Map::empty()
    } else {
        entries_view(s.drop_first()).insert(s[0].0@, s[0].1@)
    }
}

impl<V: View> View for NameMap<V> {
    type V = Map<SpecName, V::V>;

    open spec fn view(&self) -> Map<SpecName, V::V> {
        entries_view(self.entries@)
    }
}

/// The first entry for a name gives its value.
pub proof fn lemma_entries_first<V: View>(s: Seq<(SymbolicName, V)>, i: int, k: SpecName)
    requires
        0 <= i < s.len(),
        s[i].0@ == k,
        forall|j: int| 0 <= j < i ==> s[j].0@ != k,
    ensures
        entries_view(s).contains_key(k),
        entries_view(s)[k] == s[i].1@,
    decreases s.len(),
{
    if i > 0 {
        lemma_entries_first(s.drop_first(), i - 1, k);
    }
}

/// A name that no entry has is not a key.
pub proof fn lemma_entries_absent<V: View>(s: Seq<(SymbolicName, V)>, k: SpecName)
    requires
        forall|j: int| 0 <= j < s.len() ==> s[j].0@ != k,
    ensures
        !entries_view(s).contains_key(k),
    decreases s.len(),
{
    if s.len() > 0 {
        lemma_entries_absent(s.drop_first(), k);
    }
}

pub proof fn lemma_entries_update<V: View>(s: Seq<(SymbolicName, V)>, i: int, e: (SymbolicName, V))
    requires
        0 <= i < s.len(),
        s[i].0@ == e.0@,
        forall|j: int| 0 <= j < i ==> s[j].0@ != e.0@,
    ensures
        entries_view(s.update(i, e)) == entries_view(s).insert(e.0@, e.1@),
    decreases s.len(),
{
    if i == 0 {
        assert(s.update(0, e).drop_first() =~= s.drop_first());
        assert(entries_view(s.update(i, e)) =~= entries_view(s).insert(e.0@, e.1@));
    } else {
        lemma_entries_update(s.drop_first(), i - 1, e);
        assert(s.update(i, e).drop_first() =~= s.drop_first().update(i - 1, e));
        assert(entries_view(s.update(i, e)) =~= entries_view(s).insert(e.0@, e.1@));
    }
}

/// Appending an entry for a new name inserts it.
pub proof fn lemma_entries_push<V: View>(s: Seq<(SymbolicName, V)>, e: (SymbolicName, V))
    requires
        forall|j: int| 0 <= j < s.len() ==> s[j].0@ != e.0@,
    ensures
        entries_view(s.push(e)) == entries_view(s).insert(e.0@, e.1@),
    decreases s.len(),
{
    if s.len() == 0 {
        assert(s.push(e).drop_first() =~= s);
        assert(entries_view(s.push(e)) =~= entries_view(s).insert(e.0@, e.1@));
    } else {
        lemma_entries_push(s.drop_first(), e);
        assert(s.push(e).drop_first() =~= s.drop_first().push(e));
        assert(entries_view(s.push(e)) =~= entries_view(s).insert(e.0@, e.1@));
    }
}

impl<V: View> NameMap<V> {
    /// An empty map.
    pub fn new() -> (r: NameMap<V>)
        ensures
            r@ == Map::<SpecName, V::V>::empty(),
    {
        NameMap { entries: Vec::new() }
    }

    /// The index of the entry that counts for `k`, if any.
    pub fn find(&self, k: &SymbolicName) -> (r: Option<usize>)
        ensures
            match r {
                Some(i) => {
                    &&& i < self.entries@.len()
                    &&& self.entries@[i as int].0@ == k@
                    &&& forall|j: int| 0 <= j < i ==> self.entries@[j].0@ != k@
                    &&& self@.contains_key(k@)
                    &&& self@[k@] == self.entries@[i as int].1@
                },
                None => !self@.contains_key(k@),
            },
    {
        let mut i: usize = 0;
        while i < self.entries.len()
            invariant
                i <= self.entries@.len(),
                forall|j: int| 0 <= j < i ==> self.entries@[j].0@ != k@,
            decreases self.entries.len() - i,
        {
            if name_eq(&self.entries[i].0, k) {
                proof {
                    lemma_entries_first(self.entries@, i as int, k@);
                }
                return Some(i);
            }
            i = i + 1;
        }
        proof {
            lemma_entries_absent(self.entries@, k@);
        }
        None
    }

    /// The value stored for `k`, if any.
    pub fn get(&self, k: &SymbolicName) -> (r: Option<&V>)
        ensures
            match r {
                Some(v) => self@.contains_key(k@) && self@[k@] == v@,
                None => !self@.contains_key(k@),
            },
    {
        match self.find(k) {
            Some(i) => Some(&self.entries[i].1),
            None => None,
        }
    }

    /// Whether a value is stored for `k`.
    pub fn contains_key(&self, k: &SymbolicName) -> (r: bool)
        ensures
            r == self@.contains_key(k@),
    {
        self.find(k).is_some()
    }

    /// Stores `v` for `k`, replacing what was stored for it.
    pub fn insert(&mut self, k: SymbolicName, v: V)
        ensures
            final(self)@ == old(self)@.insert(k@, v@),
            old(self)@.contains_key(k@) ==> {
                &&& final(self).entries@.len() == old(self).entries@.len()
                &&& forall|j: int| 0 <= j < old(self).entries@.len() ==> {
                    &&& (#[trigger] final(self).entries@[j]).0@ == old(self).entries@[j].0@
                    &&& (final(self).entries@[j].1@ == old(self).entries@[j].1@ || final(self).entries@[j].1@ == v@)
                }
            },
    {
        match self.find(&k) {
            Some(i) => {
                proof {
                    lemma_entries_update(self.entries@, i as int, (k, v));
                }
                self.entries.set(i, (k, v));
            },
            None => {
                proof {
                    assert forall|j: int| 0 <= j < self.entries@.len() implies self.entries@[j].0@ != k@ by {
                        if self.entries@[j].0@ == k@ {
                            lemma_first_occurrence(self.entries@, j, k@);
                        }
                    }
                    lemma_entries_push(self.entries@, (k, v));
                }
                self.entries.push((k, v));
            },
        }
    }

    /// Removes every entry.
    pub fn clear(&mut self)
        ensures
            final(self)@ == Map::<SpecName, V::V>::empty(),
    {
        self.entries.clear();
    }

    /// The number of entries.
    pub fn len(&self) -> (r: usize)
        ensures
            r == self.entries@.len(),
    {
        self.entries.len()
    }
}

/// Two lists of entries with the same meanings, position by position, denote the same map.
pub proof fn lemma_entries_view_same<V: View, W: View<V = V::V>>(s: Seq<(SymbolicName, V)>, t: Seq<(SymbolicName, W)>)
    requires
        s.len() == t.len(),
        forall|i: int| 0 <= i < s.len() ==> s[i].0@ == t[i].0@ && s[i].1@ == t[i].1@,
    ensures
        entries_view(s) == entries_view(t),
    decreases s.len(),
{
    if s.len() > 0 {
        lemma_entries_view_same(s.drop_first(), t.drop_first());
    }
}

/// A name that occurs in the entries is a key of the map they denote.
pub proof fn lemma_first_occurrence<V: View>(s: Seq<(SymbolicName, V)>, j: int, k: SpecName)
    requires
        0 <= j < s.len(),
        s[j].0@ == k,
    ensures
        entries_view(s).contains_key(k),
    decreases s.len(),
{
    if s[0].0@ != k {
        lemma_first_occurrence(s.drop_first(), j - 1, k);
    }
}

/// What a lookup gives back after an insertion: the inserted value under the inserted name,
/// and under any other name what the map held before. `m1` is what `insert(k, v)` leaves of
/// `m0`.
pub proof fn law_get_after_insert<V: View>(m0: NameMap<V>, m1: NameMap<V>, k: SymbolicName, v: V, other: SymbolicName)
    requires
        m1@ == m0@.insert(k@, v@),
    ensures
        m1@.contains_key(k@),
        m1@[k@] == v@,
        other@ != k@ ==> m1@.contains_key(other@) == m0@.contains_key(other@),
        other@ != k@ && m0@.contains_key(other@) ==> m1@[other@] == m0@[other@],
{
}

/// Of two insertions under one name, the second wins: `m2`, what `insert(k, w)` leaves of
/// `m1`, which `insert(k, v)` left of `m0`, is what `insert(k, w)` alone leaves of `m0`.
pub proof fn law_insert_overwrites<V: View>(m0: NameMap<V>, m1: NameMap<V>, m2: NameMap<V>, k: SymbolicName, v: V, w: V)
    requires
        m1@ == m0@.insert(k@, v@),
        m2@ == m1@.insert(k@, w@),
    ensures
        m2@ == m0@.insert(k@, w@),
{
    assert(m2@ =~= m0@.insert(k@, w@));
}

/// A set of symbolic names, without two names of the same meaning.
#[derive(Debug)]
pub struct NameSet {
    pub items: Vec<SymbolicName>,
}

impl View for NameSet {
    type V = Set<SpecName>;

    open spec fn view(&self) -> Set<SpecName> {
        Set::new(|n: SpecName| exists|i: int| 0 <= i < self.items@.len() && self.items@[i]@ == n)
    }
}

impl NameSet {
    /// Whether no two items have the same meaning.
    pub open spec fn wf(&self) -> bool {
        forall|i: int, j: int|
            0 <= i < self.items@.len() && 0 <= j < self.items@.len() && i != j ==> self.items@[i]@
                != self.items@[j]@
    }

    /// An empty set.
    pub fn new() -> (r: NameSet)
        ensures
            r.wf(),
            r@ == Set::<SpecName>::empty(),
    {
        let r = NameSet { items: Vec::new() };
        proof {
            assert(r@ =~= Set::<SpecName>::empty());
        }
        r
    }

    /// Whether a name of the same meaning as `k` is in the set.
    pub fn contains(&self, k: &SymbolicName) -> (r: bool)
        ensures
            r == self@.contains(k@),
    {
        let mut i: usize = 0;
        while i < self.items.len()
            invariant
                i <= self.items@.len(),
                forall|j: int| 0 <= j < i ==> self.items@[j]@ != k@,
            decreases self.items.len() - i,
        {
            if name_eq(&self.items[i], k) {
                return true;
            }
            i = i + 1;
        }
        false
    }

    /// Adds `k` unless a name of the same meaning is already there.
    pub fn insert(&mut self, k: SymbolicName)
        ensures
            old(self).wf() ==> final(self).wf(),
            final(self)@ == old(self)@.insert(k@),
    {
        if !self.contains(&k) {
            let ghost kv = k@;
            self.items.push(k);
            proof {
                let n = self.items@.len() - 1;
                assert(self.items@[n]@ == kv);
                assert(self@ =~= old(self)@.insert(kv)) by {
                    assert forall|x: SpecName| self@.contains(x) implies old(self)@.insert(kv).contains(x) by {
                        let i = choose|i: int| 0 <= i < self.items@.len() && self.items@[i]@ == x;
                        if i < n {
                            assert(old(self).items@[i]@ == x);
                        }
                    }
                    assert forall|x: SpecName| old(self)@.insert(kv).contains(x) implies self@.contains(x) by {
                        if x == kv {
                            assert(self.items@[n]@ == x);
                        } else {
                            let i = choose|i: int| 0 <= i < old(self).items@.len() && old(self).items@[i]@ == x;
                            assert(self.items@[i]@ == x);
                        }
                    }
                }
            }
        } else {
            proof {
                assert(old(self)@.insert(k@) =~= old(self)@);
            }
        }
    }
    /// A copy of the set.
    pub fn copy(&self) -> (r: NameSet)
        ensures
            r@ == self@,
            self.wf() ==> r.wf(),
    {
        let mut items: Vec<SymbolicName> = Vec::new();
        let mut i: usize = 0;
        while i < self.items.len()
            invariant
                i <= self.items@.len(),
                items@.len() == i,
                forall|j: int| 0 <= j < i ==> #[trigger] items@[j]@ == self.items@[j]@,
            decreases self.items.len() - i,
        {
            items.push(self.items[i].copy());
            i = i + 1;
        }
        let r = NameSet { items };
        proof {
            assert(r@ =~= self@) by {
                assert forall|n: SpecName| r@.contains(n) implies self@.contains(n) by {
                    let j = choose|j: int| 0 <= j < r.items@.len() && r.items@[j]@ == n;
                    assert(self.items@[j]@ == n);
                }
                assert forall|n: SpecName| self@.contains(n) implies r@.contains(n) by {
                    let j = choose|j: int| 0 <= j < self.items@.len() && self.items@[j]@ == n;
                    assert(r.items@[j]@ == n);
                }
            }
        }
        r
    }
}

/// What a membership test gives back after an insertion: the inserted name is in, and any
/// other name is in exactly where it was before. `s1` is what `insert(k)` leaves of `s0`.
pub proof fn law_contains_after_insert(s0: NameSet, s1: NameSet, k: SymbolicName, other: SymbolicName)
    requires
        s1@ == s0@.insert(k@),
    ensures
        s1@.contains(k@),
        other@ != k@ ==> s1@.contains(other@) == s0@.contains(other@),
{
}

/// The set stored for `k`, or the empty set where there is none.
pub open spec fn entry_or_empty(g: Map<SpecName, Set<SpecName>>, k: SpecName) -> Set<SpecName> {
    if g.contains_key(k) {
        g[k]
    } else {
        Set::empty()
    }
}

/// The meanings of the names of `items`, leaving out `key` where `except_key` is set.
pub open spec fn names_in(items: Seq<SymbolicName>, key: SpecName, except_key: bool) -> Set<SpecName> {
    Set::new(|n: SpecName| (exists|j: int| 0 <= j < items.len() && #[trigger] items[j]@ == n) && !(except_key && n == key))
}

impl NameMap<NameSet> {
    /// Adds the names of `items` (leaving out `key` itself where `except_key` is set) to the
    /// set stored for `key`, which starts empty where there is none.
    pub fn union_into(&mut self, key: &SymbolicName, items: &Vec<SymbolicName>, except_key: bool)
        ensures
            final(self)@ == old(self)@.insert(key@, entry_or_empty(old(self)@, key@) + names_in(items@, key@, except_key)),
    {
        let mut set = match self.get(key) {
            Some(s) => s.copy(),
            None => {
                let e = NameSet::new();
                e
            },
        };
        let ghost base = entry_or_empty(self@, key@);
        proof {
            assert(set@ =~= base + names_in(items@.take(0), key@, except_key));
        }
        let mut j: usize = 0;
        while j < items.len()
            invariant
                j <= items@.len(),
                set@ == base + names_in(items@.take(j as int), key@, except_key),
            decreases items.len() - j,
        {
            let ghost before = set@;
            if !(except_key && name_eq(&items[j], key)) {
                set.insert(items[j].copy());
            }
            proof {
                assert(set@ =~= base + names_in(items@.take(j + 1), key@, except_key)) by {
                    assert forall|n: SpecName| #[trigger] names_in(items@.take(j + 1), key@, except_key).contains(n)
                        <==> names_in(items@.take(j as int), key@, except_key).contains(n)
                            || (n == items@[j as int]@ && !(except_key && n == key@)) by {
                        if names_in(items@.take(j + 1), key@, except_key).contains(n) {
                            let t = choose|t: int| 0 <= t < items@.take(j + 1).len() && #[trigger] items@.take(j + 1)[t]@ == n;
                            if t < j {
                                assert(items@.take(j as int)[t]@ == n);
                            }
                        }
                        if names_in(items@.take(j as int), key@, except_key).contains(n) {
                            let t = choose|t: int| 0 <= t < items@.take(j as int).len() && #[trigger] items@.take(j as int)[t]@ == n;
                            assert(items@.take(j + 1)[t]@ == n);
                        }
                        if n == items@[j as int]@ && !(except_key && n == key@) {
                            assert(items@.take(j + 1)[j as int]@ == n);
                        }
                    }
                }
            }
            j = j + 1;
        }
        proof {
            assert(items@.take(items@.len() as int) =~= items@);
        }
        self.insert(key.copy(), set);
    }
}

} // verus!
