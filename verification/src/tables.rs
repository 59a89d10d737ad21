//! Hash tables keyed by interned identifiers and by names, as `rustc_hash` provides them.
use rustc_hash::{FxHashMap, FxHasher};
use std::hash::BuildHasherDefault;
use vstd::prelude::*;

verus! {

/// The hasher of `rustc_hash`.
#[verifier::external_type_specification]
#[verifier::external_body]
pub struct ExFxHasher(FxHasher);

/// The hasher builder that `FxHashMap` uses.
#[verifier::external_type_specification]
#[verifier::external_body]
#[verifier::reject_recursive_types(H)]
pub struct ExBuildHasherDefault<H>(BuildHasherDefault<H>);

/// A table keyed by interned identifiers.
pub type IdTable<V> = FxHashMap<usize, V>;

/// `FxHashMap::default`: an empty table.
#[verifier::external_body]
pub(crate) fn fx_new<V>() -> (r: IdTable<V>)
    ensures
        r@.dom() == Set::<usize>::empty(),
{
    FxHashMap::default()
}

/// `FxHashMap::get`: the entry stored for `k`.
#[verifier::external_body]
pub(crate) fn fx_get<V>(m: &FxHashMap<usize, V>, k: usize) -> (r: Option<&V>)
    ensures
        match r {
            Some(v) => m@.contains_key(k) && m@[k] == *v,
            None => !m@.contains_key(k),
        },
{
    m.get(&k)
}

/// `FxHashMap::contains_key`.
#[verifier::external_body]
pub(crate) fn fx_contains_key<V>(m: &FxHashMap<usize, V>, k: usize) -> (r: bool)
    ensures
        r == m@.contains_key(k),
{
    m.contains_key(&k)
}

/// `FxHashMap::insert`: stores `v` for `k`, replacing what was there.
#[verifier::external_body]
pub(crate) fn fx_insert<V>(m: &mut FxHashMap<usize, V>, k: usize, v: V)
    ensures
        final(m)@ == old(m)@.insert(k, v),
{
    m.insert(k, v);
}

/// `FxHashMap::remove`: takes out the entry stored for `k`.
#[verifier::external_body]
pub(crate) fn fx_remove<V>(m: &mut FxHashMap<usize, V>, k: usize) -> (r: Option<V>)
    ensures
        final(m)@ == old(m)@.remove(k),
        match r {
            Some(v) => old(m)@.contains_key(k) && old(m)@[k] == v,
            None => !old(m)@.contains_key(k),
        },
{
    m.remove(&k)
}

/// `FxHashMap::keys`, collected: every key once, in the table's own order.
#[verifier::external_body]
pub(crate) fn fx_keys<V>(m: &FxHashMap<usize, V>) -> (r: Vec<usize>)
    ensures
        r@.to_set() == m@.dom(),
        r@.no_duplicates(),
{
    m.keys().copied().collect()
}

/// What a table from names to identifiers holds, each name taken by its characters.
pub uninterp spec fn name_ids(m: FxHashMap<String, usize>) -> Map<Seq<char>, usize>;

/// `FxHashMap::get` on a table from names to identifiers.
#[verifier::external_body]
pub(crate) fn fx_name_get(m: &FxHashMap<String, usize>, name: &str) -> (r: Option<usize>)
    ensures
        match r {
            Some(i) => name_ids(*m).contains_key(name@) && name_ids(*m)[name@] == i,
            None => !name_ids(*m).contains_key(name@),
        },
{
    m.get(name).copied()
}

/// `FxHashMap::insert` on a table from names to identifiers.
#[verifier::external_body]
pub(crate) fn fx_name_insert(m: &mut FxHashMap<String, usize>, name: String, id: usize)
    ensures
        name_ids(*final(m)) == name_ids(*old(m)).insert(name@, id),
{
    m.insert(name, id);
}

/// `FxHashMap::len` on a table from names to identifiers: the number of names it holds.
#[verifier::external_body]
pub(crate) fn fx_name_len(m: &FxHashMap<String, usize>) -> (r: usize)
    ensures
        r == name_ids(*m).len(),
{
    m.len()
}

} // verus!
