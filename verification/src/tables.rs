//! Verified-facing wrappers around the hash map and hash set that hold a
//! search's bookkeeping: the predecessor map, the cost map, and the visited
//! set. The containers are `rustc_hash`'s `FxHashMap` and `FxHashSet` —
//! std's `HashMap` and `HashSet` fixed to the deterministic `FxBuildHasher`
//! — keyed by flat cell indices. Each wrapper states the standard map or
//! set model of the one std method its body calls; the model applies
//! because `usize` keys hash deterministically and compare structurally.

use vstd::prelude::*;
use rustc_hash::{FxHashMap, FxHashSet};

verus! {

/// rustc_hash's deterministic hasher, carried only as the containers'
/// hasher type parameter; no contract speaks of it.
#[verifier::external_type_specification]
#[verifier::external_body]
pub struct ExFxBuildHasher(rustc_hash::FxBuildHasher);

/// Relies on std's `HashMap::insert` through the `FxHashMap` alias: the map
/// afterwards holds the old entries plus `k -> v`.
#[verifier::external_body]
pub(crate) fn map_insert<V>(m: &mut FxHashMap<usize, V>, k: usize, v: V)
    ensures
        final(m)@ == old(m)@.insert(k, v),
{
    m.insert(k, v);
}

/// Relies on std's `HashMap::get` through the `FxHashMap` alias: the value
/// stored under `k`, or nothing when `k` is absent.
#[verifier::external_body]
pub(crate) fn map_get<V: Copy>(m: &FxHashMap<usize, V>, k: usize) -> (r: Option<V>)
    ensures
        r == if m@.contains_key(k) {
            Some(m@[k])
        } else {
            None::<V>
        },
{
    m.get(&k).copied()
}

/// Relies on std's `HashMap::len` through the `FxHashMap` alias: the number
/// of entries stored.
#[verifier::external_body]
pub(crate) fn map_len<V>(m: &FxHashMap<usize, V>) -> (r: usize)
    ensures
        r == m@.len(),
{
    m.len()
}

/// Relies on std's `HashSet::insert` through the `FxHashSet` alias: the set
/// afterwards holds the old elements plus `k`.
#[verifier::external_body]
pub(crate) fn set_insert(s: &mut FxHashSet<usize>, k: usize)
    ensures
        final(s)@ == old(s)@.insert(k),
{
    s.insert(k);
}

/// Relies on std's `HashSet::contains` through the `FxHashSet` alias.
#[verifier::external_body]
pub(crate) fn set_contains(s: &FxHashSet<usize>, k: usize) -> (r: bool)
    ensures
        r == s@.contains(k),
{
    s.contains(&k)
}

/// Relies on std's `HashSet::len` through the `FxHashSet` alias: the number
/// of elements stored.
#[verifier::external_body]
pub(crate) fn set_len(s: &FxHashSet<usize>) -> (r: usize)
    ensures
        r == s@.len(),
{
    s.len()
}

} // verus!
