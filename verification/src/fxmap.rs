//! The hash tables of `rustc_hash`, as the tree builder uses them.
//!
//! Nothing in this module is proved: each function states what the table
//! operation underneath it is documented to do.

use rustc_hash::FxBuildHasher;
use rustc_hash::FxHashMap;
use rustc_hash::FxHashSet;
use std::hash::Hash;
use vstd::prelude::*;

verus! {

/// `rustc_hash::FxBuildHasher`, the hasher factory of the Fx tables. It is a
/// unit struct and builds the same hasher every time.
#[verifier::external_type_specification]
#[verifier::external_body]
pub struct ExFxBuildHasher(FxBuildHasher);

/// Keys whose equality and hash are the ones std defines for integers and
/// for tuples and options of them, so that a table keyed by them behaves as
/// a mathematical map.
pub(crate) trait PlainKey: Eq + Hash {

}

impl PlainKey for u64 {

}

impl PlainKey for (u64, Option<usize>) {

}

/// `FxHashMap::default`: a table without entries.
#[verifier::external_body]
pub(crate) fn fx_map_new<K: PlainKey, V>() -> (m: FxHashMap<K, V>)
    ensures
        (m@ == Map::<K, V>::empty()),
{
    FxHashMap::default()
}

/// `HashMap::insert` on an Fx table: afterwards `key` maps to `value` and
/// every other key maps to what it mapped to before.
#[verifier::external_body]
pub(crate) fn fx_map_insert<K: PlainKey, V>(m: &mut FxHashMap<K, V>, key: K, value: V)
    ensures
        final(m)@ == old(m)@.insert(key, value),
{
    m.insert(key, value);
}

/// `HashMap::get` on an Fx table: the value that `key` maps to, if any.
#[verifier::external_body]
pub(crate) fn fx_map_get<K: PlainKey, V: Copy>(m: &FxHashMap<K, V>, key: K) -> (r: Option<V>)
    ensures
        r == (if m@.contains_key(key) {
            Some(m@[key])
        } else {
            None::<V>
        }),
{
    m.get(&key).copied()
}

/// `FxHashSet::default`: a set without elements.
#[verifier::external_body]
pub(crate) fn fx_set_new<K: PlainKey>() -> (s: FxHashSet<K>)
    ensures
        (s@ == Set::<K>::empty()),
{
    FxHashSet::default()
}

/// `HashSet::insert` on an Fx set: afterwards the set holds `key` besides
/// what it held before.
#[verifier::external_body]
pub(crate) fn fx_set_insert<K: PlainKey>(s: &mut FxHashSet<K>, key: K)
    ensures
        final(s)@ == old(s)@.insert(key),
{
    s.insert(key);
}

/// `HashSet::contains` on an Fx set: whether the set holds `key`.
#[verifier::external_body]
pub(crate) fn fx_set_contains<K: PlainKey>(s: &FxHashSet<K>, key: K) -> (r: bool)
    ensures
        r == s@.contains(key),
{
    s.contains(&key)
}

} // verus!
