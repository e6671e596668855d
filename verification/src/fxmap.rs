//! The `rustc_hash` map the cascades and the statistics collector keep their dedup tables in,
//! keyed by integers, with the few operations the library performs on it.
use vstd::prelude::*;

use rustc_hash::{FxBuildHasher, FxHashMap};

verus! {

/// The Fx map from `i64` keys to positions.
pub type FxMapI64 = FxHashMap<i64, usize>;

/// The Fx hasher builder, carried as the map's hasher parameter.
#[verifier::external_type_specification]
#[verifier::external_body]
pub struct ExFxBuildHasher(FxBuildHasher);

/// `FxHashMap::default()` (`HashMap::<K, V, FxBuildHasher>::default`): a new map holds no key.
#[verifier::external_body]
pub(crate) fn fx_new<K, V>() -> (fresh: FxHashMap<K, V>)
    ensures
        fresh@.dom().is_empty(),
{
    FxHashMap::default()
}

/// `HashMap::contains_key` on an Fx map keyed by `i64`: true exactly when the key is present
/// (`i64`'s `Hash` and `Eq` are deterministic and agree, and the Fx hasher is a pure function).
#[verifier::external_body]
pub(crate) fn fx_contains_i64(m: &FxHashMap<i64, usize>, k: i64) -> (b: bool)
    ensures
        b == m@.contains_key(k),
{
    m.contains_key(&k)
}

/// `HashMap::get` (copied out) on an Fx map keyed by `i64`: the stored position, if the key is
/// present.
#[verifier::external_body]
pub(crate) fn fx_get_i64(m: &FxHashMap<i64, usize>, k: i64) -> (v: Option<usize>)
    ensures
        m@.contains_key(k) ==> v == Some(m@[k]),
        !m@.contains_key(k) ==> v is None,
{
    m.get(&k).copied()
}

/// `HashMap::insert` on an Fx map keyed by `i64`: afterwards the key maps to the value and every
/// other entry is as before.
#[verifier::external_body]
pub(crate) fn fx_insert_i64(m: &mut FxHashMap<i64, usize>, k: i64, v: usize)
    ensures
        final(m)@ == old(m)@.insert(k, v),
{
    m.insert(k, v);
}

/// `HashMap::insert` on an Fx map from positions to flags: afterwards the key maps to the value and
/// every other entry is as before.
#[verifier::external_body]
pub(crate) fn fx_insert_usize_bool(m: &mut FxHashMap<usize, bool>, k: usize, v: bool)
    ensures
        final(m)@ == old(m)@.insert(k, v),
{
    m.insert(k, v);
}

} // verus!

verus! {

/// The Fx map of the statistics collector's sparse rows, keyed by the row's packed rank.
pub type FxRowMap = FxHashMap<u128, (crate::stats::RowKey, crate::stats::Counters)>;

/// `HashMap::get` (copied out) on an Fx map keyed by `u128`: the stored value, if the key is present.
#[verifier::external_body]
pub(crate) fn fx_get_u128(m: &FxRowMap, k: u128) -> (v: Option<(crate::stats::RowKey, crate::stats::Counters)>)
    ensures
        m@.contains_key(k) ==> v == Some(m@[k]),
        !m@.contains_key(k) ==> v is None,
{
    m.get(&k).copied()
}

/// `HashMap::insert` on an Fx map keyed by `u128`.
#[verifier::external_body]
pub(crate) fn fx_insert_u128(m: &mut FxRowMap, k: u128, v: (crate::stats::RowKey, crate::stats::Counters))
    ensures
        final(m)@ == old(m)@.insert(k, v),
{
    m.insert(k, v);
}

/// `HashMap::iter` (each entry copied out): every entry of the map exactly once, in the map's
/// own iteration order, which depends on the hasher and is left open.
#[verifier::external_body]
pub(crate) fn fx_entries_u128(m: &FxRowMap) -> (es: Vec<(u128, (crate::stats::RowKey, crate::stats::Counters))>)
    ensures
        forall|i: int| 0 <= i < es@.len() ==> m@.contains_key(#[trigger] es@[i].0) && m@[es@[i].0] == es@[i].1,
        forall|i: int, j: int| 0 <= i < j < es@.len() ==> es@[i].0 != es@[j].0,
        forall|k: u128| m@.contains_key(k) ==> exists|i: int| 0 <= i < es@.len() && #[trigger] es@[i].0 == k,
{
    m.iter().map(|(k, v)| (*k, *v)).collect()
}

} // verus!
