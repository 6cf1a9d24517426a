//! Hash maps with the hasher of `rustc_hash`.

use rustc_hash::{FxBuildHasher, FxHashMap};
use std::hash::Hash;
use vstd::prelude::*;

verus! {

/// The hasher factory of `rustc_hash`, which every map of this crate uses.
#[verifier::external_type_specification]
#[verifier::external_body]
pub struct ExFxBuildHasher(FxBuildHasher);

/// The types that serve as keys.  Equality and hashing of each of them are those that
/// the standard library gives to integers and to tuples of integers.
pub(crate) trait MapKey {

}

impl MapKey for u32 {

}

impl MapKey for (u16, u32) {

}

impl MapKey for (i32, i32, i32) {

}

/// `HashMap::insert` under the hasher of `rustc_hash`: `key` now leads to `value`, and
/// what it led to before comes back.
#[verifier::external_body]
pub(crate) fn insert<K: MapKey + Eq + Hash, V>(map: &mut FxHashMap<K, V>, key: K, value: V) -> (previous:
    Option<V>)
    ensures
        final(map)@ == old(map)@.insert(key, value),
        previous == if old(map)@.contains_key(key) {
            Some(old(map)@[key])
        } else {
            None
        },
{
    map.insert(key, value)
}

/// `HashMap::get` under the hasher of `rustc_hash`: what `key` leads to.
#[verifier::external_body]
pub(crate) fn get<'a, K: MapKey + Eq + Hash, V>(map: &'a FxHashMap<K, V>, key: K) -> (value: Option<&'a V>)
    ensures
        value == if map@.contains_key(key) {
            Some(&map@[key])
        } else {
            None
        },
{
    map.get(&key)
}

/// `HashMap::iter` under the hasher of `rustc_hash`: every key with what it leads to,
/// each of them once.  The order is left open.
#[verifier::external_body]
pub(crate) fn entries<K: MapKey + Eq + Hash + Copy, V: Copy>(map: &FxHashMap<K, V>) -> (list: Vec<
    (K, V),
>)
    ensures
        forall|i: int|
            0 <= i < list@.len() ==> map@.contains_pair((#[trigger] list@[i]).0, list@[i].1),
        forall|key: K| #[trigger] map@.contains_key(key) ==> list@.contains((key, map@[key])),
        forall|i: int, j: int|
            0 <= i < j < list@.len() ==> (#[trigger] list@[i]).0 != (#[trigger] list@[j]).0,
{
    map.iter().map(|(key, value)| (*key, *value)).collect()
}

} // verus!
