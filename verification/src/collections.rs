//! Hash maps and hash sets with the `Fx` hasher, keyed by an index.
//!
//! The collections are those of `rustc_hash`: std's `HashMap` and `HashSet`
//! with a fixed, unseeded hasher. Nothing in this file is proved. Each
//! function states, over the map or set that the collection stands for, what
//! the std method it calls is documented to do.
use vstd::prelude::*;
use rustc_hash::FxHashMap;
use rustc_hash::FxHashSet;

verus! {

/// `rustc_hash::FxHasher`, the hasher of the collections. Its state stays
/// hidden.
#[verifier::external_type_specification]
#[verifier::external_body]
pub struct ExFxHasher(rustc_hash::FxHasher);

/// `std::hash::BuildHasherDefault`, which makes the hasher of a
/// collection. It holds nothing.
#[verifier::external_type_specification]
#[verifier::external_body]
#[verifier::reject_recursive_types(H)]
pub struct ExBuildHasherDefault<H>(std::hash::BuildHasherDefault<H>);

/// `FxHashMap::default()`: a map without keys.
#[verifier::external_body]
pub(crate) fn fx_map_new<V>() -> (map: FxHashMap<usize, V>)
    ensures
        forall|k: usize| !map@.contains_key(k),
{
    FxHashMap::default()
}

/// `HashMap::insert`: afterwards `key` is bound to `value`, and every other
/// key is as before.
#[verifier::external_body]
pub(crate) fn fx_map_insert<V>(map: &mut FxHashMap<usize, V>, key: usize, value: V)
    ensures
        final(map)@ == old(map)@.insert(key, value),
{
    map.insert(key, value);
}

/// `HashMap::get`: the value bound to `key`, if there is one.
#[verifier::external_body]
pub(crate) fn fx_map_get<V>(map: &FxHashMap<usize, V>, key: usize) -> (value: Option<&V>)
    ensures
        value == (if map@.contains_key(key) {
            Some(&map@[key])
        } else {
            None
        }),
{
    map.get(&key)
}

/// `HashMap::remove`: afterwards `key` is unbound; the value it was bound
/// to, if any, is returned.
#[verifier::external_body]
pub(crate) fn fx_map_remove<V>(map: &mut FxHashMap<usize, V>, key: usize) -> (value: Option<V>)
    ensures
        final(map)@ == old(map)@.remove(key),
        value == (if old(map)@.contains_key(key) {
            Some(old(map)@[key])
        } else {
            None
        }),
{
    map.remove(&key)
}

/// `FxHashSet::default()`: a set without members.
#[verifier::external_body]
pub(crate) fn fx_set_new() -> (set: FxHashSet<usize>)
    ensures
        forall|k: usize| !set@.contains(k),
{
    FxHashSet::default()
}

/// `HashSet::insert`: afterwards `key` is a member, and every other key is
/// as before.
#[verifier::external_body]
pub(crate) fn fx_set_insert(set: &mut FxHashSet<usize>, key: usize)
    ensures
        final(set)@ == old(set)@.insert(key),
{
    set.insert(key);
}

/// `HashSet::contains`: whether `key` is a member.
#[verifier::external_body]
pub(crate) fn fx_set_contains(set: &FxHashSet<usize>, key: usize) -> (member: bool)
    ensures
        member == set@.contains(key),
{
    set.contains(&key)
}

} // verus!
