//! What this library takes on trust from `rustc_hash`: std's hash set and hash
//! map, hashed by `FxBuildHasher`. The contracts say what std documents of
//! `HashSet` and `HashMap`, for keys whose `Eq` and `Hash` go by their text or
//! their number.
use rustc_hash::{FxBuildHasher, FxHashMap, FxHashSet};
use vstd::prelude::*;

verus! {

/// `rustc_hash::FxBuildHasher`: the hasher of the sets and maps below.
#[verifier::external_type_specification]
#[verifier::external_body]
pub struct ExFxBuildHasher(FxBuildHasher);

/// The texts that a set holds.
pub uninterp spec fn text_set(set: FxHashSet<&str>) -> Set<Seq<char>>;

/// `FxHashSet::default`: a set that holds nothing.
#[verifier::external_body]
pub(crate) fn text_set_new<'a>() -> (set: FxHashSet<&'a str>)
    ensures
        text_set(set) == Set::<Seq<char>>::empty(),
{
    FxHashSet::default()
}

/// `HashSet::insert`: adds `key`, and says whether the set did not hold it before.
#[verifier::external_body]
pub(crate) fn text_set_insert<'a>(set: &mut FxHashSet<&'a str>, key: &'a str) -> (fresh: bool)
    ensures
        fresh == !text_set(*old(set)).contains(key@),
        text_set(*final(set)) == text_set(*old(set)).insert(key@),
{
    set.insert(key)
}

/// `HashSet::contains`: whether the set holds `key`.
#[verifier::external_body]
pub(crate) fn text_set_contains(set: &FxHashSet<&str>, key: &str) -> (held: bool)
    ensures
        held == text_set(*set).contains(key@),
{
    set.contains(key)
}

/// `FxHashMap::default`: a map without entries.
#[verifier::external_body]
pub(crate) fn index_map_new() -> (map: FxHashMap<usize, usize>)
    ensures
        map@.dom() == Set::<usize>::empty(),
{
    FxHashMap::default()
}

/// `HashMap::insert`: binds `key` to `value`, in place of what it was bound to.
#[verifier::external_body]
pub(crate) fn index_map_insert(map: &mut FxHashMap<usize, usize>, key: usize, value: usize)
    ensures
        final(map)@ == old(map)@.insert(key, value),
{
    map.insert(key, value);
}

/// `HashMap::get`: what `key` is bound to, if it is bound.
#[verifier::external_body]
pub(crate) fn index_map_get(map: &FxHashMap<usize, usize>, key: usize) -> (value: Option<usize>)
    ensures
        value == (if map@.contains_key(key) { Some(map@[key]) } else { None }),
{
    map.get(&key).copied()
}

} // verus!
