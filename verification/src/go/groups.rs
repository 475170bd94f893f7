//! The tables that the Go state keeps of its groups, held in `vec_map::VecMap`:
//! which group each stone belongs to, the stones of each group, and the
//! liberties of each group.

use vstd::prelude::*;
use std::collections::BTreeSet;
use vec_map::VecMap;

verus! {

#[verifier::external_type_specification]
#[verifier::external_body]
#[verifier::reject_recursive_types(V)]
pub struct ExVecMap<V>(VecMap<V>);

/// What a map from points to group ids holds.
pub uninterp spec fn index_entries(m: VecMap<usize>) -> Map<usize, usize>;

/// What a map from group ids to their stones holds.
pub uninterp spec fn member_entries(m: VecMap<Vec<usize>>) -> Map<usize, Seq<usize>>;

/// What a map from group ids to their liberties holds.
pub uninterp spec fn liberty_entries(m: VecMap<BTreeSet<usize>>) -> Map<usize, Set<usize>>;

/// `VecMap::with_capacity`: a map without entries.
#[verifier::external_body]
pub(crate) fn index_with_capacity(capacity: usize) -> (r: VecMap<usize>)
    ensures
        index_entries(r).is_empty(),
{
    VecMap::with_capacity(capacity)
}

/// `VecMap::get`: the value under `key`, if there is one.
#[verifier::external_body]
pub(crate) fn index_get(m: &VecMap<usize>, key: usize) -> (r: Option<usize>)
    ensures
        match r {
            Some(v) => index_entries(*m).contains_key(key) && v == index_entries(*m)[key],
            None => !index_entries(*m).contains_key(key),
        },
{
    m.get(key).copied()
}

/// `VecMap::insert`: puts `value` under `key`, replacing what was there.  The
/// source computes `key - len + 1`, which overflows for the largest key.
#[verifier::external_body]
pub(crate) fn index_insert(m: &mut VecMap<usize>, key: usize, value: usize)
    requires
        key < usize::MAX,
    ensures
        index_entries(*final(m)) == index_entries(*old(m)).insert(key, value),
{
    m.insert(key, value);
}

/// `VecMap::with_capacity`: a map without entries.
#[verifier::external_body]
pub(crate) fn members_with_capacity(capacity: usize) -> (r: VecMap<Vec<usize>>)
    ensures
        member_entries(r).is_empty(),
{
    VecMap::with_capacity(capacity)
}

/// `VecMap::get`: the value under `key`, if there is one.
#[verifier::external_body]
pub(crate) fn members_get(m: &VecMap<Vec<usize>>, key: usize) -> (r: Option<&Vec<usize>>)
    ensures
        match r {
            Some(v) => member_entries(*m).contains_key(key) && v@ == member_entries(*m)[key],
            None => !member_entries(*m).contains_key(key),
        },
{
    m.get(key)
}

/// `VecMap::insert`: puts `value` under `key`, replacing what was there.  The
/// source computes `key - len + 1`, which overflows for the largest key.
#[verifier::external_body]
pub(crate) fn members_insert(m: &mut VecMap<Vec<usize>>, key: usize, value: Vec<usize>)
    requires
        key < usize::MAX,
    ensures
        member_entries(*final(m)) == member_entries(*old(m)).insert(key, value@),
{
    m.insert(key, value);
}

/// `VecMap::remove`: takes the value under `key` out of the map.
#[verifier::external_body]
pub(crate) fn members_remove(m: &mut VecMap<Vec<usize>>, key: usize) -> (r: Option<Vec<usize>>)
    ensures
        member_entries(*final(m)) == member_entries(*old(m)).remove(key),
        match r {
            Some(v) => member_entries(*old(m)).contains_key(key) && v@ == member_entries(*old(m))[key],
            None => !member_entries(*old(m)).contains_key(key),
        },
{
    m.remove(key)
}

/// `VecMap::with_capacity`: a map without entries.
#[verifier::external_body]
pub(crate) fn liberties_with_capacity(capacity: usize) -> (r: VecMap<BTreeSet<usize>>)
    ensures
        liberty_entries(r).is_empty(),
{
    VecMap::with_capacity(capacity)
}

/// `VecMap::get`: the value under `key`, if there is one.
#[verifier::external_body]
pub(crate) fn liberties_get(m: &VecMap<BTreeSet<usize>>, key: usize) -> (r: Option<&BTreeSet<usize>>)
    ensures
        match r {
            Some(v) => liberty_entries(*m).contains_key(key) && v@ == liberty_entries(*m)[key],
            None => !liberty_entries(*m).contains_key(key),
        },
{
    m.get(key)
}

/// `VecMap::insert`: puts `value` under `key`, replacing what was there.  The
/// source computes `key - len + 1`, which overflows for the largest key.
#[verifier::external_body]
pub(crate) fn liberties_insert(m: &mut VecMap<BTreeSet<usize>>, key: usize, value: BTreeSet<usize>)
    requires
        key < usize::MAX,
    ensures
        liberty_entries(*final(m)) == liberty_entries(*old(m)).insert(key, value@),
{
    m.insert(key, value);
}

/// `VecMap::remove`: takes the value under `key` out of the map.
#[verifier::external_body]
pub(crate) fn liberties_remove(m: &mut VecMap<BTreeSet<usize>>, key: usize) -> (r: Option<BTreeSet<usize>>)
    ensures
        liberty_entries(*final(m)) == liberty_entries(*old(m)).remove(key),
        match r {
            Some(v) => liberty_entries(*old(m)).contains_key(key) && v@ == liberty_entries(*old(m))[key],
            None => !liberty_entries(*old(m)).contains_key(key),
        },
{
    m.remove(key)
}

} // verus!

verus! {

/// `BTreeSet::append`, which the standard library documents as moving every
/// element of `src` into `dest` and leaving `src` empty.
#[verifier::external_body]
pub(crate) fn set_append(dest: &mut BTreeSet<usize>, src: &mut BTreeSet<usize>)
    ensures
        final(dest)@ == old(dest)@.union(old(src)@),
        final(src)@.is_empty(),
{
    dest.append(src);
}

} // verus!
