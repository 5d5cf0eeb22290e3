//! The key index of a store, kept in crossbeam's skip list.

use crossbeam_skiplist::SkipMap;
use vstd::prelude::*;

verus! {

/// The ordered concurrent map of crossbeam-skiplist, seen from here as an opaque value.
#[verifier::external_type_specification]
#[verifier::external_body]
#[verifier::reject_recursive_types(K)]
#[verifier::reject_recursive_types(V)]
pub struct ExSkipMap<K, V>(SkipMap<K, V>);

/// The key index of a store: key to (segment, offset, length).
pub type KeyIndex = SkipMap<String, (u64, u64, u64)>;

/// What a key index holds: for each key, its locator as (segment, offset, length).
pub uninterp spec fn index_entries(m: KeyIndex) -> Map<Seq<char>, (u64, u64, u64)>;

/// Relies on SkipMap::new: a map with no entries.
#[verifier::external_body]
pub(crate) fn index_new() -> (r: KeyIndex)
    ensures
        index_entries(r).dom() == Set::<Seq<char>>::empty(),
{
    SkipMap::new()
}

/// Relies on SkipMap::get: the entry of the key, if there is one.
#[verifier::external_body]
pub(crate) fn index_get(m: &KeyIndex, key: &String) -> (r: Option<(u64, u64, u64)>)
    ensures
        r == (if index_entries(*m).contains_key(key@) {
            Some(index_entries(*m)[key@])
        } else {
            None
        }),
{
    m.get(key).map(|e| *e.value())
}

/// Relies on SkipMap::insert: the key is bound to the value, replacing an
/// earlier entry of the same key.
#[verifier::external_body]
pub(crate) fn index_insert(m: &mut KeyIndex, key: String, v: (u64, u64, u64))
    ensures
        index_entries(*final(m)) == index_entries(*old(m)).insert(key@, v),
{
    m.insert(key, v);
}

/// Relies on SkipMap::remove: the entry of the key, if any, leaves the map.
#[verifier::external_body]
pub(crate) fn index_remove(m: &mut KeyIndex, key: &String)
    ensures
        index_entries(*final(m)) == index_entries(*old(m)).remove(key@),
{
    m.remove(key);
}

/// Relies on SkipMap::len: the number of entries. It is exact while no other
/// thread changes the map, as here: each index belongs to one store state and
/// changes only through `&mut`.
#[verifier::external_body]
pub(crate) fn index_len(m: &KeyIndex) -> (r: usize)
    ensures
        r as nat == index_entries(*m).len(),
{
    m.len()
}

/// Key `a` comes before key `b` in the order of `Ord` on strings, which
/// compares the bytes of their UTF-8 encodings: as UTF-8 keeps the order of
/// code points, that is the order of their characters, one after another,
/// with a proper prefix first.
pub open spec fn key_before(a: Seq<char>, b: Seq<char>) -> bool {
    exists|i: int|
        0 <= i <= a.len() && i <= b.len() && #[trigger] a.take(i) == b.take(i) && ((i == a.len()
            && i < b.len()) || (i < a.len() && i < b.len() && (a[i] as u32) < (b[i] as u32)))
}

/// Relies on SkipMap::iter: every entry once, each key with its value, in
/// ascending order of keys.
#[verifier::external_body]
pub(crate) fn index_snapshot(m: &KeyIndex) -> (r: Vec<
    (String, (u64, u64, u64)),
>)
    ensures
        forall|i: int, j: int|
            0 <= i < j < r@.len() ==> (#[trigger] r@[i]).0@ != (#[trigger] r@[j]).0@
                && key_before(r@[i].0@, r@[j].0@),
        forall|i: int|
            0 <= i < r@.len() ==> index_entries(*m).contains_key((#[trigger] r@[i]).0@)
                && index_entries(*m)[r@[i].0@] == r@[i].1,
        forall|k: Seq<char>|
            #[trigger] index_entries(*m).contains_key(k) ==> exists|i: int|
                0 <= i < r@.len() && (#[trigger] r@[i]).0@ == k,
{
    m.iter().map(|e| (e.key().clone(), *e.value())).collect()
}

} // verus!
