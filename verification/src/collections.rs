//! Hash maps and hash sets with the Fx hasher, as maps and sets of plain values.

use rustc_hash::FxHashMap;
use rustc_hash::FxHashSet;
use vstd::prelude::*;

verus! {

/// The hasher of `rustc_hash`, which only serves to name the map types.
#[verifier::external_type_specification]
#[verifier::external_body]
pub struct ExFxBuildHasher(rustc_hash::FxBuildHasher);

/// Names, each with a number.
pub type NameMap = FxHashMap<String, u64>;

/// Names.
pub type NameSet = FxHashSet<String>;

/// Names, each with a text.
pub type TextMap = FxHashMap<String, String>;

/// Pairs of ids, each with an offset.
pub type OffsetMap = FxHashMap<(u32, u32), u64>;

/// Indices, each with a size.
pub type IndexMap = FxHashMap<u32, u64>;

/// What a map from names to numbers holds.
pub uninterp spec fn numbers(m: NameMap) -> Map<Seq<char>, u64>;

/// What a set of names holds.
pub uninterp spec fn names(s: NameSet) -> Set<Seq<char>>;

/// What a map from names to texts holds.
pub uninterp spec fn texts(m: TextMap) -> Map<Seq<char>, Seq<char>>;

/// What a map from pairs of ids to offsets holds.
pub uninterp spec fn offsets_of(m: OffsetMap) -> Map<(u32, u32), u64>;

/// What a map from indices to sizes holds.
pub uninterp spec fn sizes_of(m: IndexMap) -> Map<u32, u64>;

/// `m` holds nothing.
pub open spec fn no_entries<K, V>(m: Map<K, V>) -> bool {
    m == Map::<K, V>::empty()
}

/// The value under `k`, if there is one.
pub open spec fn value_at<K, V>(m: Map<K, V>, k: K) -> Option<V> {
    if m.dom().contains(k) {
        Some(m[k])
    } else {
        None
    }
}

/// `FxHashMap::default` makes an empty map.
#[verifier::external_body]
pub(crate) fn new_name_map() -> (r: NameMap)
    ensures
        no_entries(numbers(r)),
{
    FxHashMap::default()
}

/// `HashMap::insert` puts a number under a name, in place of one that was there.
#[verifier::external_body]
pub(crate) fn put_number(m: &mut NameMap, name: String, v: u64)
    ensures
        numbers(*final(m)) == numbers(*old(m)).insert(name@, v),
{
    m.insert(name, v);
}

/// `HashMap::get` gives the number under a name.
#[verifier::external_body]
pub(crate) fn number_at(m: &NameMap, name: &str) -> (r: Option<u64>)
    ensures
        r == value_at(numbers(*m), name@),
{
    m.get(name).copied()
}

/// `HashMap::keys` gives each name once, in no particular order.
#[verifier::external_body]
pub(crate) fn numbered_names(m: &NameMap) -> (r: Vec<String>)
    ensures
        crate::text::views(r@).no_duplicates(),
        crate::text::views(r@).to_set() == numbers(*m).dom(),
{
    m.keys().cloned().collect()
}

/// `FxHashSet::default` makes an empty set.
#[verifier::external_body]
pub(crate) fn new_name_set() -> (r: NameSet)
    ensures
        names(r) == Set::<Seq<char>>::empty(),
{
    FxHashSet::default()
}

/// `HashSet::insert` adds a name, and says whether it was not there before.
#[verifier::external_body]
pub(crate) fn add_name(s: &mut NameSet, name: String) -> (r: bool)
    ensures
        names(*final(s)) == names(*old(s)).insert(name@),
        r == !names(*old(s)).contains(name@),
{
    s.insert(name)
}

/// `HashSet::contains` says whether a name is there.
#[verifier::external_body]
pub(crate) fn has_name(s: &NameSet, name: &str) -> (r: bool)
    ensures
        r == names(*s).contains(name@),
{
    s.contains(name)
}

/// `FxHashMap::default` makes an empty map.
#[verifier::external_body]
pub(crate) fn new_text_map() -> (r: TextMap)
    ensures
        no_entries(texts(r)),
{
    FxHashMap::default()
}

/// `HashMap::insert` puts a text under a name, in place of one that was there.
#[verifier::external_body]
pub(crate) fn put_text(m: &mut TextMap, name: String, text: String)
    ensures
        texts(*final(m)) == texts(*old(m)).insert(name@, text@),
{
    m.insert(name, text);
}

/// `HashMap::get` gives the text under a name.
#[verifier::external_body]
pub(crate) fn text_at<'a>(m: &'a TextMap, name: &str) -> (r: Option<&'a String>)
    ensures
        match r {
            Some(t) => value_at(texts(*m), name@) == Some(t@),
            None => value_at(texts(*m), name@) is None,
        },
{
    m.get(name)
}

/// `FxHashMap::default` makes an empty map.
#[verifier::external_body]
pub(crate) fn new_offset_map() -> (r: OffsetMap)
    ensures
        no_entries(offsets_of(r)),
{
    FxHashMap::default()
}

/// `HashMap::insert` puts an offset under a pair, in place of one that was there.
#[verifier::external_body]
pub(crate) fn put_offset(m: &mut OffsetMap, ids: (u32, u32), offset: u64)
    ensures
        offsets_of(*final(m)) == offsets_of(*old(m)).insert(ids, offset),
{
    m.insert(ids, offset);
}

/// `HashMap::get` gives the offset under a pair.
#[verifier::external_body]
pub(crate) fn offset_at(m: &OffsetMap, ids: (u32, u32)) -> (r: Option<u64>)
    ensures
        r == value_at(offsets_of(*m), ids),
{
    m.get(&ids).copied()
}

/// `FxHashMap::default` makes an empty map.
#[verifier::external_body]
pub(crate) fn new_index_map() -> (r: IndexMap)
    ensures
        no_entries(sizes_of(r)),
{
    FxHashMap::default()
}

/// `HashMap::insert` puts a size under an index, in place of one that was there.
#[verifier::external_body]
pub(crate) fn put_size(m: &mut IndexMap, index: u32, size: u64)
    ensures
        sizes_of(*final(m)) == sizes_of(*old(m)).insert(index, size),
{
    m.insert(index, size);
}

/// `HashMap::get` gives the size under an index.
#[verifier::external_body]
pub(crate) fn size_at(m: &IndexMap, index: u32) -> (r: Option<u64>)
    ensures
        r == value_at(sizes_of(*m), index),
{
    m.get(&index).copied()
}

} // verus!
