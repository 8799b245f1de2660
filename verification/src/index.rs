//! Positions of names, kept by an insertion-ordered hash map.
use indexmap::IndexMap;
use vstd::prelude::*;

#[allow(unused_imports)]
use crate::named;

verus! {

/// The hash map of the `indexmap` crate, which keeps the order of insertion.
#[verifier::external_type_specification]
#[verifier::external_body]
#[verifier::reject_recursive_types(K)]
#[verifier::reject_recursive_types(V)]
#[verifier::reject_recursive_types(S)]
pub struct ExIndexMap<K, V, S>(IndexMap<K, V, S>);

/// What a map from names to positions holds, in its own order.
pub uninterp spec fn index_entries(m: IndexMap<String, usize>) -> Seq<(Seq<char>, usize)>;

/// `IndexMap::new`: a map without entries.
#[verifier::external_body]
pub(crate) fn index_new() -> (m: IndexMap<String, usize>)
    ensures
        index_entries(m) == Seq::<(Seq<char>, usize)>::empty(),
{
    IndexMap::new()
}

/// `IndexMap::insert`: a name that is there keeps its place and gets the new
/// value, a new name comes last.
#[verifier::external_body]
pub(crate) fn index_insert(m: &mut IndexMap<String, usize>, name: String, position: usize)
    ensures
        index_entries(*final(m)) == named::put_entry(index_entries(*old(m)), name@, position),
{
    m.insert(name, position);
}

/// `IndexMap::get`: the value under a name, where the name is there.
#[verifier::external_body]
pub(crate) fn index_get(m: &IndexMap<String, usize>, name: &str) -> (r: Option<usize>)
    ensures
        r == named::find_entry(index_entries(*m), name@),
{
    m.get(name).copied()
}

/// `IndexMap::get_index`: the name that stands at a place in the map's order.
#[verifier::external_body]
pub(crate) fn index_name(m: &IndexMap<String, usize>, i: usize) -> (r: &String)
    requires
        i < index_entries(*m).len(),
    ensures
        r@ == index_entries(*m)[i as int].0,
{
    m.get_index(i).unwrap().0
}

} // verus!
