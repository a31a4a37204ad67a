use dashmap::DashMap;
use vstd::prelude::*;

verus! {

#[verifier::external_type_specification]
#[verifier::external_body]
#[verifier::reject_recursive_types(K)]
#[verifier::reject_recursive_types(V)]
#[verifier::reject_recursive_types(S)]
pub struct ExDashMap<K, V, S>(DashMap<K, V, S>);

/// What a redirect table holds: each symbol mapped to its destination.
pub uninterp spec fn redirects_of(m: DashMap<String, String>) -> Map<Seq<char>, Seq<char>>;

/// The map that a list of (symbol, destination) pairs describes; a later pair
/// for the same symbol replaces an earlier one.
pub open spec fn entries_map(entries: Seq<(String, String)>) -> Map<Seq<char>, Seq<char>>
    decreases entries.len(),
{
    if entries.len() == 0 {
        Map::empty()
    } else {
        entries_map(entries.drop_last()).insert(entries.last().0@, entries.last().1@)
    }
}

/// No symbol occurs twice among the pairs.
pub open spec fn keys_distinct(entries: Seq<(String, String)>) -> bool {
    forall|i: int, j: int| 0 <= i < j < entries.len() ==> entries[i].0@ != entries[j].0@
}

/// The map has finitely many keys, `n` of them.
pub open spec fn holds_exactly(table: Map<Seq<char>, Seq<char>>, n: nat) -> bool {
    table.dom().finite() && table.len() == n
}

/// Relies on DashMap::with_capacity: a new map holds no entry.
#[verifier::external_body]
pub(crate) fn table_with_capacity(capacity: usize) -> (r: DashMap<String, String>)
    ensures
        redirects_of(r).dom() == Set::<Seq<char>>::empty(),
{
    DashMap::with_capacity(capacity)
}

/// Relies on DashMap::insert: the key maps to the value afterwards, whether or
/// not it was there before, and every other key keeps its value.
#[verifier::external_body]
pub(crate) fn table_insert(m: &mut DashMap<String, String>, key: String, value: String)
    ensures
        redirects_of(*final(m)) == redirects_of(*old(m)).insert(key@, value@),
{
    m.insert(key, value);
}

/// Relies on DashMap::get: a copy of the value under the key, if there is one.
#[verifier::external_body]
pub(crate) fn table_get(m: &DashMap<String, String>, key: &str) -> (r: Option<String>)
    ensures
        r is Some <==> redirects_of(*m).contains_key(key@),
        r is Some ==> r->0@ == redirects_of(*m)[key@],
{
    m.get(key).map(|e| e.value().clone())
}

/// Relies on DashMap::contains_key: whether the key has a value.
#[verifier::external_body]
pub(crate) fn table_contains(m: &DashMap<String, String>, key: &str) -> (r: bool)
    ensures
        r == redirects_of(*m).contains_key(key@),
{
    m.contains_key(key)
}

/// Relies on DashMap::len: the number of entries, of which there are finitely many.
#[verifier::external_body]
pub(crate) fn table_len(m: &DashMap<String, String>) -> (r: usize)
    ensures
        holds_exactly(redirects_of(*m), r as nat),
{
    m.len()
}

/// Relies on DashMap::iter: every entry exactly once, in no particular order.
#[verifier::external_body]
pub(crate) fn table_entries(m: &DashMap<String, String>) -> (r: Vec<(String, String)>)
    ensures
        keys_distinct(r@),
        entries_map(r@) == redirects_of(*m),
{
    m.iter().map(|e| (e.key().clone(), e.value().clone())).collect()
}

} // verus!
