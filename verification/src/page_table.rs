//! The buffer pool's page table: a concurrent map from page id to
//! frame index, backed by `dashmap::DashMap`. The map's contents are
//! named by [`page_table_view`], and the wrappers below say how each
//! call moves them.

use vstd::prelude::*;

verus! {

#[verifier::external_type_specification]
#[verifier::external_body]
#[verifier::reject_recursive_types(K)]
#[verifier::reject_recursive_types(V)]
#[verifier::reject_recursive_types(S)]
pub struct ExDashMap<K, V, S>(dashmap::DashMap<K, V, S>);

/// A page table: a concurrent map from page id to frame index.
pub type PageTable = dashmap::DashMap<u64, usize>;

/// The entries a page table holds.
pub uninterp spec fn page_table_view(m: PageTable) -> Map<u64, usize>;

/// The empty page-table contents.
pub open spec fn empty_page_table() -> Map<u64, usize> {
    Map::empty()
}

/// Relies on `dashmap::DashMap::new`: creates an empty map.
#[verifier::external_body]
pub(crate) fn page_table_new() -> (r: PageTable)
    ensures
        page_table_view(r) == empty_page_table(),
{
    dashmap::DashMap::new()
}

/// Relies on `dashmap::DashMap::insert`: maps the key to the value,
/// replacing any earlier mapping of the key.
#[verifier::external_body]
pub(crate) fn page_table_insert(m: &mut PageTable, k: u64, v: usize)
    ensures
        page_table_view(*final(m)) == page_table_view(*old(m)).insert(k, v),
{
    m.insert(k, v);
}

/// Relies on `dashmap::DashMap::get`: returns the value mapped to the
/// key, if the key is present.
#[verifier::external_body]
pub(crate) fn page_table_get(m: &PageTable, k: u64) -> (r: Option<usize>)
    ensures
        r == (if page_table_view(*m).contains_key(k) {
            Some(page_table_view(*m)[k])
        } else {
            None::<usize>
        }),
{
    m.get(&k).map(|e| *e)
}

/// Relies on `dashmap::DashMap::remove`: drops the key's mapping, if
/// any.
#[verifier::external_body]
pub(crate) fn page_table_remove(m: &mut PageTable, k: u64)
    ensures
        page_table_view(*final(m)) == page_table_view(*old(m)).remove(k),
{
    m.remove(&k);
}

} // verus!
