//! The ordered map that holds a store's rows, and what the library relies on
//! of it.

use indexmap::IndexMap;
use vstd::prelude::*;

verus! {

/// A row as the contracts see it: its key and its cells.
pub type RowModel = (Seq<char>, Seq<Seq<char>>);

#[verifier::external_type_specification]
#[verifier::external_body]
#[verifier::reject_recursive_types(K)]
#[verifier::reject_recursive_types(V)]
#[verifier::reject_recursive_types(S)]
pub struct ExIndexMap<K, V, S>(IndexMap<K, V, S>);

/// The rows that an ordered map holds, in its iteration order.
pub uninterp spec fn entries_of(m: IndexMap<String, Vec<String>>) -> Seq<RowModel>;

/// The cells of a row, as text.
pub open spec fn cells_of(v: Seq<String>) -> Seq<Seq<char>> {
    v.map_values(|s: String| s@)
}

/// No key occurs twice.
pub open spec fn keys_unique(e: Seq<RowModel>) -> bool {
    forall|i: int, j: int| 0 <= i < e.len() && 0 <= j < e.len() && i != j ==> e[i].0 != e[j].0
}

/// Some row has the key `k`.
pub open spec fn has_key(e: Seq<RowModel>, k: Seq<char>) -> bool {
    exists|j: int| 0 <= j < e.len() && e[j].0 == k
}

/// Relies on `IndexMap::new`: a new map is empty.
#[verifier::external_body]
pub(crate) fn map_new() -> (r: IndexMap<String, Vec<String>>)
    ensures
        entries_of(r) == Seq::<RowModel>::empty(),
{
    IndexMap::new()
}

/// Relies on `IndexMap::len`: the number of rows.
#[verifier::external_body]
pub(crate) fn map_len(m: &IndexMap<String, Vec<String>>) -> (r: usize)
    ensures
        r == entries_of(*m).len(),
{
    m.len()
}

/// Relies on `IndexMap::get_index`: the row at a position of the order, if
/// the position is below the length.
#[verifier::external_body]
pub(crate) fn map_get_index(m: &IndexMap<String, Vec<String>>, i: usize) -> (r: Option<
    (&String, &Vec<String>),
>)
    ensures
        i < entries_of(*m).len() <==> r is Some,
        r matches Some((k, v)) ==> k@ == entries_of(*m)[i as int].0 && cells_of(v@)
            == entries_of(*m)[i as int].1,
{
    m.get_index(i)
}

/// Relies on `IndexMap::get_index_of`: the position of a key, if the map holds
/// it.
#[verifier::external_body]
pub(crate) fn map_get_index_of(m: &IndexMap<String, Vec<String>>, k: &str) -> (r: Option<usize>)
    ensures
        r is None <==> !has_key(entries_of(*m), k@),
        r matches Some(j) ==> j < entries_of(*m).len() && entries_of(*m)[j as int].0 == k@,
{
    m.get_index_of(k)
}

/// Relies on `IndexMap::insert`: a key already held keeps its place and gets
/// the new row; a new key goes last. Keys stay unique.
#[verifier::external_body]
pub(crate) fn map_insert(m: &mut IndexMap<String, Vec<String>>, k: String, v: Vec<String>)
    requires
        keys_unique(entries_of(*old(m))),
    ensures
        keys_unique(entries_of(*final(m))),
        forall|j: int|
            0 <= j < entries_of(*old(m)).len() && entries_of(*old(m))[j].0 == k@ ==> entries_of(
                *final(m),
            ) == entries_of(*old(m)).update(j, (k@, cells_of(v@))),
        !has_key(entries_of(*old(m)), k@) ==> entries_of(*final(m)) == entries_of(*old(m)).push(
            (k@, cells_of(v@)),
        ),
{
    m.insert(k, v);
}

/// Relies on `IndexMap::shift_remove`: the row of a held key leaves, and the
/// rows after it keep their order.
#[verifier::external_body]
pub(crate) fn map_shift_remove(m: &mut IndexMap<String, Vec<String>>, k: &str) -> (r: Option<
    Vec<String>,
>)
    requires
        keys_unique(entries_of(*old(m))),
    ensures
        keys_unique(entries_of(*final(m))),
        r is None <==> !has_key(entries_of(*old(m)), k@),
        r is None ==> entries_of(*final(m)) == entries_of(*old(m)),
        forall|j: int|
            0 <= j < entries_of(*old(m)).len() && entries_of(*old(m))[j].0 == k@ ==> entries_of(
                *final(m),
            ) == entries_of(*old(m)).remove(j),
{
    m.shift_remove(k)
}


/// A key and its value as the contracts see them.
pub type PairModel = (Seq<char>, Seq<char>);

/// The pairs that a key-to-text map holds, in its iteration order.
pub uninterp spec fn pairs_of(m: IndexMap<String, String>) -> Seq<PairModel>;

/// No key occurs twice among the pairs.
pub open spec fn pair_keys_unique(e: Seq<PairModel>) -> bool {
    forall|i: int, j: int| 0 <= i < e.len() && 0 <= j < e.len() && i != j ==> e[i].0 != e[j].0
}

/// Some pair has the key `k`.
pub open spec fn has_pair_key(e: Seq<PairModel>, k: Seq<char>) -> bool {
    exists|j: int| 0 <= j < e.len() && e[j].0 == k
}

/// Relies on `IndexMap::new`: a new map is empty.
#[verifier::external_body]
pub(crate) fn pair_map_new() -> (r: IndexMap<String, String>)
    ensures
        pairs_of(r) == Seq::<PairModel>::empty(),
{
    IndexMap::new()
}

/// Relies on `IndexMap::len`: the number of pairs.
#[verifier::external_body]
pub(crate) fn pair_map_len(m: &IndexMap<String, String>) -> (r: usize)
    ensures
        r == pairs_of(*m).len(),
{
    m.len()
}

/// Relies on `IndexMap::get_index`: the pair at a position of the order, if
/// the position is below the length.
#[verifier::external_body]
pub(crate) fn pair_map_get_index(m: &IndexMap<String, String>, i: usize) -> (r: Option<
    (&String, &String),
>)
    ensures
        i < pairs_of(*m).len() <==> r is Some,
        r matches Some((k, v)) ==> k@ == pairs_of(*m)[i as int].0 && v@ == pairs_of(
            *m,
        )[i as int].1,
{
    m.get_index(i)
}

/// Relies on `IndexMap::get_index_of`: the position of a key, if the map
/// holds it.
#[verifier::external_body]
pub(crate) fn pair_map_get_index_of(m: &IndexMap<String, String>, k: &str) -> (r: Option<usize>)
    ensures
        r is None <==> !has_pair_key(pairs_of(*m), k@),
        r matches Some(j) ==> j < pairs_of(*m).len() && pairs_of(*m)[j as int].0 == k@,
{
    m.get_index_of(k)
}

/// Relies on `IndexMap::insert`: a key already held keeps its place and gets
/// the new value; a new key goes last. Keys stay unique.
#[verifier::external_body]
pub(crate) fn pair_map_insert(m: &mut IndexMap<String, String>, k: String, v: String)
    requires
        pair_keys_unique(pairs_of(*old(m))),
    ensures
        pair_keys_unique(pairs_of(*final(m))),
        forall|j: int|
            0 <= j < pairs_of(*old(m)).len() && pairs_of(*old(m))[j].0 == k@ ==> pairs_of(
                *final(m),
            ) == pairs_of(*old(m)).update(j, (k@, v@)),
        !has_pair_key(pairs_of(*old(m)), k@) ==> pairs_of(*final(m)) == pairs_of(*old(m)).push(
            (k@, v@),
        ),
{
    m.insert(k, v);
}

/// Relies on `IndexMap::shift_remove`: the pair of a held key leaves, and
/// the pairs after it keep their order.
#[verifier::external_body]
pub(crate) fn pair_map_shift_remove(m: &mut IndexMap<String, String>, k: &str) -> (r: Option<
    String,
>)
    requires
        pair_keys_unique(pairs_of(*old(m))),
    ensures
        pair_keys_unique(pairs_of(*final(m))),
        r is None <==> !has_pair_key(pairs_of(*old(m)), k@),
        r is None ==> pairs_of(*final(m)) == pairs_of(*old(m)),
        forall|j: int|
            0 <= j < pairs_of(*old(m)).len() && pairs_of(*old(m))[j].0 == k@ ==> pairs_of(
                *final(m),
            ) == pairs_of(*old(m)).remove(j),
{
    m.shift_remove(k)
}

} // verus!
