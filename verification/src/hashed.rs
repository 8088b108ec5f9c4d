//! The hash maps of `rustc_hash` that the crate fills and reads.

use crate::csr_matrix::construct::distinct_cells;
use crate::csr_matrix::Cell;
use rustc_hash::FxHashMap;
use vstd::prelude::*;

verus! {

/// `rustc_hash::FxBuildHasher`, the hasher of the maps below; nothing is
/// said of it.
#[verifier::external_type_specification]
#[verifier::external_body]
pub struct ExFxBuildHasher(rustc_hash::FxBuildHasher);

/// A hash map from `(row, column)` to a value.
pub type CellMap = FxHashMap<(usize, usize), i64>;

/// The cells that a hash map keyed by `(row, column)` holds, with their values.
pub uninterp spec fn cells_held(m: CellMap) -> Map<Cell, int>;

/// An empty map, from `FxHashMap::default`.
///
/// Not proved here: that a map made by `default` holds nothing.
#[verifier::external_body]
pub(crate) fn new_cell_map() -> (m: CellMap)
    ensures
        cells_held(m) == (Map::<Cell, int>::empty()),
{
    FxHashMap::default()
}

/// The value stored for a cell, from `HashMap::get`.
///
/// Not proved here: that `get` returns the value the map holds for the key,
/// and `None` where it holds none.
#[verifier::external_body]
pub(crate) fn cell_map_get(m: &CellMap, row: usize, col: usize) -> (v: Option<i64>)
    ensures
        match v {
            Some(x) => cells_held(*m).contains_key((row as int, col as int)) && cells_held(*m)[(
                row as int,
                col as int,
            )] == x,
            None => !cells_held(*m).contains_key((row as int, col as int)),
        },
{
    m.get(&(row, col)).copied()
}

/// Stores a value for a cell, with `HashMap::insert`.
///
/// Not proved here: that after `insert` the map holds the value for the
/// key and is otherwise as before.
#[verifier::external_body]
pub(crate) fn cell_map_insert(m: &mut CellMap, row: usize, col: usize, v: i64)
    ensures
        cells_held(*final(m)) == cells_held(*old(m)).insert((row as int, col as int), v as int),
{
    m.insert((row, col), v);
}

/// The cells of the map as a list, from `HashMap::iter`, in the order in
/// which the map is walked.
///
/// Not proved here: that the walk visits every key of the map once, with
/// its value. Nothing is said of the order.
#[verifier::external_body]
pub(crate) fn cell_map_entries(m: &CellMap) -> (entries: Vec<(usize, usize, i64)>)
    ensures
        distinct_cells(entries@),
        forall|i: int|
            0 <= i < entries@.len() ==> cells_held(*m).contains_key(
                ((#[trigger] entries@[i]).0 as int, entries@[i].1 as int),
            ) && cells_held(*m)[(entries@[i].0 as int, entries@[i].1 as int)] == entries@[i].2,
        forall|k: Cell| #[trigger]
            cells_held(*m).contains_key(k) ==> exists|i: int|
                0 <= i < entries@.len() && (#[trigger] entries@[i]).0 == k.0 && entries@[i].1
                    == k.1,
{
    m.iter().map(|(k, v)| (k.0, k.1, *v)).collect()
}

/// A hash map from a tag's text to its identifier.
pub type TagIndex = FxHashMap<String, usize>;

/// The identifiers that a tag index holds, by tag text.
pub uninterp spec fn ids_held(m: TagIndex) -> Map<Seq<char>, usize>;

/// An empty index, from `FxHashMap::default`.
///
/// Not proved here: that a map made by `default` holds nothing.
#[verifier::external_body]
pub(crate) fn new_tag_index() -> (m: TagIndex)
    ensures
        ids_held(m) == (Map::<Seq<char>, usize>::empty()),
{
    FxHashMap::default()
}

/// The identifier stored for a tag, from `HashMap::get`.
///
/// Not proved here: that `get` returns the identifier the map holds for the
/// text, and `None` where it holds none.
#[verifier::external_body]
pub(crate) fn tag_index_get(m: &TagIndex, tag: &str) -> (id: Option<usize>)
    ensures
        match id {
            Some(i) => ids_held(*m).contains_key(tag@) && ids_held(*m)[tag@] == i,
            None => !ids_held(*m).contains_key(tag@),
        },
{
    m.get(tag).copied()
}

/// Stores an identifier for a tag, with `HashMap::insert`.
///
/// Not proved here: that after `insert` the map holds the identifier for
/// the text and is otherwise as before.
#[verifier::external_body]
pub(crate) fn tag_index_insert(m: &mut TagIndex, tag: &str, id: usize)
    ensures
        ids_held(*final(m)) == ids_held(*old(m)).insert(tag@, id),
{
    m.insert(tag.to_owned(), id);
}

} // verus!
