//! The insertion-ordered table that the search keeps its nodes in.
//!
//! The table is an `indexmap::IndexMap` from a grid cell to the index of the
//! cell it was reached from and the cheapest cost found so far, hashed with
//! `fxhash`. Verus cannot look inside the map, so its contents are given a
//! name, [`table_entries`], and every call into the map goes through one of
//! the functions below, whose contracts are taken from the map's
//! documentation and are not proved here.

use fxhash::FxHasher;
use indexmap::IndexMap;
use std::hash::BuildHasherDefault;
use vstd::prelude::*;

verus! {

/// `indexmap::IndexMap`, as a type whose values are carried about and
/// never looked into.
#[verifier::external_type_specification]
#[verifier::external_body]
#[verifier::reject_recursive_types(K)]
#[verifier::reject_recursive_types(V)]
#[verifier::reject_recursive_types(S)]
pub struct ExIndexMap<K, V, S>(IndexMap<K, V, S>);

/// `std::hash::BuildHasherDefault`, the maker of the map's hashers.
#[verifier::external_type_specification]
#[verifier::external_body]
#[verifier::reject_recursive_types(H)]
pub struct ExBuildHasherDefault<H>(BuildHasherDefault<H>);

/// `fxhash::FxHasher`, the hasher that the map uses.
#[verifier::external_type_specification]
#[verifier::external_body]
pub struct ExFxHasher(FxHasher);

/// A grid cell: column and row.
pub type Cell = (i32, i32);

/// What the table stores for a cell: the index of its parent and its cost.
pub type Link = (usize, u64);

pub type NodeTable = IndexMap<Cell, Link, BuildHasherDefault<FxHasher>>;

/// The key-value pairs of a table, in insertion order.
pub uninterp spec fn table_entries(table: NodeTable) -> Seq<(Cell, Link)>;

/// No pair of `entries` has the key `key`.
pub open spec fn key_absent(entries: Seq<(Cell, Link)>, key: Cell) -> bool {
    forall|j: int| 0 <= j < entries.len() ==> (#[trigger] entries[j]).0 != key
}

/// `IndexMap::default`: a table that holds nothing.
#[verifier::external_body]
pub(crate) fn table_new() -> (table: NodeTable)
    ensures
        table_entries(table) == Seq::<(Cell, Link)>::empty(),
{
    IndexMap::default()
}

/// `IndexMap::len`: the number of pairs.
#[verifier::external_body]
pub(crate) fn table_len(table: &NodeTable) -> (n: usize)
    ensures
        n == table_entries(*table).len(),
{
    table.len()
}

/// `IndexMap::get_index`: the pair at `index` in insertion order, or `None`
/// when `index` is not below the length.
#[verifier::external_body]
pub(crate) fn table_get_index(table: &NodeTable, index: usize) -> (pair: Option<(Cell, Link)>)
    ensures
        pair == if index < table_entries(*table).len() {
            Some(table_entries(*table)[index as int])
        } else {
            None
        },
{
    table.get_index(index).map(|(k, v)| (*k, *v))
}

/// `IndexMap::get_index_of`: the index of the pair whose key is `key`, or
/// `None` when no pair has that key.
#[verifier::external_body]
pub(crate) fn table_index_of(table: &NodeTable, key: Cell) -> (found: Option<usize>)
    ensures
        match found {
            Some(i) => i < table_entries(*table).len() && table_entries(*table)[i as int].0 == key,
            None => key_absent(table_entries(*table), key),
        },
{
    table.get_index_of(&key)
}

/// `IndexMap::insert_full`: where the key is present its value is replaced
/// in place and the old value comes back with the index; where it is absent
/// the pair is appended and its index comes back with `None`.
#[verifier::external_body]
pub(crate) fn table_insert_full(table: &mut NodeTable, key: Cell, value: Link) -> (placed: (
    usize,
    Option<Link>,
))
    ensures
        match placed.1 {
            Some(previous) => {
                &&& placed.0 < table_entries(*old(table)).len()
                &&& table_entries(*old(table))[placed.0 as int] == (key, previous)
                &&& table_entries(*final(table)) == table_entries(*old(table)).update(
                    placed.0 as int,
                    (key, value),
                )
            },
            None => {
                &&& key_absent(table_entries(*old(table)), key)
                &&& placed.0 == table_entries(*old(table)).len()
                &&& table_entries(*final(table)) == table_entries(*old(table)).push((key, value))
            },
        },
{
    table.insert_full(key, value)
}

} // verus!
