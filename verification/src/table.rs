//! The two tables of a scene document, kept in the engine's hash map.
//!
//! Verus does not look inside the hash map: what a table holds is named by
//! `object_entries` and `node_entries`, and each function below states what
//! one method of the map does to those entries. Nothing in this file is
//! proved; the rest of the crate is proved against it.

use crate::document::RonNode;
use crate::objects::Object;
use bevy_utils::HashMap;
use vstd::prelude::*;

verus! {

/// The object table of a document: `bevy_utils::HashMap<usize, Object>`.
#[verifier::external_body]
#[derive(Debug, Default, PartialEq)]
pub struct ObjectTable {
    inner: HashMap<usize, Object>,
}

/// The node table of a document: `bevy_utils::HashMap<usize, RonNode>`.
#[verifier::external_body]
#[derive(Debug, Default, PartialEq)]
pub struct NodeTable {
    inner: HashMap<usize, RonNode>,
}

/// The entries of an object table.
pub uninterp spec fn object_entries(table: ObjectTable) -> Map<usize, Object>;

/// The entries of a node table.
pub uninterp spec fn node_entries(table: NodeTable) -> Map<usize, RonNode>;

/// A finite set of keys and their number.
pub open spec fn counts(keys: Set<usize>, n: usize) -> bool {
    keys.finite() && keys.len() == n
}

/// `HashMap::new`: a map without entries.
#[verifier::external_body]
pub(crate) fn object_table_new() -> (table: ObjectTable)
    ensures
        object_entries(table).dom() == Set::<usize>::empty(),
{
    ObjectTable { inner: HashMap::new() }
}

/// `HashMap::len`: the number of entries, which is finite.
#[verifier::external_body]
pub(crate) fn object_table_len(table: &ObjectTable) -> (n: usize)
    ensures
        counts(object_entries(*table).dom(), n),
{
    table.inner.len()
}

/// `HashMap::get`: the value stored under the key, if there is one.
#[verifier::external_body]
pub(crate) fn object_table_get(table: &ObjectTable, key: usize) -> (found: Option<&Object>)
    ensures
        match found {
            Some(object) => object_entries(*table).contains_key(key) && *object == object_entries(
                *table,
            )[key],
            None => !object_entries(*table).contains_key(key),
        },
{
    table.inner.get(&key)
}

/// `HashMap::insert`: the value is stored under the key, in place of the one
/// that was there, which is returned; the other entries stay.
#[verifier::external_body]
pub(crate) fn object_table_insert(table: &mut ObjectTable, key: usize, object: Object) -> (previous:
    Option<Object>)
    ensures
        object_entries(*final(table)) == object_entries(*old(table)).insert(key, object),
        match previous {
            Some(before) => object_entries(*old(table)).contains_key(key) && before
                == object_entries(*old(table))[key],
            None => !object_entries(*old(table)).contains_key(key),
        },
{
    table.inner.insert(key, object)
}

/// `HashMap::new`: a map without entries.
#[verifier::external_body]
pub(crate) fn node_table_new() -> (table: NodeTable)
    ensures
        node_entries(table).dom() == Set::<usize>::empty(),
{
    NodeTable { inner: HashMap::new() }
}

/// `HashMap::len`: the number of entries, which is finite.
#[verifier::external_body]
pub(crate) fn node_table_len(table: &NodeTable) -> (n: usize)
    ensures
        counts(node_entries(*table).dom(), n),
{
    table.inner.len()
}

/// `HashMap::get`: the value stored under the key, if there is one.
#[verifier::external_body]
pub(crate) fn node_table_get(table: &NodeTable, key: usize) -> (found: Option<&RonNode>)
    ensures
        match found {
            Some(node) => node_entries(*table).contains_key(key) && *node == node_entries(
                *table,
            )[key],
            None => !node_entries(*table).contains_key(key),
        },
{
    table.inner.get(&key)
}

/// `HashMap::insert`: the value is stored under the key, in place of the one
/// that was there, which is returned; the other entries stay.
#[verifier::external_body]
pub(crate) fn node_table_insert(table: &mut NodeTable, key: usize, node: RonNode) -> (previous:
    Option<RonNode>)
    ensures
        node_entries(*final(table)) == node_entries(*old(table)).insert(key, node),
        match previous {
            Some(before) => node_entries(*old(table)).contains_key(key) && before == node_entries(
                *old(table),
            )[key],
            None => !node_entries(*old(table)).contains_key(key),
        },
{
    table.inner.insert(key, node)
}

} // verus!
