//! Tables of highlights that one thread replaces while others read them.

use vstd::prelude::*;
use std::sync::Arc;
use crate::definition_map::{definition_map_contents, DefinitionMap};

verus! {

/// A table of highlight numbers behind an `arc_swap::ArcSwap`: any thread
/// may put another table in its place at any time, without a lock. What a
/// table holds is known only to the one who has just loaded it.
#[derive(Debug)]
#[verifier::external_body]
pub struct SharedTable {
    table: arc_swap::ArcSwap<Vec<u32>>,
}

/// The values that the table was made with. Others may have been stored in
/// their place since; this name says nothing of those.
pub uninterp spec fn table_made_with(table: SharedTable) -> Seq<u32>;

/// How many values the table was made with. Whatever is stored in their
/// place later are as many values: the table has one for each capture of
/// its query, whichever thread stored them.
pub open spec fn table_len(table: SharedTable) -> nat {
    table_made_with(table).len()
}

/// `ArcSwap::from_pointee`: a table that holds the values, until others are
/// stored. The table is made with the values that it is given.
#[verifier::external_body]
pub(crate) fn table_new(values: Vec<u32>) -> (table: SharedTable)
    ensures
        table_made_with(table) == values@,
{
    SharedTable { table: arc_swap::ArcSwap::from_pointee(values) }
}

/// `ArcSwap::store`, on an `Arc` of the values: puts the values in place of
/// those that the table holds, for all who load from now on. The values are
/// as many as the table was made with.
#[verifier::external_body]
pub(crate) fn table_store(table: &SharedTable, values: Vec<u32>)
    requires
        values@.len() == table_made_with(*table).len(),
{
    table.table.store(Arc::new(values))
}

/// `ArcSwap::load_full`: the values that the table holds at the time of the
/// call, whichever thread stored them. They are the values that the table
/// was made with or that were stored last, so they are as many as the table
/// was made with; which values they are is open.
#[verifier::external_body]
pub(crate) fn table_load(table: &SharedTable) -> (values: Arc<Vec<u32>>)
    ensures
        values@.len() == table_made_with(*table).len(),
{
    table.table.load_full()
}

/// The highlights of the captures under which locals define names, behind
/// an `arc_swap::ArcSwap`: any thread may put another map in its place at
/// any time, without a lock. What the map holds is known only to the one
/// who has just loaded it.
#[derive(Debug)]
#[verifier::external_body]
pub struct SharedDefinitions {
    map: arc_swap::ArcSwap<DefinitionMap>,
}

/// What the map held that shared definitions were made with. Another map
/// may have been stored in its place since; this name says nothing of that
/// one.
pub uninterp spec fn definitions_made_with(shared: SharedDefinitions) -> Map<u32, u32>;

/// `ArcSwap::from_pointee`: shared definitions that hold the map, until
/// another is stored.
#[verifier::external_body]
fn definitions_new(map: DefinitionMap) -> (shared: SharedDefinitions)
    ensures
        definitions_made_with(shared) == definition_map_contents(map),
{
    SharedDefinitions { map: arc_swap::ArcSwap::from_pointee(map) }
}

/// `ArcSwap::store`, on an `Arc` of the map: puts the map in place of the
/// one that is held, for all who load from now on.
#[verifier::external_body]
fn definitions_store(shared: &SharedDefinitions, map: DefinitionMap) {
    shared.map.store(Arc::new(map))
}

/// `ArcSwap::load_full`: the map that is held at the time of the call,
/// whichever thread stored it.
#[verifier::external_body]
fn definitions_load(shared: &SharedDefinitions) -> (map: Arc<DefinitionMap>) {
    shared.map.load_full()
}

impl SharedDefinitions {
    /// Shared definitions that hold the map, until another is stored.
    pub fn new(map: DefinitionMap) -> (shared: SharedDefinitions)
        ensures
            definitions_made_with(shared) == map@,
    {
        definitions_new(map)
    }

    /// Puts the map in place of the one that is held, for all who load from
    /// now on: the passes that are under way keep the map that they loaded.
    pub fn store(&self, map: DefinitionMap) {
        definitions_store(self, map)
    }

    /// The map that is held at the time of the call, whichever thread
    /// stored it.
    pub fn load(&self) -> (map: Arc<DefinitionMap>) {
        definitions_load(self)
    }
}

} // verus!
