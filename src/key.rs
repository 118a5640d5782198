use vstd::prelude::*;

verus! {

/// Identifies one query invocation in a database: the group that owns the
/// query, the query within that group, and the memoized invocation (key) of
/// that query.
#[derive(Clone, Copy, Debug, PartialEq, Eq, Structural, Hash, PartialOrd, Ord)]
pub struct DatabaseKeyIndex {
    pub group_index: u16,
    pub query_index: u16,
    pub key_index: u32,
}

impl DatabaseKeyIndex {
    pub fn new(group_index: u16, query_index: u16, key_index: u32) -> (r: DatabaseKeyIndex)
        ensures
            r.group_index == group_index,
            r.query_index == query_index,
            r.key_index == key_index,
    {
        DatabaseKeyIndex { group_index, query_index, key_index }
    }

    pub fn group_index(&self) -> (r: u16)
        ensures
            r == self.group_index,
    {
        self.group_index
    }

    pub fn query_index(&self) -> (r: u16)
        ensures
            r == self.query_index,
    {
        self.query_index
    }

    pub fn key_index(&self) -> (r: u32)
        ensures
            r == self.key_index,
    {
        self.key_index
    }
}

} // verus!
