//! What a client sends to list or to create categories.

use vstd::prelude::*;

verus! {

/// The parent of the categories at the top of the hierarchy. A row names it
/// as its parent to say that it has none.
pub const ROOT_ID: u64 = 0;

/// The parent that a request means when it names none: `ROOT_ID`.
pub open spec fn parent_or_root(parent_id: Option<i64>) -> i64 {
    match parent_id {
        Some(parent) => parent,
        None => ROOT_ID as i64,
    }
}

/// The parameters of a request for the categories below one parent.
#[derive(Debug, Clone, Copy, PartialEq, Eq)]
pub struct ListParams {
    pub parent_id: Option<i64>,
}

impl ListParams {
    /// The parent whose categories are listed, `ROOT_ID` where none is named.
    pub fn parent_id(&self) -> (r: i64)
        ensures
            r == parent_or_root(self.parent_id),
    {
        match self.parent_id {
            Some(parent) => parent,
            None => 0,
        }
    }
}

/// The body of a request that creates a category.
#[derive(Debug, PartialEq, Eq)]
pub struct CreateCategory {
    pub parent_id: Option<i64>,
    pub name: String,
}

impl CreateCategory {
    /// The parent of the new category, `ROOT_ID` where none is named.
    pub fn parent_id(&self) -> (r: i64)
        ensures
            r == parent_or_root(self.parent_id),
    {
        match self.parent_id {
            Some(parent) => parent,
            None => 0,
        }
    }
}

} // verus!
