//! How a request that removes or restores one record ended, told from the
//! number of rows that its statement changed.

use vstd::prelude::*;

verus! {

/// The end of a request that addresses one record by its identifier.
#[derive(Debug, Clone, Copy, PartialEq, Eq, Structural)]
pub enum Outcome {
    /// The record was there and the statement changed it.
    Done,
    /// No record was there to change.
    NotFound,
}

impl Outcome {
    /// The outcome of deleting, hiding or restoring a post: done when the
    /// statement changed any row.
    pub fn of_post_change(rows_affected: u64) -> (r: Outcome)
        ensures
            r == if rows_affected > 0 {
                Outcome::Done
            } else {
                Outcome::NotFound
            },
    {
        if rows_affected > 0 {
            Outcome::Done
        } else {
            Outcome::NotFound
        }
    }

    /// The outcome of deleting a category: done when the statement deleted
    /// exactly one row.
    pub fn of_category_delete(rows_affected: u64) -> (r: Outcome)
        ensures
            r == if rows_affected == 1 {
                Outcome::Done
            } else {
                Outcome::NotFound
            },
    {
        if rows_affected == 1 {
            Outcome::Done
        } else {
            Outcome::NotFound
        }
    }
}

} // verus!
