//! Verified core of a small blog service: the category tree built from flat
//! parent-pointer rows, the windows and summaries of paged listings, and the
//! few rules by which the service reads a request and tells how it ended.

pub mod categories;
pub mod outcome;
pub mod pagination;
pub mod posts;
