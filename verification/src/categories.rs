//! Categories: flat rows with a parent pointer, and the tree built from them.

pub mod chains;
pub mod ids;
pub mod laws;
pub mod lemmas;
pub mod model;
pub mod request;
pub mod tree;
