//! A hierarchical task organizer.
//!
//! Entries form a tree rooted at a single folder: folders hold ordered
//! sequences of sub-entries (folders or tasks), tasks carry a completion
//! flag. The library owns the tree data model and its mutation, navigation
//! and snapshot logic; transport and rendering live outside it.

pub mod tree;
pub mod state;
pub mod codec;
pub mod laws;
