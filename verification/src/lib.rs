//! An ordered key–value map implemented as a B+Tree, with an in-memory
//! backend and a disk-oriented backend whose nodes carry stable identities
//! and dirty flags and are exchanged with their backing files as plain
//! bytes: persistence hands out file plans, and loading asks for node
//! files one identity at a time.
use vstd::prelude::*;

pub mod disk;
pub mod ident;
pub mod image;
pub mod mem;
pub mod set;
pub mod sorted;

pub use disk::BPTree;
pub use mem::BPTreeMap;
pub use set::BPTreeSet;
