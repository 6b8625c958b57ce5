//! Lists whose nodes live in memory that the caller owns.
//!
//! The nodes are the elements of a vector that stands for that memory, and
//! a link is the index of a node in it.  A list holds its first (and for a
//! tail queue its last) node; every node holds the link to the next one
//! (and for a doubly linked list to the previous one).
pub mod slist;
pub mod list;
pub mod stailq;
