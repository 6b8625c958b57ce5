//! Allocating lists: a singly linked list, a doubly linked list and a
//! singly linked tail queue.
pub mod slist;
pub mod list;
pub mod stailq;
