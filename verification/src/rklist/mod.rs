//! Allocating lists with positions: a singly linked list and a doubly
//! linked tail queue.
pub mod slist;
pub mod tailq;
