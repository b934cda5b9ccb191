//! A doubly linked list whose nodes live in an index-addressed arena.
pub mod call_sequences;
mod linkedlist;

pub use linkedlist::{LinkedList, LinkedListIntoIter, LinkedListIter};
