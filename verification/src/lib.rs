//! A "tail list": a singly linked list in which every node also carries a
//! back-link naming the link slot that currently owns it.  The list supports
//! constant-time forward traversal through cursors, constant-time insertion
//! and removal at any handle, and splitting a traversal into a passive head
//! handle plus an independent cursor over the remaining tail.
//!
//! Nodes live in an arena of slots inside the list; handles are slot indices.
//! A ghost sequence records the chain of slots from the head link to the end
//! of the list, and the well-formedness predicate ties every forward link and
//! every back-link to that chain.

pub mod laws;
pub mod list;

pub use list::Cursor;
pub use list::LinkId;
pub use list::TailList;
pub use list::TailValRef;
pub use list::ValRef;
