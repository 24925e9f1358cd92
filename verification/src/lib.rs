//! A family of verified linked-list variants, each built around a different
//! ownership discipline for the chain of nodes:
//!
//! - [`i32list`]: a LIFO stack of `i32` values with exclusively owned nodes;
//! - [`toughlist`]: the same stack generalised to any element type, with
//!   peeking and iteration;
//! - [`reflist`]: an immutable, structurally shared list built on reference
//!   counting;
//! - [`threadlist`]: the same persistent list, safe to share across threads;
//! - [`dubdeque`]: a double-ended queue of doubly linked nodes held in an
//!   index-based arena;
//! - [`unsafelist`]: a FIFO queue of singly linked nodes held in an
//!   index-based arena, with a cached tail index for constant-time append.
//!
//! Every list is specified by its view, a `Seq` of the elements from front to
//! back, and every operation's contract pins down the new view and the
//! returned value. Each owning variant offers an iterative `clear` routine
//! that releases the chain one node at a time, so that tearing down a long
//! list never recurses to the list's depth.

pub mod dubdeque;
pub mod i32list;
pub mod reflist;
pub mod threadlist;
pub mod toughlist;
pub mod unsafelist;
