//! A tracker of free memory for a heap that grows at the program break.
//!
//! The heap is one segment of address space.  [`BlockList`] records which
//! ranges of it are free, sorted by address, and serves `allocate`, `free` and
//! `realloc` from those records.  When no recorded range is large enough it
//! moves the end of the segment upwards.  Every operation is proved to keep the
//! records sorted, merged and inside the segment.
//!
//! The list decides where memory is handed out; it never touches the memory
//! itself.  Its records are kept in a vector of their own, apart from the heap
//! that they describe, and the segment is a value that the caller keeps in
//! step with the system.
//!
//! - [`block`]: blocks and records; [`order`]: the order of blocks.
//! - [`segment`]: the segment and its growth.
//! - [`sizes`]: padding, the size of a growth, the room for records.
//! - [`ranges`]: what a sequence of records says about memory.
//! - [`edits`]: the changes that the operations make to the records.
//! - [`block_list`]: the list and its operations; [`outcome`]: what they
//!   return and leave behind.
//! - [`laws`]: what holds over several operations.
pub mod block;
pub mod order;
pub mod segment;
pub mod sizes;
pub mod ranges;
pub mod edits;
pub mod block_list;
pub mod outcome;
pub mod laws;

pub use block::{Block, BlockEntry};
pub use segment::{BrkError, Segment};
pub use block_list::{AllocError, BlockList, Resized};
pub use sizes::{aligner, canonicalize_brk, nearest_multiple};
