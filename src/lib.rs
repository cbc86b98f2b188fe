//! Locating delimited blocks in the event stream of a Markdown document.
//!
//! A caller names which events open a block and which close one; the
//! segmenter groups the events of a document into flat, non-nested blocks
//! and records, for each, the byte range of the whole block and of its
//! interior.

pub mod block;
pub mod events;
pub mod laws;
