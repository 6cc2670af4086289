//! Compaction of photo tag and geotag listings: line grammars, a tag index,
//! a per-tag recency ranking and the line formats written back out.

pub mod text;
pub mod parse;
pub mod geotag;
pub mod timestamp;
pub mod compact;
pub mod tags;
pub mod rank;
