//! Synced lyrics: the data model, tokenization and timing of lines, the alignment of a
//! word-timed source onto a guide text, and the byte ranges that karaoke rendering uses.
pub mod model;
pub mod timing;
pub mod alignment;
pub mod shape;
pub mod layout;
pub mod karaoke;
pub mod rows;
