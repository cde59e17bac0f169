//! An editable text buffer built on a piece table.
//!
//! The document is represented by two immutable byte arenas (the original
//! file contents and an append-only arena of inserted text) together with an
//! ordered list of spans whose in-order concatenation is the document.
//! Line-oriented reads, insertion, deletion and undo/redo are specified and
//! verified against a byte-sequence model of the document.

pub mod document;
pub mod doubly_linked_list;
pub mod text_buffer;
