//! Filtered directory listings and the assembly of selected files into one
//! labelled text document.
//!
//! The library never touches the file system itself. A caller reads
//! directories and files and hands the outcomes over as plain values; the
//! library decides what is listed, in which order and at which indentation,
//! and how the final document is laid out.

pub mod text;
pub mod ignore;
pub mod scan;
pub mod aggregate;
pub mod outcome;
pub mod tree;
