//! Versioned file bundles, applied to a directory and updated without losing local edits.
#![allow(unused_imports)]

pub mod text;
pub mod path;
pub mod name;
pub mod digest;
pub mod format;
pub mod part;
pub mod survey;
pub mod profile;
pub mod plan;
pub mod merge;
pub mod vars;
pub mod template;
pub mod lexical;
pub mod source;
pub mod settings;
pub mod order;
pub mod errors;
pub mod collection;
pub mod gate;
pub mod target;
pub mod graph;
pub mod resolve;
pub mod commit;
pub mod rollback;
pub mod git;
pub mod blobs;
