//! Indexes a corpus of Markdown files carrying YAML front matter and serves
//! free-text queries over it, interactively or in one shot.  The parsing,
//! change detection, synchronization planning and loop state live here, each
//! with its contract; the index engine sits behind the trusted wrappers of
//! `engine`.

pub mod checksum;
pub mod dates;
pub mod document;
pub mod engine;
pub mod front_matter;
pub mod interactive;
pub mod pipeline;
pub mod store;
pub mod text;
