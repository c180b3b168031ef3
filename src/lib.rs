//! Directory-tree listing with exclusion patterns and metadata annotations.
//!
//! - `exclude`: user patterns (globs or regular expressions) matched against
//!   single path components.
//! - `walk`: a depth-first, pre-order walk driven by directory listings.
//! - `model`: a finite directory tree, and what a walk of it records.
//! - `size`, `time`, `metadata`: the size and relative-time annotations.
//! - `render`: the text of one line of the listing.
pub mod text;
pub mod size;
pub mod time;
pub mod metadata;
pub mod exclude;
pub mod walk;
pub mod render;
pub mod model;
