//! Explains English words by their morphemes: a curated morpheme table, a
//! segmenter that splits a word into prefixes, a root and suffixes, and the
//! query surface built on both.

pub mod error;
pub mod morpheme;
pub mod provenance;
pub mod text;
pub mod decomposition;
pub mod source;
pub mod ortho;
pub mod index;
pub mod segment;
pub mod db;
pub mod dataset;
pub mod importer;
pub mod store;
pub mod encode;
pub mod format;
pub mod http;
pub mod sources;
