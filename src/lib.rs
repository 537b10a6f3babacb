//! Audit of installed Python distributions: version parsing and ordering,
//! distribution identity, requirement matching and per-environment
//! classification.
pub mod text;
pub mod version;
pub mod package;
pub mod name;
pub mod dep_spec;
pub mod manifest;
pub mod validate;
pub mod exe_search;
pub mod table;
