//! A tag dictionary: catalogs of canonical tags with aliases, indexed for
//! fuzzy auto-completion and for exact lookup.
pub mod catalog;
pub mod coding;
pub mod engine;
pub mod laws;
pub mod normalize;
pub mod posting;
pub mod ranking;
pub mod text;
