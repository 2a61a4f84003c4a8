//! The alpha family of Petri net discovery algorithms.
pub mod provider;
pub mod alpha_set;
pub mod merge;
pub mod alpha;
pub mod two_sets;
pub mod relations_cache;
pub mod alpha_plus_nfc_provider;
pub mod alpha_plus_plus_nfc;
