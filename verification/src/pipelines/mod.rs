//! Pipelines: keyed values passed between the parts of a processing pipeline.
pub mod context_keys;
pub mod context;
pub mod activities;
