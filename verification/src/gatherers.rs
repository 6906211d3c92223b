//! Data model and versioned registry for fact gatherers.

pub mod facts;
pub mod registry;
