//! The aligners of the engine.
pub mod generic_builder;
pub mod let_like;
