//! Core of an interactive flashcard tool: a typed card model, a class
//! hierarchy, an attribute-pattern resolution engine, a dependency graph
//! with a cached reverse index, and the state machine that retypes cards.
//!
//! Everything operates on an in-memory arena of cards ([`store::Store`]);
//! persistence, scheduling and terminal rendering live outside this crate.

pub mod actions;
pub mod attributes;
pub mod hierarchy;
pub mod store;
pub mod text;
pub mod transitions;
pub mod types;
