//! A per-environment graph of services and the relationships between them:
//! the value types, a cache keyed by environment, a bounded breadth-first
//! neighbourhood query, and a validation pass that reports structural defects.

pub mod cycles;
pub mod environments;
pub mod error;
pub mod graph;
pub mod metadata;
pub mod relationship;
pub mod relationships;
pub mod service;
pub mod services;
pub mod state;
pub mod table;
pub mod text;
pub mod validation;
pub mod views;
