//! The engine around compiled models: the cache that they are kept in, and how they
//! are checked, loaded and driven.

pub mod artifact;
pub mod backend;
pub mod cache;
pub mod compiled;
pub mod decisions;
pub mod files;
pub mod session;
