//! The agent's configuration.

pub mod broker;
pub mod file;
pub mod laws;
pub mod paths;
pub mod schema;
pub mod validate;
