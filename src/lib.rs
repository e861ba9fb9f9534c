//! Persistence of vocabulary entries over a normalized relational store:
//! an entry and its children are written all or nothing, and read back as
//! one nested aggregate.
pub mod model;
pub mod relations;
pub mod store;
pub mod save;
pub mod laws;
