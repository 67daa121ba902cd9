//! Persistence and consistency layer of a classroom points-reward tool.
//!
//! The store keeps classes, students, reward products and purchase records,
//! and maintains the derived data that ties them together: each class's
//! student count and each student's copy of its class name.

pub mod error;
pub mod laws;
pub mod location;
pub mod models;
pub mod ordering;
pub mod store;
pub mod system;
