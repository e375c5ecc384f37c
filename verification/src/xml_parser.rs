//! Turns the markup events of a cached `LawService` document into ordinance data.

pub mod body;
pub mod metadata;
pub mod model;
