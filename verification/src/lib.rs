//! Builds the objects of a Git repository from cached ordinance documents.
//!
//! Documents are planned by their metadata and put into the order of their dates. Each is then
//! parsed in full, rendered to Markdown, and committed. The commits, trees and blobs make up one
//! pack, for which an index is written.

pub mod bytes;
pub mod cache;
pub mod compile;
pub mod errors;
pub mod jurisdictions;
pub mod lex;
pub mod object;
pub mod pack;
pub mod pack_index;
pub mod pattern;
pub mod plan;
pub mod reading;
pub mod render;
pub mod repo;
pub mod repo_path;
pub mod run;
pub mod sort;
pub mod text;
pub mod timestamp;
pub mod tree;
pub mod xml_events;
pub mod xml_parser;
