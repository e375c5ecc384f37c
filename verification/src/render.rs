//! Renders parsed ordinance data into Markdown bytes and commit messages.

pub mod document;
pub mod fields;
pub mod frontmatter;
pub mod markdown;
pub mod message;
pub mod path;
