//! Parsing, editing and rendering of changelogs in the Keep a Changelog format.
pub mod laws;
pub mod model;
pub mod parse;
pub mod render;
pub mod roundtrip;
pub mod text;
pub mod validate;
pub mod validity;
pub mod version;

pub use model::{parse_category, Category, Changelog, Entry, ParseError, Version};
