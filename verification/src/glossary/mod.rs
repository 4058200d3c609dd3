//! The glossary: official and custom terms, their cleaning, and matching.

pub mod entry;
pub mod matcher;
pub mod pattern;
pub mod seed;
pub mod store;

pub use entry::{Category, GlossaryEntry};
pub use matcher::{GlossaryMatcher, MatchedTerm};
pub use seed::SeedEntry;
pub use store::Glossary;
