//! The localisation formats of the game and their mapping to translation
//! entries. `contentuid` and `version` are lookup handles that are never
//! rewritten; rich-text tags and placeholders are kept verbatim.

pub mod content_list;
pub mod loca;
pub mod lsx;
