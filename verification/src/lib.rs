//! Genealogy charts from GEDCOM 5.5.1 files: parsing, merging, scoping and text layout.

pub mod genrep;
pub mod layout;
pub mod parser;
pub mod photos;
pub mod pref_text;
pub mod pref_tree;
pub mod prefs_dump;
pub mod preferences;
pub mod scene;
pub mod text;
pub mod timestamp;
pub mod trace;
pub mod util;
