//! Prefix-closed lookup tables for named character references.
//!
//! A dataset of named character references (`&amp;` decodes to U+0026, and so
//! on) is turned into a table that a tokenizer can walk one character at a
//! time: besides every entity name the table holds every prefix of every
//! name, so that after each character the tokenizer knows whether the text
//! read so far can still grow into a name.

pub mod reference;
pub mod closure;
pub mod prefix_map;
pub mod builder;
pub mod theorems;

pub use builder::{build_map, normalize, MalformedEntity};
pub use closure::SENTINEL;
pub use prefix_map::PrefixMap;
pub use reference::{validate, CharacterReference, Defect, PrefixEntry, MARKER};
