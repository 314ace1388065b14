//! A Keep-a-Changelog file model: parsing, rendering and editing.

pub mod text;
pub mod changelog;
pub mod flow;
pub mod display;
pub mod hook;
pub mod laws;
pub mod roundtrip;
