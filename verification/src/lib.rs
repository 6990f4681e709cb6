//! Turns a manifest of third-party dependencies and their license texts into
//! a human-readable markdown report: a table of contents and a catalog of the
//! full license texts, with stable anchors linking the two.

pub mod converter;
pub mod manifest;
pub mod md_writer;
pub mod text;
