//! A loader for flat `key=value` configuration text whose dotted keys name
//! places in a tree of nested documents.
//!
//! `a.b.c = 1` stores the string `1` under `c`, in the document under `b`, in
//! the document under `a`. Blank lines, lines that start with `#` and lines
//! without `=` are skipped. Of two entries with the same key the later wins.
//! An entry whose key descends through a name that already holds a string is
//! refused with a `KeyConflict`.
//!
//! - `text`: whitespace, trimming, searching and splitting of characters.
//! - `line`: what one line gives.
//! - `tree`: the model of a document, of lookup and of insertion at a path.
//! - `json`: the `serde_json` map that stores the document.
//! - `config`: the document type and insertion at a dotted key.
//! - `load`: loading lines and whole texts.
//! - `laws`: what holds of every line and of every load.

pub mod config;
pub mod json;
pub mod laws;
pub mod line;
pub mod load;
pub mod text;
pub mod tree;

pub use config::{insert_key_value, Config, KeyConflict};
pub use line::parse_line;
pub use load::LoadError;
