//! Finds a fixed run of markers in a byte stream that arrives in fragments,
//! gathers the text between them into a header and a body, and decodes the
//! HTML escapes of that text, without ever holding the whole stream.
//!
//! `scanner` drives the stages of the scan over a fragment; `needle` is the
//! search that survives a fragment boundary and `extract` the gathering
//! around it; `unescape` decodes a finished text in place, and `plain` and
//! `cursor` state what holds of that pass; `link` and `config` hold the few
//! decisions of the program around the scan.

pub mod config;
pub mod cursor;
pub mod extract;
pub mod link;
pub mod needle;
pub mod plain;
pub mod scanner;
pub mod state;
pub mod text;
pub mod unescape;
