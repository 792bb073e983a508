//! A read-only filesystem over a fixed directory layout whose file contents
//! live at remote URLs. The layout is numbered once into a table of nodes;
//! lookups, attributes, listings and reads are answered from that table, and
//! each URL's contents are fetched once and kept in memory.
//!
//! `config` holds the layout, `table` the nodes and their numbering, `fs` the
//! operations and the content cache.
pub mod config;
pub mod fs;
pub mod table;
