//! Hash trees over the data of a time series family.
pub mod block;
pub mod error;
pub mod family;
pub mod family_laws;
pub mod hasher;
pub mod node;
pub mod protogen;
pub mod run_laws;
pub mod scan;
pub mod scan_laws;
pub mod schema;
pub mod service;
pub mod text;
pub mod time;
pub mod tree;
pub mod tree_laws;
