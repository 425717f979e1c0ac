//! Decoding and encoding of Android's compiled binary resource formats: the
//! resource table and compiled binary XML documents.

pub mod error;
pub mod text;
pub mod document;
pub mod element;
pub mod chunk;
pub mod namespace;
pub mod string_pool;
pub mod xml;
