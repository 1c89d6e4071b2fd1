//! Compiler for a small indentation-based outline language.
//!
//! A source file holds two kinds of sections, switched by marker lines:
//! import declarations, resolved into flat [`import::Dependency`] records,
//! and content lines, compiled in three passes into a forest of
//! [`endpoint::NeiEndpoint`] nodes rooted at a synthetic sentinel.

pub mod concat;
pub mod content;
pub mod endpoint;
pub mod engine;
pub mod find;
pub mod import;
pub mod parse;
pub mod roundtrip;
pub mod strip;
pub mod text;
