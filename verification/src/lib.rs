//! Decoder for Android's binary XML resource-chunk container format (the
//! encoding used for `AndroidManifest.xml` inside an APK archive).
//!
//! The format is a tree of length-prefixed binary chunks. A string pool chunk
//! interns all text; element chunks refer to it by index. This crate decodes
//! the chunk tree from an in-memory buffer and exposes the start elements with
//! their resolved attributes, together with queries over the decoded document.

pub mod chunk;
pub mod cursor;
pub mod utf16;
pub mod element;
pub mod encode;
pub mod error;
pub mod pool;
pub mod query;
