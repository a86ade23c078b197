//! A declarative source-patching engine.
//!
//! Given a named target text and a set of externally authored patch
//! declarations, the library produces a mutated copy of that text by
//! inserting, replacing, or deleting line ranges located via wildcard
//! pattern matching, and by appending externally supplied payload blocks.

pub mod manifest;
pub mod pattern;
pub mod ropebuf;
pub mod router;
pub mod text;
pub mod wild;
