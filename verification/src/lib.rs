//! A template-filling library.
//!
//! A document holds placeholder markers of the form `{{identifier}}`,
//! where the identifier is one or more ASCII alphanumeric bytes. Each
//! marker names a piece of content; filling a document means finding
//! every marker, resolving its identifier against a directory of
//! content, rendering the content from CommonMark to HTML, and
//! substituting the rendered text for the marker. Content that cannot
//! be resolved leaves its marker in place, verbatim.
//!
//! Documents and content are sequences of UTF-8 bytes; markers are
//! pure ASCII, so every operation here works byte by byte.

pub mod dir;
pub mod engine;
pub mod laws;
pub mod render;
pub mod scan;
pub mod subst;
