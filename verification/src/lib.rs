//! Indexing of text documents: chunks that end at sentence boundaries, the
//! language of the document, and the frequencies of its terms, per chunk
//! and over the whole document.

pub mod document;
pub mod frequency;
pub mod language;
pub mod normalize;
pub mod segment;
pub mod text;
