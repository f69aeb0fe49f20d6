//! A personal reference-library engine.
//!
//! Records are imported from outside sources; the library gives them citation
//! keys, finds records that are probably duplicates of one another, abbreviates
//! and expands journal names, and writes the collection back into the text of
//! a bibliography file without disturbing what the user wrote around the
//! records.
//!
//! - [`text`]: text as sequences of characters, and the character classes.
//! - [`record`], [`library`]: records, and the library that holds them under
//!   unique keys.
//! - [`keygen`]: the configuration and the citation-key generator.
//! - [`formatter`]: the canonical text of one record.
//! - [`scanner`], [`merger`]: locating record blocks in a text, and merging a
//!   library into it.
//! - [`document`]: what a merge makes of a text that is given by its parts.
//! - [`stability`], [`closure`]: why a second merge changes nothing, and for
//!   which records.
//! - [`deduplicator`], [`review`]: duplicate groups and going through them.
//! - [`abbreviator`]: the dictionaries for journal names.
//! - [`undo`], [`editing`], [`action`]: a session with its history, the
//!   operations that change its library, and changes as values.
//! - [`sanitize`], [`search`]: cleaning imported text, and suggestions from a
//!   metadata search.
//! - [`bibtex`]: what is taken on trust from the `biblatex` crate.

pub mod abbreviator;
pub mod action;
pub mod bibtex;
pub mod closure;
pub mod deduplicator;
pub mod document;
pub mod editing;
pub mod formatter;
pub mod keygen;
pub mod library;
pub mod merger;
pub mod record;
pub mod review;
pub mod sanitize;
pub mod scanner;
pub mod search;
pub mod stability;
pub mod text;
pub mod undo;
