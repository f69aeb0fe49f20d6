//! What the library has from the `biblatex` crate: the parsing of name lists
//! and the entry types that plain BibTeX knows. Nothing in this module is
//! proved; each item says what is taken on trust.

use crate::record::{chunk_views, Chunk, ChunkView};
use vstd::prelude::*;

verus! {

/// A person named in an `author` or `editor` field.
#[derive(Clone, Debug)]
pub struct Person {
    /// The family name.
    pub name: String,
    /// The given name.
    pub given_name: String,
    /// What stands between given name and family name, such as "von".
    pub prefix: String,
    /// What follows the family name, such as "Jr.".
    pub suffix: String,
}

/// The mathematical value of a [`Person`].
pub struct PersonView {
    pub name: Seq<char>,
    pub given_name: Seq<char>,
    pub prefix: Seq<char>,
    pub suffix: Seq<char>,
}

impl View for Person {
    type V = PersonView;

    open spec fn view(&self) -> PersonView {
        PersonView {
            name: self.name@,
            given_name: self.given_name@,
            prefix: self.prefix@,
            suffix: self.suffix@,
        }
    }
}

/// The views of the persons in `v`.
pub open spec fn person_views(v: Seq<Person>) -> Seq<PersonView> {
    Seq::new(v.len(), |i: int| v[i]@)
}

/// The persons that `biblatex` reads out of a name list.
pub uninterp spec fn parsed_persons(chunks: Seq<ChunkView>) -> Seq<PersonView>;

/// Reads a name list with `biblatex`'s parser for `Vec<Person>`
/// (`ChunksExt::parse`), the chunks carrying empty source positions. Taken on
/// trust: the persons depend on the chunks alone. Which names come out of
/// which text is not stated.
#[verifier::external_body]
pub(crate) fn parse_persons(chunks: &Vec<Chunk>) -> (r: Vec<Person>)
    ensures
        person_views(r@) == parsed_persons(chunk_views(chunks@)),
{
    let outside: Vec<biblatex::Spanned<biblatex::Chunk>> = chunks.iter().map(|c| biblatex::Spanned::zero(match c {
        Chunk::Normal(s) => biblatex::Chunk::Normal(s.clone()),
        Chunk::Verbatim(s) => biblatex::Chunk::Verbatim(s.clone()),
        Chunk::Math(s) => biblatex::Chunk::Math(s.clone()),
    })).collect();
    let persons: Vec<biblatex::Person> = biblatex::ChunksExt::parse(&outside[..]).unwrap_or_default();
    persons.into_iter().map(|p| Person {
        name: p.name,
        given_name: p.given_name,
        prefix: p.prefix,
        suffix: p.suffix,
    }).collect()
}


/// The name under which plain BibTeX knows an entry type. The name stands for
/// three steps of `biblatex` in a row: the tag is read as an entry type, case
/// disregarded and aliases resolved (`EntryType::new`); that type is mapped to
/// one that plain BibTeX supports (`EntryType::to_bibtex`); and the mapped type
/// is printed (`Display`). Each step, and so the name, is a function of the
/// tag alone.
pub uninterp spec fn bibtex_type(entry_type: Seq<char>) -> Seq<char>;

/// Reads a type tag with `EntryType::new`, maps it with
/// `EntryType::to_bibtex` to a type that plain BibTeX supports, and prints
/// that type. Taken on trust: the printed name depends on the tag alone.
#[verifier::external_body]
pub(crate) fn bibtex_kind(entry_type: &str) -> (r: String)
    ensures
        r@ == bibtex_type(entry_type@),
{
    biblatex::EntryType::new(entry_type).to_bibtex().to_string()
}


} // verus!
