//! Suggestions from a metadata search, as they are offered for import.

use crate::text::{chars_of, decimal, decimal_of, join, joined, push_all, string_of, views};
use vstd::prelude::*;

verus! {

/// A work that a search found: what is shown of it, and the DOI under which
/// it can be fetched.
#[derive(Clone, Debug)]
pub struct SearchResultItem {
    pub title: String,
    pub author: String,
    pub year: String,
    pub doi: String,
}

/// The mathematical value of a [`SearchResultItem`].
pub struct SearchResultView {
    pub title: Seq<char>,
    pub author: Seq<char>,
    pub year: Seq<char>,
    pub doi: Seq<char>,
}

impl View for SearchResultItem {
    type V = SearchResultView;

    open spec fn view(&self) -> SearchResultView {
        SearchResultView { title: self.title@, author: self.author@, year: self.year@, doi: self.doi@ }
    }
}

/// An author as a search service names them; either name may be missing.
#[derive(Clone, Debug)]
pub struct RawAuthor {
    pub given: Option<String>,
    pub family: Option<String>,
}

/// A work as a search service describes it; every part may be missing.
#[derive(Clone, Debug)]
pub struct RawSuggestion {
    pub title: Option<String>,
    pub doi: Option<String>,
    pub year: Option<i64>,
    pub authors: Option<Vec<RawAuthor>>,
}

/// The text of an optional string, or `fallback`.
pub open spec fn text_or(s: Option<String>, fallback: Seq<char>) -> Seq<char> {
    match s {
        Some(t) => t@,
        None => fallback,
    }
}

/// The numeral of a year, with a minus sign before a negative one.
pub open spec fn year_text(y: int) -> Seq<char> {
    if y < 0 {
        seq!['-'] + decimal((-y) as nat)
    } else {
        decimal(y as nat)
    }
}

/// The names shown for the first `n` authors: given name, a space, family
/// name, for each author that has a family name.
pub open spec fn shown_names(authors: Seq<RawAuthor>, n: int) -> Seq<Seq<char>>
    decreases n,
{
    if n <= 0 || n > authors.len() {
        Seq::empty()
    } else {
        let before = shown_names(authors, n - 1);
        match authors[n - 1].family {
            Some(family) => before.push(text_or(authors[n - 1].given, Seq::empty()) + seq![' '] + family@),
            None => before,
        }
    }
}

/// How the authors of a work are shown: the first three at most, separated
/// by commas, or `Unknown Author` if the service names none.
pub open spec fn author_text(authors: Option<Vec<RawAuthor>>) -> Seq<char> {
    match authors {
        Some(list) => joined(
            shown_names(
                list@,
                if list@.len() < 3 {
                    list@.len() as int
                } else {
                    3
                },
            ),
            seq![',', ' '],
        ),
        None => "Unknown Author"@,
    }
}

/// What is offered of a work, or `None` for a work without a DOI, which
/// could not be fetched.
pub open spec fn suggested(raw: RawSuggestion) -> Option<SearchResultView> {
    if text_or(raw.doi, Seq::empty()).len() == 0 {
        None
    } else {
        Some(
            SearchResultView {
                title: text_or(raw.title, "No Title"@),
                author: author_text(raw.authors),
                year: match raw.year {
                    Some(y) => year_text(y as int),
                    None => "Unknown"@,
                },
                doi: text_or(raw.doi, Seq::empty()),
            },
        )
    }
}

/// The suggestions made of the first `n` works, in their order.
pub open spec fn suggested_upto(raws: Seq<RawSuggestion>, n: int) -> Seq<SearchResultView>
    decreases n,
{
    if n <= 0 || n > raws.len() {
        Seq::empty()
    } else {
        match suggested(raws[n - 1]) {
            Some(item) => suggested_upto(raws, n - 1).push(item),
            None => suggested_upto(raws, n - 1),
        }
    }
}

/// The views of the items in `v`.
pub open spec fn result_views(v: Seq<SearchResultItem>) -> Seq<SearchResultView> {
    Seq::new(v.len(), |i: int| v[i]@)
}

/// The numeral of a year.
fn year_of(y: i64) -> (r: Vec<char>)
    ensures
        r@ == year_text(y as int),
{
    if y < 0 {
        let mut r: Vec<char> = vec!['-'];
        let digits = decimal_of((-(y as i128)) as u128);
        push_all(&mut r, &digits);
        assert(r@ =~= year_text(y as int));
        r
    } else {
        decimal_of(y as u128)
    }
}

/// How the authors of a work are shown.
fn authors_of(authors: &Option<Vec<RawAuthor>>) -> (r: String)
    ensures
        r@ == author_text(*authors),
{
    match authors {
        Some(list) => {
            let limit: usize = if list.len() < 3 {
                list.len()
            } else {
                3
            };
            let mut names: Vec<Vec<char>> = Vec::new();
            let mut i: usize = 0;
            while i < limit
                invariant
                    i <= limit <= list.len(),
                    views(names@) == shown_names(list@, i as int),
                decreases limit - i,
            {
                let ghost before = views(names@);
                match &list[i].family {
                    Some(family) => {
                        let mut name: Vec<char> = match &list[i].given {
                            Some(given) => chars_of(given.as_str()),
                            None => Vec::new(),
                        };
                        name.push(' ');
                        push_all(&mut name, &chars_of(family.as_str()));
                        assert(name@ =~= text_or(list@[i as int].given, Seq::empty()) + seq![' ']
                            + family@);
                        names.push(name);
                        assert(views(names@) =~= before.push(
                            text_or(list@[i as int].given, Seq::empty()) + seq![' '] + family@,
                        ));
                    },
                    None => {},
                }
                i += 1;
            }
            let comma: Vec<char> = vec![',', ' '];
            assert(comma@ =~= seq![',', ' ']);
            string_of(&join(&names, &comma))
        },
        None => "Unknown Author".to_owned(),
    }
}

/// Makes the suggestion that is offered of a work. A missing title shows as
/// `No Title`, a missing year as `Unknown`, missing authors as
/// `Unknown Author`. A work without a DOI is not offered.
pub fn suggestion_of(raw: &RawSuggestion) -> (r: Option<SearchResultItem>)
    ensures
        match r {
            Some(item) => suggested(*raw) == Some(item@),
            None => suggested(*raw) is None,
        },
{
    let doi = match &raw.doi {
        Some(d) => d.clone(),
        None => String::new(),
    };
    if doi.as_str().unicode_len() == 0 {
        return None;
    }
    let title = match &raw.title {
        Some(t) => t.clone(),
        None => "No Title".to_owned(),
    };
    let year = match raw.year {
        Some(y) => string_of(&year_of(y)),
        None => "Unknown".to_owned(),
    };
    Some(SearchResultItem { title, author: authors_of(&raw.authors), year, doi })
}

/// Makes the suggestions that are offered of the works a search found, in
/// their order, leaving out the works without a DOI.
pub fn suggestions_of(raws: &Vec<RawSuggestion>) -> (items: Vec<SearchResultItem>)
    ensures
        result_views(items@) == suggested_upto(raws@, raws@.len() as int),
{
    let mut items: Vec<SearchResultItem> = Vec::new();
    let mut i: usize = 0;
    assert(result_views(items@) =~= suggested_upto(raws@, 0));
    while i < raws.len()
        invariant
            i <= raws.len(),
            result_views(items@) == suggested_upto(raws@, i as int),
        decreases raws.len() - i,
    {
        let ghost before = result_views(items@);
        match suggestion_of(&raws[i]) {
            Some(item) => {
                items.push(item);
                assert(result_views(items@) =~= before.push(item@));
            },
            None => {},
        }
        i += 1;
    }
    items
}

} // verus!
