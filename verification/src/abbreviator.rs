//! Journal names and their abbreviations.
//!
//! An [`AbbreviationIndex`] is built once from two dictionaries, handed in as
//! text: a JSON object that maps full journal names to their official
//! abbreviations, and a table of single words with their abbreviations. It is
//! read-only afterwards.

use crate::keygen::string_views;
use crate::text::{chars_eq, chars_of, copy_chars, is_not_alpha, join, joined, keep_alphanumeric, lowercase, normalized, split_whitespace, str_lowercase, string_of, strip_non_alphabetic, stripped, title_case, title_cased, trim, trimmed, views, words};
use vstd::prelude::*;

verus! {

/// The built-in word table: a header row, then one word and its abbreviation
/// per row.
pub const STARTER_LTWA: &'static str = "\nWord,Abbreviation\nJournal,J.\nAmerican,Am.\nChemical,Chem.\nSociety,Soc.\nPhysics,Phys.\nReview,Rev.\nLetters,Lett.\nNature,Nature\nScience,Science\nCommunications,Commun.\nAdvanced,Adv.\nMaterials,Mater.\nInternational,Int.\nResearch,Res.\nEngineering,Eng.\nBiomedical,Biomed.\nTransactions,Trans.\n";

/// An entry of a dictionary.
pub struct Pair {
    pub key: Vec<char>,
    pub value: Vec<char>,
}

/// The mathematical value of a [`Pair`].
pub struct PairView {
    pub key: Seq<char>,
    pub value: Seq<char>,
}

impl View for Pair {
    type V = PairView;

    open spec fn view(&self) -> PairView {
        PairView { key: self.key@, value: self.value@ }
    }
}

/// The views of the pairs in `v`.
pub open spec fn pair_views(v: Seq<Pair>) -> Seq<PairView> {
    Seq::new(v.len(), |i: int| v[i]@)
}

/// The position of the first entry with the key `key`, or the number of
/// entries if there is none.
pub open spec fn position(d: Seq<PairView>, key: Seq<char>) -> int
    decreases d.len(),
{
    if d.len() == 0 || d[0].key == key {
        0
    } else {
        1 + position(d.drop_first(), key)
    }
}

/// What the dictionary holds under `key`.
pub open spec fn looked_up(d: Seq<PairView>, key: Seq<char>) -> Option<Seq<char>> {
    if 0 <= position(d, key) < d.len() {
        Some(d[position(d, key)].value)
    } else {
        None
    }
}

/// The dictionary after `value` was put under `key`: in the place of the
/// entry with that key, or at the end if there is none.
pub open spec fn put(d: Seq<PairView>, key: Seq<char>, value: Seq<char>) -> Seq<PairView> {
    if 0 <= position(d, key) < d.len() {
        d.update(position(d, key), PairView { key, value })
    } else {
        d.push(PairView { key, value })
    }
}

/// `position` points at the first entry with the key.
pub proof fn lemma_position(d: Seq<PairView>, key: Seq<char>)
    ensures
        0 <= position(d, key) <= d.len(),
        position(d, key) < d.len() ==> d[position(d, key)].key == key,
        forall|i: int| 0 <= i < position(d, key) ==> (#[trigger] d[i]).key != key,
    decreases d.len(),
{
    if d.len() > 0 && d[0].key != key {
        let rest = d.drop_first();
        lemma_position(rest, key);
        assert forall|i: int| 0 <= i < position(d, key) implies (#[trigger] d[i]).key != key by {
            if i > 0 {
                assert(d[i] == rest[i - 1]);
            }
        }
    }
}

/// If an entry has the key and none before it has, it is where `position`
/// points.
pub proof fn lemma_position_is(d: Seq<PairView>, key: Seq<char>, p: int)
    requires
        0 <= p <= d.len(),
        p < d.len() ==> d[p].key == key,
        forall|i: int| 0 <= i < p ==> (#[trigger] d[i]).key != key,
    ensures
        position(d, key) == p,
{
    lemma_position(d, key);
    let q = position(d, key);
    if q < p {
        assert(d[q].key != key);
    } else if q > p {
        assert(d[p].key != key);
    }
}

/// What was put under a key is found there, and nothing else changes.
pub proof fn lemma_put(d: Seq<PairView>, key: Seq<char>, value: Seq<char>, other: Seq<char>)
    ensures
        looked_up(put(d, key, value), other) == if other == key {
            Some(value)
        } else {
            looked_up(d, other)
        },
{
    lemma_position(d, key);
    lemma_position(d, other);
    let out = put(d, key, value);
    let p = position(d, key);
    let q = position(d, other);
    if other == key {
        assert forall|i: int| 0 <= i < p implies (#[trigger] out[i]).key != key by {
            assert(out[i] == d[i]);
        }
        lemma_position_is(out, key, p);
    } else {
        assert forall|i: int| 0 <= i < q implies (#[trigger] out[i]).key != other by {
            if i < d.len() {
                assert(out[i].key == d[i].key);
            }
        }
        if q < d.len() {
            assert(out[q].key == d[q].key);
            lemma_position_is(out, other, q);
        } else {
            assert forall|i: int| 0 <= i < out.len() implies (#[trigger] out[i]).key != other by {
                if i < d.len() {
                    assert(out[i].key == d[i].key);
                }
            }
            lemma_position_is(out, other, out.len() as int);
        }
    }
}

/// A dictionary: values under keys, in the order in which the keys came.
pub struct Dictionary {
    pub entries: Vec<Pair>,
}

impl View for Dictionary {
    type V = Seq<PairView>;

    open spec fn view(&self) -> Seq<PairView> {
        pair_views(self.entries@)
    }
}

impl Dictionary {
    /// A dictionary without entries.
    pub fn new() -> (d: Dictionary)
        ensures
            d@ == Seq::<PairView>::empty(),
    {
        let d = Dictionary { entries: Vec::new() };
        assert(d@ =~= Seq::<PairView>::empty());
        d
    }

    /// The number of entries.
    pub fn len(&self) -> (n: usize)
        ensures
            n == self@.len(),
    {
        self.entries.len()
    }

    /// The position of the entry with the key `key`.
    fn find(&self, key: &Vec<char>) -> (p: usize)
        ensures
            p == position(self@, key@),
            p <= self.entries.len(),
    {
        let ghost all = self@;
        let mut p: usize = 0;
        assert(all.skip(0) == all);
        while p < self.entries.len()
            invariant
                p <= self.entries.len(),
                all == self@,
                position(all, key@) == p + position(all.skip(p as int), key@),
            decreases self.entries.len() - p,
        {
            assert(all.skip(p as int)[0] == all[p as int]);
            if chars_eq(&self.entries[p].key, key) {
                return p;
            }
            assert(all.skip(p as int).drop_first() == all.skip(p + 1));
            p += 1;
        }
        p
    }

    /// What the dictionary holds under `key`.
    pub fn lookup(&self, key: &Vec<char>) -> (r: Option<&Vec<char>>)
        ensures
            match r {
                Some(v) => looked_up(self@, key@) == Some(v@),
                None => looked_up(self@, key@) is None,
            },
    {
        let p = self.find(key);
        if p < self.entries.len() {
            Some(&self.entries[p].value)
        } else {
            None
        }
    }

    /// Puts `value` under `key`.
    pub fn put(&mut self, key: Vec<char>, value: Vec<char>)
        ensures
            final(self)@ == put(old(self)@, key@, value@),
    {
        let p = self.find(&key);
        if p < self.entries.len() {
            self.entries.set(p, Pair { key, value });
        } else {
            self.entries.push(Pair { key, value });
        }
        assert(self@ =~= put(old(self)@, key@, value@));
    }

    /// What the dictionary holds under `key`.
    pub fn get(&self, key: &str) -> (r: Option<String>)
        ensures
            match r {
                Some(v) => looked_up(self@, key@) == Some(v@),
                None => looked_up(self@, key@) is None,
            },
    {
        match self.lookup(&chars_of(key)) {
            Some(v) => Some(string_of(v)),
            None => None,
        }
    }

    /// Puts `value` under `key`.
    pub fn insert(&mut self, key: &str, value: &str)
        ensures
            final(self)@ == put(old(self)@, key@, value@),
    {
        self.put(chars_of(key), chars_of(value));
    }
}

/// The names and values of the JSON object that `text` is, in the order of
/// the names, or `None` if `text` is no JSON object of strings.
pub uninterp spec fn json_object(text: Seq<char>) -> Option<Seq<(Seq<char>, Seq<char>)>>;

/// The rows that the `csv` reader finds in `text` after the header row, each
/// with its fields, or `None` for a row that it cannot read.
pub uninterp spec fn csv_records(text: Seq<char>) -> Seq<Option<Seq<Seq<char>>>>;

/// The views of the string pairs in `v`.
pub open spec fn string_pairs(v: Seq<(String, String)>) -> Seq<(Seq<char>, Seq<char>)> {
    Seq::new(v.len(), |i: int| (v[i].0@, v[i].1@))
}

/// The views of the rows in `v`.
pub open spec fn row_views(v: Seq<Option<Vec<String>>>) -> Seq<Option<Seq<Seq<char>>>> {
    Seq::new(
        v.len(),
        |i: int|
            match v[i] {
                Some(fields) => Some(string_views(fields@)),
                None => None,
            },
    )
}

/// `serde_json::from_str` into a map from strings to strings that is ordered
/// by key. Taken on trust: whether the text is read, and the pairs that come
/// out, depend on the text alone.
#[verifier::external_body]
pub(crate) fn parse_json_object(text: &str) -> (r: Option<Vec<(String, String)>>)
    ensures
        match r {
            Some(pairs) => json_object(text@) == Some(string_pairs(pairs@)),
            None => json_object(text@) is None,
        },
{
    match serde_json::from_str::<std::collections::BTreeMap<String, String>>(text) {
        Ok(map) => Some(map.into_iter().collect()),
        Err(_) => None,
    }
}

/// Reads `text` with a `csv::Reader` that takes the first row for a header
/// (`ReaderBuilder::from_reader`, `Reader::records`). Taken on trust: the rows
/// depend on the text alone.
#[verifier::external_body]
pub(crate) fn read_csv(text: &str) -> (r: Vec<Option<Vec<String>>>)
    ensures
        row_views(r@) == csv_records(text@),
{
    let mut reader = csv::ReaderBuilder::new().has_headers(true).from_reader(text.as_bytes());
    reader.records().map(|row| row.ok().map(|rec| rec.iter().map(String::from).collect())).collect()
}

/// The exact map made of name and abbreviation pairs: each abbreviation
/// under its name in lower case, a later pair replacing an earlier one with
/// the same lower-case name.
pub open spec fn exact_from(pairs: Seq<(Seq<char>, Seq<char>)>) -> Seq<PairView>
    decreases pairs.len(),
{
    if pairs.len() == 0 {
        Seq::empty()
    } else {
        put(exact_from(pairs.drop_last()), str_lowercase(pairs.last().0), pairs.last().1)
    }
}

/// The exact map of a session: read from the text of the override file if
/// there is one and it can be read, else from the built-in text; empty if
/// that cannot be read either.
pub open spec fn exact_map(embedded: Seq<char>, disk: Option<Seq<char>>) -> Seq<PairView> {
    if disk is Some && json_object(disk->0) is Some {
        exact_from(json_object(disk->0)->0)
    } else if json_object(embedded) is Some {
        exact_from(json_object(embedded)->0)
    } else {
        Seq::empty()
    }
}

/// `d` with the rows of the built-in word table: a row with at least two
/// fields puts the second under the first in lower case.
pub open spec fn with_starter_rows(
    d: Seq<PairView>,
    rows: Seq<Option<Seq<Seq<char>>>>,
) -> Seq<PairView>
    decreases rows.len(),
{
    if rows.len() == 0 {
        d
    } else {
        let before = with_starter_rows(d, rows.drop_last());
        match rows.last() {
            Some(fields) => if fields.len() >= 2 {
                put(before, str_lowercase(fields[0]), fields[1])
            } else {
                before
            },
            None => before,
        }
    }
}

/// Field `i` of a row, or nothing if the row is shorter.
pub open spec fn field_or_empty(fields: Seq<Seq<char>>, i: int) -> Seq<char> {
    if 0 <= i < fields.len() {
        fields[i]
    } else {
        Seq::empty()
    }
}

/// `d` with the rows of an override word table: a row whose first field is
/// not empty in lower case puts its second field there, an absent field
/// counting as empty.
pub open spec fn with_override_rows(
    d: Seq<PairView>,
    rows: Seq<Option<Seq<Seq<char>>>>,
) -> Seq<PairView>
    decreases rows.len(),
{
    if rows.len() == 0 {
        d
    } else {
        let before = with_override_rows(d, rows.drop_last());
        match rows.last() {
            Some(fields) => if str_lowercase(field_or_empty(fields, 0)).len() > 0 {
                put(before, str_lowercase(field_or_empty(fields, 0)), field_or_empty(fields, 1))
            } else {
                before
            },
            None => before,
        }
    }
}

/// The word map of a session: the built-in table overlaid with the override
/// table, if there is one. An override entry replaces the built-in entry for
/// the same word.
pub open spec fn word_map(embedded: Seq<char>, disk: Option<Seq<char>>) -> Seq<PairView> {
    let starter = with_starter_rows(Seq::empty(), csv_records(embedded));
    match disk {
        Some(text) => with_override_rows(starter, csv_records(text)),
        None => starter,
    }
}

/// Whether the entry `e` of an exact map answers to `key` in the reverse
/// map: `key` is its abbreviation in lower case, or its abbreviation
/// normalized.
pub open spec fn claims(e: PairView, key: Seq<char>) -> bool {
    str_lowercase(e.value) == key || normalized(e.value) == key
}

/// The reverse map of an exact map: each full name under its abbreviation in
/// lower case and under its abbreviation normalized, a later entry of the
/// exact map replacing an earlier one under the same key.
pub open spec fn reverse_of(exact: Seq<PairView>) -> Seq<PairView>
    decreases exact.len(),
{
    if exact.len() == 0 {
        Seq::empty()
    } else {
        put(
            put(reverse_of(exact.drop_last()), str_lowercase(exact.last().value), exact.last().key),
            normalized(exact.last().value),
            exact.last().key,
        )
    }
}

/// The words that an abbreviation leaves out.
pub open spec fn stopwords() -> Seq<Seq<char>> {
    seq![
        "of"@,
        "the"@,
        "and"@,
        "in"@,
        "for"@,
        "on"@,
        "to"@,
        "with"@,
        "a"@,
        "an"@,
        "at"@,
        "by"@,
        "from"@,
    ]
}

/// A word as it is looked up: in lower case, without what is not alphabetic
/// at its two ends.
pub open spec fn clean_word(token: Seq<char>) -> Seq<char> {
    stripped(str_lowercase(token), is_not_alpha())
}

/// The words of an abbreviation made word by word: stopwords are left out,
/// a word of the word map is replaced by its abbreviation, any other word
/// stays as it is.
pub open spec fn abbreviated_words(
    word_map: Seq<PairView>,
    tokens: Seq<Seq<char>>,
) -> Seq<Seq<char>>
    decreases tokens.len(),
{
    if tokens.len() == 0 {
        Seq::empty()
    } else {
        let before = abbreviated_words(word_map, tokens.drop_last());
        let w = clean_word(tokens.last());
        if stopwords().contains(w) {
            before
        } else {
            match looked_up(word_map, w) {
                Some(abbr) => before.push(abbr),
                None => before.push(tokens.last()),
            }
        }
    }
}

/// The mathematical value of an [`AbbreviationIndex`].
pub struct IndexView {
    pub exact: Seq<PairView>,
    pub words: Seq<PairView>,
    pub reverse: Seq<PairView>,
}

/// The abbreviation of a journal title: nothing for a blank title; the
/// official abbreviation if the exact map has the whole title; else the
/// title abbreviated word by word.
pub open spec fn abbreviated(index: IndexView, title: Seq<char>) -> Seq<char> {
    let t = trimmed(title);
    if t.len() == 0 {
        Seq::empty()
    } else {
        match looked_up(index.exact, str_lowercase(t)) {
            Some(abbr) => abbr,
            None => joined(abbreviated_words(index.words, words(t)), seq![' ']),
        }
    }
}

/// The full title behind an abbreviation, in title case: what the reverse
/// map holds under the text in lower case or, failing that, under the text
/// normalized.
pub open spec fn unabbreviated(index: IndexView, text: Seq<char>) -> Option<Seq<char>> {
    match looked_up(index.reverse, str_lowercase(text)) {
        Some(full) => Some(title_cased(full)),
        None => match looked_up(index.reverse, normalized(text)) {
            Some(full) => Some(title_cased(full)),
            None => None,
        },
    }
}

/// The lookup tables for journal names: the exact map from full names in
/// lower case to abbreviations, the word map, and the reverse of the exact
/// map.
pub struct AbbreviationIndex {
    pub exact: Dictionary,
    pub words: Dictionary,
    pub reverse: Dictionary,
}

impl View for AbbreviationIndex {
    type V = IndexView;

    open spec fn view(&self) -> IndexView {
        IndexView { exact: self.exact@, words: self.words@, reverse: self.reverse@ }
    }
}

/// The stopwords.
pub fn get_stopwords() -> (r: Vec<&'static str>)
    ensures
        r@.len() == stopwords().len(),
        forall|i: int| 0 <= i < r@.len() ==> (#[trigger] r@[i])@ == stopwords()[i],
{
    let mut r: Vec<&'static str> = Vec::new();
    r.push("of");
    r.push("the");
    r.push("and");
    r.push("in");
    r.push("for");
    r.push("on");
    r.push("to");
    r.push("with");
    r.push("a");
    r.push("an");
    r.push("at");
    r.push("by");
    r.push("from");
    r
}

/// Whether `word` is a stopword.
fn is_stopword(word: &Vec<char>) -> (r: bool)
    ensures
        r == stopwords().contains(word@),
{
    let stops = get_stopwords();
    let mut i: usize = 0;
    while i < stops.len()
        invariant
            i <= stops.len(),
            stops@.len() == stopwords().len(),
            forall|k: int| 0 <= k < stops@.len() ==> (#[trigger] stops@[k])@ == stopwords()[k],
            forall|k: int| 0 <= k < i ==> stopwords()[k] != word@,
        decreases stops.len() - i,
    {
        let s = chars_of(stops[i]);
        if chars_eq(&s, word) {
            assert(stopwords()[i as int] == word@);
            return true;
        }
        i += 1;
    }
    false
}

/// Lowercases `input` after removing every character that is not
/// alphanumeric, so that `Phys. Rev. B` and `phys rev b` give the same key.
pub fn normalize_key(input: &str) -> (r: String)
    ensures
        r@ == normalized(input@),
{
    let kept = keep_alphanumeric(&chars_of(input));
    string_of(&lowercase(&kept))
}

/// Makes the exact map of name and abbreviation pairs.
pub fn exact_from_pairs(pairs: &Vec<(String, String)>) -> (d: Dictionary)
    ensures
        d@ == exact_from(string_pairs(pairs@)),
{
    let mut d = Dictionary::new();
    let mut i: usize = 0;
    assert(string_pairs(pairs@).take(0) =~= Seq::<(Seq<char>, Seq<char>)>::empty());
    while i < pairs.len()
        invariant
            i <= pairs.len(),
            d@ == exact_from(string_pairs(pairs@).take(i as int)),
        decreases pairs.len() - i,
    {
        proof {
            let t = string_pairs(pairs@).take(i + 1);
            assert(t.drop_last() == string_pairs(pairs@).take(i as int));
            assert(t.last() == (pairs@[i as int].0@, pairs@[i as int].1@));
        }
        let name = chars_of(pairs[i].0.as_str());
        d.put(lowercase(&name), chars_of(pairs[i].1.as_str()));
        i += 1;
    }
    assert(string_pairs(pairs@).take(pairs.len() as int) == string_pairs(pairs@));
    d
}

/// Loads the exact map of a session from the text of the built-in dictionary
/// and, if there is one, the text of the override file. An override that can
/// be read stands in place of the built-in dictionary.
pub fn load_exact_map(embedded: &str, disk: Option<&str>) -> (d: Dictionary)
    ensures
        d@ == exact_map(
            embedded@,
            match disk {
                Some(t) => Some(t@),
                None => None,
            },
        ),
{
    if let Some(text) = disk {
        if let Some(pairs) = parse_json_object(text) {
            return exact_from_pairs(&pairs);
        }
    }
    match parse_json_object(embedded) {
        Some(pairs) => exact_from_pairs(&pairs),
        None => Dictionary::new(),
    }
}

/// Adds the rows of the built-in word table to `d`.
pub fn add_starter_rows(d: &mut Dictionary, rows: &Vec<Option<Vec<String>>>)
    ensures
        final(d)@ == with_starter_rows(old(d)@, row_views(rows@)),
{
    let mut i: usize = 0;
    assert(row_views(rows@).take(0) =~= Seq::<Option<Seq<Seq<char>>>>::empty());
    while i < rows.len()
        invariant
            i <= rows.len(),
            d@ == with_starter_rows(old(d)@, row_views(rows@).take(i as int)),
        decreases rows.len() - i,
    {
        proof {
            let t = row_views(rows@).take(i + 1);
            assert(t.drop_last() == row_views(rows@).take(i as int));
            assert(t.last() == row_views(rows@)[i as int]);
        }
        match &rows[i] {
            Some(fields) => {
                if fields.len() >= 2 {
                    assert(string_views(fields@)[0] == fields@[0]@);
                    assert(string_views(fields@)[1] == fields@[1]@);
                    let word = chars_of(fields[0].as_str());
                    d.put(lowercase(&word), chars_of(fields[1].as_str()));
                }
            },
            None => {},
        }
        i += 1;
    }
    assert(row_views(rows@).take(rows.len() as int) == row_views(rows@));
}

/// Adds the rows of an override word table to `d`.
pub fn add_override_rows(d: &mut Dictionary, rows: &Vec<Option<Vec<String>>>)
    ensures
        final(d)@ == with_override_rows(old(d)@, row_views(rows@)),
{
    let mut i: usize = 0;
    assert(row_views(rows@).take(0) =~= Seq::<Option<Seq<Seq<char>>>>::empty());
    while i < rows.len()
        invariant
            i <= rows.len(),
            d@ == with_override_rows(old(d)@, row_views(rows@).take(i as int)),
        decreases rows.len() - i,
    {
        proof {
            let t = row_views(rows@).take(i + 1);
            assert(t.drop_last() == row_views(rows@).take(i as int));
            assert(t.last() == row_views(rows@)[i as int]);
        }
        match &rows[i] {
            Some(fields) => {
                let first: Vec<char> = if fields.len() > 0 {
                    assert(string_views(fields@)[0] == fields@[0]@);
                    chars_of(fields[0].as_str())
                } else {
                    Vec::new()
                };
                let second: Vec<char> = if fields.len() > 1 {
                    assert(string_views(fields@)[1] == fields@[1]@);
                    chars_of(fields[1].as_str())
                } else {
                    Vec::new()
                };
                let word = lowercase(&first);
                if word.len() > 0 {
                    d.put(word, second);
                }
            },
            None => {},
        }
        i += 1;
    }
    assert(row_views(rows@).take(rows.len() as int) == row_views(rows@));
}

/// Loads the word map of a session from the text of the built-in word table
/// and, if there is one, the text of the override table. Override entries
/// take precedence.
pub fn load_word_map(embedded: &str, disk: Option<&str>) -> (d: Dictionary)
    ensures
        d@ == word_map(
            embedded@,
            match disk {
                Some(t) => Some(t@),
                None => None,
            },
        ),
{
    let mut d = Dictionary::new();
    let starter = read_csv(embedded);
    add_starter_rows(&mut d, &starter);
    if let Some(text) = disk {
        let rows = read_csv(text);
        add_override_rows(&mut d, &rows);
    }
    d
}

/// Makes the reverse map of an exact map.
pub fn get_reverse_map(exact: &Dictionary) -> (r: Dictionary)
    ensures
        r@ == reverse_of(exact@),
{
    let mut r = Dictionary::new();
    let mut i: usize = 0;
    assert(exact@.take(0) =~= Seq::<PairView>::empty());
    while i < exact.entries.len()
        invariant
            i <= exact.entries.len(),
            r@ == reverse_of(exact@.take(i as int)),
        decreases exact.entries.len() - i,
    {
        proof {
            let t = exact@.take(i + 1);
            assert(t.drop_last() == exact@.take(i as int));
            assert(t.last() == exact.entries@[i as int]@);
        }
        let e = &exact.entries[i];
        r.put(lowercase(&e.value), copy_chars(&e.key));
        r.put(lowercase(&keep_alphanumeric(&e.value)), copy_chars(&e.key));
        i += 1;
    }
    assert(exact@.take(exact.entries.len() as int) == exact@);
    r
}

impl AbbreviationIndex {
    /// Whether the reverse map is the reverse of the exact map.
    pub open spec fn wf(&self) -> bool {
        self@.reverse == reverse_of(self@.exact)
    }

    /// The index of an exact map and a word map.
    pub fn new(exact: Dictionary, words: Dictionary) -> (index: AbbreviationIndex)
        ensures
            index@.exact == exact@,
            index@.words == words@,
            index.wf(),
    {
        let reverse = get_reverse_map(&exact);
        AbbreviationIndex { exact, words, reverse }
    }

    /// The index of a session, from the texts of the two built-in
    /// dictionaries and of the override files that exist.
    pub fn load(journals: &str, journals_override: Option<&str>, word_table: &str, word_table_override: Option<&str>) -> (index: AbbreviationIndex)
        ensures
            index@.exact == exact_map(
                journals@,
                match journals_override {
                    Some(t) => Some(t@),
                    None => None,
                },
            ),
            index@.words == word_map(
                word_table@,
                match word_table_override {
                    Some(t) => Some(t@),
                    None => None,
                },
            ),
            index.wf(),
    {
        let exact = load_exact_map(journals, journals_override);
        let words = load_word_map(word_table, word_table_override);
        AbbreviationIndex::new(exact, words)
    }
}

/// Abbreviates a journal title.
///
/// A blank title gives nothing. A title that the exact map has, case
/// disregarded, gives its official abbreviation. Any other title is
/// abbreviated word by word: stopwords are dropped, a word that the word map
/// has is replaced by its abbreviation, the words are joined by single
/// spaces. The result cannot in general be turned back into the title.
pub fn abbreviate_journal(index: &AbbreviationIndex, title: &str) -> (r: String)
    ensures
        r@ == abbreviated(index@, title@),
{
    let clean = trim(&chars_of(title));
    if clean.len() == 0 {
        return String::new();
    }
    if let Some(abbr) = index.exact.lookup(&lowercase(&clean)) {
        return string_of(abbr);
    }
    let tokens = split_whitespace(&clean);
    let mut out: Vec<Vec<char>> = Vec::new();
    let mut i: usize = 0;
    assert(views(tokens@).take(0) =~= Seq::<Seq<char>>::empty());
    while i < tokens.len()
        invariant
            i <= tokens.len(),
            views(out@) == abbreviated_words(index@.words, views(tokens@).take(i as int)),
        decreases tokens.len() - i,
    {
        proof {
            let t = views(tokens@).take(i + 1);
            assert(t.drop_last() == views(tokens@).take(i as int));
            assert(t.last() == tokens@[i as int]@);
        }
        let word = strip_non_alphabetic(&lowercase(&tokens[i]));
        if !is_stopword(&word) {
            let ghost before = views(out@);
            match index.words.lookup(&word) {
                Some(abbr) => {
                    out.push(copy_chars(abbr));
                    assert(views(out@) =~= before.push(abbr@));
                },
                None => {
                    out.push(copy_chars(&tokens[i]));
                    assert(views(out@) =~= before.push(tokens@[i as int]@));
                },
            }
        }
        i += 1;
    }
    assert(views(tokens@).take(tokens.len() as int) == views(tokens@));
    let space: Vec<char> = vec![' '];
    assert(space@ =~= seq![' ']);
    string_of(&join(&out, &space))
}

/// Finds the full journal title behind an abbreviation and returns it in
/// title case, or `None` if the reverse map has it neither as written, case
/// disregarded, nor without its punctuation.
pub fn unabbreviate_journal(index: &AbbreviationIndex, abbr: &str) -> (r: Option<String>)
    ensures
        match r {
            Some(full) => unabbreviated(index@, abbr@) == Some(full@),
            None => unabbreviated(index@, abbr@) is None,
        },
{
    let text = chars_of(abbr);
    if let Some(full) = index.reverse.lookup(&lowercase(&text)) {
        return Some(string_of(&title_case(full)));
    }
    if let Some(full) = index.reverse.lookup(&lowercase(&keep_alphanumeric(&text))) {
        return Some(string_of(&title_case(full)));
    }
    None
}

/// The full name of the last entry of an exact map that answers to `key`.
pub open spec fn last_claim(exact: Seq<PairView>, key: Seq<char>) -> Option<Seq<char>>
    decreases exact.len(),
{
    if exact.len() == 0 {
        None
    } else if claims(exact.last(), key) {
        Some(exact.last().key)
    } else {
        last_claim(exact.drop_last(), key)
    }
}

/// The reverse map holds under a key the full name of the last entry that
/// answers to the key.
pub proof fn lemma_reverse_lookup(exact: Seq<PairView>, key: Seq<char>)
    ensures
        looked_up(reverse_of(exact), key) == last_claim(exact, key),
    decreases exact.len(),
{
    if exact.len() > 0 {
        let e = exact.last();
        let r = reverse_of(exact.drop_last());
        lemma_reverse_lookup(exact.drop_last(), key);
        lemma_put(r, str_lowercase(e.value), e.key, key);
        lemma_put(put(r, str_lowercase(e.value), e.key), normalized(e.value), e.key, key);
    }
}

proof fn lemma_last_claim(exact: Seq<PairView>, k: int, key: Seq<char>)
    requires
        0 <= k < exact.len(),
        claims(exact[k], key),
        forall|j: int| k < j < exact.len() ==> !claims(#[trigger] exact[j], key) || exact[j].key == exact[k].key,
    ensures
        last_claim(exact, key) == Some(exact[k].key),
    decreases exact.len(),
{
    if exact.len() - 1 > k {
        let rest = exact.drop_last();
        assert(rest[k] == exact[k]);
        assert forall|j: int| k < j < rest.len() implies !claims(#[trigger] rest[j], key) || rest[j].key
            == rest[k].key by {
            assert(rest[j] == exact[j]);
        }
        lemma_last_claim(rest, k, key);
        assert(!claims(exact[exact.len() - 1], key) || exact[exact.len() - 1].key == exact[k].key);
    }
}

proof fn lemma_some_claim(exact: Seq<PairView>, k: int, key: Seq<char>)
    requires
        0 <= k < exact.len(),
        claims(exact[k], key),
    ensures
        last_claim(exact, key) is Some,
    decreases exact.len(),
{
    if exact.len() - 1 > k && !claims(exact.last(), key) {
        assert(exact.drop_last()[k] == exact[k]);
        lemma_some_claim(exact.drop_last(), k, key);
    }
}

/// An abbreviation of the exact map leads back to a full name: looking up
/// the abbreviation of an entry gives, in title case, the full name of the
/// last entry that answers to this abbreviation in lower case. That is the
/// entry's own full name unless a later entry with another full name answers
/// to the same abbreviation.
pub proof fn lemma_unabbreviate_finds_full_name(index: IndexView, k: int)
    requires
        index.reverse == reverse_of(index.exact),
        0 <= k < index.exact.len(),
    ensures
        last_claim(index.exact, str_lowercase(index.exact[k].value)) is Some,
        unabbreviated(index, index.exact[k].value) == Some(
            title_cased(last_claim(index.exact, str_lowercase(index.exact[k].value))->0),
        ),
        (forall|j: int| k < j < index.exact.len() ==> !claims(#[trigger] index.exact[j], str_lowercase(index.exact[k].value)) || index.exact[j].key == index.exact[k].key)
            ==> unabbreviated(index, index.exact[k].value) == Some(title_cased(index.exact[k].key)),
{
    let key = str_lowercase(index.exact[k].value);
    lemma_reverse_lookup(index.exact, key);
    lemma_some_claim(index.exact, k, key);
    if forall|j: int| k < j < index.exact.len() ==> !claims(#[trigger] index.exact[j], key) || index.exact[j].key == index.exact[k].key {
        lemma_last_claim(index.exact, k, key);
    }
}

} // verus!
