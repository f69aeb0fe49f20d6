//! Citation keys made from a record's author, year, title and journal.

use crate::bibtex::{parse_persons, parsed_persons};
use crate::record::{Record, RecordView};
use crate::text::{chars_of, is_alnum, join, joined, keep, keep_alphanumeric, slice, split_whitespace, string_of, views, words};
use vstd::prelude::*;

verus! {

/// One building block of a citation key.
#[derive(Clone, Copy, Debug, PartialEq, Eq, Structural)]
pub enum KeyPart {
    /// The family name of the first author.
    AuthorLastName,
    /// The year.
    Year,
    /// The last two characters of the year.
    ShortYear,
    /// The first word of the title.
    TitleFirstWord,
    /// The first word of the journal name.
    JournalFirstWord,
}

impl KeyPart {
    /// The label of this part, as text.
    pub open spec fn label_text(self) -> Seq<char> {
        match self {
            KeyPart::AuthorLastName => "Author (Last Name)"@,
            KeyPart::Year => "Year (Full)"@,
            KeyPart::ShortYear => "Year (Short)"@,
            KeyPart::TitleFirstWord => "Title (1st Word)"@,
            KeyPart::JournalFirstWord => "Journal (1st Word)"@,
        }
    }

    /// The label under which this part is offered to a user.
    pub fn label(&self) -> (r: &'static str)
        ensures
            r@ == self.label_text(),
    {
        match self {
            KeyPart::AuthorLastName => "Author (Last Name)",
            KeyPart::Year => "Year (Full)",
            KeyPart::ShortYear => "Year (Short)",
            KeyPart::TitleFirstWord => "Title (1st Word)",
            KeyPart::JournalFirstWord => "Journal (1st Word)",
        }
    }
}

/// How keys are made and how records are written.
#[derive(Clone, Debug)]
pub struct KeyGenConfig {
    /// The parts of a key, in order.
    pub parts: Vec<KeyPart>,
    /// What stands between two parts.
    pub separator: String,
    /// Whether journal names are abbreviated when a record is added.
    pub abbreviate_journals: bool,
    /// The character that indents a field line.
    pub indent_char: char,
    /// How many of them indent a field line.
    pub indent_width: u8,
    /// The fields that are written first, in this order.
    pub field_order: Vec<String>,
}

/// The mathematical value of a [`KeyGenConfig`].
pub struct KeyGenConfigView {
    pub parts: Seq<KeyPart>,
    pub separator: Seq<char>,
    pub abbreviate_journals: bool,
    pub indent_char: char,
    pub indent_width: nat,
    pub field_order: Seq<Seq<char>>,
}

/// The views of the strings in `v`.
pub open spec fn string_views(v: Seq<String>) -> Seq<Seq<char>> {
    Seq::new(v.len(), |i: int| v[i]@)
}

impl View for KeyGenConfig {
    type V = KeyGenConfigView;

    open spec fn view(&self) -> KeyGenConfigView {
        KeyGenConfigView {
            parts: self.parts@,
            separator: self.separator@,
            abbreviate_journals: self.abbreviate_journals,
            indent_char: self.indent_char,
            indent_width: self.indent_width as nat,
            field_order: string_views(self.field_order@),
        }
    }
}

/// The fields that are written first unless a configuration says otherwise.
pub open spec fn default_order() -> Seq<Seq<char>> {
    seq![
        "author"@,
        "title"@,
        "year"@,
        "date"@,
        "journaltitle"@,
        "volume"@,
        "number"@,
        "pages"@,
        "doi"@,
        "url"@,
    ]
}

/// The indentation character of a fresh configuration: a space.
pub fn default_indent() -> (c: char)
    ensures
        c == ' ',
{
    ' '
}

/// The indentation width of a fresh configuration.
pub fn default_indent_width() -> (w: u8)
    ensures
        w == 4,
{
    4
}

/// The field order of a fresh configuration.
pub fn default_field_order() -> (r: Vec<String>)
    ensures
        string_views(r@) == default_order(),
{
    let mut r: Vec<String> = Vec::new();
    r.push("author".to_owned());
    r.push("title".to_owned());
    r.push("year".to_owned());
    r.push("date".to_owned());
    r.push("journaltitle".to_owned());
    r.push("volume".to_owned());
    r.push("number".to_owned());
    r.push("pages".to_owned());
    r.push("doi".to_owned());
    r.push("url".to_owned());
    assert(string_views(r@) =~= default_order());
    r
}

impl Default for KeyGenConfig {
    /// Author, year and first title word without a separator; four spaces of
    /// indentation; the default field order; no abbreviation of journals.
    fn default() -> (r: Self)
        ensures
            r@ == (KeyGenConfigView {
                parts: seq![KeyPart::AuthorLastName, KeyPart::Year, KeyPart::TitleFirstWord],
                separator: Seq::empty(),
                abbreviate_journals: false,
                indent_char: ' ',
                indent_width: 4,
                field_order: default_order(),
            }),
    {
        let mut parts: Vec<KeyPart> = Vec::new();
        parts.push(KeyPart::AuthorLastName);
        parts.push(KeyPart::Year);
        parts.push(KeyPart::TitleFirstWord);
        assert(parts@ =~= seq![KeyPart::AuthorLastName, KeyPart::Year, KeyPart::TitleFirstWord]);
        KeyGenConfig {
            parts,
            separator: String::new(),
            abbreviate_journals: false,
            indent_char: default_indent(),
            indent_width: default_indent_width(),
            field_order: default_field_order(),
        }
    }
}

impl KeyGenConfig {
    /// Appends a part to the parts of a key.
    pub fn add_part(&mut self, part: KeyPart)
        ensures
            final(self)@ == (KeyGenConfigView { parts: old(self)@.parts.push(part), ..old(self)@ }),
    {
        self.parts.push(part);
    }

    /// Removes the part at position `index`. Returns whether there was one.
    pub fn remove_part(&mut self, index: usize) -> (removed: bool)
        ensures
            removed == (index < old(self)@.parts.len()),
            final(self)@ == (KeyGenConfigView {
                parts: if removed {
                    old(self)@.parts.remove(index as int)
                } else {
                    old(self)@.parts
                },
                ..old(self)@
            }),
    {
        if index < self.parts.len() {
            let gone = self.parts.remove(index);
            true
        } else {
            false
        }
    }

    /// Moves the field at position `index` of the field order one place up.
    /// Returns whether it moved.
    pub fn move_field_up(&mut self, index: usize) -> (moved: bool)
        ensures
            moved == (0 < index < old(self)@.field_order.len()),
            final(self)@ == (KeyGenConfigView {
                field_order: if moved {
                    old(self)@.field_order.update(
                        index - 1,
                        old(self)@.field_order[index as int],
                    ).update(index as int, old(self)@.field_order[index - 1])
                } else {
                    old(self)@.field_order
                },
                ..old(self)@
            }),
    {
        if 0 < index && index < self.field_order.len() {
            let ghost before = self@.field_order;
            let name = self.field_order.remove(index);
            self.field_order.insert(index - 1, name);
            assert(self@.field_order =~= before.update(index - 1, before[index as int]).update(
                index as int,
                before[index - 1],
            ));
            true
        } else {
            false
        }
    }

    /// Moves the field at position `index` of the field order one place
    /// down. Returns whether it moved.
    pub fn move_field_down(&mut self, index: usize) -> (moved: bool)
        ensures
            moved == (index + 1 < old(self)@.field_order.len()),
            final(self)@ == (KeyGenConfigView {
                field_order: if moved {
                    old(self)@.field_order.update(
                        index as int,
                        old(self)@.field_order[index + 1],
                    ).update(index + 1, old(self)@.field_order[index as int])
                } else {
                    old(self)@.field_order
                },
                ..old(self)@
            }),
    {
        if index < self.field_order.len() && index + 1 < self.field_order.len() {
            let ghost before = self@.field_order;
            let name = self.field_order.remove(index);
            self.field_order.insert(index + 1, name);
            assert(self@.field_order =~= before.update(index as int, before[index + 1]).update(
                index + 1,
                before[index as int],
            ));
            true
        } else {
            false
        }
    }
}

/// The first whitespace-delimited word of `t`, or nothing if `t` has none.
pub open spec fn first_word(t: Seq<char>) -> Seq<char> {
    if words(t).len() > 0 {
        words(t)[0]
    } else {
        Seq::empty()
    }
}

/// The last two characters of a year of four or more characters, else the
/// whole year.
pub open spec fn short_year(y: Seq<char>) -> Seq<char> {
    if y.len() >= 4 {
        y.subrange(y.len() - 2, y.len() as int)
    } else {
        y
    }
}

/// The family name of the first author that the name parser finds in the
/// `author` field, if the record has the field and the parser finds anyone.
pub open spec fn first_author(r: RecordView) -> Option<Seq<char>> {
    match r.get("author"@) {
        Some(chunks) => if parsed_persons(chunks).len() > 0 {
            Some(parsed_persons(chunks)[0].name)
        } else {
            None
        },
        None => None,
    }
}

/// The text that `part` contributes to the key of `r` before it is cleaned,
/// `author` being the first author's family name.
pub open spec fn segment(part: KeyPart, r: RecordView, author: Option<Seq<char>>) -> Seq<char> {
    match part {
        KeyPart::AuthorLastName => match author {
            Some(name) => name,
            None => "Unknown"@,
        },
        KeyPart::Year => match r.text_of("year"@) {
            Some(y) => y,
            None => "0000"@,
        },
        KeyPart::ShortYear => match r.text_of("year"@) {
            Some(y) => short_year(y),
            None => short_year("0000"@),
        },
        KeyPart::TitleFirstWord => match r.text_of("title"@) {
            Some(t) => first_word(t),
            None => "Untitled"@,
        },
        KeyPart::JournalFirstWord => match r.text_of("journal"@) {
            Some(t) => first_word(t),
            None => "Preprint"@,
        },
    }
}

/// The cleaned segments of the key of `r`, one per configured part: each
/// segment without the characters that are not alphanumeric.
pub open spec fn segments(
    r: RecordView,
    parts: Seq<KeyPart>,
    author: Option<Seq<char>>,
) -> Seq<Seq<char>> {
    Seq::new(parts.len(), |i: int| keep(segment(parts[i], r, author), is_alnum()))
}

/// The key of `r` under `cfg`, `author` being the first author's family name:
/// the cleaned segments with the separator between them.
pub open spec fn key_with_author(
    r: RecordView,
    cfg: KeyGenConfigView,
    author: Option<Seq<char>>,
) -> Seq<char> {
    joined(segments(r, cfg.parts, author), cfg.separator)
}

/// The key of `r` under `cfg`.
pub open spec fn generated_key(r: RecordView, cfg: KeyGenConfigView) -> Seq<char> {
    key_with_author(r, cfg, first_author(r))
}

/// The first word of `t`.
fn first_word_of(t: &Vec<char>) -> (r: Vec<char>)
    ensures
        r@ == first_word(t@),
{
    let ws = split_whitespace(t);
    if ws.len() > 0 {
        assert(views(ws@)[0] == ws@[0]@);
        slice(&ws[0], 0, ws[0].len())
    } else {
        Vec::new()
    }
}

/// The short form of the year `y`.
fn short_year_of(y: &Vec<char>) -> (r: Vec<char>)
    ensures
        r@ == short_year(y@),
{
    if y.len() >= 4 {
        slice(y, y.len() - 2, y.len())
    } else {
        slice(y, 0, y.len())
    }
}

/// The uncleaned segment of one part.
fn segment_of(part: KeyPart, record: &Record, author: &Option<Vec<char>>) -> (r: Vec<char>)
    ensures
        r@ == segment(
            part,
            record@,
            match author {
                Some(a) => Some(a@),
                None => None,
            },
        ),
{
    match part {
        KeyPart::AuthorLastName => match author {
            Some(a) => slice(a, 0, a.len()),
            None => chars_of("Unknown"),
        },
        KeyPart::Year => match record.text_of("year") {
            Some(y) => y,
            None => chars_of("0000"),
        },
        KeyPart::ShortYear => match record.text_of("year") {
            Some(y) => short_year_of(&y),
            None => short_year_of(&chars_of("0000")),
        },
        KeyPart::TitleFirstWord => match record.text_of("title") {
            Some(t) => first_word_of(&t),
            None => chars_of("Untitled"),
        },
        KeyPart::JournalFirstWord => match record.text_of("journal") {
            Some(t) => first_word_of(&t),
            None => chars_of("Preprint"),
        },
    }
}

/// Makes the key of `record` from the configured parts, given the family
/// name of its first author. A part without data contributes its fallback
/// word: `Unknown`, `0000`, `Untitled` or `Preprint`.
pub fn key_from_parts(record: &Record, config: &KeyGenConfig, author: &Option<Vec<char>>) -> (key: String)
    ensures
        key@ == key_with_author(
            record@,
            config@,
            match author {
                Some(a) => Some(a@),
                None => None,
            },
        ),
{
    let ghost who: Option<Seq<char>> = match author {
        Some(a) => Some(a@),
        None => None,
    };
    let mut cleaned: Vec<Vec<char>> = Vec::new();
    let mut i: usize = 0;
    while i < config.parts.len()
        invariant
            i <= config.parts.len(),
            cleaned.len() == i,
            who == (match author {
                Some(a) => Some(a@),
                None => None,
            }),
            forall|k: int| 0 <= k < i ==> (#[trigger] cleaned@[k])@ == segments(record@, config@.parts, who)[k],
        decreases config.parts.len() - i,
    {
        let raw = segment_of(config.parts[i], record, author);
        cleaned.push(keep_alphanumeric(&raw));
        i += 1;
    }
    assert(views(cleaned@) =~= segments(record@, config@.parts, who));
    let sep = chars_of(config.separator.as_str());
    let key = join(&cleaned, &sep);
    string_of(&key)
}

/// The family name of the first author of `record`, as the name parser reads
/// the `author` field.
pub fn first_author_of(record: &Record) -> (r: Option<Vec<char>>)
    ensures
        match r {
            Some(a) => first_author(record@) == Some(a@),
            None => first_author(record@) is None,
        },
{
    match record.get("author") {
        Some(chunks) => {
            let persons = parse_persons(chunks);
            if persons.len() > 0 {
                assert(crate::bibtex::person_views(persons@)[0] == persons@[0]@);
                Some(chars_of(persons[0].name.as_str()))
            } else {
                None
            }
        },
        None => None,
    }
}

/// Makes the citation key of `record`: for each configured part its segment,
/// cleaned of everything that is not alphanumeric, the segments joined by the
/// separator. Never fails: a part without data contributes its fallback word.
pub fn generate_key(record: &Record, config: &KeyGenConfig) -> (key: String)
    ensures
        key@ == generated_key(record@, config@),
{
    let author = first_author_of(record);
    key_from_parts(record, config, &author)
}

} // verus!
