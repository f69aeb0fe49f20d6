//! Records and the fields they hold.

use crate::text::{chars_eq, chars_of, less_than, lex_lt, push_all, string_of};
use vstd::prelude::*;

verus! {

/// One piece of a field's text. The three kinds are kept apart because a
/// bibliography file writes them differently.
#[derive(Clone, Debug)]
pub enum Chunk {
    /// Ordinary text.
    Normal(String),
    /// Text that is to stand exactly as written.
    Verbatim(String),
    /// Mathematics.
    Math(String),
}

/// The mathematical value of a [`Chunk`].
pub enum ChunkView {
    Normal(Seq<char>),
    Verbatim(Seq<char>),
    Math(Seq<char>),
}

impl View for Chunk {
    type V = ChunkView;

    open spec fn view(&self) -> ChunkView {
        match self {
            Chunk::Normal(s) => ChunkView::Normal(s@),
            Chunk::Verbatim(s) => ChunkView::Verbatim(s@),
            Chunk::Math(s) => ChunkView::Math(s@),
        }
    }
}

impl ChunkView {
    /// The characters of the chunk, whatever its kind.
    pub open spec fn text(self) -> Seq<char> {
        match self {
            ChunkView::Normal(s) => s,
            ChunkView::Verbatim(s) => s,
            ChunkView::Math(s) => s,
        }
    }
}

/// The views of the chunks in `v`.
pub open spec fn chunk_views(v: Seq<Chunk>) -> Seq<ChunkView> {
    Seq::new(v.len(), |i: int| v[i]@)
}

/// The text of a field value: the characters of its chunks, one chunk after
/// the other.
pub open spec fn plain_text(chunks: Seq<ChunkView>) -> Seq<char>
    decreases chunks.len(),
{
    if chunks.len() == 0 {
        Seq::empty()
    } else {
        plain_text(chunks.drop_last()) + chunks.last().text()
    }
}

/// A named field of a record.
#[derive(Clone, Debug)]
pub struct Field {
    pub name: String,
    pub value: Vec<Chunk>,
}

/// The mathematical value of a [`Field`].
pub struct FieldView {
    pub name: Seq<char>,
    pub value: Seq<ChunkView>,
}

impl View for Field {
    type V = FieldView;

    open spec fn view(&self) -> FieldView {
        FieldView { name: self.name@, value: chunk_views(self.value@) }
    }
}

/// The views of the fields in `v`.
pub open spec fn field_views(v: Seq<Field>) -> Seq<FieldView> {
    Seq::new(v.len(), |i: int| v[i]@)
}

/// Field names ascend strictly, so no name occurs twice.
pub open spec fn sorted_by_name(fields: Seq<FieldView>) -> bool {
    forall|i: int, j: int| 0 <= i < j < fields.len() ==> lex_lt(#[trigger] fields[i].name, #[trigger] fields[j].name)
}

/// The number of leading fields whose name comes before `name`: where a field
/// called `name` stands, or would have to be put.
pub open spec fn slot_of(fields: Seq<FieldView>, name: Seq<char>) -> int
    decreases fields.len(),
{
    if fields.len() > 0 && lex_lt(fields[0].name, name) {
        1 + slot_of(fields.drop_first(), name)
    } else {
        0
    }
}

/// Whether a field called `name` is among `fields`.
pub open spec fn has_field(fields: Seq<FieldView>, name: Seq<char>) -> bool {
    let p = slot_of(fields, name);
    0 <= p < fields.len() && fields[p].name == name
}

/// The value of the field called `name`, if there is one.
pub open spec fn field_value(fields: Seq<FieldView>, name: Seq<char>) -> Option<Seq<ChunkView>> {
    if has_field(fields, name) {
        Some(fields[slot_of(fields, name)].value)
    } else {
        None
    }
}

/// `fields` after the field called `name` was given the value `value`.
pub open spec fn with_field(
    fields: Seq<FieldView>,
    name: Seq<char>,
    value: Seq<ChunkView>,
) -> Seq<FieldView> {
    let p = slot_of(fields, name);
    if has_field(fields, name) {
        fields.update(p, FieldView { name, value })
    } else {
        fields.insert(p, FieldView { name, value })
    }
}

/// The mathematical value of a [`Record`].
pub struct RecordView {
    pub entry_type: Seq<char>,
    pub key: Seq<char>,
    pub fields: Seq<FieldView>,
}

impl RecordView {
    /// The fields are sorted by name.
    pub open spec fn wf(self) -> bool {
        sorted_by_name(self.fields)
    }

    /// The value of the field called `name`, if there is one.
    pub open spec fn get(self, name: Seq<char>) -> Option<Seq<ChunkView>> {
        field_value(self.fields, name)
    }

    /// The text of the field called `name`, if there is one.
    pub open spec fn text_of(self, name: Seq<char>) -> Option<Seq<char>> {
        match field_value(self.fields, name) {
            Some(v) => Some(plain_text(v)),
            None => None,
        }
    }

    /// This record with the field `name` set to `value`.
    pub open spec fn set(self, name: Seq<char>, value: Seq<ChunkView>) -> RecordView {
        RecordView { fields: with_field(self.fields, name, value), ..self }
    }

    /// This record under another key.
    pub open spec fn with_key(self, key: Seq<char>) -> RecordView {
        RecordView { key, ..self }
    }
}

/// One bibliographic entry: a type tag, a citation key, and fields kept in the
/// order of their names.
#[derive(Clone, Debug)]
pub struct Record {
    pub entry_type: String,
    pub key: String,
    pub fields: Vec<Field>,
}

impl View for Record {
    type V = RecordView;

    open spec fn view(&self) -> RecordView {
        RecordView {
            entry_type: self.entry_type@,
            key: self.key@,
            fields: field_views(self.fields@),
        }
    }
}

/// Nothing comes before itself.
pub proof fn lemma_lex_lt_irreflexive(a: Seq<char>)
    ensures
        !lex_lt(a, a),
    decreases a.len(),
{
    if a.len() > 0 {
        lemma_lex_lt_irreflexive(a.drop_first());
    }
}

/// Of two different strings one comes before the other.
pub proof fn lemma_lex_lt_total(a: Seq<char>, b: Seq<char>)
    ensures
        a == b || lex_lt(a, b) || lex_lt(b, a),
        !(lex_lt(a, b) && lex_lt(b, a)),
    decreases a.len(),
{
    if a.len() > 0 && b.len() > 0 {
        if a[0] == b[0] {
            lemma_lex_lt_total(a.drop_first(), b.drop_first());
            if a.drop_first() == b.drop_first() {
                assert(a =~= seq![a[0]] + a.drop_first());
                assert(b =~= seq![b[0]] + b.drop_first());
            }
        }
    } else if a.len() == 0 && b.len() == 0 {
        assert(a =~= b);
    }
}

/// The order is transitive.
pub proof fn lemma_lex_lt_transitive(a: Seq<char>, b: Seq<char>, c: Seq<char>)
    requires
        lex_lt(a, b),
        lex_lt(b, c),
    ensures
        lex_lt(a, c),
    decreases a.len(),
{
    if a.len() > 0 && b.len() > 0 && c.len() > 0 {
        if a[0] == b[0] && b[0] == c[0] {
            lemma_lex_lt_transitive(a.drop_first(), b.drop_first(), c.drop_first());
        }
    }
}

/// In a sorted field list the slot of `name` separates the names before it
/// from those not before it.
pub proof fn lemma_slot_of(fields: Seq<FieldView>, name: Seq<char>)
    requires
        sorted_by_name(fields),
    ensures
        0 <= slot_of(fields, name) <= fields.len(),
        forall|i: int| 0 <= i < slot_of(fields, name) ==> lex_lt(#[trigger] fields[i].name, name),
        forall|i: int| slot_of(fields, name) <= i < fields.len() ==> !lex_lt(#[trigger] fields[i].name, name),
        forall|i: int| 0 <= i < fields.len() && i != slot_of(fields, name) ==> (#[trigger] fields[i]).name != name,
    decreases fields.len(),
{
    let p = slot_of(fields, name);
    if fields.len() > 0 {
        let rest = fields.drop_first();
        assert forall|i: int, j: int| 0 <= i < j < rest.len() implies lex_lt(
            #[trigger] rest[i].name,
            #[trigger] rest[j].name,
        ) by {
            assert(rest[i] == fields[i + 1] && rest[j] == fields[j + 1]);
        }
        if lex_lt(fields[0].name, name) {
            lemma_slot_of(rest, name);
            assert forall|i: int| 0 <= i < p implies lex_lt(#[trigger] fields[i].name, name) by {
                if i > 0 {
                    assert(fields[i] == rest[i - 1]);
                }
            }
            assert forall|i: int| p <= i < fields.len() implies !lex_lt(
                #[trigger] fields[i].name,
                name,
            ) by {
                assert(fields[i] == rest[i - 1]);
            }
            assert forall|i: int| 0 <= i < fields.len() && i != p implies (#[trigger] fields[i]).name
                != name by {
                if i == 0 {
                    lemma_lex_lt_irreflexive(name);
                } else {
                    assert(fields[i] == rest[i - 1]);
                }
            }
        } else {
            assert forall|i: int| 0 <= i < fields.len() implies !lex_lt(
                #[trigger] fields[i].name,
                name,
            ) by {
                if i > 0 && lex_lt(fields[i].name, name) {
                    lemma_lex_lt_transitive(fields[0].name, fields[i].name, name);
                }
            }
            assert forall|i: int| 0 < i < fields.len() implies (#[trigger] fields[i]).name
                != name by {
                assert(lex_lt(fields[0].name, fields[i].name));
            }
        }
    }
}

/// Setting a field keeps the fields sorted, makes the field readable, and
/// leaves every other field as it was.
pub proof fn lemma_with_field(fields: Seq<FieldView>, name: Seq<char>, value: Seq<ChunkView>)
    requires
        sorted_by_name(fields),
    ensures
        sorted_by_name(with_field(fields, name, value)),
        field_value(with_field(fields, name, value), name) == Some(value),
        forall|other: Seq<char>| other != name ==> #[trigger] field_value(with_field(fields, name, value), other) == field_value(fields, other),
{
    let p = slot_of(fields, name);
    let out = with_field(fields, name, value);
    lemma_slot_of(fields, name);
    assert forall|i: int, j: int| 0 <= i < j < out.len() implies lex_lt(
        #[trigger] out[i].name,
        #[trigger] out[j].name,
    ) by {
        if has_field(fields, name) {
            assert(out[i].name == fields[i].name);
            assert(out[j].name == fields[j].name);
        } else {
            if j == p {
                assert(out[i] == fields[i]);
            } else if i == p {
                assert(out[j] == fields[j - 1]);
                lemma_lex_lt_total(fields[j - 1].name, name);
            } else {
                let fi = if i < p { i } else { i - 1 };
                let fj = if j < p { j } else { j - 1 };
                assert(out[i] == fields[fi] && out[j] == fields[fj]);
            }
        }
    }
    lemma_slot_of(out, name);
    assert(out[p].name == name);
    assert(slot_of(out, name) == p);
    assert forall|other: Seq<char>| other != name implies #[trigger] field_value(out, other)
        == field_value(fields, other) by {
        lemma_slot_of(fields, other);
        lemma_slot_of(out, other);
        let q = slot_of(fields, other);
        let r = slot_of(out, other);
        if has_field(fields, other) {
            let nq = if has_field(fields, name) || q < p { q } else { q + 1 };
            assert(out[nq] == fields[q]);
            assert(r == nq);
        } else if has_field(out, other) {
            let oq = if has_field(fields, name) || r < p { r } else { r - 1 };
            assert(out[r] == fields[oq]);
            assert(q == oq);
        }
    }
}


/// A copy of `chunk`.
pub fn copy_chunk(chunk: &Chunk) -> (r: Chunk)
    ensures
        r@ == chunk@,
{
    match chunk {
        Chunk::Normal(s) => Chunk::Normal(s.clone()),
        Chunk::Verbatim(s) => Chunk::Verbatim(s.clone()),
        Chunk::Math(s) => Chunk::Math(s.clone()),
    }
}

/// A copy of a field value.
pub fn copy_chunks(chunks: &Vec<Chunk>) -> (r: Vec<Chunk>)
    ensures
        chunk_views(r@) == chunk_views(chunks@),
{
    let mut r: Vec<Chunk> = Vec::new();
    let mut i: usize = 0;
    while i < chunks.len()
        invariant
            i <= chunks.len(),
            r.len() == i,
            forall|k: int| 0 <= k < i ==> (#[trigger] r@[k])@ == chunks@[k]@,
        decreases chunks.len() - i,
    {
        r.push(copy_chunk(&chunks[i]));
        i += 1;
    }
    assert(chunk_views(r@) =~= chunk_views(chunks@));
    r
}

/// A field value that holds `text` as one chunk of ordinary text.
pub fn make_normal_chunk(text: String) -> (r: Vec<Chunk>)
    ensures
        chunk_views(r@) == seq![ChunkView::Normal(text@)],
{
    let mut r: Vec<Chunk> = Vec::new();
    r.push(Chunk::Normal(text));
    assert(chunk_views(r@) =~= seq![ChunkView::Normal(text@)]);
    r
}

/// The text of a field value: the characters of its chunks, one chunk after
/// the other.
pub fn text_of_chunks(chunks: &Vec<Chunk>) -> (r: Vec<char>)
    ensures
        r@ == plain_text(chunk_views(chunks@)),
{
    let mut r: Vec<char> = Vec::new();
    let mut i: usize = 0;
    while i < chunks.len()
        invariant
            i <= chunks.len(),
            r@ == plain_text(chunk_views(chunks@).take(i as int)),
        decreases chunks.len() - i,
    {
        let piece = match &chunks[i] {
            Chunk::Normal(s) => chars_of(s.as_str()),
            Chunk::Verbatim(s) => chars_of(s.as_str()),
            Chunk::Math(s) => chars_of(s.as_str()),
        };
        push_all(&mut r, &piece);
        i += 1;
        proof {
            let t = chunk_views(chunks@).take(i as int);
            assert(t.drop_last() == chunk_views(chunks@).take(i - 1));
            assert(t.last() == chunks@[i - 1]@);
        }
    }
    assert(chunk_views(chunks@).take(chunks.len() as int) == chunk_views(chunks@));
    r
}

/// The text of a field value as a string.
pub fn bib_to_string(chunks: &Vec<Chunk>) -> (r: String)
    ensures
        r@ == plain_text(chunk_views(chunks@)),
{
    string_of(&text_of_chunks(chunks))
}

impl Field {
    /// A copy of this field.
    pub fn copy(&self) -> (r: Field)
        ensures
            r@ == self@,
    {
        Field { name: self.name.clone(), value: copy_chunks(&self.value) }
    }
}

impl Record {
    /// A record of the given type and key, without fields.
    pub fn new(entry_type: &str, key: &str) -> (r: Record)
        ensures
            r@ == (RecordView { entry_type: entry_type@, key: key@, fields: Seq::empty() }),
            r@.wf(),
    {
        let r = Record { entry_type: entry_type.to_owned(), key: key.to_owned(), fields: Vec::new() };
        assert(r@.fields =~= Seq::empty());
        r
    }

    /// A copy of this record.
    pub fn copy(&self) -> (r: Record)
        ensures
            r@ == self@,
    {
        let mut fields: Vec<Field> = Vec::new();
        let mut i: usize = 0;
        while i < self.fields.len()
            invariant
                i <= self.fields.len(),
                fields.len() == i,
                forall|k: int| 0 <= k < i ==> (#[trigger] fields@[k])@ == self.fields@[k]@,
            decreases self.fields.len() - i,
        {
            fields.push(self.fields[i].copy());
            i += 1;
        }
        assert(field_views(fields@) =~= field_views(self.fields@));
        Record { entry_type: self.entry_type.clone(), key: self.key.clone(), fields }
    }

    /// Where the field called `name` stands, or would have to be put.
    fn slot(&self, name: &Vec<char>) -> (p: usize)
        ensures
            p == slot_of(self@.fields, name@),
            p <= self.fields.len(),
    {
        let ghost all = self@.fields;
        let mut p: usize = 0;
        assert(all.skip(0) == all);
        while p < self.fields.len()
            invariant
                p <= self.fields.len(),
                all == self@.fields,
                slot_of(all, name@) == p + slot_of(all.skip(p as int), name@),
            decreases self.fields.len() - p,
        {
            let here = chars_of(self.fields[p].name.as_str());
            assert(all.skip(p as int)[0] == all[p as int]);
            if !less_than(&here, name) {
                return p;
            }
            assert(all.skip(p as int).drop_first() == all.skip(p + 1));
            p += 1;
        }
        p
    }

    /// The value of the field called `name`, if the record has one.
    pub fn get(&self, name: &str) -> (r: Option<&Vec<Chunk>>)
        ensures
            match r {
                Some(v) => self@.get(name@) == Some(chunk_views(v@)),
                None => self@.get(name@) is None,
            },
    {
        let wanted = chars_of(name);
        let p = self.slot(&wanted);
        if p < self.fields.len() {
            let here = chars_of(self.fields[p].name.as_str());
            if chars_eq(&here, &wanted) {
                return Some(&self.fields[p].value);
            }
        }
        None
    }

    /// The text of the field called `name`, if the record has one.
    pub fn text_of(&self, name: &str) -> (r: Option<Vec<char>>)
        ensures
            match r {
                Some(t) => self@.text_of(name@) == Some(t@),
                None => self@.text_of(name@) is None,
            },
    {
        match self.get(name) {
            Some(v) => Some(text_of_chunks(v)),
            None => None,
        }
    }

    /// Gives the field called `name` the value `value`, adding the field if
    /// the record has none of that name.
    pub fn set(&mut self, name: &str, value: Vec<Chunk>)
        ensures
            final(self)@ == old(self)@.set(name@, chunk_views(value@)),
            old(self)@.wf() ==> final(self)@.wf(),
    {
        let wanted = chars_of(name);
        let p = self.slot(&wanted);
        let field = Field { name: name.to_owned(), value };
        let present = if p < self.fields.len() {
            let here = chars_of(self.fields[p].name.as_str());
            chars_eq(&here, &wanted)
        } else {
            false
        };
        proof {
            if old(self)@.wf() {
                lemma_with_field(old(self)@.fields, name@, chunk_views(value@));
            }
        }
        if present {
            self.fields.set(p, field);
        } else {
            self.fields.insert(p, field);
        }
        assert(self@.fields =~= with_field(old(self)@.fields, name@, chunk_views(value@)));
    }
}


/// Names that ascend from each field to the next ascend throughout.
proof fn lemma_sorted_by_steps(fields: Seq<FieldView>, n: int)
    requires
        0 <= n <= fields.len(),
        forall|i: int| 0 < i < n ==> lex_lt(#[trigger] fields[i - 1].name, fields[i].name),
    ensures
        sorted_by_name(fields.take(n)),
    decreases n,
{
    if n > 0 {
        lemma_sorted_by_steps(fields, n - 1);
        let t = fields.take(n);
        assert forall|i: int, j: int| 0 <= i < j < t.len() implies lex_lt(
            #[trigger] t[i].name,
            #[trigger] t[j].name,
        ) by {
            if j < n - 1 {
                assert(fields.take(n - 1)[i] == t[i] && fields.take(n - 1)[j] == t[j]);
            } else if i < n - 2 {
                assert(fields.take(n - 1)[i] == t[i] && fields.take(n - 1)[n - 2] == t[n - 2]);
                assert(lex_lt(fields[n - 1 - 1].name, fields[n - 1].name));
                lemma_lex_lt_transitive(t[i].name, t[n - 2].name, t[n - 1].name);
            } else {
                assert(lex_lt(fields[n - 1 - 1].name, fields[n - 1].name));
            }
        }
    }
}

impl Record {
    /// Tests whether the fields are in the order of their names.
    pub fn is_sound(&self) -> (ok: bool)
        ensures
            ok == self@.wf(),
    {
        let mut i: usize = 1;
        while i < self.fields.len()
            invariant
                1 <= i,
                forall|k: int| 0 < k < i && k < self.fields.len() ==> lex_lt(
                    #[trigger] self@.fields[k - 1].name,
                    self@.fields[k].name,
                ),
            decreases self.fields.len() - i,
        {
            let a = chars_of(self.fields[i - 1].name.as_str());
            let b = chars_of(self.fields[i].name.as_str());
            if !less_than(&a, &b) {
                assert(!lex_lt(self@.fields[i - 1].name, self@.fields[i as int].name));
                return false;
            }
            i += 1;
        }
        proof {
            lemma_sorted_by_steps(self@.fields, self@.fields.len() as int);
            assert(self@.fields.take(self@.fields.len() as int) == self@.fields);
        }
        true
    }
}

/// Whether two chunks are of the same kind and hold the same text.
pub fn same_chunk(a: &Chunk, b: &Chunk) -> (r: bool)
    ensures
        r == (a@ == b@),
{
    match a {
        Chunk::Normal(s) => match b {
            Chunk::Normal(t) => *s == *t,
            _ => false,
        },
        Chunk::Verbatim(s) => match b {
            Chunk::Verbatim(t) => *s == *t,
            _ => false,
        },
        Chunk::Math(s) => match b {
            Chunk::Math(t) => *s == *t,
            _ => false,
        },
    }
}

/// Whether two field values hold the same chunks.
pub fn same_chunks(a: &Vec<Chunk>, b: &Vec<Chunk>) -> (r: bool)
    ensures
        r == (chunk_views(a@) == chunk_views(b@)),
{
    if a.len() != b.len() {
        assert(chunk_views(a@).len() != chunk_views(b@).len());
        return false;
    }
    let mut i: usize = 0;
    while i < a.len()
        invariant
            i <= a.len(),
            a.len() == b.len(),
            forall|k: int| 0 <= k < i ==> (#[trigger] a@[k])@ == b@[k]@,
        decreases a.len() - i,
    {
        if !same_chunk(&a[i], &b[i]) {
            assert(chunk_views(a@)[i as int] != chunk_views(b@)[i as int]);
            return false;
        }
        i += 1;
    }
    assert(chunk_views(a@) =~= chunk_views(b@));
    true
}

impl Record {
    /// Whether two records have the same type, key and fields.
    pub fn same_as(&self, other: &Record) -> (r: bool)
        ensures
            r == (self@ == other@),
    {
        if self.entry_type != other.entry_type || self.key != other.key {
            return false;
        }
        if self.fields.len() != other.fields.len() {
            assert(self@.fields.len() != other@.fields.len());
            return false;
        }
        let mut i: usize = 0;
        while i < self.fields.len()
            invariant
                i <= self.fields.len(),
                self.fields.len() == other.fields.len(),
                forall|k: int| 0 <= k < i ==> (#[trigger] self.fields@[k])@ == other.fields@[k]@,
            decreases self.fields.len() - i,
        {
            let f = &self.fields[i];
            let g = &other.fields[i];
            if f.name != g.name || !same_chunks(&f.value, &g.value) {
                assert(self@.fields[i as int] != other@.fields[i as int]);
                return false;
            }
            i += 1;
        }
        assert(self@.fields =~= other@.fields);
        true
    }
}

} // verus!
