//! The operations that change the library of a session. An operation that
//! changes the library keeps a snapshot of the library as it was, so that the
//! change can be undone; an operation that leaves the library as it was
//! leaves no snapshot; loading a file starts a new history.

use crate::abbreviator::{abbreviate_journal, abbreviated, unabbreviate_journal, unabbreviated, AbbreviationIndex, IndexView};
use crate::keygen::{generate_key, generated_key, KeyGenConfig, KeyGenConfigView};
use crate::library::{added, added_all, library_wf, record_views, removed, unique_key, Library};
use crate::record::{copy_chunks, lemma_with_field, make_normal_chunk, sorted_by_name, with_field, ChunkView, FieldView, Record, RecordView};
use crate::sanitize::{sanitize_entry_fields, sanitized};
use crate::merger::{merge_bibliography_into_source, merged};
use crate::text::{chars_of, string_of, trim, trimmed};
use crate::undo::{lemma_history_keeps_wf, Session, SessionView};
use vstd::prelude::*;

verus! {

/// Why an edit or an import did not happen.
#[derive(Debug)]
pub enum EditError {
    /// The text is no bibliography; the message says why.
    Parse(String),
    /// The text holds no entry.
    NoEntry,
}

/// `fields` put in order: each field set in turn, a later field replacing an
/// earlier one of the same name.
pub open spec fn ordered_fields(fields: Seq<FieldView>) -> Seq<FieldView>
    decreases fields.len(),
{
    if fields.len() == 0 {
        Seq::empty()
    } else {
        with_field(ordered_fields(fields.drop_last()), fields.last().name, fields.last().value)
    }
}

/// `r` with its fields in order.
pub open spec fn tidied(r: RecordView) -> RecordView {
    RecordView { fields: ordered_fields(r.fields), ..r }
}

/// The records `rs`, each with its fields in order.
pub open spec fn tidied_all(rs: Seq<RecordView>) -> Seq<RecordView> {
    Seq::new(rs.len(), |i: int| tidied(rs[i]))
}

proof fn lemma_ordered_fields(fields: Seq<FieldView>)
    ensures
        sorted_by_name(ordered_fields(fields)),
    decreases fields.len(),
{
    if fields.len() > 0 {
        lemma_ordered_fields(fields.drop_last());
        lemma_with_field(ordered_fields(fields.drop_last()), fields.last().name, fields.last().value);
    }
}

/// A copy of `record` with its fields in order.
pub fn tidy(record: &Record) -> (r: Record)
    ensures
        r@ == tidied(record@),
        r@.wf(),
{
    let mut r = Record::new(record.entry_type.as_str(), record.key.as_str());
    let mut i: usize = 0;
    assert(record@.fields.take(0) =~= Seq::<FieldView>::empty());
    while i < record.fields.len()
        invariant
            i <= record.fields.len(),
            r@.entry_type == record@.entry_type,
            r@.key == record@.key,
            r@.fields == ordered_fields(record@.fields.take(i as int)),
        decreases record.fields.len() - i,
    {
        proof {
            let t = record@.fields.take(i + 1);
            assert(t.drop_last() == record@.fields.take(i as int));
            assert(t.last() == record.fields@[i as int]@);
        }
        let f = &record.fields[i];
        r.set(f.name.as_str(), copy_chunks(&f.value));
        i += 1;
    }
    assert(record@.fields.take(record.fields.len() as int) == record@.fields);
    proof {
        lemma_ordered_fields(record@.fields);
    }
    r
}

/// Whether abbreviating would change the field `name` of `r`: the field is
/// there, and its abbreviation is neither empty nor the text itself.
pub open spec fn abbreviation_changes(index: IndexView, r: RecordView, name: Seq<char>) -> bool {
    match r.text_of(name) {
        Some(t) => abbreviated(index, t).len() > 0 && abbreviated(index, t) != t,
        None => false,
    }
}

/// `r` with the field `name` abbreviated, if that changes the field.
pub open spec fn abbreviated_field(index: IndexView, r: RecordView, name: Seq<char>) -> RecordView {
    if abbreviation_changes(index, r, name) {
        r.set(name, seq![ChunkView::Normal(abbreviated(index, r.text_of(name)->0))])
    } else {
        r
    }
}

/// `r` with its `journal` and `journaltitle` fields abbreviated.
pub open spec fn with_abbreviations(index: IndexView, r: RecordView) -> RecordView {
    abbreviated_field(index, abbreviated_field(index, r, "journal"@), "journaltitle"@)
}

/// Whether abbreviating changes `r`.
pub open spec fn abbreviating_changes(index: IndexView, r: RecordView) -> bool {
    abbreviation_changes(index, r, "journal"@) || abbreviation_changes(
        index,
        abbreviated_field(index, r, "journal"@),
        "journaltitle"@,
    )
}

/// Whether expanding would change the field `name` of `r`: the field is
/// there, the reverse map knows its text, and the full title differs from
/// it.
pub open spec fn expansion_changes(index: IndexView, r: RecordView, name: Seq<char>) -> bool {
    match r.text_of(name) {
        Some(t) => unabbreviated(index, t) is Some && unabbreviated(index, t)->0 != t,
        None => false,
    }
}

/// `r` with the field `name` expanded, if that changes the field.
pub open spec fn expanded_field(index: IndexView, r: RecordView, name: Seq<char>) -> RecordView {
    if expansion_changes(index, r, name) {
        r.set(name, seq![ChunkView::Normal(unabbreviated(index, r.text_of(name)->0)->0)])
    } else {
        r
    }
}

/// `r` with its `journal` and `journaltitle` fields expanded.
pub open spec fn with_expansions(index: IndexView, r: RecordView) -> RecordView {
    expanded_field(index, expanded_field(index, r, "journal"@), "journaltitle"@)
}

/// Whether expanding changes `r`.
pub open spec fn expanding_changes(index: IndexView, r: RecordView) -> bool {
    expansion_changes(index, r, "journal"@) || expansion_changes(
        index,
        expanded_field(index, r, "journal"@),
        "journaltitle"@,
    )
}

/// A record as it is added: cleaned of markup, its journal names abbreviated
/// if the configuration asks for it, and with a generated key if it came
/// without one.
pub open spec fn prepared(r: RecordView, cfg: KeyGenConfigView, index: IndexView) -> RecordView {
    let clean = sanitized(r);
    let short = if cfg.abbreviate_journals {
        with_abbreviations(index, clean)
    } else {
        clean
    };
    if short.key.len() == 0 {
        short.with_key(generated_key(short, cfg))
    } else {
        short
    }
}

/// The library after the record with the key `old_key` was replaced by
/// `new`: the old record is taken out and the new one added under a key that
/// is unique.
pub open spec fn edited(
    l: Seq<RecordView>,
    old_key: Seq<char>,
    new: RecordView,
) -> Seq<RecordView> {
    added(removed(l, old_key), tidied(new))
}

/// The records of `l`, each under the key generated for it.
pub open spec fn rekeyed(l: Seq<RecordView>, cfg: KeyGenConfigView) -> Seq<RecordView> {
    Seq::new(l.len(), |i: int| l[i].with_key(generated_key(l[i], cfg)))
}

/// The library with all keys generated anew, the records added one after
/// the other to an empty library so that the keys stay unique.
pub open spec fn regenerated(l: Seq<RecordView>, cfg: KeyGenConfigView) -> Seq<RecordView> {
    added_all(Seq::empty(), rekeyed(l, cfg))
}

/// How many of the first `n` records satisfy `changes`.
pub open spec fn count_changes(
    l: Seq<RecordView>,
    changes: spec_fn(RecordView) -> bool, n: int,
) -> int
    decreases n,
{
    if n <= 0 {
        0
    } else {
        count_changes(l, changes, n - 1) + if changes(l[n - 1]) {
            1int
        } else {
            0int
        }
    }
}

/// Abbreviates one field of `record`. Returns whether the field changed.
fn abbreviate_field(index: &AbbreviationIndex, record: &mut Record, name: &str) -> (changed: bool)
    ensures
        final(record)@ == abbreviated_field(index@, old(record)@, name@),
        changed == abbreviation_changes(index@, old(record)@, name@),
        old(record)@.wf() ==> final(record)@.wf(),
        final(record)@.key == old(record)@.key,
{
    match record.text_of(name) {
        Some(text) => {
            let current = string_of(&text);
            let abbr = abbreviate_journal(index, current.as_str());
            if abbr.as_str().unicode_len() > 0 && abbr != current {
                record.set(name, make_normal_chunk(abbr));
                true
            } else {
                false
            }
        },
        None => false,
    }
}

/// Expands one field of `record`. Returns whether the field changed.
fn expand_field(index: &AbbreviationIndex, record: &mut Record, name: &str) -> (changed: bool)
    ensures
        final(record)@ == expanded_field(index@, old(record)@, name@),
        changed == expansion_changes(index@, old(record)@, name@),
        old(record)@.wf() ==> final(record)@.wf(),
        final(record)@.key == old(record)@.key,
{
    match record.text_of(name) {
        Some(text) => {
            let current = string_of(&text);
            match unabbreviate_journal(index, current.as_str()) {
                Some(full) => {
                    if full != current {
                        record.set(name, make_normal_chunk(full));
                        true
                    } else {
                        false
                    }
                },
                None => false,
            }
        },
        None => false,
    }
}

/// Makes `record` ready to be added.
pub fn prepare(record: Record, config: &KeyGenConfig, index: &AbbreviationIndex) -> (r: Record)
    ensures
        r@ == prepared(record@, config@, index@),
        record@.wf() ==> r@.wf(),
{
    let mut r = record;
    sanitize_entry_fields(&mut r);
    if config.abbreviate_journals {
        abbreviate_field(index, &mut r, "journal");
        abbreviate_field(index, &mut r, "journaltitle");
    }
    if r.key.as_str().unicode_len() == 0 {
        r.key = generate_key(&r, config);
    }
    r
}

/// Adds a record to the library of the session and returns the key under
/// which it stands. The record is cleaned of markup, its journal names are
/// abbreviated if the configuration asks for it, a record without a key gets
/// a generated one, and the key is made unique.
pub fn add_entry(session: &mut Session, index: &AbbreviationIndex, record: Record) -> (key: String)
    requires
        old(session).library.wf(),
        record@.wf(),
    ensures
        final(session)@ == old(session)@.snapshot().changed_to(
            added(old(session)@.library, prepared(record@, old(session)@.key_config, index@)),
        ),
        key@ == unique_key(
            prepared(record@, old(session)@.key_config, index@).key,
            old(session)@.library,
        ),
        final(session).library.wf(),
        old(session).wf() ==> final(session).wf(),
{
    session.push_snapshot();
    let ready = prepare(record, &session.key_config, index);
    let key = session.library.add(ready);
    session.is_dirty = true;
    key
}

/// Deletes the record with the key `key`. Returns whether there was one. If
/// there was none, the session stays as it was, without a step in its
/// history.
pub fn delete_entry(session: &mut Session, key: &str) -> (found: bool)
    requires
        old(session).library.wf(),
    ensures
        final(session)@ == old(session)@.committed(removed(old(session)@.library, key@)),
        found == crate::library::has_record(old(session)@.library, key@),
        found == (final(session)@ != old(session)@),
        final(session).library.wf(),
        old(session).wf() ==> final(session).wf(),
{
    let mut next = session.library.copy();
    let gone = next.remove(key);
    proof {
        crate::library::lemma_key_index(session@.library, key@);
        if gone.is_some() {
            assert(next@.len() == session@.library.len() - 1);
        }
    }
    let changed = session.commit(next);
    gone.is_some()
}

/// Puts the first of `records` in the place of the record with the key
/// `old_key` and returns the key under which it stands. Without a record
/// nothing changes. If the library comes out as it was, the session stays as
/// it was, without a step in its history.
pub fn apply_edit(session: &mut Session, old_key: &str, records: &Vec<Record>) -> (r: Result<String, EditError>)
    requires
        old(session).library.wf(),
    ensures
        match r {
            Ok(key) => records.len() > 0 && final(session)@ == old(session)@.committed(
                edited(old(session)@.library, old_key@, records@[0]@),
            ) && key@ == unique_key(records@[0]@.key, removed(old(session)@.library, old_key@)),
            Err(e) => records.len() == 0 && e is NoEntry && final(session)@ == old(session)@,
        },
        final(session).library.wf(),
        old(session).wf() ==> final(session).wf(),
{
    if records.len() == 0 {
        return Err(EditError::NoEntry);
    }
    let mut next = session.library.copy();
    let gone = next.remove(old_key);
    let key = next.add(tidy(&records[0]));
    let changed = session.commit(next);
    Ok(key)
}

/// The outcome of reading a text as a bibliography: the entries in the order
/// of the text, or the message of the error that stopped the reading.
pub open spec fn outcome_view(parsed: Result<Vec<Record>, String>) -> Result<Seq<RecordView>, Seq<char>> {
    match parsed {
        Ok(records) => Ok(record_views(records@)),
        Err(message) => Err(message@),
    }
}

/// Whether `r` reports the parse error with the message `message`.
pub open spec fn is_parse_error<T>(r: Result<T, EditError>, message: Seq<char>) -> bool {
    r matches Err(EditError::Parse(m)) && m@ == message
}

/// Replaces the record with the key `old_key` by the first entry of an
/// edited text, given the outcome of parsing the text, and returns the key
/// under which the entry stands. If the text could not be parsed or holds no
/// entry, the session stays as it is and the error says which. It also stays
/// as it is, without a step in its history, if the edit leaves the library
/// as it was.
pub fn finish_edit(session: &mut Session, old_key: &str, parsed: Result<Vec<Record>, String>) -> (r: Result<String, EditError>)
    requires
        old(session).library.wf(),
    ensures
        match outcome_view(parsed) {
            Ok(entries) => if entries.len() > 0 {
                r is Ok && final(session)@ == old(session)@.committed(
                    edited(old(session)@.library, old_key@, entries[0]),
                ) && r->Ok_0@ == unique_key(entries[0].key, removed(old(session)@.library, old_key@))
            } else {
                r is Err && r->Err_0 is NoEntry && final(session)@ == old(session)@
            },
            Err(message) => is_parse_error(r, message) && final(session)@ == old(session)@,
        },
        final(session).library.wf(),
        old(session).wf() ==> final(session).wf(),
{
    match parsed {
        Ok(records) => {
            proof {
                if records.len() > 0 {
                    assert(record_views(records@)[0] == records@[0]@);
                }
            }
            apply_edit(session, old_key, &records)
        },
        Err(message) => Err(EditError::Parse(message)),
    }
}

/// Generates the keys of all records anew and returns the number of
/// records. The records are added one after the other to an empty library,
/// so that equal keys are told apart in the order of the library. If every
/// record keeps its key, the session stays as it was, without a step in its
/// history.
pub fn regenerate_keys(session: &mut Session) -> (count: usize)
    requires
        old(session).library.wf(),
    ensures
        final(session)@ == old(session)@.committed(
            regenerated(old(session)@.library, old(session)@.key_config),
        ),
        count == old(session)@.library.len(),
        final(session).library.wf(),
        old(session).wf() ==> final(session).wf(),
{
    let ghost l = session@.library;
    let ghost cfg = session@.key_config;
    let mut fresh = Library::new();
    let mut i: usize = 0;
    assert(rekeyed(l, cfg).take(0) =~= Seq::<RecordView>::empty());
    while i < session.library.records.len()
        invariant
            i <= session.library.records.len(),
            session@ == old(session)@,
            session.library.wf(),
            l == session@.library,
            cfg == session@.key_config,
            fresh.wf(),
            fresh@ == added_all(Seq::empty(), rekeyed(l, cfg).take(i as int)),
        decreases session.library.records.len() - i,
    {
        proof {
            let t = rekeyed(l, cfg).take(i + 1);
            assert(t.drop_last() == rekeyed(l, cfg).take(i as int));
            assert(t.last() == l[i as int].with_key(generated_key(l[i as int], cfg)));
            assert(l[i as int] == session.library.records@[i as int]@);
            assert(l[i as int].wf());
        }
        let mut record = session.library.records[i].copy();
        record.key = generate_key(&record, &session.key_config);
        fresh.add(record);
        i += 1;
    }
    assert(rekeyed(l, cfg).take(l.len() as int) == rekeyed(l, cfg));
    let count = session.library.records.len();
    let changed = session.commit(fresh);
    count
}

/// The records of `l`, each changed by `f`.
pub open spec fn each(l: Seq<RecordView>, f: spec_fn(RecordView) -> RecordView) -> Seq<RecordView> {
    Seq::new(l.len(), |i: int| f(l[i]))
}

/// The session after an operation that changed `count` records into `l`: a
/// step of the history if anything changed, else the session as it was.
pub open spec fn after_batch(s: SessionView, l: Seq<RecordView>, count: int) -> SessionView {
    if count > 0 {
        s.snapshot().changed_to(l)
    } else {
        s
    }
}

proof fn lemma_same_keys_wf(l: Seq<RecordView>, out: Seq<RecordView>)
    requires
        library_wf(l),
        out.len() == l.len(),
        forall|i: int| 0 <= i < l.len() ==> (#[trigger] out[i]).key == l[i].key && out[i].wf(),
    ensures
        library_wf(out),
{
    assert forall|i: int, j: int| 0 <= i < j < out.len() implies (#[trigger] out[i]).key != (
    #[trigger] out[j]).key by {
        assert(l[i].key != l[j].key);
    }
    assert forall|i: int| 0 <= i < out.len() implies (#[trigger] out[i]).wf() && out[i].key.len() > 0 by {
        assert(l[i].key.len() > 0);
    }
}

proof fn lemma_unchanged(
    l: Seq<RecordView>,
    f: spec_fn(RecordView) -> RecordView, changes: spec_fn(RecordView) -> bool, n: int,
)
    requires
        0 <= n <= l.len(),
        count_changes(l, changes, n) == 0,
        forall|r: RecordView| !changes(r) ==> #[trigger] f(r) == r,
    ensures
        forall|i: int| 0 <= i < n ==> f(#[trigger] l[i]) == l[i],
        count_changes(l, changes, n) >= 0,
    decreases n,
{
    if n > 0 {
        lemma_count_nonnegative(l, changes, n - 1);
        lemma_unchanged(l, f, changes, n - 1);
    }
}

proof fn lemma_count_nonnegative(l: Seq<RecordView>, changes: spec_fn(RecordView) -> bool, n: int)
    ensures
        0 <= count_changes(l, changes, n),
        n >= 0 ==> count_changes(l, changes, n) <= n,
    decreases n,
{
    if n > 0 {
        lemma_count_nonnegative(l, changes, n - 1);
    }
}

/// Abbreviates the journal names of all records and returns how many
/// records changed. If none changed, the session stays as it was, without a
/// step in its history.
pub fn abbreviate_all_entries(session: &mut Session, index: &AbbreviationIndex) -> (count: usize)
    requires
        old(session).library.wf(),
    ensures
        count == count_changes(
            old(session)@.library,
            |r: RecordView| abbreviating_changes(index@, r),
            old(session)@.library.len() as int,
        ),
        final(session)@ == after_batch(
            old(session)@,
            each(old(session)@.library, |r: RecordView| with_abbreviations(index@, r)),
            count as int,
        ),
        final(session).library.wf(),
        old(session).wf() ==> final(session).wf(),
{
    let ghost l = session@.library;
    let ghost changes = |r: RecordView| abbreviating_changes(index@, r);
    let ghost f = |r: RecordView| with_abbreviations(index@, r);
    let mut out: Vec<Record> = Vec::new();
    let mut count: usize = 0;
    let mut i: usize = 0;
    while i < session.library.records.len()
        invariant
            i <= session.library.records.len(),
            session@ == old(session)@,
            session.library.wf(),
            old(session).wf() ==> session.wf(),
            l == session@.library,
            changes == (|r: RecordView| abbreviating_changes(index@, r)),
            f == (|r: RecordView| with_abbreviations(index@, r)),
            out.len() == i,
            count == count_changes(l, changes, i as int),
            count <= i,
            forall|k: int| 0 <= k < i ==> (#[trigger] out@[k])@ == f(l[k]) && out@[k]@.key == l[k].key && out@[k]@.wf(),
        decreases session.library.records.len() - i,
    {
        assert(l[i as int] == session.library.records@[i as int]@);
        assert(l[i as int].wf());
        let mut record = session.library.records[i].copy();
        let first = abbreviate_field(index, &mut record, "journal");
        let second = abbreviate_field(index, &mut record, "journaltitle");
        if first || second {
            count += 1;
        }
        out.push(record);
        i += 1;
    }
    proof {
        lemma_same_keys_wf(l, record_views(out@));
        if old(session).wf() {
            lemma_history_keeps_wf(old(session)@);
        }
    }
    if count > 0 {
        session.push_snapshot();
        session.library = Library { records: out };
        session.is_dirty = true;
        assert(session@.library =~= each(l, f));
    } else {
        proof {
            lemma_unchanged(l, f, changes, l.len() as int);
        }
    }
    count
}

/// Expands the abbreviated journal names of all records and returns how
/// many records changed. If none changed, the session stays as it was,
/// without a step in its history.
pub fn unabbreviate_all_entries(session: &mut Session, index: &AbbreviationIndex) -> (count: usize)
    requires
        old(session).library.wf(),
    ensures
        count == count_changes(
            old(session)@.library,
            |r: RecordView| expanding_changes(index@, r),
            old(session)@.library.len() as int,
        ),
        final(session)@ == after_batch(
            old(session)@,
            each(old(session)@.library, |r: RecordView| with_expansions(index@, r)),
            count as int,
        ),
        final(session).library.wf(),
        old(session).wf() ==> final(session).wf(),
{
    let ghost l = session@.library;
    let ghost changes = |r: RecordView| expanding_changes(index@, r);
    let ghost f = |r: RecordView| with_expansions(index@, r);
    let mut out: Vec<Record> = Vec::new();
    let mut count: usize = 0;
    let mut i: usize = 0;
    while i < session.library.records.len()
        invariant
            i <= session.library.records.len(),
            session@ == old(session)@,
            session.library.wf(),
            old(session).wf() ==> session.wf(),
            l == session@.library,
            changes == (|r: RecordView| expanding_changes(index@, r)),
            f == (|r: RecordView| with_expansions(index@, r)),
            out.len() == i,
            count == count_changes(l, changes, i as int),
            count <= i,
            forall|k: int| 0 <= k < i ==> (#[trigger] out@[k])@ == f(l[k]) && out@[k]@.key == l[k].key && out@[k]@.wf(),
        decreases session.library.records.len() - i,
    {
        assert(l[i as int] == session.library.records@[i as int]@);
        assert(l[i as int].wf());
        let mut record = session.library.records[i].copy();
        let first = expand_field(index, &mut record, "journal");
        let second = expand_field(index, &mut record, "journaltitle");
        if first || second {
            count += 1;
        }
        out.push(record);
        i += 1;
    }
    proof {
        lemma_same_keys_wf(l, record_views(out@));
        if old(session).wf() {
            lemma_history_keeps_wf(old(session)@);
        }
    }
    if count > 0 {
        session.push_snapshot();
        session.library = Library { records: out };
        session.is_dirty = true;
        assert(session@.library =~= each(l, f));
    } else {
        proof {
            lemma_unchanged(l, f, changes, l.len() as int);
        }
    }
    count
}


/// The session after the entries `rs` were added one after the other. Each
/// addition is a step of its own in the history.
pub open spec fn added_each(s: SessionView, rs: Seq<RecordView>, index: IndexView) -> SessionView
    decreases rs.len(),
{
    if rs.len() == 0 {
        s
    } else {
        let before = added_each(s, rs.drop_last(), index);
        before.snapshot().changed_to(
            added(before.library, prepared(tidied(rs.last()), before.key_config, index)),
        )
    }
}

/// Adds the entries `records` to the library one after the other and returns
/// how many there are.
pub fn add_each(session: &mut Session, index: &AbbreviationIndex, records: &Vec<Record>) -> (count: usize)
    requires
        old(session).library.wf(),
    ensures
        final(session)@ == added_each(old(session)@, record_views(records@), index@),
        count == records.len(),
        final(session).library.wf(),
        old(session).wf() ==> final(session).wf(),
{
    let ghost rs = record_views(records@);
    let mut i: usize = 0;
    assert(rs.take(0) =~= Seq::<RecordView>::empty());
    while i < records.len()
        invariant
            i <= records.len(),
            rs == record_views(records@),
            session.library.wf(),
            old(session).wf() ==> session.wf(),
            session@ == added_each(old(session)@, rs.take(i as int), index@),
        decreases records.len() - i,
    {
        proof {
            let t = rs.take(i + 1);
            assert(t.drop_last() == rs.take(i as int));
            assert(t.last() == records@[i as int]@);
        }
        add_entry(session, index, tidy(&records[i]));
        i += 1;
    }
    assert(rs.take(records.len() as int) == rs);
    records.len()
}

/// The session after the entries `rs` of a text entered by hand were added:
/// the library as it was is kept as a snapshot of its own, then each entry is
/// added as a step of its own. Without entries the session stays as it was,
/// without a step in its history.
pub open spec fn added_by_hand(s: SessionView, rs: Seq<RecordView>, index: IndexView) -> SessionView {
    if rs.len() == 0 {
        s
    } else {
        added_each(s.snapshot(), rs, index)
    }
}

/// Adds the entries `records` to the library, after a snapshot of the
/// library as it is, and returns how many there are. Without entries nothing
/// changes.
pub fn add_parsed(session: &mut Session, index: &AbbreviationIndex, records: &Vec<Record>) -> (count: usize)
    requires
        old(session).library.wf(),
    ensures
        final(session)@ == added_by_hand(old(session)@, record_views(records@), index@),
        count == records.len(),
        final(session).library.wf(),
        old(session).wf() ==> final(session).wf(),
{
    if records.len() == 0 {
        return 0;
    }
    session.push_snapshot();
    add_each(session, index, records)
}

/// Adds the entries of a fetched text, given the outcome of parsing the
/// text, and returns how many there are. If the text could not be parsed the
/// session stays as it is.
pub fn import_fetched(session: &mut Session, index: &AbbreviationIndex, parsed: Result<Vec<Record>, String>) -> (r: Result<usize, EditError>)
    requires
        old(session).library.wf(),
    ensures
        match outcome_view(parsed) {
            Ok(entries) => r is Ok && r->Ok_0 == entries.len() && final(session)@ == added_each(
                old(session)@,
                entries,
                index@,
            ),
            Err(message) => is_parse_error(r, message) && final(session)@ == old(session)@,
        },
        final(session).library.wf(),
        old(session).wf() ==> final(session).wf(),
{
    match parsed {
        Ok(records) => Ok(add_each(session, index, &records)),
        Err(message) => Err(EditError::Parse(message)),
    }
}

/// Empties the library. If it is empty already, the session stays as it was,
/// without a step in its history.
pub fn clear_all(session: &mut Session)
    ensures
        final(session)@ == old(session)@.committed(Seq::empty()),
        final(session).library.wf(),
        old(session).wf() ==> final(session).wf(),
{
    let changed = session.commit(Library::new());
}

/// Whether a text holds nothing but whitespace.
pub fn is_blank(text: &str) -> (b: bool)
    ensures
        b == (trimmed(text@).len() == 0),
{
    trim(&chars_of(text)).len() == 0
}

/// Adds the entries of a text that was entered by hand, given the outcome of
/// parsing the text, and returns how many there are. The library as it was
/// is kept as a snapshot of its own. If the text could not be parsed, or
/// holds no entry, the session stays as it is.
pub fn parse_manual(session: &mut Session, index: &AbbreviationIndex, parsed: Result<Vec<Record>, String>) -> (r: Result<usize, EditError>)
    requires
        old(session).library.wf(),
    ensures
        match outcome_view(parsed) {
            Ok(entries) => r is Ok && r->Ok_0 == entries.len() && final(session)@ == added_by_hand(
                old(session)@,
                entries,
                index@,
            ),
            Err(message) => is_parse_error(r, message) && final(session)@ == old(session)@,
        },
        final(session).library.wf(),
        old(session).wf() ==> final(session).wf(),
{
    match parsed {
        Ok(records) => Ok(add_parsed(session, index, &records)),
        Err(message) => Err(EditError::Parse(message)),
    }
}

/// Makes the entries `records`, read from a file with the text `text`, the
/// library of the session, and returns how many there are. The history is
/// cleared: a new document has none.
pub fn load_records(session: &mut Session, records: &Vec<Record>, text: &str) -> (count: usize)
    ensures
        final(session)@ == old(session)@.loaded(
            added_all(Seq::empty(), tidied_all(record_views(records@))),
            text@,
        ),
        count == records.len(),
        final(session).wf(),
{
    let ghost rs = tidied_all(record_views(records@));
    let mut library = Library::new();
    let mut i: usize = 0;
    assert(rs.take(0) =~= Seq::<RecordView>::empty());
    while i < records.len()
        invariant
            i <= records.len(),
            rs == tidied_all(record_views(records@)),
            library.wf(),
            library@ == added_all(Seq::empty(), rs.take(i as int)),
        decreases records.len() - i,
    {
        proof {
            let t = rs.take(i + 1);
            assert(t.drop_last() == rs.take(i as int));
            assert(t.last() == tidied(records@[i as int]@));
        }
        library.add(tidy(&records[i]));
        i += 1;
    }
    assert(rs.take(records.len() as int) == rs);
    session.load(library, text.to_owned());
    records.len()
}

/// Loads a bibliography file into the session, given its text and the
/// outcome of parsing the text, and returns the number of entries. If the
/// text could not be parsed the session stays as it is.
pub fn load_text(session: &mut Session, content: &str, parsed: Result<Vec<Record>, String>) -> (r: Result<usize, EditError>)
    requires
        old(session).library.wf(),
    ensures
        match outcome_view(parsed) {
            Ok(entries) => r is Ok && r->Ok_0 == entries.len() && final(session)@ == old(
                session,
            )@.loaded(added_all(Seq::empty(), tidied_all(entries)), content@),
            Err(message) => is_parse_error(r, message) && final(session)@ == old(session)@,
        },
        final(session).library.wf(),
        old(session).wf() ==> final(session).wf(),
{
    match parsed {
        Ok(records) => Ok(load_records(session, &records, content)),
        Err(message) => Err(EditError::Parse(message)),
    }
}

/// The text that a save writes: the library merged into the text of the
/// file as it was read or written last, or into nothing if there is no such
/// text. What the file holds outside its record blocks is written back
/// character for character.
pub open spec fn text_to_save(s: SessionView) -> Seq<char> {
    merged(
        match s.original_text {
            Some(t) => t,
            None => Seq::empty(),
        },
        s.library,
        s.key_config,
    )
}

/// Makes the text that a save is to write.
pub fn render_for_saving(session: &Session) -> (text: String)
    ensures
        text@ == text_to_save(session@),
{
    match &session.original_text {
        Some(t) => merge_bibliography_into_source(t.as_str(), &session.library, &session.key_config),
        None => {
            let empty = String::new();
            merge_bibliography_into_source(empty.as_str(), &session.library, &session.key_config)
        },
    }
}

} // verus!
