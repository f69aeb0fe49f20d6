//! The canonical text of one record.
//!
//! ```text
//! @<type>{<key>,
//! <indent><field> = {<value>},
//! <indent><field> = {<value>},
//! }
//! ```

use crate::bibtex::{bibtex_type, bibtex_kind};
use crate::keygen::{KeyGenConfig, KeyGenConfigView};
use crate::record::{field_value, plain_text, text_of_chunks, FieldView, Record, RecordView};
use crate::text::{chars_eq, chars_of, push_all, string_of, trim, trimmed, views};
use vstd::prelude::*;

verus! {

/// The indentation of a field line: the indentation character, repeated.
pub open spec fn indent_of(cfg: KeyGenConfigView) -> Seq<char> {
    Seq::new(cfg.indent_width, |i: int| cfg.indent_char)
}

/// One field line: `<indent><name> = {<text>},` and a line feed.
pub open spec fn field_line(indent: Seq<char>, name: Seq<char>, text: Seq<char>) -> Seq<char> {
    indent + name + seq![' ', '=', ' ', '{'] + text + seq!['}', ',', '\n']
}

/// The lines of the fields that `order` names, in the order of `order`. A name
/// that the record has no field for contributes nothing.
pub open spec fn priority_lines(
    fields: Seq<FieldView>,
    order: Seq<Seq<char>>,
    indent: Seq<char>,
) -> Seq<char>
    decreases order.len(),
{
    if order.len() == 0 {
        Seq::empty()
    } else {
        priority_lines(fields, order.drop_last(), indent) + (match field_value(
            fields,
            order.last(),
        ) {
            Some(v) => field_line(indent, order.last(), plain_text(v)),
            None => Seq::empty(),
        })
    }
}

/// The lines of the fields that `order` does not name, in the order in which
/// the record keeps them: by name.
pub open spec fn remaining_lines(
    fields: Seq<FieldView>,
    order: Seq<Seq<char>>,
    indent: Seq<char>,
) -> Seq<char>
    decreases fields.len(),
{
    if fields.len() == 0 {
        Seq::empty()
    } else {
        remaining_lines(fields.drop_last(), order, indent) + (if order.contains(
            fields.last().name,
        ) {
            Seq::empty()
        } else {
            field_line(indent, fields.last().name, plain_text(fields.last().value))
        })
    }
}

/// The block of `r` before its outer whitespace is removed.
pub open spec fn block_text(kind: Seq<char>, r: RecordView, cfg: KeyGenConfigView) -> Seq<char> {
    seq!['@'] + kind + seq!['{'] + r.key + seq![',', '\n'] + priority_lines(
        r.fields,
        cfg.field_order,
        indent_of(cfg),
    ) + remaining_lines(r.fields, cfg.field_order, indent_of(cfg)) + seq!['}']
}

/// The canonical text of `r` written under the type `kind`.
pub open spec fn formatted_as(kind: Seq<char>, r: RecordView, cfg: KeyGenConfigView) -> Seq<char> {
    trimmed(block_text(kind, r, cfg))
}

/// The canonical text of `r`: its block under the name that plain BibTeX has
/// for its type.
pub open spec fn formatted(r: RecordView, cfg: KeyGenConfigView) -> Seq<char> {
    formatted_as(bibtex_type(r.entry_type), r, cfg)
}

/// Appends one field line to `out`.
fn write_field(out: &mut Vec<char>, name: &Vec<char>, text: &Vec<char>, indent: &Vec<char>)
    ensures
        final(out)@ == old(out)@ + field_line(indent@, name@, text@),
{
    push_all(out, indent);
    push_all(out, name);
    out.push(' ');
    out.push('=');
    out.push(' ');
    out.push('{');
    push_all(out, text);
    out.push('}');
    out.push(',');
    out.push('\n');
    assert(out@ =~= old(out)@ + field_line(indent@, name@, text@));
}

/// Whether `name` is one of `order`.
fn is_listed(order: &Vec<Vec<char>>, name: &Vec<char>) -> (r: bool)
    ensures
        r == views(order@).contains(name@),
{
    let mut i: usize = 0;
    while i < order.len()
        invariant
            i <= order.len(),
            forall|k: int| 0 <= k < i ==> views(order@)[k] != name@,
        decreases order.len() - i,
    {
        if chars_eq(&order[i], name) {
            assert(views(order@)[i as int] == name@);
            return true;
        }
        i += 1;
    }
    false
}

/// The canonical text of `record` under the type `kind`, as
/// characters.
pub fn block_of(kind: &Vec<char>, record: &Record, config: &KeyGenConfig) -> (out: Vec<char>)
    ensures
        out@ == formatted_as(kind@, record@, config@),
{
    let mut indent: Vec<char> = Vec::new();
    let mut n: u8 = 0;
    while n < config.indent_width
        invariant
            n <= config.indent_width,
            indent@ == Seq::new(n as nat, |i: int| config.indent_char),
        decreases config.indent_width - n,
    {
        indent.push(config.indent_char);
        n += 1;
        assert(indent@ =~= Seq::new(n as nat, |i: int| config.indent_char));
    }
    let mut order: Vec<Vec<char>> = Vec::new();
    let mut i: usize = 0;
    while i < config.field_order.len()
        invariant
            i <= config.field_order.len(),
            order.len() == i,
            forall|k: int| 0 <= k < i ==> (#[trigger] order@[k])@ == config.field_order@[k]@,
        decreases config.field_order.len() - i,
    {
        order.push(chars_of(config.field_order[i].as_str()));
        i += 1;
    }
    assert(views(order@) =~= config@.field_order);

    let mut out: Vec<char> = Vec::new();
    out.push('@');
    push_all(&mut out, kind);
    out.push('{');
    push_all(&mut out, &chars_of(record.key.as_str()));
    out.push(',');
    out.push('\n');
    let ghost head = out@;
    assert(head =~= seq!['@'] + kind@ + seq!['{'] + record@.key + seq![',', '\n']);

    let mut k: usize = 0;
    assert(config@.field_order.take(0) =~= Seq::<Seq<char>>::empty());
    while k < order.len()
        invariant
            k <= order.len(),
            views(order@) == config@.field_order,
            out@ == head + priority_lines(record@.fields, config@.field_order.take(k as int), indent@),
        decreases order.len() - k,
    {
        proof {
            let t = config@.field_order.take(k + 1);
            assert(t.drop_last() == config@.field_order.take(k as int));
            assert(t.last() == order@[k as int]@) by {
                assert(views(order@)[k as int] == order@[k as int]@);
            }
        }
        let name = string_of(&order[k]);
        match record.get(name.as_str()) {
            Some(value) => {
                let text = text_of_chunks(value);
                write_field(&mut out, &order[k], &text, &indent);
            },
            None => {},
        }
        k += 1;
    }
    assert(config@.field_order.take(order.len() as int) == config@.field_order);
    let ghost first = out@;

    let mut j: usize = 0;
    assert(record@.fields.take(0) =~= Seq::<FieldView>::empty());
    while j < record.fields.len()
        invariant
            j <= record.fields.len(),
            views(order@) == config@.field_order,
            out@ == first + remaining_lines(record@.fields.take(j as int), config@.field_order, indent@),
        decreases record.fields.len() - j,
    {
        proof {
            let t = record@.fields.take(j + 1);
            assert(t.drop_last() == record@.fields.take(j as int));
            assert(t.last() == record.fields@[j as int]@);
        }
        let name = chars_of(record.fields[j].name.as_str());
        if !is_listed(&order, &name) {
            let text = text_of_chunks(&record.fields[j].value);
            write_field(&mut out, &name, &text, &indent);
        }
        j += 1;
    }
    assert(record@.fields.take(record.fields.len() as int) == record@.fields);
    out.push('}');
    assert(out@ =~= block_text(kind@, record@, config@));
    trim(&out)
}

/// The canonical text of `record` written under a given type: the
/// header line, the configured priority fields that the record has, its other
/// fields by name, and the closing brace, without outer whitespace.
pub fn format_entry_as(kind: &str, record: &Record, config: &KeyGenConfig) -> (out: String)
    ensures
        out@ == formatted_as(kind@, record@, config@),
{
    let t = chars_of(kind);
    let block = block_of(&t, record, config);
    string_of(&block)
}

/// The canonical text of `record`. The same record and configuration always
/// give the same text.
pub fn format_entry(record: &Record, config: &KeyGenConfig) -> (out: String)
    ensures
        out@ == formatted(record@, config@),
{
    let kind = bibtex_kind(record.entry_type.as_str());
    format_entry_as(kind.as_str(), record, config)
}

} // verus!
