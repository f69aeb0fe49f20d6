//! When the scanner reads the canonical text of a record back as one block.
//!
//! It does so if the type and the key hold nothing that ends them early, and
//! if the braces of every field value are balanced, so that the last brace of
//! the block is the one that closes it.

use crate::bibtex::bibtex_type;
use crate::formatter::{block_text, field_line, formatted, formatted_as, indent_of, priority_lines, remaining_lines};
use crate::merger::merged;
use crate::scanner::blocks_of;
use crate::keygen::KeyGenConfigView;
use crate::record::{field_value, plain_text, slot_of, FieldView, RecordView};
use crate::scanner::{block_end, closer_of, is_key_char, is_type_char};
use crate::merger::count_key;
use crate::stability::{block_keys_of, closed_block, distinct_folded, is_one_of, keys_of, lemma_merged_text_holds_each_key_once, lemma_second_merge_changes_nothing, quiet_outside_blocks, stands_at};
use crate::text::{char_is_whitespace, is_ws, run_end, run_start, trimmed};
use vstd::prelude::*;

verus! {

/// The depth of braces after `t` was read from depth `d`, or `None` if a
/// closing brace inside `t` brings the depth to zero.
pub open spec fn depth_after(t: Seq<char>, d: nat) -> Option<nat>
    decreases t.len(),
{
    if t.len() == 0 {
        Some(d)
    } else if t[0] == '{' {
        depth_after(t.drop_first(), d + 1)
    } else if t[0] == '}' {
        if d <= 1 {
            None
        } else {
            depth_after(t.drop_first(), (d - 1) as nat)
        }
    } else {
        depth_after(t.drop_first(), d)
    }
}

/// Whether the braces of `t` are balanced: read inside one open brace, `t`
/// never closes it and ends at the depth at which it began.
pub open spec fn balanced(t: Seq<char>) -> bool {
    depth_after(t, 1) == Some(1nat)
}

/// Whether `t` holds no brace.
pub open spec fn brace_free(t: Seq<char>) -> bool {
    forall|k: int| 0 <= k < t.len() ==> t[k] != '{' && t[k] != '}'
}

/// Whether the fields of a record can be written inside a block: no name
/// holds a brace, and the braces of every value are balanced.
pub open spec fn fields_fit(fields: Seq<FieldView>) -> bool {
    forall|k: int| 0 <= k < fields.len() ==> brace_free((#[trigger] fields[k]).name) && balanced(
        plain_text(fields[k].value),
    )
}

proof fn lemma_depth_concat(a: Seq<char>, b: Seq<char>, d: nat)
    ensures
        depth_after(a + b, d) == match depth_after(a, d) {
            Some(x) => depth_after(b, x),
            None => None,
        },
    decreases a.len(),
{
    if a.len() == 0 {
        assert(a + b =~= b);
    } else {
        assert((a + b).drop_first() =~= a.drop_first() + b);
        assert((a + b)[0] == a[0]);
        if a[0] == '{' {
            lemma_depth_concat(a.drop_first(), b, d + 1);
        } else if a[0] == '}' {
            if d > 1 {
                lemma_depth_concat(a.drop_first(), b, (d - 1) as nat);
            }
        } else {
            lemma_depth_concat(a.drop_first(), b, d);
        }
    }
}

proof fn lemma_depth_brace_free(t: Seq<char>, d: nat)
    requires
        brace_free(t),
    ensures
        depth_after(t, d) == Some(d),
    decreases t.len(),
{
    if t.len() > 0 {
        assert(t[0] != '{' && t[0] != '}');
        assert forall|k: int| 0 <= k < t.drop_first().len() implies t.drop_first()[k] != '{'
            && t.drop_first()[k] != '}' by {
            assert(t.drop_first()[k] == t[k + 1]);
        }
        lemma_depth_brace_free(t.drop_first(), d);
    }
}

proof fn lemma_depth_shift(t: Seq<char>, d: nat, n: nat)
    requires
        depth_after(t, d) is Some,
    ensures
        depth_after(t, d + n) == Some((depth_after(t, d)->0 + n) as nat),
    decreases t.len(),
{
    if t.len() > 0 {
        if t[0] == '{' {
            lemma_depth_shift(t.drop_first(), d + 1, n);
        } else if t[0] == '}' {
            lemma_depth_shift(t.drop_first(), (d - 1) as nat, n);
        } else {
            lemma_depth_shift(t.drop_first(), d, n);
        }
    }
}

/// Reading a part of a text that keeps the block open leaves the search for
/// the end of the block where the part ends.
proof fn lemma_block_end_through(b: Seq<char>, j: int, t: Seq<char>, d: nat)
    requires
        stands_at(b, j, t),
        d >= 1,
        depth_after(t, d) is Some,
    ensures
        block_end(b, j, d, '{', '}') == block_end(b, j + t.len(), depth_after(t, d)->0, '{', '}'),
    decreases t.len(),
{
    if t.len() > 0 {
        assert(b[j] == b.subrange(j, j + t.len())[0]);
        assert(b.subrange(j + 1, j + 1 + t.drop_first().len()) =~= t.drop_first()) by {
            assert forall|q: int| 0 <= q < t.len() - 1 implies b.subrange(j + 1, j + t.len())[q]
                == t.drop_first()[q] by {
                assert(b[j + 1 + q] == b.subrange(j, j + t.len())[q + 1]);
            }
        }
        if t[0] == '{' {
            lemma_block_end_through(b, j + 1, t.drop_first(), d + 1);
        } else if t[0] == '}' {
            lemma_block_end_through(b, j + 1, t.drop_first(), (d - 1) as nat);
        } else {
            lemma_block_end_through(b, j + 1, t.drop_first(), d);
        }
    }
}

/// A field line written inside a block leaves the depth as it was.
proof fn lemma_line_depth(indent: Seq<char>, name: Seq<char>, text: Seq<char>, d: nat)
    requires
        d >= 1,
        brace_free(indent),
        brace_free(name),
        balanced(text),
    ensures
        depth_after(field_line(indent, name, text), d) == Some(d),
{
    let open = seq![' ', '=', ' ', '{'];
    let close = seq!['}', ',', '\n'];
    lemma_depth_brace_free(indent, d);
    lemma_depth_brace_free(name, d);
    lemma_depth_concat(indent, name, d);
    assert(depth_after(open, d) == Some((d + 1) as nat)) by {
        reveal_with_fuel(depth_after, 6);
        assert(open.drop_first() =~= seq!['=', ' ', '{']);
        assert(open.drop_first().drop_first() =~= seq![' ', '{']);
        assert(open.drop_first().drop_first().drop_first() =~= seq!['{']);
        assert(open.drop_first().drop_first().drop_first().drop_first() =~= Seq::<char>::empty());
    }
    lemma_depth_concat(indent + name, open, d);
    lemma_depth_shift(text, 1, d as nat);
    lemma_depth_concat(indent + name + open, text, d);
    assert(depth_after(close, (d + 1) as nat) == Some(d)) by {
        reveal_with_fuel(depth_after, 5);
        assert(close.drop_first() =~= seq![',', '\n']);
        assert(close.drop_first().drop_first() =~= seq!['\n']);
        assert(close.drop_first().drop_first().drop_first() =~= Seq::<char>::empty());
    }
    lemma_depth_concat(indent + name + open + text, close, d);
}

proof fn lemma_found_field_fits(fields: Seq<FieldView>, name: Seq<char>)
    requires
        fields_fit(fields),
        field_value(fields, name) is Some,
    ensures
        brace_free(name),
        balanced(plain_text(field_value(fields, name)->0)),
{
    let p = slot_of(fields, name);
    assert(fields[p].name == name);
}

proof fn lemma_priority_depth(
    fields: Seq<FieldView>,
    order: Seq<Seq<char>>,
    indent: Seq<char>,
    d: nat,
)
    requires
        d >= 1,
        brace_free(indent),
        fields_fit(fields),
    ensures
        depth_after(priority_lines(fields, order, indent), d) == Some(d),
    decreases order.len(),
{
    if order.len() > 0 {
        lemma_priority_depth(fields, order.drop_last(), indent, d);
        let before = priority_lines(fields, order.drop_last(), indent);
        match field_value(fields, order.last()) {
            Some(v) => {
                lemma_found_field_fits(fields, order.last());
                lemma_line_depth(indent, order.last(), plain_text(v), d);
                lemma_depth_concat(before, field_line(indent, order.last(), plain_text(v)), d);
            },
            None => {
                assert(before + Seq::<char>::empty() =~= before);
            },
        }
    }
}

proof fn lemma_remaining_depth(
    fields: Seq<FieldView>,
    order: Seq<Seq<char>>,
    indent: Seq<char>,
    d: nat,
)
    requires
        d >= 1,
        brace_free(indent),
        fields_fit(fields),
    ensures
        depth_after(remaining_lines(fields, order, indent), d) == Some(d),
    decreases fields.len(),
{
    if fields.len() > 0 {
        let rest = fields.drop_last();
        assert forall|k: int| 0 <= k < rest.len() implies brace_free((#[trigger] rest[k]).name)
            && balanced(plain_text(rest[k].value)) by {
            assert(rest[k] == fields[k]);
        }
        lemma_remaining_depth(rest, order, indent, d);
        let before = remaining_lines(rest, order, indent);
        assert(fields.last() == fields[fields.len() - 1]);
        if order.contains(fields.last().name) {
            assert(before + Seq::<char>::empty() =~= before);
        } else {
            lemma_line_depth(indent, fields.last().name, plain_text(fields.last().value), d);
            lemma_depth_concat(
                before,
                field_line(indent, fields.last().name, plain_text(fields.last().value)),
                d,
            );
        }
    }
}

/// A run over characters that all satisfy `p` ends where they end, if the
/// character behind them does not satisfy `p`.
proof fn lemma_run_exact(b: Seq<char>, i: int, n: int, p: spec_fn(char) -> bool)
    requires
        0 <= i,
        0 <= n,
        i + n < b.len(),
        forall|k: int| i <= k < i + n ==> p(#[trigger] b[k]),
        !p(b[i + n]),
    ensures
        run_end(b, i, p) == i + n,
    decreases n,
{
    if n > 0 {
        lemma_run_exact(b, i + 1, n - 1, p);
    }
}

/// A text that neither begins nor ends with whitespace is left as it is by
/// trimming.
proof fn lemma_trim_keeps(s: Seq<char>)
    requires
        s.len() > 0,
        !char_is_whitespace(s[0]),
        !char_is_whitespace(s[s.len() - 1]),
    ensures
        trimmed(s) == s,
{
    assert(run_end(s, 0, is_ws()) == 0);
    assert(run_start(s, s.len() as int, is_ws()) == s.len());
    assert(s.subrange(0, s.len() as int) =~= s);
}

/// Whether `kind` can stand as the type of a block: it holds no whitespace and
/// no opening delimiter.
pub open spec fn fits_as_type(kind: Seq<char>) -> bool {
    forall|k: int| 0 <= k < kind.len() ==> is_type_char()(#[trigger] kind[k])
}

/// Whether `key` can stand as the key of a block in braces: it is not empty
/// and holds no comma, no closing brace and no whitespace.
pub open spec fn fits_as_key(key: Seq<char>) -> bool {
    key.len() > 0 && forall|k: int| 0 <= k < key.len() ==> is_key_char('}')(#[trigger] key[k])
}

/// The canonical text of a record is a closed block under the key of the
/// record if the type and the key hold nothing that ends them early, no field
/// name and not the indentation holds a brace, and the braces of every field
/// value are balanced.
pub proof fn lemma_canonical_text_is_closed(kind: Seq<char>, r: RecordView, cfg: KeyGenConfigView)
    requires
        fits_as_type(kind),
        fits_as_key(r.key),
        fields_fit(r.fields),
        cfg.indent_char != '{' && cfg.indent_char != '}',
    ensures
        closed_block(formatted_as(kind, r, cfg), r.key),
{
    let indent = indent_of(cfg);
    let lines = priority_lines(r.fields, cfg.field_order, indent) + remaining_lines(
        r.fields,
        cfg.field_order,
        indent,
    );
    let head = seq!['@'] + kind + seq!['{'] + r.key;
    let tail = seq![',', '\n'] + lines;
    let b = block_text(kind, r, cfg);
    assert(b =~= head + tail + seq!['}']);
    let t: int = 1 + kind.len() as int;
    let ks: int = t + 1;
    let ke: int = ks + r.key.len() as int;
    assert(b[0] == '@');
    assert(b[b.len() - 1] == '}');
    lemma_trim_keeps(b);
    assert forall|k: int| 1 <= k < t implies is_type_char()(#[trigger] b[k]) by {
        assert(b[k] == kind[k - 1]);
    }
    assert(b[t] == '{');
    lemma_run_exact(b, 1, kind.len() as int, is_type_char());
    assert(run_end(b, t, is_ws()) == t);
    assert forall|k: int| ks <= k < ke implies is_key_char('}')(#[trigger] b[k]) by {
        assert(b[k] == r.key[k - ks]);
    }
    assert(b[ks] == r.key[0]);
    assert(run_end(b, ks, is_ws()) == ks);
    assert(b[ke] == ',');
    lemma_run_exact(b, ks, r.key.len() as int, is_key_char('}'));
    assert(b.subrange(ks, ke) =~= r.key);
    assert(closer_of(b[t]) == '}');
    assert(brace_free(indent));
    lemma_priority_depth(r.fields, cfg.field_order, indent, 1);
    lemma_remaining_depth(r.fields, cfg.field_order, indent, 1);
    lemma_depth_concat(
        priority_lines(r.fields, cfg.field_order, indent),
        remaining_lines(r.fields, cfg.field_order, indent),
        1,
    );
    lemma_depth_brace_free(seq![',', '\n'], 1);
    lemma_depth_concat(seq![',', '\n'], lines, 1);
    assert(b.subrange(ke, ke + tail.len()) =~= tail);
    lemma_block_end_through(b, ke, tail, 1);
    assert(ke + tail.len() == b.len() - 1);
    assert(block_end(b, b.len() - 1, 1, '{', '}') == Some(b.len() as int));
}

/// Whether a record can be written as a block that the scanner reads
/// back: the name of its type and its key hold nothing that ends them early,
/// no field name holds a brace, and the braces of every field value are
/// balanced.
pub open spec fn fits_in_a_block(r: RecordView) -> bool {
    fits_as_type(bibtex_type(r.entry_type)) && fits_as_key(r.key) && fields_fit(r.fields)
}

/// Merging is stable for records that fit in a block: if every record of the
/// library fits in a block, no two records have keys that are equal when case
/// is disregarded, the text holds no `@` outside its blocks, and the
/// indentation is no brace, then merging the library into the merged text
/// gives the merged text again, character for character.
pub proof fn lemma_merge_is_stable_for_fitting_records(
    s: Seq<char>,
    l: Seq<RecordView>,
    cfg: KeyGenConfigView,
)
    requires
        forall|i: int| 0 <= i < l.len() ==> fits_in_a_block(#[trigger] l[i]),
        cfg.indent_char != '{' && cfg.indent_char != '}',
        distinct_folded(keys_of(l)),
        quiet_outside_blocks(s),
    ensures
        merged(merged(s, l, cfg), l, cfg) == merged(s, l, cfg),
{
    assert forall|i: int| 0 <= i < l.len() implies closed_block(formatted(#[trigger] l[i], cfg), l[i].key) by {
        assert(fits_in_a_block(l[i]));
        lemma_canonical_text_is_closed(bibtex_type(l[i].entry_type), l[i], cfg);
    }
    lemma_second_merge_changes_nothing(s, l, cfg);
}

/// Merging is complete for records that fit in a block: if every record of
/// the library fits in a block, no two records and no two blocks of the text
/// have keys that are equal when case is disregarded, the text holds no `@`
/// outside its blocks, and the indentation is no brace, then the scanner
/// finds in the merged text exactly one block for the key of each record, and
/// no block under a key that no record has.
pub proof fn lemma_merge_is_complete_for_fitting_records(
    s: Seq<char>,
    l: Seq<RecordView>,
    cfg: KeyGenConfigView,
)
    requires
        forall|i: int| 0 <= i < l.len() ==> fits_in_a_block(#[trigger] l[i]),
        cfg.indent_char != '{' && cfg.indent_char != '}',
        distinct_folded(keys_of(l)),
        distinct_folded(block_keys_of(s)),
        quiet_outside_blocks(s),
    ensures
        blocks_of(merged(s, l, cfg)).len() == l.len(),
        forall|i: int| 0 <= i < l.len() ==> count_key(blocks_of(merged(s, l, cfg)), (#[trigger] l[i]).key) == 1,
        forall|k: int| 0 <= k < blocks_of(merged(s, l, cfg)).len() ==> is_one_of(keys_of(l), (#[trigger] blocks_of(merged(s, l, cfg))[k]).key),
{
    assert forall|i: int| 0 <= i < l.len() implies closed_block(formatted(#[trigger] l[i], cfg), l[i].key) by {
        assert(fits_in_a_block(l[i]));
        lemma_canonical_text_is_closed(bibtex_type(l[i].entry_type), l[i], cfg);
    }
    lemma_merged_text_holds_each_key_once(s, l, cfg);
}

} // verus!
