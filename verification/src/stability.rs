//! Why a second merge changes nothing.
//!
//! A merged text is made of pieces: text from outside the blocks of the
//! original, line feeds, and the canonical texts of records. If the scanner
//! reads each canonical text back as one block, and nothing else in the text
//! looks like the start of a block, a second merge finds every record in its
//! place and writes the same text again.

use crate::formatter::formatted;
use crate::keygen::KeyGenConfigView;
use crate::merger::{blocks_are_canonical, count_key, find_rendered, lemma_merge_occurrences, flatten, folded, has_one_place, lemma_count_key, lemma_find_rendered, lemma_merge_copies_no_block, lemma_merge_keeps_canonical_text, lemma_merge_writes_each_record_once, merge_plan, merged, occurrences, piece_text, rendered_all, woven, Piece, RenderedView};
use crate::record::RecordView;
use crate::scanner::{block_end, blocks_of, closer_of, has_key, in_order, is_among, is_key_char, is_type_char, last_per_key, lemma_blocks_in_order, lemma_last_per_key_in_order, lemma_last_per_key_selects, scan_from, SpanView};
use crate::text::{is_ws, lemma_run_end, run_end, str_lowercase};
use vstd::prelude::*;

verus! {

/// Whether the scanner reads `b` as exactly one block with the key `key`,
/// whatever text follows: `b` starts with `@`, its type, delimiter and key
/// are found inside it, and its last character closes the block.
pub open spec fn closed_block(b: Seq<char>, key: Seq<char>) -> bool {
    let t = run_end(b, 1, is_type_char());
    let d = run_end(b, t, is_ws());
    let ks = run_end(b, d + 1, is_ws());
    let ke = run_end(b, ks, is_key_char(closer_of(b[d])));
    &&& b.len() > 0
    &&& b[0] == '@'
    &&& 0 < d < b.len()
    &&& b[d] == '{' || b[d] == '('
    &&& ks < ke < b.len()
    &&& b.subrange(ks, ke) == key
    &&& block_end(b, ke, 1, b[d], closer_of(b[d])) == Some(b.len() as int)
}

/// Whether `b` stands in `text` at position `i`.
pub open spec fn stands_at(text: Seq<char>, i: int, b: Seq<char>) -> bool {
    0 <= i && i + b.len() <= text.len() && text.subrange(i, i + b.len()) == b
}

/// A run that ends inside a part of a text ends at the same place in the
/// whole text.
proof fn lemma_run_inside(text: Seq<char>, i: int, b: Seq<char>, x: int, p: spec_fn(char) -> bool)
    requires
        stands_at(text, i, b),
        0 <= x <= b.len(),
        run_end(b, x, p) < b.len(),
    ensures
        run_end(text, i + x, p) == i + run_end(b, x, p),
    decreases b.len() - x,
{
    if x < b.len() {
        assert(text[i + x] == text.subrange(i, i + b.len())[x]);
        if p(b[x]) {
            lemma_run_inside(text, i, b, x + 1, p);
        }
    }
}

/// A block that closes inside a part of a text closes at the same place in
/// the whole text.
proof fn lemma_block_end_inside(
    text: Seq<char>,
    i: int,
    b: Seq<char>,
    x: int,
    depth: nat,
    open: char,
    close: char,
)
    requires
        stands_at(text, i, b),
        0 <= x <= b.len(),
        block_end(b, x, depth, open, close) is Some,
    ensures
        block_end(text, i + x, depth, open, close) == Some(i + block_end(b, x, depth, open, close)->0),
    decreases b.len() - x,
{
    if x < b.len() {
        assert(text[i + x] == text.subrange(i, i + b.len())[x]);
        if b[x] == open {
            lemma_block_end_inside(text, i, b, x + 1, depth + 1, open, close);
        } else if b[x] == close {
            if depth > 1 {
                lemma_block_end_inside(text, i, b, x + 1, (depth - 1) as nat, open, close);
            }
        } else {
            lemma_block_end_inside(text, i, b, x + 1, depth, open, close);
        }
    }
}

/// Where a closed block stands in a text, the scanner finds it and goes on
/// behind it.
pub proof fn lemma_scan_closed_block(text: Seq<char>, i: int, b: Seq<char>, key: Seq<char>)
    requires
        stands_at(text, i, b),
        closed_block(b, key),
    ensures
        scan_from(text, i) == seq![SpanView { key, start: i, end: i + b.len() }] + scan_from(
            text,
            i + b.len(),
        ),
{
    let t = run_end(b, 1, is_type_char());
    let d = run_end(b, t, is_ws());
    let close = closer_of(b[d]);
    let ks = run_end(b, d + 1, is_ws());
    let ke = run_end(b, ks, is_key_char(close));
    lemma_run_end(b, 1, is_type_char());
    lemma_run_end(b, t, is_ws());
    lemma_run_end(b, d + 1, is_ws());
    lemma_run_end(b, ks, is_key_char(close));
    assert(text[i] == text.subrange(i, i + b.len())[0]);
    assert(text[i + d] == text.subrange(i, i + b.len())[d]);
    lemma_run_inside(text, i, b, 1, is_type_char());
    lemma_run_inside(text, i, b, t, is_ws());
    lemma_run_inside(text, i, b, d + 1, is_ws());
    lemma_run_inside(text, i, b, ks, is_key_char(close));
    lemma_block_end_inside(text, i, b, ke, 1, b[d], close);
    assert(text.subrange(i + ks, i + ke) =~= b.subrange(ks, ke));
}

/// Where no `@` stands the scanner finds nothing.
pub proof fn lemma_scan_skips(text: Seq<char>, i: int, j: int)
    requires
        0 <= i <= j <= text.len(),
        forall|p: int| i <= p < j ==> text[p] != '@',
    ensures
        scan_from(text, i) == scan_from(text, j),
    decreases j - i,
{
    if i < j {
        lemma_scan_skips(text, i + 1, j);
    }
}


/// Whether the pieces of a plan can be told apart by the scanner: every
/// entry is a record whose canonical text is a closed block under its key,
/// and no other piece holds an `@`.
pub open spec fn scannable(
    s: Seq<char>,
    rs: Seq<RenderedView>,
    keys: Seq<Seq<char>>,
    plan: Seq<Piece>,
) -> bool {
    forall|x: int| 0 <= x < plan.len() ==> match #[trigger] plan[x] {
        Piece::Entry { index } => 0 <= index < rs.len() && closed_block(rs[index].block, keys[index]),
        _ => !piece_text(s, rs, plan[x]).contains('@'),
    }
}

/// The records that a plan writes, in the order of the plan.
pub open spec fn indices_of(plan: Seq<Piece>) -> Seq<int>
    decreases plan.len(),
{
    if plan.len() == 0 {
        Seq::empty()
    } else {
        match plan.last() {
            Piece::Entry { index } => indices_of(plan.drop_last()).push(index),
            _ => indices_of(plan.drop_last()),
        }
    }
}

/// The places that the records of a plan take in the text of the plan, each
/// with the key of its record.
pub open spec fn spans_of_plan(
    s: Seq<char>,
    rs: Seq<RenderedView>,
    keys: Seq<Seq<char>>,
    plan: Seq<Piece>,
) -> Seq<SpanView>
    decreases plan.len(),
{
    if plan.len() == 0 {
        Seq::empty()
    } else {
        match plan.last() {
            Piece::Entry { index } => spans_of_plan(s, rs, keys, plan.drop_last()).push(
                SpanView {
                    key: keys[index],
                    start: flatten(s, rs, plan.drop_last()).len() as int,
                    end: flatten(s, rs, plan).len() as int,
                },
            ),
            _ => spans_of_plan(s, rs, keys, plan.drop_last()),
        }
    }
}

/// The scanner finds in the text of a scannable plan the records of the plan
/// in their places, and goes on behind the text of the plan.
pub proof fn lemma_scan_plan(
    text: Seq<char>,
    s: Seq<char>,
    rs: Seq<RenderedView>,
    keys: Seq<Seq<char>>,
    plan: Seq<Piece>,
)
    requires
        scannable(s, rs, keys, plan),
        stands_at(text, 0, flatten(s, rs, plan)),
    ensures
        scan_from(text, 0) == spans_of_plan(s, rs, keys, plan) + scan_from(
            text,
            flatten(s, rs, plan).len() as int,
        ),
    decreases plan.len(),
{
    if plan.len() == 0 {
        assert(spans_of_plan(s, rs, keys, plan) + scan_from(text, 0) =~= scan_from(text, 0));
    } else {
        let before = plan.drop_last();
        let done = flatten(s, rs, before);
        let piece = piece_text(s, rs, plan.last());
        let whole = flatten(s, rs, plan);
        assert(whole == done + piece);
        assert forall|x: int| 0 <= x < before.len() implies match #[trigger] before[x] {
            Piece::Entry { index } => 0 <= index < rs.len() && closed_block(rs[index].block, keys[index]),
            _ => !piece_text(s, rs, before[x]).contains('@'),
        } by {
            assert(before[x] == plan[x]);
        }
        assert(text.subrange(0, done.len() as int) =~= done) by {
            assert(text.subrange(0, whole.len() as int) == whole);
            assert forall|q: int| 0 <= q < done.len() implies text.subrange(0, done.len() as int)[q]
                == done[q] by {
                assert(text[q] == text.subrange(0, whole.len() as int)[q]);
                assert(whole[q] == done[q]);
            }
        }
        lemma_scan_plan(text, s, rs, keys, before);
        let at = done.len() as int;
        assert(text.subrange(at, at + piece.len()) =~= piece) by {
            assert forall|q: int| 0 <= q < piece.len() implies text.subrange(at, at + piece.len())[q]
                == piece[q] by {
                assert(text[at + q] == text.subrange(0, whole.len() as int)[at + q]);
                assert(whole[at + q] == piece[q]);
            }
        }
        assert(plan.last() == plan[plan.len() - 1]);
        match plan.last() {
            Piece::Entry { index } => {
                lemma_scan_closed_block(text, at, piece, keys[index]);
                assert(spans_of_plan(s, rs, keys, before).push(
                    SpanView { key: keys[index], start: at, end: at + piece.len() },
                ) + scan_from(text, at + piece.len()) =~= spans_of_plan(s, rs, keys, before) + (seq![
                    SpanView { key: keys[index], start: at, end: at + piece.len() },
                ] + scan_from(text, at + piece.len())));
            },
            _ => {
                assert forall|q: int| at <= q < at + piece.len() implies text[q] != '@' by {
                    assert(text[q] == text.subrange(at, at + piece.len())[q - at]);
                    assert(piece.contains(piece[q - at]));
                }
                lemma_scan_skips(text, at, at + piece.len());
            },
        }
    }
}


/// Whether `v` is among `q`.
pub open spec fn appears(q: Seq<int>, v: int) -> bool {
    exists|k: int| 0 <= k < q.len() && #[trigger] q[k] == v
}

/// How often `v` is among `q`.
pub open spec fn count_of(q: Seq<int>, v: int) -> int
    decreases q.len(),
{
    if q.len() == 0 {
        0
    } else {
        count_of(q.drop_last(), v) + if q.last() == v {
            1int
        } else {
            0int
        }
    }
}

proof fn lemma_count_of(q: Seq<int>, v: int)
    ensures
        count_of(q, v) >= 0,
        forall|k: int| 0 <= k < q.len() && q[k] == v ==> count_of(q, v) >= 1,
        count_of(q, v) >= 1 ==> exists|k: int| 0 <= k < q.len() && q[k] == v,
    decreases q.len(),
{
    if q.len() > 0 {
        let rest = q.drop_last();
        lemma_count_of(rest, v);
        assert forall|k: int| 0 <= k < q.len() && q[k] == v implies count_of(q, v) >= 1 by {
            if k < q.len() - 1 {
                assert(rest[k] == v);
            }
        }
        if count_of(q, v) >= 1 {
            if q.last() == v {
                assert(q[q.len() - 1] == v);
            } else {
                let k = choose|k: int| 0 <= k < rest.len() && rest[k] == v;
                assert(q[k] == v);
            }
        }
    }
}

proof fn lemma_no_repeats(q: Seq<int>)
    requires
        forall|v: int| count_of(q, v) <= 1,
    ensures
        forall|a: int, b: int| 0 <= a < b < q.len() ==> q[a] != q[b],
    decreases q.len(),
{
    if q.len() > 0 {
        let rest = q.drop_last();
        assert forall|v: int| count_of(rest, v) <= 1 by {
            assert(count_of(q, v) <= 1);
        }
        lemma_no_repeats(rest);
        assert forall|a: int, b: int| 0 <= a < b < q.len() implies q[a] != q[b] by {
            if b < q.len() - 1 {
                assert(rest[a] == q[a] && rest[b] == q[b]);
            } else if q[a] == q[b] {
                lemma_count_of(rest, q[b]);
                assert(rest[a] == q[b]);
                assert(count_of(q, q[b]) <= 1);
            }
        }
    }
}

proof fn lemma_indices_count(plan: Seq<Piece>, i: int)
    ensures
        count_of(indices_of(plan), i) == occurrences(plan, i),
    decreases plan.len(),
{
    if plan.len() > 0 {
        lemma_indices_count(plan.drop_last(), i);
        match plan.last() {
            Piece::Entry { index } => {
                assert(indices_of(plan).drop_last() == indices_of(plan.drop_last()));
            },
            _ => {},
        }
    }
}

/// Whether `sp` is a place in `t` that holds the canonical text of record
/// `idx` and carries its key.
pub open spec fn placed(
    t: Seq<char>,
    rs: Seq<RenderedView>,
    keys: Seq<Seq<char>>,
    sp: SpanView,
    idx: int,
) -> bool {
    &&& 0 <= idx < rs.len()
    &&& sp.key == keys[idx]
    &&& 0 <= sp.start < sp.end <= t.len()
    &&& t.subrange(sp.start, sp.end) == rs[idx].block
}

proof fn lemma_placed_stays(
    t: Seq<char>,
    more: Seq<char>,
    rs: Seq<RenderedView>,
    keys: Seq<Seq<char>>,
    sp: SpanView,
    idx: int,
)
    requires
        placed(t, rs, keys, sp, idx),
    ensures
        placed(t + more, rs, keys, sp, idx),
{
    assert((t + more).subrange(sp.start, sp.end) =~= t.subrange(sp.start, sp.end));
}

proof fn lemma_scannable_prefix(
    s: Seq<char>,
    rs: Seq<RenderedView>,
    keys: Seq<Seq<char>>,
    plan: Seq<Piece>,
)
    requires
        scannable(s, rs, keys, plan),
        plan.len() > 0,
    ensures
        scannable(s, rs, keys, plan.drop_last()),
{
    let before = plan.drop_last();
    assert forall|x: int| 0 <= x < before.len() implies match #[trigger] before[x] {
        Piece::Entry { index } => 0 <= index < rs.len() && closed_block(rs[index].block, keys[index]),
        _ => !piece_text(s, rs, before[x]).contains('@'),
    } by {
        assert(before[x] == plan[x]);
    }
}

/// What holds of the places that the records of a scannable plan take: each
/// holds the canonical text of its record and carries its key, and the places
/// follow one another in the text.
proof fn lemma_plan_spans(
    s: Seq<char>,
    rs: Seq<RenderedView>,
    keys: Seq<Seq<char>>,
    plan: Seq<Piece>,
)
    requires
        scannable(s, rs, keys, plan),
    ensures
        spans_of_plan(s, rs, keys, plan).len() == indices_of(plan).len(),
        forall|k: int| 0 <= k < indices_of(plan).len() ==> #[trigger] placed(
            flatten(s, rs, plan),
            rs,
            keys,
            spans_of_plan(s, rs, keys, plan)[k],
            indices_of(plan)[k],
        ),
        forall|a: int, b: int| 0 <= a < b < indices_of(plan).len() ==> (#[trigger] spans_of_plan(s, rs, keys, plan)[a]).end <= (#[trigger] spans_of_plan(s, rs, keys, plan)[b]).start,
    decreases plan.len(),
{
    if plan.len() > 0 {
        let before = plan.drop_last();
        let whole = flatten(s, rs, plan);
        let done = flatten(s, rs, before);
        let piece = piece_text(s, rs, plan.last());
        assert(whole == done + piece);
        lemma_scannable_prefix(s, rs, keys, plan);
        lemma_plan_spans(s, rs, keys, before);
        let old_spans = spans_of_plan(s, rs, keys, before);
        let old_idx = indices_of(before);
        let new_spans = spans_of_plan(s, rs, keys, plan);
        let new_idx = indices_of(plan);
        assert(plan.last() == plan[plan.len() - 1]);
        match plan.last() {
            Piece::Entry { index } => {
                let sp = SpanView { key: keys[index], start: done.len() as int, end: whole.len() as int };
                assert(new_spans == old_spans.push(sp));
                assert(new_idx == old_idx.push(index));
                assert(whole.subrange(done.len() as int, whole.len() as int) =~= piece);
                assert(placed(whole, rs, keys, sp, index));
                assert forall|k: int| 0 <= k < new_idx.len() implies #[trigger] placed(
                    whole,
                    rs,
                    keys,
                    new_spans[k],
                    new_idx[k],
                ) by {
                    if k < old_idx.len() {
                        assert(placed(done, rs, keys, old_spans[k], old_idx[k]));
                        lemma_placed_stays(done, piece, rs, keys, old_spans[k], old_idx[k]);
                    }
                }
                assert forall|a: int, b: int| 0 <= a < b < new_idx.len() implies (#[trigger] new_spans[a]).end
                    <= (#[trigger] new_spans[b]).start by {
                    assert(placed(done, rs, keys, old_spans[a], old_idx[a]));
                }
            },
            _ => {
                assert(new_spans == old_spans);
                assert(new_idx == old_idx);
                assert forall|k: int| 0 <= k < new_idx.len() implies #[trigger] placed(
                    whole,
                    rs,
                    keys,
                    new_spans[k],
                    new_idx[k],
                ) by {
                    assert(placed(done, rs, keys, old_spans[k], old_idx[k]));
                    lemma_placed_stays(done, piece, rs, keys, old_spans[k], old_idx[k]);
                }
            },
        }
    }
}

/// Where no key occurs twice, every block is the last of its key.
pub proof fn lemma_last_per_key_keeps_all(spans: Seq<SpanView>)
    requires
        forall|a: int, b: int| 0 <= a < b < spans.len() ==> (#[trigger] spans[a]).key != (#[trigger] spans[b]).key,
    ensures
        last_per_key(spans) == spans,
    decreases spans.len(),
{
    if spans.len() > 0 {
        let rest = spans.drop_first();
        assert forall|a: int, b: int| 0 <= a < b < rest.len() implies (#[trigger] rest[a]).key != (
        #[trigger] rest[b]).key by {
            assert(rest[a] == spans[a + 1] && rest[b] == spans[b + 1]);
        }
        lemma_last_per_key_keeps_all(rest);
        if has_key(rest, spans[0].key) {
            let j = choose|j: int| 0 <= j < rest.len() && #[trigger] rest[j].key == spans[0].key;
            assert(rest[j] == spans[j + 1]);
        }
        assert(seq![spans[0]] + rest =~= spans);
    }
}

proof fn lemma_count_key_distinct(spans: Seq<SpanView>, key: Seq<char>)
    requires
        forall|a: int, b: int| 0 <= a < b < spans.len() ==> (#[trigger] spans[a]).key != (#[trigger] spans[b]).key,
    ensures
        count_key(spans, key) <= 1,
    decreases spans.len(),
{
    if spans.len() > 0 {
        let rest = spans.drop_last();
        assert forall|a: int, b: int| 0 <= a < b < rest.len() implies (#[trigger] rest[a]).key != (
        #[trigger] rest[b]).key by {
            assert(rest[a] == spans[a] && rest[b] == spans[b]);
        }
        lemma_count_key_distinct(rest, key);
        lemma_count_key(rest, key);
        if spans.last().key == key && has_key(rest, key) {
            let j = choose|j: int| 0 <= j < rest.len() && #[trigger] rest[j].key == key;
            assert(spans[j].key == spans[spans.len() - 1].key);
        }
    }
}

proof fn lemma_plan_is_scannable(
    s: Seq<char>,
    spans: Seq<SpanView>,
    rs: Seq<RenderedView>,
    keys: Seq<Seq<char>>,
)
    requires
        in_order(spans, 0, s.len() as int),
        keys.len() == rs.len(),
        forall|i: int| 0 <= i < rs.len() ==> closed_block((#[trigger] rs[i]).block, keys[i]),
        forall|p: int| 0 <= p < s.len() && #[trigger] s[p] == '@' ==> exists|k: int| 0 <= k < spans.len() && (#[trigger] spans[k]).start <= p < spans[k].end,
    ensures
        scannable(s, rs, keys, merge_plan(s, spans, rs)),
{
    let plan = merge_plan(s, spans, rs);
    lemma_merge_copies_no_block(s, spans, rs);
    assert forall|x: int| 0 <= x < plan.len() implies match #[trigger] plan[x] {
        Piece::Entry { index } => 0 <= index < rs.len() && closed_block(rs[index].block, keys[index]),
        _ => !piece_text(s, rs, plan[x]).contains('@'),
    } by {
        match plan[x] {
            Piece::Verbatim { from, to } => {
                let piece = piece_text(s, rs, plan[x]);
                if piece.contains('@') {
                    let q = choose|q: int| 0 <= q < piece.len() && piece[q] == '@';
                    assert(s[from + q] == '@');
                    let k = choose|k: int| 0 <= k < spans.len() && (#[trigger] spans[k]).start <= from + q < spans[k].end;
                    assert(to <= spans[k].start || spans[k].end <= from);
                }
            },
            Piece::LineFeed => {
                let piece = piece_text(s, rs, plan[x]);
                if piece.contains('@') {
                    let q = choose|q: int| 0 <= q < piece.len() && piece[q] == '@';
                }
            },
            Piece::Entry { index } => {},
        }
    }
}

proof fn lemma_each_record_once(s: Seq<char>, spans: Seq<SpanView>, rs: Seq<RenderedView>)
    requires
        forall|i: int, j: int| 0 <= i < j < rs.len() ==> (#[trigger] rs[i]).folded_key != (#[trigger] rs[j]).folded_key,
        forall|a: int, b: int| 0 <= a < b < spans.len() ==> (#[trigger] spans[a]).key != (#[trigger] spans[b]).key,
    ensures
        forall|i: int| 0 <= i < rs.len() ==> #[trigger] occurrences(merge_plan(s, spans, rs), i) == 1,
{
    let plan = merge_plan(s, spans, rs);
    assert forall|i: int| 0 <= i < rs.len() implies #[trigger] occurrences(plan, i) == 1 by {
        lemma_find_rendered(rs, rs[i].folded_key);
        lemma_count_key(spans, rs[i].folded_key);
        lemma_count_key_distinct(spans, rs[i].folded_key);
        match find_rendered(rs, rs[i].folded_key) {
            Some(j) => {
                if j != i {
                    if i < j {
                        assert(rs[i].folded_key != rs[j].folded_key);
                    } else {
                        assert(rs[j].folded_key != rs[i].folded_key);
                    }
                }
            },
            None => {
                assert(rs[i].folded_key != rs[i].folded_key);
            },
        }
        assert(has_one_place(spans, rs, i));
        lemma_merge_writes_each_record_once(s, spans, rs, i);
    }
}

/// The blocks that a second scan finds in the text of a plan that writes
/// every record once: one for each entry of the plan, in its place, under the
/// key of its record in lower case.
proof fn lemma_found_again(
    s: Seq<char>,
    rs: Seq<RenderedView>,
    keys: Seq<Seq<char>>,
    plan: Seq<Piece>,
)
    requires
        keys.len() == rs.len(),
        scannable(s, rs, keys, plan),
        forall|i: int| 0 <= i < rs.len() ==> (#[trigger] rs[i]).folded_key == str_lowercase(keys[i]),
        forall|i: int, j: int| 0 <= i < j < rs.len() ==> (#[trigger] rs[i]).folded_key != (#[trigger] rs[j]).folded_key,
        forall|i: int| 0 <= i < rs.len() ==> #[trigger] occurrences(plan, i) == 1,
    ensures
        blocks_of(flatten(s, rs, plan)) == spans_of_plan(s, rs, keys, plan),
        folded(blocks_of(flatten(s, rs, plan))).len() == indices_of(plan).len(),
        forall|k: int| 0 <= k < indices_of(plan).len() ==> {
            let sp = #[trigger] folded(blocks_of(flatten(s, rs, plan)))[k];
            let i = indices_of(plan)[k];
            &&& 0 <= i < rs.len()
            &&& sp.key == rs[i].folded_key
            &&& sp.start == spans_of_plan(s, rs, keys, plan)[k].start
            &&& sp.end == spans_of_plan(s, rs, keys, plan)[k].end
        },
        forall|i: int| 0 <= i < rs.len() ==> #[trigger] appears(indices_of(plan), i),
{
    let t = flatten(s, rs, plan);
    assert(t.subrange(0, t.len() as int) =~= t);
    lemma_scan_plan(t, s, rs, keys, plan);
    lemma_plan_spans(s, rs, keys, plan);
    let found = spans_of_plan(s, rs, keys, plan);
    let idx = indices_of(plan);
    assert(scan_from(t, 0) =~= found);
    assert forall|k: int| 0 <= k < idx.len() implies 0 <= (#[trigger] idx[k]) < rs.len() && found[k].key
        == keys[idx[k]] by {
        assert(placed(t, rs, keys, found[k], idx[k]));
    }
    assert forall|v: int| count_of(idx, v) <= 1 by {
        lemma_indices_count(plan, v);
        lemma_count_of(idx, v);
        if count_of(idx, v) >= 1 {
            let k = choose|k: int| 0 <= k < idx.len() && idx[k] == v;
            assert(0 <= idx[k] < rs.len());
            assert(occurrences(plan, v) == 1);
        }
    }
    lemma_no_repeats(idx);
    assert forall|a: int, b: int| 0 <= a < b < found.len() implies (#[trigger] found[a]).key != (
    #[trigger] found[b]).key by {
        let i = idx[a];
        let j = idx[b];
        assert(0 <= idx[a] < rs.len() && 0 <= idx[b] < rs.len());
        assert(found[a].key == keys[i] && found[b].key == keys[j]);
        if keys[i] == keys[j] {
            assert(rs[i].folded_key == rs[j].folded_key);
            if i < j {
                assert(rs[i].folded_key != rs[j].folded_key);
            } else {
                assert(rs[j].folded_key != rs[i].folded_key);
            }
        }
    }
    lemma_last_per_key_keeps_all(found);
    assert(blocks_of(t) == found);
    assert forall|i: int| 0 <= i < rs.len() implies #[trigger] appears(idx, i) by {
        lemma_indices_count(plan, i);
        lemma_count_of(idx, i);
        assert(occurrences(plan, i) == 1);
        let k = choose|k: int| 0 <= k < idx.len() && idx[k] == i;
        assert(idx[k] == i);
    }
}

proof fn lemma_each_record_written(s: Seq<char>, spans: Seq<SpanView>, rs: Seq<RenderedView>)
    requires
        forall|i: int, j: int| 0 <= i < j < rs.len() ==> (#[trigger] rs[i]).folded_key != (#[trigger] rs[j]).folded_key,
    ensures
        forall|i: int| 0 <= i < rs.len() ==> #[trigger] occurrences(merge_plan(s, spans, rs), i) >= 1,
{
    let plan = merge_plan(s, spans, rs);
    assert forall|i: int| 0 <= i < rs.len() implies #[trigger] occurrences(plan, i) >= 1 by {
        lemma_find_rendered(rs, rs[i].folded_key);
        lemma_count_key(spans, rs[i].folded_key);
        match find_rendered(rs, rs[i].folded_key) {
            Some(j) => {
                if j != i {
                    if i < j {
                        assert(rs[i].folded_key != rs[j].folded_key);
                    } else {
                        assert(rs[j].folded_key != rs[i].folded_key);
                    }
                }
            },
            None => {
                assert(rs[i].folded_key != rs[i].folded_key);
            },
        }
        lemma_merge_occurrences(s, spans, rs, i);
    }
}

/// The blocks that a second scan finds in the text of a plan that writes
/// every record at least once: they follow one another in the text, each is
/// the canonical text of the record that its key stands for, and every record
/// has one.
proof fn lemma_found_at_least_once(
    s: Seq<char>,
    rs: Seq<RenderedView>,
    keys: Seq<Seq<char>>,
    plan: Seq<Piece>,
)
    requires
        keys.len() == rs.len(),
        scannable(s, rs, keys, plan),
        forall|i: int| 0 <= i < rs.len() ==> (#[trigger] rs[i]).folded_key == str_lowercase(keys[i]),
        forall|i: int, j: int| 0 <= i < j < rs.len() ==> (#[trigger] rs[i]).folded_key != (#[trigger] rs[j]).folded_key,
        forall|i: int| 0 <= i < rs.len() ==> #[trigger] occurrences(plan, i) >= 1,
    ensures
        in_order(
            folded(blocks_of(flatten(s, rs, plan))),
            0,
            flatten(s, rs, plan).len() as int,
        ),
        blocks_are_canonical(flatten(s, rs, plan), folded(blocks_of(flatten(s, rs, plan))), rs),
        forall|i: int| 0 <= i < rs.len() ==> has_key(folded(blocks_of(flatten(s, rs, plan))), (#[trigger] rs[i]).folded_key),
{
    let t = flatten(s, rs, plan);
    assert(t.subrange(0, t.len() as int) =~= t);
    lemma_scan_plan(t, s, rs, keys, plan);
    lemma_plan_spans(s, rs, keys, plan);
    let found = spans_of_plan(s, rs, keys, plan);
    let idx = indices_of(plan);
    assert(scan_from(t, 0) =~= found);
    assert(in_order(found, 0, t.len() as int)) by {
        assert forall|k: int| 0 <= k < found.len() implies 0 <= (#[trigger] found[k]).start < found[k].end
            <= t.len() by {
            assert(placed(t, rs, keys, found[k], idx[k]));
        }
    }
    let kept = last_per_key(found);
    lemma_last_per_key_in_order(found, 0, t.len() as int);
    lemma_last_per_key_selects(found);
    let again = folded(kept);
    assert(in_order(again, 0, t.len() as int)) by {
        assert forall|k: int| 0 <= k < again.len() implies 0 <= (#[trigger] again[k]).start < again[k].end
            <= t.len() by {
            assert(again[k].start == kept[k].start && again[k].end == kept[k].end);
        }
        assert forall|a: int, b: int| 0 <= a < b < again.len() implies (#[trigger] again[a]).end <= (
        #[trigger] again[b]).start by {
            assert(again[a].end == kept[a].end && again[b].start == kept[b].start);
        }
    }
    assert forall|k: int| 0 <= k < again.len() implies match find_rendered(rs, (#[trigger] again[k]).key) {
        Some(i) => 0 <= i < rs.len() && rs[i].block == t.subrange(again[k].start, again[k].end),
        None => false,
    } by {
        assert(is_among(found, kept[k]));
        let m = choose|m: int| 0 <= m < found.len() && found[m] == kept[k];
        let i = idx[m];
        assert(placed(t, rs, keys, found[m], idx[m]));
        assert(again[k].key == rs[i].folded_key);
        lemma_find_rendered(rs, rs[i].folded_key);
        let j = find_rendered(rs, rs[i].folded_key)->0;
        if j != i {
            if i < j {
                assert(rs[i].folded_key != rs[j].folded_key);
            } else {
                assert(rs[j].folded_key != rs[i].folded_key);
            }
        }
    }
    assert forall|i: int| 0 <= i < rs.len() implies has_key(again, (#[trigger] rs[i]).folded_key) by {
        lemma_indices_count(plan, i);
        lemma_count_of(idx, i);
        assert(occurrences(plan, i) >= 1);
        let m = choose|m: int| 0 <= m < idx.len() && idx[m] == i;
        assert(placed(t, rs, keys, found[m], idx[m]));
        assert(has_key(kept, found[m].key));
        let x = choose|x: int| 0 <= x < kept.len() && #[trigger] kept[x].key == found[m].key;
        assert(again[x].key == rs[i].folded_key);
    }
}

/// A second merge changes nothing.
///
/// Let a text with the blocks `spans` be merged with the records `rs`. If
/// the canonical text of each record is a closed block under the key of the
/// record, no two records have the same key in lower case, and the text holds
/// no `@` outside its blocks, then merging the merged text with the same
/// records gives the merged text again.
pub proof fn lemma_merge_is_stable(
    s: Seq<char>,
    spans: Seq<SpanView>,
    rs: Seq<RenderedView>,
    keys: Seq<Seq<char>>,
)
    requires
        in_order(spans, 0, s.len() as int),
        keys.len() == rs.len(),
        forall|i: int| 0 <= i < rs.len() ==> closed_block((#[trigger] rs[i]).block, keys[i]) && rs[i].folded_key == str_lowercase(keys[i]),
        forall|i: int, j: int| 0 <= i < j < rs.len() ==> (#[trigger] rs[i]).folded_key != (#[trigger] rs[j]).folded_key,
        forall|p: int| 0 <= p < s.len() && #[trigger] s[p] == '@' ==> exists|k: int| 0 <= k < spans.len() && (#[trigger] spans[k]).start <= p < spans[k].end,
    ensures
        woven(woven(s, spans, rs), folded(blocks_of(woven(s, spans, rs))), rs) == woven(s, spans, rs),
{
    let plan = merge_plan(s, spans, rs);
    let t = flatten(s, rs, plan);
    lemma_plan_is_scannable(s, spans, rs, keys);
    lemma_each_record_written(s, spans, rs);
    lemma_found_at_least_once(s, rs, keys, plan);
    let again = folded(blocks_of(t));
    if rs.len() > 0 {
        assert(has_key(again, rs[0].folded_key));
    }
    lemma_merge_keeps_canonical_text(t, again, rs);
}

/// Whether `key` is one of `keys`.
pub open spec fn is_one_of(keys: Seq<Seq<char>>, key: Seq<char>) -> bool {
    exists|i: int| 0 <= i < keys.len() && #[trigger] keys[i] == key
}

/// The blocks of a merged text are the records, each once.
///
/// Let a text with the blocks `spans` be merged with the records `rs`. If
/// the canonical text of each record is a closed block under the key of the
/// record, no two records and no two blocks have the same key in lower case,
/// and the text holds no `@` outside its blocks, then the scanner finds in the
/// merged text exactly one block for the key of each record, and no block
/// under any other key.
pub proof fn lemma_blocks_of_merged_text(
    s: Seq<char>,
    spans: Seq<SpanView>,
    rs: Seq<RenderedView>,
    keys: Seq<Seq<char>>,
)
    requires
        in_order(spans, 0, s.len() as int),
        keys.len() == rs.len(),
        forall|i: int| 0 <= i < rs.len() ==> closed_block((#[trigger] rs[i]).block, keys[i]) && rs[i].folded_key == str_lowercase(keys[i]),
        forall|i: int, j: int| 0 <= i < j < rs.len() ==> (#[trigger] rs[i]).folded_key != (#[trigger] rs[j]).folded_key,
        forall|a: int, b: int| 0 <= a < b < spans.len() ==> (#[trigger] spans[a]).key != (#[trigger] spans[b]).key,
        forall|p: int| 0 <= p < s.len() && #[trigger] s[p] == '@' ==> exists|k: int| 0 <= k < spans.len() && (#[trigger] spans[k]).start <= p < spans[k].end,
    ensures
        blocks_of(woven(s, spans, rs)).len() == rs.len(),
        forall|i: int| 0 <= i < rs.len() ==> count_key(blocks_of(woven(s, spans, rs)), #[trigger] keys[i]) == 1,
        forall|k: int| 0 <= k < blocks_of(woven(s, spans, rs)).len() ==> is_one_of(keys, (#[trigger] blocks_of(woven(s, spans, rs))[k]).key),
{
    let plan = merge_plan(s, spans, rs);
    let t = flatten(s, rs, plan);
    lemma_plan_is_scannable(s, spans, rs, keys);
    lemma_each_record_once(s, spans, rs);
    lemma_found_again(s, rs, keys, plan);
    lemma_plan_spans(s, rs, keys, plan);
    let found = spans_of_plan(s, rs, keys, plan);
    let idx = indices_of(plan);
    assert(blocks_of(t) == found);
    assert forall|k: int| 0 <= k < found.len() implies is_one_of(keys, (#[trigger] found[k]).key) by {
        assert(placed(t, rs, keys, found[k], idx[k]));
        assert(keys[idx[k]] == found[k].key);
    }
    assert forall|v: int| count_of(idx, v) <= 1 by {
        lemma_indices_count(plan, v);
        lemma_count_of(idx, v);
        if count_of(idx, v) >= 1 {
            let k = choose|k: int| 0 <= k < idx.len() && idx[k] == v;
            assert(placed(t, rs, keys, found[k], idx[k]));
            assert(occurrences(plan, v) == 1);
        }
    }
    lemma_no_repeats(idx);
    assert forall|a: int, b: int| 0 <= a < b < found.len() implies (#[trigger] found[a]).key != (
    #[trigger] found[b]).key by {
        let i = idx[a];
        let j = idx[b];
        assert(placed(t, rs, keys, found[a], idx[a]));
        assert(placed(t, rs, keys, found[b], idx[b]));
        if keys[i] == keys[j] {
            assert(rs[i].folded_key == rs[j].folded_key);
            if i < j {
                assert(rs[i].folded_key != rs[j].folded_key);
            } else {
                assert(rs[j].folded_key != rs[i].folded_key);
            }
        }
    }
    assert forall|i: int| 0 <= i < rs.len() implies count_key(found, #[trigger] keys[i]) == 1 by {
        assert(appears(idx, i));
        let k = choose|k: int| 0 <= k < idx.len() && #[trigger] idx[k] == i;
        assert(placed(t, rs, keys, found[k], idx[k]));
        assert(found[k].key == keys[i]);
        lemma_count_key(found, keys[i]);
        lemma_count_key_distinct(found, keys[i]);
    }
    assert forall|k: int| 0 <= k < idx.len() implies 0 <= (#[trigger] idx[k]) && idx[k] < rs.len() by {
        assert(placed(t, rs, keys, found[k], idx[k]));
    }
    lemma_sum_of_counts(idx, rs.len() as int);
}

/// A sequence of numbers below `n` in which every number below `n` occurs,
/// and none twice, has `n` members.
proof fn lemma_sum_of_counts(q: Seq<int>, n: int)
    requires
        0 <= n,
        forall|k: int| 0 <= k < q.len() ==> 0 <= (#[trigger] q[k]) && q[k] < n,
        forall|v: int| 0 <= v < n ==> appears(q, v),
        forall|a: int, b: int| 0 <= a < b < q.len() ==> q[a] != q[b],
    ensures
        q.len() == n,
    decreases n,
{
    if n == 0 {
        if q.len() > 0 {
            let first = q[0];
            assert(0 <= first && first < n);
        }
    } else {
        assert(appears(q, n - 1));
        let k = choose|k: int| 0 <= k < q.len() && #[trigger] q[k] == n - 1;
        let rest = q.remove(k);
        assert forall|x: int| 0 <= x < rest.len() implies 0 <= (#[trigger] rest[x]) && rest[x] < n - 1 by {
            let y = if x < k { x } else { x + 1 };
            assert(rest[x] == q[y]);
            assert(0 <= q[y] < n);
            if y < k {
                assert(q[y] != q[k]);
            } else {
                assert(q[k] != q[y]);
            }
        }
        assert forall|v: int| 0 <= v < n - 1 implies appears(rest, v) by {
            assert(appears(q, v));
            let m = choose|m: int| 0 <= m < q.len() && #[trigger] q[m] == v;
            let x = if m < k { m } else { m - 1 };
            assert(rest[x] == v);
        }
        assert forall|a: int, b: int| 0 <= a < b < rest.len() implies rest[a] != rest[b] by {
            let ya = if a < k { a } else { a + 1 };
            let yb = if b < k { b } else { b + 1 };
            assert(rest[a] == q[ya] && rest[b] == q[yb]);
        }
        lemma_sum_of_counts(rest, n - 1);
    }
}

/// Whether every `@` of `s` stands inside one of the blocks of `s`.
pub open spec fn quiet_outside_blocks(s: Seq<char>) -> bool {
    forall|p: int| 0 <= p < s.len() && #[trigger] s[p] == '@' ==> exists|k: int| 0 <= k < blocks_of(s).len() && (#[trigger] blocks_of(s)[k]).start <= p < blocks_of(s)[k].end
}

/// Whether the keys of `keys` stay different when case is disregarded.
pub open spec fn distinct_folded(keys: Seq<Seq<char>>) -> bool {
    forall|i: int, j: int| 0 <= i < j < keys.len() ==> str_lowercase(#[trigger] keys[i]) != str_lowercase(#[trigger] keys[j])
}

/// The keys of the records of `l`.
pub open spec fn keys_of(l: Seq<RecordView>) -> Seq<Seq<char>> {
    Seq::new(l.len(), |i: int| l[i].key)
}

/// The keys of the blocks of `s`.
pub open spec fn block_keys_of(s: Seq<char>) -> Seq<Seq<char>> {
    Seq::new(blocks_of(s).len(), |k: int| blocks_of(s)[k].key)
}

/// What the laws of the merge ask of the blocks and the rendered records
/// follows from what they ask of the text and the library.
proof fn lemma_setting(s: Seq<char>, l: Seq<RecordView>, cfg: KeyGenConfigView)
    requires
        forall|i: int| 0 <= i < l.len() ==> closed_block(formatted(#[trigger] l[i], cfg), l[i].key),
        distinct_folded(keys_of(l)),
        quiet_outside_blocks(s),
    ensures
        in_order(folded(blocks_of(s)), 0, s.len() as int),
        forall|i: int| 0 <= i < l.len() ==> closed_block((#[trigger] rendered_all(l, cfg)[i]).block, keys_of(l)[i]) && rendered_all(l, cfg)[i].folded_key == str_lowercase(keys_of(l)[i]),
        forall|i: int, j: int| 0 <= i < j < l.len() ==> (#[trigger] rendered_all(l, cfg)[i]).folded_key != (#[trigger] rendered_all(l, cfg)[j]).folded_key,
        forall|p: int| 0 <= p < s.len() && #[trigger] s[p] == '@' ==> exists|k: int| 0 <= k < folded(blocks_of(s)).len() && (#[trigger] folded(blocks_of(s))[k]).start <= p < folded(blocks_of(s))[k].end,
        distinct_folded(block_keys_of(s)) ==> forall|a: int, b: int| 0 <= a < b < folded(blocks_of(s)).len() ==> (#[trigger] folded(blocks_of(s))[a]).key != (#[trigger] folded(blocks_of(s))[b]).key,
{
    let spans = folded(blocks_of(s));
    let rs = rendered_all(l, cfg);
    let keys = keys_of(l);
    let block_keys = block_keys_of(s);
    lemma_blocks_in_order(s);
    assert(in_order(spans, 0, s.len() as int)) by {
        assert forall|k: int| 0 <= k < spans.len() implies 0 <= (#[trigger] spans[k]).start < spans[k].end
            <= s.len() by {
            assert(spans[k].start == blocks_of(s)[k].start && spans[k].end == blocks_of(s)[k].end);
        }
        assert forall|a: int, b: int| 0 <= a < b < spans.len() implies (#[trigger] spans[a]).end <= (
        #[trigger] spans[b]).start by {
            assert(spans[a].end == blocks_of(s)[a].end && spans[b].start == blocks_of(s)[b].start);
        }
    }
    assert forall|i: int| 0 <= i < rs.len() implies closed_block((#[trigger] rs[i]).block, keys[i])
        && rs[i].folded_key == str_lowercase(keys[i]) by {
        assert(closed_block(formatted(l[i], cfg), l[i].key));
    }
    assert forall|i: int, j: int| 0 <= i < j < rs.len() implies (#[trigger] rs[i]).folded_key != (
    #[trigger] rs[j]).folded_key by {
        assert(str_lowercase(keys[i]) != str_lowercase(keys[j]));
    }
    if distinct_folded(block_keys) {
        assert forall|a: int, b: int| 0 <= a < b < spans.len() implies (#[trigger] spans[a]).key != (
        #[trigger] spans[b]).key by {
            assert(str_lowercase(block_keys[a]) != str_lowercase(block_keys[b]));
        }
    }
    assert forall|p: int| 0 <= p < s.len() && #[trigger] s[p] == '@' implies exists|k: int|
        0 <= k < spans.len() && (#[trigger] spans[k]).start <= p < spans[k].end by {
        let k = choose|k: int| 0 <= k < blocks_of(s).len() && (#[trigger] blocks_of(s)[k]).start <= p < blocks_of(s)[k].end;
        assert(spans[k].start == blocks_of(s)[k].start && spans[k].end == blocks_of(s)[k].end);
    }
}

/// Merging a library into a text that is itself the result of merging the
/// same library reproduces that text, character for character, provided that
///
/// - the scanner reads the canonical text of each record as one block under
///   the key of the record (which fails, for one, where a field value holds
///   an unbalanced brace),
/// - no two records have keys that are equal when case is disregarded, and
/// - the first text holds no `@` outside its blocks.
pub proof fn lemma_second_merge_changes_nothing(
    s: Seq<char>,
    l: Seq<RecordView>,
    cfg: KeyGenConfigView,
)
    requires
        forall|i: int| 0 <= i < l.len() ==> closed_block(formatted(#[trigger] l[i], cfg), l[i].key),
        distinct_folded(keys_of(l)),
        quiet_outside_blocks(s),
    ensures
        merged(merged(s, l, cfg), l, cfg) == merged(s, l, cfg),
{
    lemma_setting(s, l, cfg);
    lemma_merge_is_stable(s, folded(blocks_of(s)), rendered_all(l, cfg), keys_of(l));
}

/// The text of a library merged into a text holds exactly one block for the
/// key of each record of the library, and no block under any other key,
/// provided that
///
/// - the scanner reads the canonical text of each record as one block under
///   the key of the record,
/// - no two records, and no two blocks of the text, have keys that are equal
///   when case is disregarded, and
/// - the text holds no `@` outside its blocks.
pub proof fn lemma_merged_text_holds_each_key_once(
    s: Seq<char>,
    l: Seq<RecordView>,
    cfg: KeyGenConfigView,
)
    requires
        forall|i: int| 0 <= i < l.len() ==> closed_block(formatted(#[trigger] l[i], cfg), l[i].key),
        distinct_folded(keys_of(l)),
        distinct_folded(block_keys_of(s)),
        quiet_outside_blocks(s),
    ensures
        blocks_of(merged(s, l, cfg)).len() == l.len(),
        forall|i: int| 0 <= i < l.len() ==> count_key(blocks_of(merged(s, l, cfg)), (#[trigger] l[i]).key) == 1,
        forall|k: int| 0 <= k < blocks_of(merged(s, l, cfg)).len() ==> is_one_of(keys_of(l), (#[trigger] blocks_of(merged(s, l, cfg))[k]).key),
{
    lemma_setting(s, l, cfg);
    lemma_blocks_of_merged_text(s, folded(blocks_of(s)), rendered_all(l, cfg), keys_of(l));
    assert forall|i: int| 0 <= i < l.len() implies count_key(blocks_of(merged(s, l, cfg)), (#[trigger] l[i]).key) == 1 by {
        assert(keys_of(l)[i] == l[i].key);
    }
}

} // verus!
