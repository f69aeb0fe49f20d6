//! What a merge makes of a text that is given by its parts.
//!
//! A text whose blocks are known, with the text before each block and the
//! text after the last, is merged part by part: the text between the blocks
//! stays where it is, character for character, each block gives way to the
//! canonical text of the record it stands for or to nothing, and the records
//! that no block stands for follow at the end.

use crate::keygen::KeyGenConfigView;
use crate::merger::{append_plan, body_plan, ends_in_line_feed, find_rendered, flatten, folded, lemma_flatten_push, merged, piece_text, prev_end, rendered_all, walk_plan, woven, Piece, RenderedView};
use crate::record::RecordView;
use crate::scanner::{blocks_of, has_key, scan_from, SpanView};
use crate::stability::{closed_block, lemma_last_per_key_keeps_all, lemma_scan_closed_block, lemma_scan_skips, stands_at};
use crate::text::str_lowercase;
use vstd::prelude::*;

verus! {

/// A block of a text with the text that stands before it.
pub struct Section {
    /// The text between the block before, or the start of the text, and this
    /// block.
    pub before: Seq<char>,
    /// The key of the block.
    pub key: Seq<char>,
    /// The text of the block.
    pub block: Seq<char>,
}

/// The text of the sections, one after the other.
pub open spec fn document(sections: Seq<Section>) -> Seq<char>
    decreases sections.len(),
{
    if sections.len() == 0 {
        Seq::empty()
    } else {
        document(sections.drop_last()) + sections.last().before + sections.last().block
    }
}

/// The places of the blocks in the text of the sections.
pub open spec fn section_spans(sections: Seq<Section>) -> Seq<SpanView> {
    Seq::new(
        sections.len(),
        |j: int|
            SpanView {
                key: sections[j].key,
                start: (document(sections.take(j)).len() + sections[j].before.len()) as int,
                end: document(sections.take(j + 1)).len() as int,
            },
    )
}

/// Whether the sections and the text after them are what they are given
/// for: no text between the blocks holds an `@`, the scanner reads every block
/// as one block under its key, and no two blocks have the same key.
pub open spec fn well_sectioned(sections: Seq<Section>, tail: Seq<char>) -> bool {
    &&& !tail.contains('@')
    &&& forall|j: int| 0 <= j < sections.len() ==> !(#[trigger] sections[j]).before.contains('@') && closed_block(sections[j].block, sections[j].key)
    &&& forall|i: int, j: int| 0 <= i < j < sections.len() ==> (#[trigger] sections[i]).key != (#[trigger] sections[j]).key
}

/// What stands in the merged text in the place of a block with the key
/// `key`: the canonical text of the record that the key stands for, case
/// disregarded, or nothing.
pub open spec fn shown(rs: Seq<RenderedView>, key: Seq<char>) -> Seq<char> {
    match find_rendered(rs, str_lowercase(key)) {
        Some(i) => rs[i].block,
        None => Seq::empty(),
    }
}

/// The text of the sections with each block replaced by what is shown for
/// it. The text before each block stays as it is.
pub open spec fn rewritten(sections: Seq<Section>, rs: Seq<RenderedView>) -> Seq<char>
    decreases sections.len(),
{
    if sections.len() == 0 {
        Seq::empty()
    } else {
        rewritten(sections.drop_last(), rs) + sections.last().before + shown(rs, sections.last().key)
    }
}

/// `base` with the first `n` records appended as far as no block has their
/// key in lower case, each after a line feed unless the text so far ends in
/// one.
pub open spec fn with_appended(base: Seq<char>, rs: Seq<RenderedView>, spans: Seq<SpanView>, n: int) -> Seq<char>
    decreases n,
{
    if n <= 0 || n > rs.len() {
        base
    } else {
        let before = with_appended(base, rs, spans, n - 1);
        if has_key(spans, rs[n - 1].folded_key) {
            before
        } else if ends_in_line_feed(before) {
            before + rs[n - 1].block
        } else {
            before.push('\n') + rs[n - 1].block
        }
    }
}

proof fn lemma_document_prefix(sections: Seq<Section>, j: int)
    requires
        0 <= j <= sections.len(),
    ensures
        document(sections.take(j)).len() <= document(sections).len(),
        document(sections).subrange(0, document(sections.take(j)).len() as int) == document(
            sections.take(j),
        ),
    decreases sections.len() - j,
{
    if j == sections.len() {
        assert(sections.take(j) =~= sections);
        assert(document(sections).subrange(0, document(sections).len() as int) =~= document(sections));
    } else {
        lemma_document_prefix(sections, j + 1);
        let next = sections.take(j + 1);
        assert(next.drop_last() =~= sections.take(j));
        let d = document(sections);
        let dj = document(sections.take(j));
        assert(d.subrange(0, dj.len() as int) =~= dj) by {
            assert(document(next) == dj + next.last().before + next.last().block);
            assert(d.subrange(0, document(next).len() as int) == document(next));
            assert forall|q: int| 0 <= q < dj.len() implies d.subrange(0, dj.len() as int)[q] == dj[q] by {
                assert(d[q] == d.subrange(0, document(next).len() as int)[q]);
            }
        }
    }
}

/// Section `j` stands in the text where its span says: first the text
/// before the block, then the block.
proof fn lemma_section_stands(sections: Seq<Section>, tail: Seq<char>, j: int)
    requires
        0 <= j < sections.len(),
    ensures
        stands_at(
            document(sections) + tail,
            document(sections.take(j)).len() as int,
            sections[j].before,
        ),
        stands_at(document(sections) + tail, section_spans(sections)[j].start, sections[j].block),
        section_spans(sections)[j].end == section_spans(sections)[j].start + sections[j].block.len(),
        section_spans(sections)[j].end <= document(sections).len(),
{
    let t = document(sections) + tail;
    let next = sections.take(j + 1);
    assert(next.drop_last() =~= sections.take(j));
    assert(next.last() == sections[j]);
    let dj = document(sections.take(j));
    let dn = document(next);
    assert(dn == dj + sections[j].before + sections[j].block);
    lemma_document_prefix(sections, j + 1);
    let a = dj.len() as int;
    let b = a + sections[j].before.len();
    assert(t.subrange(a, b) =~= sections[j].before) by {
        assert forall|q: int| 0 <= q < b - a implies t.subrange(a, b)[q] == sections[j].before[q] by {
            assert(t[a + q] == document(sections).subrange(0, dn.len() as int)[a + q]);
            assert(dn[a + q] == sections[j].before[q]);
        }
    }
    assert(t.subrange(b, dn.len() as int) =~= sections[j].block) by {
        assert forall|q: int| 0 <= q < dn.len() - b implies t.subrange(b, dn.len() as int)[q]
            == sections[j].block[q] by {
            assert(t[b + q] == document(sections).subrange(0, dn.len() as int)[b + q]);
            assert(dn[b + q] == sections[j].block[q]);
        }
    }
}

proof fn lemma_scan_sections(sections: Seq<Section>, tail: Seq<char>, n: int)
    requires
        well_sectioned(sections, tail),
        0 <= n <= sections.len(),
    ensures
        scan_from(document(sections) + tail, 0) == section_spans(sections).take(n) + scan_from(
            document(sections) + tail,
            document(sections.take(n)).len() as int,
        ),
    decreases n,
{
    let t = document(sections) + tail;
    if n == 0 {
        assert(sections.take(0) =~= Seq::<Section>::empty());
        assert(section_spans(sections).take(0) + scan_from(t, 0) =~= scan_from(t, 0));
    } else {
        let j = n - 1;
        lemma_scan_sections(sections, tail, j);
        lemma_section_stands(sections, tail, j);
        let a = document(sections.take(j)).len() as int;
        let sp = section_spans(sections)[j];
        assert forall|q: int| a <= q < sp.start implies t[q] != '@' by {
            assert(t[q] == t.subrange(a, sp.start)[q - a]);
            assert(sections[j].before.contains(sections[j].before[q - a]));
        }
        lemma_scan_skips(t, a, sp.start);
        lemma_scan_closed_block(t, sp.start, sections[j].block, sections[j].key);
        assert(section_spans(sections).take(n) =~= section_spans(sections).take(j).push(sp));
        assert(section_spans(sections).take(j).push(sp) + scan_from(t, sp.end) =~= section_spans(
            sections,
        ).take(j) + (seq![sp] + scan_from(t, sp.end)));
    }
}

/// The blocks of a text that is well sectioned are the blocks of its
/// sections, in their places.
pub proof fn lemma_blocks_of_document(sections: Seq<Section>, tail: Seq<char>)
    requires
        well_sectioned(sections, tail),
    ensures
        blocks_of(document(sections) + tail) == section_spans(sections),
{
    let t = document(sections) + tail;
    let n = sections.len() as int;
    lemma_scan_sections(sections, tail, n);
    assert(sections.take(n) =~= sections);
    let d = document(sections).len() as int;
    assert forall|q: int| d <= q < t.len() implies t[q] != '@' by {
        assert(t[q] == tail[q - d]);
        assert(tail.contains(tail[q - d]));
    }
    lemma_scan_skips(t, d, t.len() as int);
    assert(section_spans(sections).take(n) =~= section_spans(sections));
    assert(scan_from(t, 0) =~= section_spans(sections));
    assert forall|a: int, b: int| 0 <= a < b < section_spans(sections).len() implies (
    #[trigger] section_spans(sections)[a]).key != (#[trigger] section_spans(sections)[b]).key by {
        assert(sections[a].key != sections[b].key);
    }
    lemma_last_per_key_keeps_all(section_spans(sections));
}

proof fn lemma_walk_sections(sections: Seq<Section>, tail: Seq<char>, rs: Seq<RenderedView>, j: int)
    requires
        0 <= j <= sections.len(),
    ensures
        flatten(
            document(sections) + tail,
            rs,
            walk_plan(folded(section_spans(sections)).take(j), rs),
        ) == rewritten(sections.take(j), rs),
        prev_end(folded(section_spans(sections)), j) == document(sections.take(j)).len(),
    decreases j,
{
    let t = document(sections) + tail;
    let spans = folded(section_spans(sections));
    if j == 0 {
        assert(spans.take(0) =~= Seq::<SpanView>::empty());
        assert(sections.take(0) =~= Seq::<Section>::empty());
    } else {
        let k = j - 1;
        lemma_walk_sections(sections, tail, rs, k);
        lemma_section_stands(sections, tail, k);
        let part = spans.take(j);
        assert(part.drop_last() =~= spans.take(k));
        assert(part[k] == spans[k]);
        assert(prev_end(part, k) == prev_end(spans, k)) by {
            if k > 0 {
                assert(part[k - 1] == spans[k - 1]);
            }
        }
        let before = walk_plan(spans.take(k), rs);
        let gap = Piece::Verbatim { from: prev_end(spans, k), to: spans[k].start };
        assert(piece_text(t, rs, gap) == sections[k].before);
        lemma_flatten_push(t, rs, before, gap);
        let upto = sections.take(j);
        assert(upto.drop_last() =~= sections.take(k));
        assert(upto.last() == sections[k]);
        match find_rendered(rs, spans[k].key) {
            Some(i) => {
                crate::merger::lemma_find_rendered(rs, spans[k].key);
                lemma_flatten_push(t, rs, before.push(gap), Piece::Entry { index: i });
            },
            None => {
                assert(rewritten(sections.take(k), rs) + sections[k].before + Seq::<char>::empty()
                    =~= rewritten(sections.take(k), rs) + sections[k].before);
            },
        }
    }
}

proof fn lemma_append_text(s: Seq<char>, spans: Seq<SpanView>, rs: Seq<RenderedView>, n: int)
    requires
        0 <= n <= rs.len(),
    ensures
        flatten(s, rs, append_plan(s, spans, rs, n)) == with_appended(
            flatten(s, rs, body_plan(s, spans, rs)),
            rs,
            spans,
            n,
        ),
    decreases n,
{
    if n > 0 {
        lemma_append_text(s, spans, rs, n - 1);
        let before = append_plan(s, spans, rs, n - 1);
        if !has_key(spans, rs[n - 1].folded_key) {
            if ends_in_line_feed(flatten(s, rs, before)) {
                lemma_flatten_push(s, rs, before, Piece::Entry { index: n - 1 });
            } else {
                lemma_flatten_push(s, rs, before, Piece::LineFeed);
                lemma_flatten_push(s, rs, before.push(Piece::LineFeed), Piece::Entry { index: n - 1 });
                assert(flatten(s, rs, before) + seq!['\n'] =~= flatten(s, rs, before).push('\n'));
            }
        }
    }
}

/// What a merge makes of a text with at least one block: the text between
/// the blocks and after the last stays where it is, character for character
/// and in its order; each block is replaced by the canonical text of the
/// record that its key stands for, or by nothing if it stands for none; and
/// the records that no block stands for are appended.
pub proof fn lemma_merge_of_document(sections: Seq<Section>, tail: Seq<char>, rs: Seq<RenderedView>)
    requires
        sections.len() > 0,
    ensures
        woven(document(sections) + tail, folded(section_spans(sections)), rs) == with_appended(
            rewritten(sections, rs) + tail,
            rs,
            folded(section_spans(sections)),
            rs.len() as int,
        ),
{
    let t = document(sections) + tail;
    let spans = folded(section_spans(sections));
    let n = sections.len() as int;
    lemma_walk_sections(sections, tail, rs, n);
    assert(spans.take(n) =~= spans);
    assert(sections.take(n) =~= sections);
    let walk = walk_plan(spans, rs);
    let last = Piece::Verbatim { from: prev_end(spans, n), to: t.len() as int };
    assert(piece_text(t, rs, last) =~= tail);
    lemma_flatten_push(t, rs, walk, last);
    lemma_append_text(t, spans, rs, rs.len() as int);
}

/// The text of a library merged into a well-sectioned text with at least one
/// block: what stands between the blocks and after the last is kept in its
/// place, character for character; each block gives way to the canonical
/// text of the record with its key, case disregarded, or to nothing; records
/// without a block follow at the end.
pub proof fn lemma_merged_document(
    sections: Seq<Section>,
    tail: Seq<char>,
    l: Seq<RecordView>,
    cfg: KeyGenConfigView,
)
    requires
        well_sectioned(sections, tail),
        sections.len() > 0,
    ensures
        merged(document(sections) + tail, l, cfg) == with_appended(
            rewritten(sections, rendered_all(l, cfg)) + tail,
            rendered_all(l, cfg),
            folded(section_spans(sections)),
            l.len() as int,
        ),
{
    lemma_blocks_of_document(sections, tail);
    lemma_merge_of_document(sections, tail, rendered_all(l, cfg));
}

} // verus!
