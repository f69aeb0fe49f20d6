//! Writing a library back into the text it was read from.
//!
//! The text outside record blocks is kept as it is. A block whose key stands
//! for a record of the library is replaced by the canonical text of that
//! record; a block whose key stands for none is dropped; records that no block
//! stands for are appended. Keys are matched without regard to case.

use crate::formatter::{block_of, formatted};
use crate::keygen::{KeyGenConfig, KeyGenConfigView};
use crate::library::Library;
use crate::record::RecordView;
use crate::scanner::{block_views, blocks_of, has_key, in_order, scan_blocks, Block, SpanView};
use crate::text::{chars_eq, chars_of, lowercase, push_all, slice, str_lowercase, string_of};
use vstd::prelude::*;

verus! {

/// A record made ready for merging: its key in lower case and its canonical
/// text.
pub struct Rendered {
    pub folded_key: Vec<char>,
    pub block: Vec<char>,
}

/// The mathematical value of a [`Rendered`].
pub struct RenderedView {
    pub folded_key: Seq<char>,
    pub block: Seq<char>,
}

impl View for Rendered {
    type V = RenderedView;

    open spec fn view(&self) -> RenderedView {
        RenderedView { folded_key: self.folded_key@, block: self.block@ }
    }
}

/// The views of the rendered records in `v`.
pub open spec fn rendered_views(v: Seq<Rendered>) -> Seq<RenderedView> {
    Seq::new(v.len(), |i: int| v[i]@)
}

/// One piece of the merged text.
pub enum Piece {
    /// The characters of the original text from `from` up to `to`.
    Verbatim { from: int, to: int },
    /// One line feed.
    LineFeed,
    /// The canonical text of the record at position `index`.
    Entry { index: int },
}

/// The characters of one piece.
pub open spec fn piece_text(s: Seq<char>, rs: Seq<RenderedView>, p: Piece) -> Seq<char> {
    match p {
        Piece::Verbatim { from, to } => if 0 <= from <= to <= s.len() {
            s.subrange(from, to)
        } else {
            Seq::empty()
        },
        Piece::LineFeed => seq!['\n'],
        Piece::Entry { index } => if 0 <= index < rs.len() {
            rs[index].block
        } else {
            Seq::empty()
        },
    }
}

/// The characters of the pieces, one piece after the other.
pub open spec fn flatten(s: Seq<char>, rs: Seq<RenderedView>, pieces: Seq<Piece>) -> Seq<char>
    decreases pieces.len(),
{
    if pieces.len() == 0 {
        Seq::empty()
    } else {
        flatten(s, rs, pieces.drop_last()) + piece_text(s, rs, pieces.last())
    }
}

/// The record that a block with the lower-case key `key` stands for: the last
/// record with that lower-case key.
pub open spec fn find_rendered(rs: Seq<RenderedView>, key: Seq<char>) -> Option<int>
    decreases rs.len(),
{
    if rs.len() == 0 {
        None
    } else if rs.last().folded_key == key {
        Some(rs.len() - 1)
    } else {
        find_rendered(rs.drop_last(), key)
    }
}

/// Where the block before block `k` ends, or the start of the text for the
/// first block.
pub open spec fn prev_end(spans: Seq<SpanView>, k: int) -> int {
    if 0 < k <= spans.len() {
        spans[k - 1].end
    } else {
        0
    }
}

/// The pieces for the text up to the end of the last block: before each block
/// the text that separates it from the block before, then the record that the
/// block stands for, if there is one.
pub open spec fn walk_plan(spans: Seq<SpanView>, rs: Seq<RenderedView>) -> Seq<Piece>
    decreases spans.len(),
{
    if spans.len() == 0 {
        Seq::empty()
    } else {
        let k = spans.len() - 1;
        let before = walk_plan(spans.drop_last(), rs);
        let gap = Piece::Verbatim { from: prev_end(spans, k), to: spans[k].start };
        match find_rendered(rs, spans[k].key) {
            Some(i) => before.push(gap).push(Piece::Entry { index: i }),
            None => before.push(gap),
        }
    }
}

/// The pieces for the whole original text: the walk over the blocks and the
/// text after the last block.
pub open spec fn body_plan(
    s: Seq<char>,
    spans: Seq<SpanView>,
    rs: Seq<RenderedView>,
) -> Seq<Piece> {
    walk_plan(spans, rs).push(
        Piece::Verbatim { from: prev_end(spans, spans.len() as int), to: s.len() as int },
    )
}

/// Whether the text ends in a line feed.
pub open spec fn ends_in_line_feed(t: Seq<char>) -> bool {
    t.len() > 0 && t.last() == '\n'
}

/// The pieces after the first `n` records were looked at for appending: a
/// record that no block stands for is appended, after a line feed unless the
/// text so far ends in one.
pub open spec fn append_plan(
    s: Seq<char>,
    spans: Seq<SpanView>,
    rs: Seq<RenderedView>,
    n: int,
) -> Seq<Piece>
    decreases n,
{
    if n <= 0 || n > rs.len() {
        body_plan(s, spans, rs)
    } else {
        let before = append_plan(s, spans, rs, n - 1);
        if has_key(spans, rs[n - 1].folded_key) {
            before
        } else if ends_in_line_feed(flatten(s, rs, before)) {
            before.push(Piece::Entry { index: n - 1 })
        } else {
            before.push(Piece::LineFeed).push(Piece::Entry { index: n - 1 })
        }
    }
}

/// The pieces of a file written afresh: the first `n` records, a blank line
/// between neighbours.
pub open spec fn fresh_plan(n: int) -> Seq<Piece>
    decreases n,
{
    if n <= 0 {
        Seq::empty()
    } else if n == 1 {
        seq![Piece::Entry { index: 0 }]
    } else {
        fresh_plan(n - 1).push(Piece::LineFeed).push(Piece::LineFeed).push(
            Piece::Entry { index: n - 1 },
        )
    }
}

/// The pieces of the merged text. A text without blocks is not kept when
/// there are records: the file is written afresh.
pub open spec fn merge_plan(
    s: Seq<char>,
    spans: Seq<SpanView>,
    rs: Seq<RenderedView>,
) -> Seq<Piece> {
    if spans.len() == 0 && rs.len() > 0 {
        fresh_plan(rs.len() as int)
    } else {
        append_plan(s, spans, rs, rs.len() as int)
    }
}

/// The merged text.
pub open spec fn woven(s: Seq<char>, spans: Seq<SpanView>, rs: Seq<RenderedView>) -> Seq<char> {
    flatten(s, rs, merge_plan(s, spans, rs))
}

/// `spans` with every key in lower case.
pub open spec fn folded(spans: Seq<SpanView>) -> Seq<SpanView> {
    Seq::new(spans.len(), |i: int| SpanView { key: str_lowercase(spans[i].key), ..spans[i] })
}

/// The records of `l` made ready for merging under `cfg`.
pub open spec fn rendered_all(l: Seq<RecordView>, cfg: KeyGenConfigView) -> Seq<RenderedView> {
    Seq::new(
        l.len(),
        |i: int| RenderedView { folded_key: str_lowercase(l[i].key), block: formatted(l[i], cfg) },
    )
}

/// The text of a library merged into an original text.
pub open spec fn merged(s: Seq<char>, l: Seq<RecordView>, cfg: KeyGenConfigView) -> Seq<char> {
    woven(s, folded(blocks_of(s)), rendered_all(l, cfg))
}

/// The position of the last rendered record with the lower-case key `key`.
fn lookup(rendered: &Vec<Rendered>, key: &Vec<char>) -> (r: Option<usize>)
    ensures
        match r {
            Some(i) => i < rendered.len() && find_rendered(rendered_views(rendered@), key@) == Some(
                i as int,
            ),
            None => find_rendered(rendered_views(rendered@), key@) is None,
        },
{
    let ghost all = rendered_views(rendered@);
    let mut i = rendered.len();
    assert(all.take(i as int) == all);
    while i > 0
        invariant
            i <= rendered.len(),
            all == rendered_views(rendered@),
            find_rendered(all, key@) == find_rendered(all.take(i as int), key@),
        decreases i,
    {
        assert(all.take(i as int).last() == rendered@[i - 1]@);
        assert(all.take(i as int).drop_last() == all.take(i - 1));
        if chars_eq(&rendered[i - 1].folded_key, key) {
            return Some(i - 1);
        }
        i -= 1;
    }
    None
}

/// Whether one of `spans` has the key `key`.
fn covers(spans: &Vec<Block>, key: &Vec<char>) -> (r: bool)
    ensures
        r == has_key(block_views(spans@), key@),
{
    let mut j: usize = 0;
    while j < spans.len()
        invariant
            j <= spans.len(),
            forall|m: int| 0 <= m < j ==> (#[trigger] block_views(spans@)[m]).key != key@,
        decreases spans.len() - j,
    {
        if chars_eq(&spans[j].key, key) {
            assert(block_views(spans@)[j as int].key == key@);
            return true;
        }
        j += 1;
    }
    false
}

/// Appends the characters of one piece to `out`.
fn emit(
    out: &mut Vec<char>,
    piece: &Vec<char>,
    Ghost(s): Ghost<Seq<char>>,
    Ghost(rs): Ghost<Seq<RenderedView>>,
    Ghost(plan): Ghost<Seq<Piece>>,
    Ghost(p): Ghost<Piece>,
)
    requires
        old(out)@ == flatten(s, rs, plan),
        piece@ == piece_text(s, rs, p),
    ensures
        final(out)@ == flatten(s, rs, plan.push(p)),
{
    push_all(out, piece);
    assert(plan.push(p).drop_last() == plan);
}

/// Merges rendered records into the original text `original`, whose blocks
/// are `spans` with lower-case keys.
pub fn weave(original: &Vec<char>, spans: &Vec<Block>, rendered: &Vec<Rendered>) -> (out: Vec<char>)
    requires
        in_order(block_views(spans@), 0, original.len() as int),
    ensures
        out@ == woven(original@, block_views(spans@), rendered_views(rendered@)),
{
    let ghost s = original@;
    let ghost sp = block_views(spans@);
    let ghost rs = rendered_views(rendered@);
    let mut out: Vec<char> = Vec::new();
    let line_feed: Vec<char> = vec!['\n'];
    if spans.len() == 0 && rendered.len() > 0 {
        let mut n: usize = 0;
        while n < rendered.len()
            invariant
                n <= rendered.len(),
                rs == rendered_views(rendered@),
                line_feed@ == seq!['\n'],
                out@ == flatten(s, rs, fresh_plan(n as int)),
            decreases rendered.len() - n,
        {
            let ghost plan = fresh_plan(n as int);
            if n > 0 {
                emit(&mut out, &line_feed, Ghost(s), Ghost(rs), Ghost(plan), Ghost(Piece::LineFeed));
                emit(
                    &mut out,
                    &line_feed,
                    Ghost(s),
                    Ghost(rs),
                    Ghost(plan.push(Piece::LineFeed)),
                    Ghost(Piece::LineFeed),
                );
                emit(
                    &mut out,
                    &rendered[n].block,
                    Ghost(s),
                    Ghost(rs),
                    Ghost(plan.push(Piece::LineFeed).push(Piece::LineFeed)),
                    Ghost(Piece::Entry { index: n as int }),
                );
            } else {
                emit(
                    &mut out,
                    &rendered[n].block,
                    Ghost(s),
                    Ghost(rs),
                    Ghost(plan),
                    Ghost(Piece::Entry { index: n as int }),
                );
                assert(plan.push(Piece::Entry { index: 0 }) =~= seq![Piece::Entry { index: 0 }]);
            }
            n += 1;
        }
        return out;
    }
    let mut last: usize = 0;
    let mut k: usize = 0;
    assert(sp.take(0) =~= Seq::<SpanView>::empty());
    while k < spans.len()
        invariant
            k <= spans.len(),
            s == original@,
            sp == block_views(spans@),
            rs == rendered_views(rendered@),
            in_order(sp, 0, s.len() as int),
            last == prev_end(sp, k as int),
            last <= original.len(),
            out@ == flatten(s, rs, walk_plan(sp.take(k as int), rs)),
        decreases spans.len() - k,
    {
        let span = &spans[k];
        proof {
            let t = sp.take(k + 1);
            assert(t.drop_last() == sp.take(k as int));
            assert(t[k as int] == sp[k as int]);
            assert(prev_end(t, k as int) == prev_end(sp, k as int)) by {
                if k > 0 {
                    assert(t[k - 1] == sp[k - 1]);
                }
            }
            assert(sp[k as int] == spans@[k as int]@);
            if k > 0 {
                assert(sp[k - 1].end <= sp[k as int].start);
            }
        }
        let ghost before = walk_plan(sp.take(k as int), rs);
        let ghost gap = Piece::Verbatim { from: last as int, to: span.start as int };
        let text = slice(original, last, span.start);
        emit(&mut out, &text, Ghost(s), Ghost(rs), Ghost(before), Ghost(gap));
        match lookup(rendered, &span.key) {
            Some(i) => {
                assert(rs[i as int] == rendered@[i as int]@);
                emit(
                    &mut out,
                    &rendered[i].block,
                    Ghost(s),
                    Ghost(rs),
                    Ghost(before.push(gap)),
                    Ghost(Piece::Entry { index: i as int }),
                );
            },
            None => {},
        }
        last = span.end;
        k += 1;
    }
    assert(sp.take(spans.len() as int) == sp);
    let ghost walk = walk_plan(sp, rs);
    let tail = slice(original, last, original.len());
    emit(
        &mut out,
        &tail,
        Ghost(s),
        Ghost(rs),
        Ghost(walk),
        Ghost(Piece::Verbatim { from: last as int, to: s.len() as int }),
    );
    let mut n: usize = 0;
    while n < rendered.len()
        invariant
            n <= rendered.len(),
            sp == block_views(spans@),
            rs == rendered_views(rendered@),
            line_feed@ == seq!['\n'],
            out@ == flatten(s, rs, append_plan(s, sp, rs, n as int)),
        decreases rendered.len() - n,
    {
        let ghost before = append_plan(s, sp, rs, n as int);
        assert(rs[n as int] == rendered@[n as int]@);
        if !covers(spans, &rendered[n].folded_key) {
            if out.len() == 0 || out[out.len() - 1] != '\n' {
                emit(&mut out, &line_feed, Ghost(s), Ghost(rs), Ghost(before), Ghost(Piece::LineFeed));
                emit(
                    &mut out,
                    &rendered[n].block,
                    Ghost(s),
                    Ghost(rs),
                    Ghost(before.push(Piece::LineFeed)),
                    Ghost(Piece::Entry { index: n as int }),
                );
            } else {
                emit(
                    &mut out,
                    &rendered[n].block,
                    Ghost(s),
                    Ghost(rs),
                    Ghost(before),
                    Ghost(Piece::Entry { index: n as int }),
                );
            }
        }
        n += 1;
    }
    out
}

/// The blocks `blocks` with every key in lower case.
pub fn fold_keys(blocks: &Vec<Block>) -> (out: Vec<Block>)
    ensures
        block_views(out@) == folded(block_views(blocks@)),
{
    let mut out: Vec<Block> = Vec::new();
    let mut i: usize = 0;
    while i < blocks.len()
        invariant
            i <= blocks.len(),
            out.len() == i,
            forall|k: int| 0 <= k < i ==> (#[trigger] out@[k])@ == folded(block_views(blocks@))[k],
        decreases blocks.len() - i,
    {
        let b = &blocks[i];
        assert(block_views(blocks@)[i as int] == b@);
        out.push(Block { key: lowercase(&b.key), start: b.start, end: b.end });
        i += 1;
    }
    assert(block_views(out@) =~= folded(block_views(blocks@)));
    out
}

/// Makes every record of `library` ready for merging: its key in lower case
/// and its canonical text under `config`.
pub fn render_all(library: &Library, config: &KeyGenConfig) -> (out: Vec<Rendered>)
    ensures
        rendered_views(out@) == rendered_all(library@, config@),
{
    let mut out: Vec<Rendered> = Vec::new();
    let mut i: usize = 0;
    while i < library.records.len()
        invariant
            i <= library.records.len(),
            out.len() == i,
            forall|k: int| 0 <= k < i ==> (#[trigger] out@[k])@ == rendered_all(library@, config@)[k],
        decreases library.records.len() - i,
    {
        let record = &library.records[i];
        assert(library@[i as int] == record@);
        let kind = chars_of(crate::bibtex::bibtex_kind(record.entry_type.as_str()).as_str());
        let block = block_of(&kind, record, config);
        let key = chars_of(record.key.as_str());
        out.push(Rendered { folded_key: lowercase(&key), block });
        i += 1;
    }
    assert(rendered_views(out@) =~= rendered_all(library@, config@));
    out
}

/// Writes `library` as a file of its own: the canonical texts of the records
/// in the order of the library, with a blank line between neighbours.
pub fn generate_clean_bibliography(library: &Library, config: &KeyGenConfig) -> (out: String)
    ensures
        out@ == woven(Seq::empty(), Seq::empty(), rendered_all(library@, config@)),
{
    let nothing: Vec<char> = Vec::new();
    let none: Vec<Block> = Vec::new();
    let rendered = render_all(library, config);
    assert(block_views(none@) =~= Seq::<SpanView>::empty());
    string_of(&weave(&nothing, &none, &rendered))
}

/// Writes `library` into the text `original`.
///
/// Text outside record blocks is kept character for character. A block whose
/// key, case disregarded, is the key of a record is replaced by the canonical
/// text of that record; any other block is dropped. Records that no block
/// stands for are appended in the order of the library, each after a line
/// feed unless the text already ends in one. If the text holds no block at
/// all and the library is not empty, the records are written afresh with a
/// blank line between them.
pub fn merge_bibliography_into_source(original: &str, library: &Library, config: &KeyGenConfig) -> (out: String)
    ensures
        out@ == merged(original@, library@, config@),
{
    let text = chars_of(original);
    let blocks = scan_blocks(&text);
    let spans = fold_keys(&blocks);
    let rendered = render_all(library, config);
    proof {
        let a = block_views(blocks@);
        let b = block_views(spans@);
        assert forall|k: int| 0 <= k < b.len() implies (#[trigger] b[k]).start == a[k].start && b[k].end
            == a[k].end by {}
    }
    let merged = weave(&text, &spans, &rendered);
    string_of(&merged)
}


/// How often the record at position `i` is among the pieces.
pub open spec fn occurrences(pieces: Seq<Piece>, i: int) -> int
    decreases pieces.len(),
{
    if pieces.len() == 0 {
        0
    } else {
        occurrences(pieces.drop_last(), i) + if pieces.last() == (Piece::Entry { index: i }) {
            1int
        } else {
            0int
        }
    }
}

/// How many of `spans` have the key `key`.
pub open spec fn count_key(spans: Seq<SpanView>, key: Seq<char>) -> int
    decreases spans.len(),
{
    if spans.len() == 0 {
        0
    } else {
        count_key(spans.drop_last(), key) + if spans.last().key == key {
            1int
        } else {
            0int
        }
    }
}

/// Whether the blocks of a text leave the record at position `i` a single
/// place: either no block has its lower-case key, or exactly one has, and `i`
/// is the record that this key stands for.
pub open spec fn has_one_place(spans: Seq<SpanView>, rs: Seq<RenderedView>, i: int) -> bool {
    has_key(spans, rs[i].folded_key) ==> find_rendered(rs, rs[i].folded_key) == Some(i) && count_key(
        spans,
        rs[i].folded_key,
    ) == 1
}

proof fn lemma_occurrences_push(pieces: Seq<Piece>, p: Piece, i: int)
    ensures
        occurrences(pieces.push(p), i) == occurrences(pieces, i) + if p == (Piece::Entry { index: i }) {
            1int
        } else {
            0int
        },
{
    assert(pieces.push(p).drop_last() == pieces);
}

/// What `find_rendered` finds is the last record with the key.
pub proof fn lemma_find_rendered(rs: Seq<RenderedView>, key: Seq<char>)
    ensures
        match find_rendered(rs, key) {
            Some(j) => 0 <= j < rs.len() && rs[j].folded_key == key && forall|m: int|
                j < m < rs.len() ==> (#[trigger] rs[m]).folded_key != key,
            None => forall|m: int| 0 <= m < rs.len() ==> (#[trigger] rs[m]).folded_key != key,
        },
    decreases rs.len(),
{
    if rs.len() > 0 && rs.last().folded_key != key {
        lemma_find_rendered(rs.drop_last(), key);
        match find_rendered(rs, key) {
            Some(j) => {
                assert(rs[j] == rs.drop_last()[j]);
                assert forall|m: int| j < m < rs.len() implies (#[trigger] rs[m]).folded_key != key by {
                    if m < rs.len() - 1 {
                        assert(rs[m] == rs.drop_last()[m]);
                    }
                }
            },
            None => {
                assert forall|m: int| 0 <= m < rs.len() implies (#[trigger] rs[m]).folded_key != key by {
                    if m < rs.len() - 1 {
                        assert(rs[m] == rs.drop_last()[m]);
                    }
                }
            },
        }
    }
}

/// A key is counted if and only if a block has it.
pub proof fn lemma_count_key(spans: Seq<SpanView>, key: Seq<char>)
    ensures
        count_key(spans, key) >= 0,
        count_key(spans, key) > 0 <==> has_key(spans, key),
    decreases spans.len(),
{
    if spans.len() > 0 {
        let rest = spans.drop_last();
        lemma_count_key(rest, key);
        if has_key(rest, key) {
            let j = choose|j: int| 0 <= j < rest.len() && #[trigger] rest[j].key == key;
            assert(spans[j].key == key);
        }
        if spans.last().key == key {
            assert(spans[spans.len() - 1].key == key);
        }
        if has_key(spans, key) && spans.last().key != key {
            let j = choose|j: int| 0 <= j < spans.len() && #[trigger] spans[j].key == key;
            assert(rest[j].key == key);
        }
    }
}

proof fn lemma_walk_occurrences(spans: Seq<SpanView>, rs: Seq<RenderedView>, i: int)
    requires
        0 <= i < rs.len(),
    ensures
        occurrences(walk_plan(spans, rs), i) == if find_rendered(rs, rs[i].folded_key) == Some(i) {
            count_key(spans, rs[i].folded_key)
        } else {
            0
        },
    decreases spans.len(),
{
    if spans.len() > 0 {
        let k = spans.len() - 1;
        let before = walk_plan(spans.drop_last(), rs);
        let gap = Piece::Verbatim { from: prev_end(spans, k), to: spans[k].start };
        lemma_walk_occurrences(spans.drop_last(), rs, i);
        lemma_find_rendered(rs, spans[k].key);
        lemma_find_rendered(rs, rs[i].folded_key);
        lemma_occurrences_push(before, gap, i);
        match find_rendered(rs, spans[k].key) {
            Some(j) => {
                lemma_occurrences_push(before.push(gap), Piece::Entry { index: j }, i);
            },
            None => {},
        }
    }
}

proof fn lemma_append_occurrences(
    s: Seq<char>,
    spans: Seq<SpanView>,
    rs: Seq<RenderedView>,
    n: int,
    i: int,
)
    requires
        0 <= i < rs.len(),
        0 <= n <= rs.len(),
    ensures
        occurrences(append_plan(s, spans, rs, n), i) == occurrences(walk_plan(spans, rs), i) + if i < n
            && !has_key(spans, rs[i].folded_key) {
            1int
        } else {
            0int
        },
    decreases n,
{
    if n == 0 {
        lemma_occurrences_push(
            walk_plan(spans, rs),
            Piece::Verbatim { from: prev_end(spans, spans.len() as int), to: s.len() as int },
            i,
        );
    } else {
        lemma_append_occurrences(s, spans, rs, n - 1, i);
        let before = append_plan(s, spans, rs, n - 1);
        if !has_key(spans, rs[n - 1].folded_key) {
            if ends_in_line_feed(flatten(s, rs, before)) {
                lemma_occurrences_push(before, Piece::Entry { index: n - 1 }, i);
            } else {
                lemma_occurrences_push(before, Piece::LineFeed, i);
                lemma_occurrences_push(before.push(Piece::LineFeed), Piece::Entry { index: n - 1 }, i);
            }
        }
    }
}

proof fn lemma_fresh_occurrences(n: int, i: int)
    requires
        0 <= i,
        0 <= n,
    ensures
        occurrences(fresh_plan(n), i) == if i < n {
            1int
        } else {
            0int
        },
    decreases n,
{
    if n == 1 {
        let none = Seq::<Piece>::empty();
        assert(fresh_plan(1) =~= none.push(Piece::Entry { index: 0 }));
        lemma_occurrences_push(none, Piece::Entry { index: 0 }, i);
    } else if n > 1 {
        lemma_fresh_occurrences(n - 1, i);
        let a = fresh_plan(n - 1);
        lemma_occurrences_push(a, Piece::LineFeed, i);
        lemma_occurrences_push(a.push(Piece::LineFeed), Piece::LineFeed, i);
        lemma_occurrences_push(a.push(Piece::LineFeed).push(Piece::LineFeed), Piece::Entry { index: n - 1 }, i);
    }
}

/// How often the merged text holds a record: once for every block of the
/// original text that stands for it, and once more, at the end, if no block
/// has its key in lower case.
pub proof fn lemma_merge_occurrences(
    s: Seq<char>,
    spans: Seq<SpanView>,
    rs: Seq<RenderedView>,
    i: int,
)
    requires
        0 <= i < rs.len(),
    ensures
        occurrences(merge_plan(s, spans, rs), i) == (if find_rendered(rs, rs[i].folded_key) == Some(i) {
            count_key(spans, rs[i].folded_key)
        } else {
            0
        }) + (if has_key(spans, rs[i].folded_key) {
            0int
        } else {
            1int
        }),
{
    lemma_count_key(spans, rs[i].folded_key);
    if spans.len() == 0 {
        lemma_fresh_occurrences(rs.len() as int, i);
    } else {
        lemma_append_occurrences(s, spans, rs, rs.len() as int, i);
        lemma_walk_occurrences(spans, rs, i);
    }
}

/// The merged text holds a record exactly once if and only if the blocks of
/// the original text leave the record a single place. So every record is
/// written exactly once unless a block stands, case disregarded, for two
/// records, or two blocks stand for the same record.
pub proof fn lemma_merge_writes_each_record_once(
    s: Seq<char>,
    spans: Seq<SpanView>,
    rs: Seq<RenderedView>,
    i: int,
)
    requires
        0 <= i < rs.len(),
    ensures
        occurrences(merge_plan(s, spans, rs), i) == 1 <==> has_one_place(spans, rs, i),
{
    lemma_count_key(spans, rs[i].folded_key);
    lemma_merge_occurrences(s, spans, rs, i);
}

/// Whether every piece is a line feed, a record of the library, or text of
/// the original that lies outside every block.
pub open spec fn clear_of_blocks(
    pieces: Seq<Piece>,
    spans: Seq<SpanView>,
    rs: Seq<RenderedView>,
) -> bool {
    forall|x: int| 0 <= x < pieces.len() ==> match #[trigger] pieces[x] {
        Piece::Verbatim { from, to } => forall|k: int| 0 <= k < spans.len() ==> to <= (#[trigger] spans[k]).start || spans[k].end <= from,
        Piece::LineFeed => true,
        Piece::Entry { index } => 0 <= index < rs.len(),
    }
}

proof fn lemma_walk_clear(spans: Seq<SpanView>, all: Seq<SpanView>, rs: Seq<RenderedView>, len: int)
    requires
        in_order(all, 0, len),
        spans.len() <= all.len(),
        spans == all.take(spans.len() as int),
    ensures
        clear_of_blocks(walk_plan(spans, rs), all, rs),
    decreases spans.len(),
{
    if spans.len() > 0 {
        let k = spans.len() - 1;
        let before = walk_plan(spans.drop_last(), rs);
        assert(spans.drop_last() == all.take(k));
        lemma_walk_clear(spans.drop_last(), all, rs, len);
        let gap = Piece::Verbatim { from: prev_end(spans, k), to: spans[k].start };
        assert(spans[k] == all[k]);
        if k > 0 {
            assert(spans[k - 1] == all[k - 1]);
        }
        lemma_find_rendered(rs, spans[k].key);
        let plan = walk_plan(spans, rs);
        assert forall|x: int| 0 <= x < plan.len() implies match #[trigger] plan[x] {
            Piece::Verbatim { from, to } => forall|m: int| 0 <= m < all.len() ==> to <= (#[trigger] all[m]).start || all[m].end <= from,
            Piece::LineFeed => true,
            Piece::Entry { index } => 0 <= index < rs.len(),
        } by {
            if x < before.len() {
                assert(plan[x] == before[x]);
            } else if x == before.len() {
                assert(plan[x] == gap);
                assert forall|m: int| 0 <= m < all.len() implies spans[k].start <= (#[trigger] all[m]).start
                    || all[m].end <= prev_end(spans, k) by {
                    if m < k {
                        if m < k - 1 {
                            assert(all[m].end <= all[k - 1].start);
                        }
                    } else if m > k {
                        assert(all[k].end <= all[m].start);
                    }
                }
            }
        }
    }
}

/// Nothing of a block of the original text is copied into the merged text:
/// what the merged text holds is text from outside every block, records of
/// the library, and line feeds. A key that is in the text but not in the
/// library is therefore gone with its block.
pub proof fn lemma_merge_copies_no_block(s: Seq<char>, spans: Seq<SpanView>, rs: Seq<RenderedView>)
    requires
        in_order(spans, 0, s.len() as int),
    ensures
        clear_of_blocks(merge_plan(s, spans, rs), spans, rs),
{
    if spans.len() == 0 && rs.len() > 0 {
        lemma_fresh_clear(rs.len() as int, spans, rs);
    } else {
        lemma_append_clear(s, spans, rs, rs.len() as int);
    }
}

proof fn lemma_fresh_clear(n: int, spans: Seq<SpanView>, rs: Seq<RenderedView>)
    requires
        0 <= n <= rs.len(),
    ensures
        clear_of_blocks(fresh_plan(n), spans, rs),
    decreases n,
{
    if n > 1 {
        lemma_fresh_clear(n - 1, spans, rs);
        let a = fresh_plan(n - 1);
        let plan = fresh_plan(n);
        assert forall|x: int| 0 <= x < plan.len() implies match #[trigger] plan[x] {
            Piece::Verbatim { from, to } => forall|k: int| 0 <= k < spans.len() ==> to <= (#[trigger] spans[k]).start || spans[k].end <= from,
            Piece::LineFeed => true,
            Piece::Entry { index } => 0 <= index < rs.len(),
        } by {
            if x < a.len() {
                assert(plan[x] == a[x]);
            }
        }
    }
}

proof fn lemma_append_clear(s: Seq<char>, spans: Seq<SpanView>, rs: Seq<RenderedView>, n: int)
    requires
        in_order(spans, 0, s.len() as int),
        0 <= n <= rs.len(),
    ensures
        clear_of_blocks(append_plan(s, spans, rs, n), spans, rs),
    decreases n,
{
    if n == 0 {
        let walk = walk_plan(spans, rs);
        assert(spans.take(spans.len() as int) == spans);
        lemma_walk_clear(spans, spans, rs, s.len() as int);
        let plan = body_plan(s, spans, rs);
        assert forall|x: int| 0 <= x < plan.len() implies match #[trigger] plan[x] {
            Piece::Verbatim { from, to } => forall|k: int| 0 <= k < spans.len() ==> to <= (#[trigger] spans[k]).start || spans[k].end <= from,
            Piece::LineFeed => true,
            Piece::Entry { index } => 0 <= index < rs.len(),
        } by {
            if x < walk.len() {
                assert(plan[x] == walk[x]);
            } else {
                assert forall|k: int| 0 <= k < spans.len() implies (#[trigger] spans[k]).end <= prev_end(
                    spans,
                    spans.len() as int,
                ) by {
                    if k < spans.len() - 1 {
                        assert(spans[k].end <= spans[spans.len() - 1].start);
                    }
                }
            }
        }
    } else {
        lemma_append_clear(s, spans, rs, n - 1);
        let before = append_plan(s, spans, rs, n - 1);
        let plan = append_plan(s, spans, rs, n);
        assert forall|x: int| 0 <= x < plan.len() implies match #[trigger] plan[x] {
            Piece::Verbatim { from, to } => forall|k: int| 0 <= k < spans.len() ==> to <= (#[trigger] spans[k]).start || spans[k].end <= from,
            Piece::LineFeed => true,
            Piece::Entry { index } => 0 <= index < rs.len(),
        } by {
            if x < before.len() {
                assert(plan[x] == before[x]);
            }
        }
    }
}


/// The text of a library merged into a text is made of the pieces of the merge
/// plan. It holds a record exactly once if and only if the blocks of the text
/// leave the record a single place, and it holds nothing of any block of the
/// text: a key that is in the text but not in the library is gone with its
/// block.
pub proof fn lemma_merge_is_complete(
    s: Seq<char>,
    l: Seq<RecordView>,
    cfg: KeyGenConfigView,
    i: int,
)
    requires
        0 <= i < l.len(),
    ensures
        merged(s, l, cfg) == flatten(
            s,
            rendered_all(l, cfg),
            merge_plan(s, folded(blocks_of(s)), rendered_all(l, cfg)),
        ),
        occurrences(merge_plan(s, folded(blocks_of(s)), rendered_all(l, cfg)), i) == 1 <==> has_one_place(
            folded(blocks_of(s)),
            rendered_all(l, cfg),
            i,
        ),
        clear_of_blocks(
            merge_plan(s, folded(blocks_of(s)), rendered_all(l, cfg)),
            folded(blocks_of(s)),
            rendered_all(l, cfg),
        ),
{
    let spans = folded(blocks_of(s));
    let rs = rendered_all(l, cfg);
    lemma_merge_writes_each_record_once(s, spans, rs, i);
    crate::scanner::lemma_blocks_in_order(s);
    assert(in_order(spans, 0, s.len() as int)) by {
        assert forall|k: int| 0 <= k < spans.len() implies 0 <= (#[trigger] spans[k]).start < spans[k].end
            <= s.len() by {
            assert(spans[k].start == blocks_of(s)[k].start && spans[k].end == blocks_of(s)[k].end);
        }
        assert forall|a: int, b: int| 0 <= a < b < spans.len() implies (#[trigger] spans[a]).end <= (
        #[trigger] spans[b]).start by {
            assert(spans[a].end == blocks_of(s)[a].end && spans[b].start == blocks_of(s)[b].start);
        }
    }
    lemma_merge_copies_no_block(s, spans, rs);
}

/// Whether every block of `s` is the canonical text of the record that its
/// key stands for.
pub open spec fn blocks_are_canonical(
    s: Seq<char>,
    spans: Seq<SpanView>,
    rs: Seq<RenderedView>,
) -> bool {
    forall|k: int| 0 <= k < spans.len() ==> match find_rendered(rs, (#[trigger] spans[k]).key) {
        Some(i) => 0 <= i < rs.len() && rs[i].block == s.subrange(spans[k].start, spans[k].end),
        None => false,
    }
}

/// The text of a plan with one more piece is the text of the plan and the
/// text of the piece.
pub proof fn lemma_flatten_push(s: Seq<char>, rs: Seq<RenderedView>, pieces: Seq<Piece>, p: Piece)
    ensures
        flatten(s, rs, pieces.push(p)) == flatten(s, rs, pieces) + piece_text(s, rs, p),
{
    assert(pieces.push(p).drop_last() == pieces);
}

proof fn lemma_walk_text(s: Seq<char>, spans: Seq<SpanView>, rs: Seq<RenderedView>, j: int)
    requires
        in_order(spans, 0, s.len() as int),
        blocks_are_canonical(s, spans, rs),
        0 <= j <= spans.len(),
    ensures
        0 <= prev_end(spans, j) <= s.len(),
        flatten(s, rs, walk_plan(spans.take(j), rs)) == s.take(prev_end(spans, j)),
    decreases j,
{
    if j == 0 {
        assert(spans.take(0) =~= Seq::<SpanView>::empty());
        assert(s.take(0) =~= Seq::<char>::empty());
    } else {
        lemma_walk_text(s, spans, rs, j - 1);
        let t = spans.take(j);
        let k = j - 1;
        assert(t.drop_last() == spans.take(j - 1));
        assert(t[k] == spans[k]);
        assert(prev_end(t, k) == prev_end(spans, k)) by {
            if k > 0 {
                assert(t[k - 1] == spans[k - 1]);
            }
        }
        if k > 0 {
            assert(spans[k - 1].end <= spans[k].start);
        }
        let before = walk_plan(spans.take(j - 1), rs);
        let gap = Piece::Verbatim { from: prev_end(spans, k), to: spans[k].start };
        let i = find_rendered(rs, spans[k].key)->0;
        lemma_flatten_push(s, rs, before, gap);
        lemma_flatten_push(s, rs, before.push(gap), Piece::Entry { index: i });
        assert(s.take(prev_end(spans, k)) + s.subrange(prev_end(spans, k), spans[k].start) + s.subrange(
            spans[k].start,
            spans[k].end,
        ) =~= s.take(spans[k].end));
    }
}

proof fn lemma_nothing_appended(s: Seq<char>, spans: Seq<SpanView>, rs: Seq<RenderedView>, n: int)
    requires
        0 <= n <= rs.len(),
        forall|i: int| 0 <= i < rs.len() ==> has_key(spans, (#[trigger] rs[i]).folded_key),
    ensures
        append_plan(s, spans, rs, n) == body_plan(s, spans, rs),
    decreases n,
{
    if n > 0 {
        lemma_nothing_appended(s, spans, rs, n - 1);
        assert(has_key(spans, rs[n - 1].folded_key));
    }
}

/// A merge leaves a text as it is if every block of the text is the canonical
/// text of the record that its key stands for and every record has a block in
/// the text. Merging a second time therefore changes nothing wherever the
/// scanner reads the blocks of the first merge back as they were written.
pub proof fn lemma_merge_keeps_canonical_text(
    s: Seq<char>,
    spans: Seq<SpanView>,
    rs: Seq<RenderedView>,
)
    requires
        in_order(spans, 0, s.len() as int),
        spans.len() > 0 || rs.len() == 0,
        blocks_are_canonical(s, spans, rs),
        forall|i: int| 0 <= i < rs.len() ==> has_key(spans, (#[trigger] rs[i]).folded_key),
    ensures
        woven(s, spans, rs) == s,
{
    let n = spans.len() as int;
    lemma_walk_text(s, spans, rs, n);
    assert(spans.take(n) == spans);
    lemma_nothing_appended(s, spans, rs, rs.len() as int);
    lemma_flatten_push(
        s,
        rs,
        walk_plan(spans, rs),
        Piece::Verbatim { from: prev_end(spans, n), to: s.len() as int },
    );
    assert(s.take(prev_end(spans, n)) + s.subrange(prev_end(spans, n), s.len() as int) =~= s);
}

} // verus!
