//! Locating record blocks in the text of a bibliography file.
//!
//! The scan is lexical: it follows `@`, a type token, an opening delimiter, a
//! key, and then counts delimiters until the block closes. It does not parse
//! field values, so a value with unbalanced delimiters misleads it.

use crate::text::{char_is_whitespace, chars_of, is_whitespace, is_ws, lemma_run_end, run_end, skip_whitespace, slice, string_of};
use vstd::prelude::*;
use vstd::utf8::{encode_scalar, encode_utf8};

verus! {

/// A record block `@type{key, ... }` located in a text: its key and the
/// half-open range of character positions it occupies, both delimiters
/// included.
pub struct Block {
    pub key: Vec<char>,
    pub start: usize,
    pub end: usize,
}

/// The mathematical value of a located block or span.
pub struct SpanView {
    pub key: Seq<char>,
    pub start: int,
    pub end: int,
}

impl View for Block {
    type V = SpanView;

    open spec fn view(&self) -> SpanView {
        SpanView { key: self.key@, start: self.start as int, end: self.end as int }
    }
}

/// The views of the blocks in `v`.
pub open spec fn block_views(v: Seq<Block>) -> Seq<SpanView> {
    Seq::new(v.len(), |i: int| v[i]@)
}

/// Characters of a type token: anything but whitespace and the two opening
/// delimiters.
pub open spec fn is_type_char() -> spec_fn(char) -> bool {
    |c: char| !(char_is_whitespace(c) || c == '{' || c == '(')
}

/// Characters of a key inside a block closed by `close`: anything but a comma,
/// the closing delimiter and whitespace.
pub open spec fn is_key_char(close: char) -> spec_fn(char) -> bool {
    |c: char| !(c == ',' || c == close || char_is_whitespace(c))
}

/// The delimiter that closes a block opened by `open`.
pub open spec fn closer_of(open: char) -> char {
    if open == '{' {
        '}'
    } else {
        ')'
    }
}

/// Where the block closes: the position just after the closing delimiter that
/// brings the depth to zero, counting from position `j` at depth `depth`, or
/// `None` if the text ends first.
pub open spec fn block_end(s: Seq<char>, j: int, depth: nat, open: char, close: char) -> Option<int>
    decreases s.len() - j,
{
    if j < 0 || j >= s.len() {
        None
    } else if s[j] == open {
        block_end(s, j + 1, depth + 1, open, close)
    } else if s[j] == close {
        if depth <= 1 {
            Some(j + 1)
        } else {
            block_end(s, j + 1, (depth - 1) as nat, open, close)
        }
    } else {
        block_end(s, j + 1, depth, open, close)
    }
}

/// Every block found from position `i` on, in the order of the text, before
/// repeated keys are resolved.
///
/// At an `@` the type token is skipped, then whitespace; a `{` or `(` must
/// follow, else the scan resumes right there. After the delimiter and more
/// whitespace the key runs up to a comma, the closing delimiter or
/// whitespace. The block ends where the delimiter depth returns to zero. If it
/// never does, the scan is over. A block with an empty key is passed over.
pub open spec fn scan_from(s: Seq<char>, i: int) -> Seq<SpanView>
    decreases s.len() - i,
{
    if i < 0 || i >= s.len() {
        Seq::empty()
    } else if s[i] != '@' {
        scan_from(s, i + 1)
    } else {
        let t = run_end(s, i + 1, is_type_char());
        let d = run_end(s, t, is_ws());
        if !(i < d < s.len() && (s[d] == '{' || s[d] == '(')) {
            if i < d <= s.len() {
                scan_from(s, d)
            } else {
                Seq::empty()
            }
        } else {
            let close = closer_of(s[d]);
            let ks = run_end(s, d + 1, is_ws());
            let ke = run_end(s, ks, is_key_char(close));
            match block_end(s, ke, 1, s[d], close) {
                None => Seq::empty(),
                Some(e) => {
                    if !(i < e <= s.len()) {
                        Seq::empty()
                    } else if ks < ke {
                        seq![SpanView { key: s.subrange(ks, ke), start: i, end: e }] + scan_from(
                            s,
                            e,
                        )
                    } else {
                        scan_from(s, e)
                    }
                },
            }
        }
    }
}

/// Whether one of `spans` carries the key `key`.
pub open spec fn has_key(spans: Seq<SpanView>, key: Seq<char>) -> bool {
    exists|j: int| 0 <= j < spans.len() && #[trigger] spans[j].key == key
}

/// `spans` without those whose key occurs again later: of blocks that share a
/// key the last one stands for the key.
pub open spec fn last_per_key(spans: Seq<SpanView>) -> Seq<SpanView>
    decreases spans.len(),
{
    if spans.len() == 0 {
        Seq::empty()
    } else if has_key(spans.drop_first(), spans[0].key) {
        last_per_key(spans.drop_first())
    } else {
        seq![spans[0]] + last_per_key(spans.drop_first())
    }
}

/// The blocks of `s`: one per key, in the order of the text.
pub open spec fn blocks_of(s: Seq<char>) -> Seq<SpanView> {
    last_per_key(scan_from(s, 0))
}

/// Blocks lie inside a text of `len` characters, are not empty, and follow one
/// another without overlap, the first not before `from`.
pub open spec fn in_order(spans: Seq<SpanView>, from: int, len: int) -> bool {
    &&& forall|k: int| 0 <= k < spans.len() ==> from <= (#[trigger] spans[k]).start < spans[k].end <= len
    &&& forall|k: int, m: int| 0 <= k < m < spans.len() ==> (#[trigger] spans[k]).end <= (#[trigger] spans[m]).start
}


/// The end of the type token that starts at `i`.
fn skip_type(v: &Vec<char>, i: usize) -> (j: usize)
    requires
        i <= v.len(),
    ensures
        j == run_end(v@, i as int, is_type_char()),
        i <= j <= v.len(),
{
    let mut j = i;
    while j < v.len() && !(is_whitespace(v[j]) || v[j] == '{' || v[j] == '(')
        invariant
            i <= j <= v.len(),
            run_end(v@, i as int, is_type_char()) == run_end(v@, j as int, is_type_char()),
        decreases v.len() - j,
    {
        j += 1;
    }
    j
}

/// The end of the key that starts at `i` in a block closed by `close`.
fn skip_key(v: &Vec<char>, i: usize, close: char) -> (j: usize)
    requires
        i <= v.len(),
    ensures
        j == run_end(v@, i as int, is_key_char(close)),
        i <= j <= v.len(),
{
    let mut j = i;
    while j < v.len() && !(v[j] == ',' || v[j] == close || is_whitespace(v[j]))
        invariant
            i <= j <= v.len(),
            run_end(v@, i as int, is_key_char(close)) == run_end(v@, j as int, is_key_char(close)),
        decreases v.len() - j,
    {
        j += 1;
    }
    j
}

/// Counts delimiters from `from` on, starting inside one open block, and
/// returns the position just after the delimiter that closes it.
fn find_block_end(v: &Vec<char>, from: usize, open: char, close: char) -> (r: Option<usize>)
    requires
        1 <= from <= v.len(),
    ensures
        match r {
            Some(e) => from < e <= v.len() && block_end(v@, from as int, 1, open, close) == Some(
                e as int,
            ),
            None => block_end(v@, from as int, 1, open, close) is None,
        },
{
    let mut depth: usize = 1;
    let mut j = from;
    while j < v.len()
        invariant
            1 <= from <= j <= v.len(),
            1 <= depth <= j - from + 1,
            block_end(v@, from as int, 1, open, close) == block_end(
                v@,
                j as int,
                depth as nat,
                open,
                close,
            ),
        decreases v.len() - j,
    {
        let c = v[j];
        if c == open {
            depth += 1;
        } else if c == close {
            if depth == 1 {
                return Some(j + 1);
            }
            depth -= 1;
        }
        j += 1;
    }
    None
}

/// Every block of `v` in the order of the text, repeated keys included.
fn scan_all(v: &Vec<char>) -> (out: Vec<Block>)
    ensures
        block_views(out@) == scan_from(v@, 0),
        in_order(block_views(out@), 0, v.len() as int),
{
    let mut out: Vec<Block> = Vec::new();
    let mut i: usize = 0;
    while i < v.len()
        invariant
            i <= v.len(),
            block_views(out@) + scan_from(v@, i as int) == scan_from(v@, 0),
            in_order(block_views(out@), 0, i as int),
        decreases v.len() - i,
    {
        if v[i] != '@' {
            i += 1;
        } else {
            let t = skip_type(v, i + 1);
            let d = skip_whitespace(v, t);
            if d < v.len() && (v[d] == '{' || v[d] == '(') {
                let open = v[d];
                let close = if open == '{' {
                    '}'
                } else {
                    ')'
                };
                let ks = skip_whitespace(v, d + 1);
                let ke = skip_key(v, ks, close);
                match find_block_end(v, ke, open, close) {
                    None => {
                        assert(scan_from(v@, i as int) == Seq::<SpanView>::empty());
                        i = v.len();
                    },
                    Some(e) => {
                        if ks < ke {
                            let key = slice(v, ks, ke);
                            let ghost before = block_views(out@);
                            out.push(Block { key, start: i, end: e });
                            assert(block_views(out@) == before + seq![
                                SpanView {
                                    key: v@.subrange(ks as int, ke as int),
                                    start: i as int,
                                    end: e as int,
                                },
                            ]);
                        }
                        i = e;
                    },
                }
            } else {
                i = d;
            }
        }
    }
    assert(block_views(out@) + Seq::<SpanView>::empty() == block_views(out@));
    out
}

/// Whether a block after position `k` of `blocks` has the key of block `k`.
fn key_recurs(blocks: &Vec<Block>, k: usize) -> (r: bool)
    requires
        k < blocks.len(),
    ensures
        r == has_key(block_views(blocks@).skip(k + 1), blocks@[k as int].key@),
{
    let ghost rest = block_views(blocks@).skip(k + 1);
    let mut j = k + 1;
    while j < blocks.len()
        invariant
            k < j <= blocks.len(),
            rest == block_views(blocks@).skip(k + 1),
            forall|m: int| 0 <= m < j - k - 1 ==> (#[trigger] rest[m]).key != blocks@[k as int].key@,
        decreases blocks.len() - j,
    {
        if crate::text::chars_eq(&blocks[j].key, &blocks[k].key) {
            assert(rest[j - k - 1].key == blocks@[k as int].key@);
            return true;
        }
        j += 1;
    }
    false
}

/// Keeps, of blocks that share a key, the last one.
fn keep_last_per_key(blocks: &Vec<Block>, len: usize) -> (out: Vec<Block>)
    requires
        in_order(block_views(blocks@), 0, len as int),
    ensures
        block_views(out@) == last_per_key(block_views(blocks@)),
        in_order(block_views(out@), 0, len as int),
{
    let ghost all = block_views(blocks@);
    let mut out: Vec<Block> = Vec::new();
    let mut k: usize = 0;
    assert(all.skip(0) == all);
    while k < blocks.len()
        invariant
            k <= blocks.len(),
            all == block_views(blocks@),
            in_order(all, 0, len as int),
            block_views(out@) + last_per_key(all.skip(k as int)) == last_per_key(all),
            forall|x: int| 0 <= x < out.len() ==> 0 <= (#[trigger] block_views(out@)[x]).start < block_views(out@)[x].end,
            forall|x: int, y: int| 0 <= x < y < out.len() ==> (#[trigger] block_views(out@)[x]).end <= (#[trigger] block_views(out@)[y]).start,
            forall|x: int| 0 <= x < out.len() && k < blocks.len() ==> (#[trigger] block_views(out@)[x]).end <= all[k as int].start,
            forall|x: int| 0 <= x < out.len() ==> (#[trigger] block_views(out@)[x]).end <= len,
        decreases blocks.len() - k,
    {
        let again = key_recurs(blocks, k);
        proof {
            assert(all.skip(k as int).drop_first() == all.skip(k + 1));
            assert(all.skip(k as int)[0] == all[k as int]);
        }
        if !again {
            let b = &blocks[k];
            let key = slice(&b.key, 0, b.key.len());
            assert(key@ == b.key@);
            let ghost before = block_views(out@);
            out.push(Block { key, start: b.start, end: b.end });
            assert(block_views(out@) == before + seq![all[k as int]]);
        }
        k += 1;
    }
    assert(all.skip(blocks.len() as int) == Seq::<SpanView>::empty());
    assert(block_views(out@) + Seq::<SpanView>::empty() == block_views(out@));
    out
}

/// Locates the record blocks of `v`: one per key, in the order of the text,
/// the last block standing for a key that several blocks carry.
pub fn scan_blocks(v: &Vec<char>) -> (out: Vec<Block>)
    ensures
        block_views(out@) == blocks_of(v@),
        in_order(block_views(out@), 0, v.len() as int),
{
    let all = scan_all(v);
    keep_last_per_key(&all, v.len())
}


/// The span of one record block in the text of a file: the key and the
/// half-open range of byte offsets that the block occupies in the UTF-8 form
/// of the text, both delimiters included.
#[derive(Clone, Debug)]
pub struct EntrySpan {
    pub key: String,
    pub start: usize,
    pub end: usize,
}

impl View for EntrySpan {
    type V = SpanView;

    open spec fn view(&self) -> SpanView {
        SpanView { key: self.key@, start: self.start as int, end: self.end as int }
    }
}

/// The views of the spans in `v`.
pub open spec fn span_views(v: Seq<EntrySpan>) -> Seq<SpanView> {
    Seq::new(v.len(), |i: int| v[i]@)
}

/// The number of bytes that UTF-8 takes for `c`.
pub open spec fn utf8_width(c: char) -> int {
    if (c as u32) < 0x80 {
        1
    } else if (c as u32) < 0x800 {
        2
    } else if (c as u32) < 0x10000 {
        3
    } else {
        4
    }
}

/// The number of bytes that UTF-8 takes for `s`: the length of its encoding,
/// as `lemma_utf8_len_is_encoded_length` shows.
pub open spec fn utf8_len(s: Seq<char>) -> int
    decreases s.len(),
{
    if s.len() == 0 {
        0
    } else {
        utf8_len(s.drop_last()) + utf8_width(s.last())
    }
}

/// `x`, or the largest `usize` if `x` is larger. No text that fits in memory
/// has an offset that large.
pub open spec fn clipped(x: int) -> int {
    if x > usize::MAX {
        usize::MAX as int
    } else {
        x
    }
}

/// The byte offset of character position `i` in `s`.
pub open spec fn byte_offset(s: Seq<char>, i: int) -> int {
    clipped(utf8_len(s.take(i)))
}

/// The spans of `s`: its blocks with byte offsets in place of character
/// positions.
pub open spec fn spans_of(s: Seq<char>) -> Seq<SpanView> {
    Seq::new(
        blocks_of(s).len(),
        |k: int|
            SpanView {
                key: blocks_of(s)[k].key,
                start: byte_offset(s, blocks_of(s)[k].start),
                end: byte_offset(s, blocks_of(s)[k].end),
            },
    )
}

/// A text never takes a negative number of bytes.
pub proof fn lemma_utf8_len_nonnegative(s: Seq<char>)
    ensures
        utf8_len(s) >= 0,
    decreases s.len(),
{
    if s.len() > 0 {
        lemma_utf8_len_nonnegative(s.drop_last());
    }
}

proof fn lemma_encoded_push(s: Seq<char>, c: char)
    ensures
        encode_utf8(s.push(c)).len() == encode_utf8(s).len() + encode_scalar(c as u32).len(),
    decreases s.len(),
{
    if s.len() == 0 {
        assert(s.push(c).drop_first() =~= Seq::<char>::empty());
        assert(encode_utf8(Seq::<char>::empty()).len() == 0);
    } else {
        assert(s.push(c).drop_first() =~= s.drop_first().push(c));
        lemma_encoded_push(s.drop_first(), c);
    }
}

proof fn lemma_scalar_width(c: char)
    ensures
        encode_scalar(c as u32).len() == utf8_width(c),
{
    let v = c as u32;
    if v <= 0x7F {
        assert(encode_scalar(v).len() == 1);
    } else if v <= 0x7FF {
        assert(encode_scalar(v).len() == 2);
    } else if v <= 0xFFFF {
        assert(!(0xD800 <= v <= 0xDFFF));
        assert(encode_scalar(v).len() == 3);
    } else {
        assert(encode_scalar(v).len() == 4);
    }
}

/// `utf8_len` is the length of the UTF-8 encoding: the number of bytes that
/// the text takes as a `str`.
pub proof fn lemma_utf8_len_is_encoded_length(s: Seq<char>)
    ensures
        utf8_len(s) == encode_utf8(s).len(),
    decreases s.len(),
{
    if s.len() > 0 {
        lemma_utf8_len_is_encoded_length(s.drop_last());
        lemma_encoded_push(s.drop_last(), s.last());
        lemma_scalar_width(s.last());
        assert(s.drop_last().push(s.last()) =~= s);
    } else {
        assert(encode_utf8(s).len() == 0);
    }
}

/// The number of bytes that UTF-8 takes for `c`.
fn width_of(c: char) -> (w: usize)
    ensures
        w == utf8_width(c),
{
    let u = c as u32;
    if u < 0x80 {
        1
    } else if u < 0x800 {
        2
    } else if u < 0x10000 {
        3
    } else {
        4
    }
}

/// The byte offset of every character position of `v`, the end included.
fn byte_offsets(v: &Vec<char>) -> (t: Vec<usize>)
    ensures
        t.len() == v.len() + 1,
        forall|i: int| 0 <= i <= v.len() ==> #[trigger] t@[i] == byte_offset(v@, i),
{
    let mut t: Vec<usize> = Vec::new();
    let mut acc: usize = 0;
    let mut i: usize = 0;
    assert(v@.take(0) =~= Seq::<char>::empty());
    t.push(0);
    while i < v.len()
        invariant
            i <= v.len(),
            t.len() == i + 1,
            acc == byte_offset(v@, i as int),
            forall|k: int| 0 <= k <= i ==> #[trigger] t@[k] == byte_offset(v@, k),
        decreases v.len() - i,
    {
        let w = width_of(v[i]);
        proof {
            let next = v@.take(i + 1);
            assert(next.drop_last() == v@.take(i as int));
            assert(next.last() == v@[i as int]);
            lemma_utf8_len_nonnegative(v@.take(i as int));
        }
        acc = if usize::MAX - acc < w {
            usize::MAX
        } else {
            acc + w
        };
        t.push(acc);
        i += 1;
    }
    t
}

/// Locates the record blocks in the text of a file.
///
/// At each `@` the type token is skipped up to whitespace or an opening
/// delimiter, then whitespace; after the `{` or `(` and more whitespace the
/// key runs up to the first comma, closing delimiter or whitespace. The block
/// ends with the closing delimiter that brings the delimiter depth back to
/// zero. A block with an empty key, or one that never closes, yields no span.
/// Where several blocks carry the same key the last one stands for it. The
/// spans come in the order of the text.
pub fn scan_entry_spans(text: &str) -> (spans: Vec<EntrySpan>)
    ensures
        span_views(spans@) == spans_of(text@),
{
    let v = chars_of(text);
    let blocks = scan_blocks(&v);
    let table = byte_offsets(&v);
    let mut spans: Vec<EntrySpan> = Vec::new();
    let mut k: usize = 0;
    while k < blocks.len()
        invariant
            k <= blocks.len(),
            spans.len() == k,
            v@ == text@,
            block_views(blocks@) == blocks_of(v@),
            in_order(block_views(blocks@), 0, v.len() as int),
            table.len() == v.len() + 1,
            forall|i: int| 0 <= i <= v.len() ==> #[trigger] table@[i] == byte_offset(v@, i),
            forall|m: int| 0 <= m < k ==> (#[trigger] spans@[m])@ == spans_of(text@)[m],
        decreases blocks.len() - k,
    {
        let b = &blocks[k];
        assert(block_views(blocks@)[k as int] == b@);
        spans.push(EntrySpan { key: string_of(&b.key), start: table[b.start], end: table[b.end] });
        k += 1;
    }
    assert(span_views(spans@) =~= spans_of(text@));
    spans
}


proof fn lemma_block_end_bounds(s: Seq<char>, j: int, depth: nat, open: char, close: char)
    requires
        block_end(s, j, depth, open, close) is Some,
    ensures
        j < block_end(s, j, depth, open, close)->0 <= s.len(),
    decreases s.len() - j,
{
    if 0 <= j < s.len() {
        if s[j] == open {
            lemma_block_end_bounds(s, j + 1, depth + 1, open, close);
        } else if s[j] == close {
            if depth > 1 {
                lemma_block_end_bounds(s, j + 1, (depth - 1) as nat, open, close);
            }
        } else {
            lemma_block_end_bounds(s, j + 1, depth, open, close);
        }
    }
}

proof fn lemma_in_order_from(spans: Seq<SpanView>, from: int, earlier: int, len: int)
    requires
        in_order(spans, from, len),
        earlier <= from,
    ensures
        in_order(spans, earlier, len),
{
}

proof fn lemma_in_order_after(first: SpanView, rest: Seq<SpanView>, from: int, len: int)
    requires
        from <= first.start < first.end <= len,
        in_order(rest, first.end, len),
    ensures
        in_order(seq![first] + rest, from, len),
{
    let all = seq![first] + rest;
    assert forall|k: int| 0 <= k < all.len() implies from <= (#[trigger] all[k]).start < all[k].end
        <= len by {
        if k > 0 {
            assert(all[k] == rest[k - 1]);
        }
    }
    assert forall|k: int, m: int| 0 <= k < m < all.len() implies (#[trigger] all[k]).end <= (
    #[trigger] all[m]).start by {
        assert(all[m] == rest[m - 1]);
        if k > 0 {
            assert(all[k] == rest[k - 1]);
        }
    }
}

/// The blocks that the scan finds from position `i` on lie behind `i`,
/// inside the text, and follow one another without overlap.
pub proof fn lemma_scan_in_order(s: Seq<char>, i: int)
    requires
        0 <= i <= s.len(),
    ensures
        in_order(scan_from(s, i), i, s.len() as int),
    decreases s.len() - i,
{
    if i < s.len() {
        if s[i] != '@' {
            lemma_scan_in_order(s, i + 1);
            lemma_in_order_from(scan_from(s, i + 1), i + 1, i, s.len() as int);
        } else {
            let t = run_end(s, i + 1, is_type_char());
            lemma_run_end(s, i + 1, is_type_char());
            let d = run_end(s, t, is_ws());
            lemma_run_end(s, t, is_ws());
            if !(i < d < s.len() && (s[d] == '{' || s[d] == '(')) {
                if i < d <= s.len() {
                    lemma_scan_in_order(s, d);
                    lemma_in_order_from(scan_from(s, d), d, i, s.len() as int);
                }
            } else {
                let close = closer_of(s[d]);
                let ks = run_end(s, d + 1, is_ws());
                lemma_run_end(s, d + 1, is_ws());
                let ke = run_end(s, ks, is_key_char(close));
                lemma_run_end(s, ks, is_key_char(close));
                match block_end(s, ke, 1, s[d], close) {
                    None => {},
                    Some(e) => {
                        lemma_block_end_bounds(s, ke, 1, s[d], close);
                        lemma_scan_in_order(s, e);
                        if ks < ke {
                            lemma_in_order_after(
                                SpanView { key: s.subrange(ks, ke), start: i, end: e },
                                scan_from(s, e),
                                i,
                                s.len() as int,
                            );
                        } else {
                            lemma_in_order_from(scan_from(s, e), e, i, s.len() as int);
                        }
                    },
                }
            }
        }
    }
}

/// Keeping the last block of each key keeps the blocks in order.
pub proof fn lemma_last_per_key_in_order(spans: Seq<SpanView>, from: int, len: int)
    requires
        in_order(spans, from, len),
    ensures
        in_order(last_per_key(spans), from, len),
    decreases spans.len(),
{
    if spans.len() > 0 {
        let rest = spans.drop_first();
        assert(in_order(rest, spans[0].end, len)) by {
            assert forall|k: int| 0 <= k < rest.len() implies spans[0].end <= (#[trigger] rest[k]).start
                < rest[k].end <= len by {
                assert(rest[k] == spans[k + 1]);
                assert(spans[0].end <= spans[k + 1].start);
            }
            assert forall|k: int, m: int| 0 <= k < m < rest.len() implies (#[trigger] rest[k]).end <= (
            #[trigger] rest[m]).start by {
                assert(rest[k] == spans[k + 1] && rest[m] == spans[m + 1]);
            }
        }
        lemma_last_per_key_in_order(rest, spans[0].end, len);
        if has_key(rest, spans[0].key) {
            lemma_in_order_from(last_per_key(rest), spans[0].end, from, len);
        } else {
            lemma_in_order_after(spans[0], last_per_key(rest), from, len);
        }
    }
}

/// The blocks of a text lie inside the text and follow one another without
/// overlap.
pub proof fn lemma_blocks_in_order(s: Seq<char>)
    ensures
        in_order(blocks_of(s), 0, s.len() as int),
{
    lemma_scan_in_order(s, 0);
    lemma_last_per_key_in_order(scan_from(s, 0), 0, s.len() as int);
}

/// Whether `e` is one of `spans`.
pub open spec fn is_among(spans: Seq<SpanView>, e: SpanView) -> bool {
    exists|m: int| 0 <= m < spans.len() && spans[m] == e
}

/// Keeping the last block of each key keeps only blocks that were there, and
/// keeps a block for every key that was there.
pub proof fn lemma_last_per_key_selects(spans: Seq<SpanView>)
    ensures
        forall|k: int| 0 <= k < last_per_key(spans).len() ==> is_among(spans, #[trigger] last_per_key(spans)[k]),
        forall|m: int| 0 <= m < spans.len() ==> has_key(last_per_key(spans), (#[trigger] spans[m]).key),
    decreases spans.len(),
{
    if spans.len() > 0 {
        let rest = spans.drop_first();
        let kept_rest = last_per_key(rest);
        let kept = last_per_key(spans);
        lemma_last_per_key_selects(rest);
        let first_stays = !has_key(rest, spans[0].key);
        assert forall|k: int| 0 <= k < kept.len() implies is_among(spans, #[trigger] kept[k]) by {
            if first_stays && k == 0 {
                assert(spans[0] == kept[0]);
            } else {
                let kr = if first_stays { k - 1 } else { k };
                assert(kept[k] == kept_rest[kr]);
                assert(is_among(rest, kept_rest[kr]));
                let m = choose|m: int| 0 <= m < rest.len() && rest[m] == kept_rest[kr];
                assert(spans[m + 1] == kept[k]);
            }
        }
        assert forall|m: int| 0 <= m < spans.len() implies has_key(kept, (#[trigger] spans[m]).key) by {
            let key = spans[m].key;
            if m == 0 && first_stays {
                assert(kept[0].key == key);
            } else {
                if m == 0 {
                    let j = choose|j: int| 0 <= j < rest.len() && #[trigger] rest[j].key == key;
                    assert(has_key(kept_rest, rest[j].key));
                } else {
                    assert(rest[m - 1] == spans[m]);
                    assert(has_key(kept_rest, rest[m - 1].key));
                }
                let x = choose|x: int| 0 <= x < kept_rest.len() && #[trigger] kept_rest[x].key == key;
                let kx = if first_stays { x + 1 } else { x };
                assert(kept[kx] == kept_rest[x]);
            }
        }
    }
}

} // verus!
