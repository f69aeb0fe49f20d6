//! Cleaning markup out of the text that metadata services hand over.

use crate::record::{make_normal_chunk, ChunkView, Record, RecordView};
use crate::text::{char_is_whitespace, chars_eq, chars_of, is_whitespace, join, joined, lowercase, push_all, split_whitespace, str_lowercase, string_of, words};
use vstd::prelude::*;

verus! {

/// Whether `pat` occurs in `s` at position `i`.
pub open spec fn occurs_at(s: Seq<char>, i: int, pat: Seq<char>) -> bool {
    0 <= i && i + pat.len() <= s.len() && s.subrange(i, i + pat.len()) == pat
}

/// Whether `pat` occurs somewhere in `s`.
pub open spec fn occurs_in(s: Seq<char>, pat: Seq<char>) -> bool {
    exists|i: int| occurs_at(s, i, pat)
}

/// `s` with every occurrence of `pat` replaced by `to`, the occurrences
/// taken from left to right without overlap. An empty `pat` occurs nowhere.
pub open spec fn replaced(s: Seq<char>, pat: Seq<char>, to: Seq<char>) -> Seq<char>
    decreases s.len(),
{
    if pat.len() == 0 || s.len() < pat.len() {
        s
    } else if occurs_at(s, 0, pat) {
        to + replaced(s.skip(pat.len() as int), pat, to)
    } else {
        seq![s[0]] + replaced(s.skip(1), pat, to)
    }
}

/// Where the reading of markup stands: the text kept so far, whether the
/// reader is inside a tag, and the name of the tag read last.
pub struct TagState {
    pub out: Seq<char>,
    pub inside: bool,
    pub name: Seq<char>,
}

/// Whether a tag with the lower-case name `name` separates text: anything
/// with `math` in it, and `br`, `p` and `div`.
pub open spec fn separates(name: Seq<char>) -> bool {
    occurs_in(name, seq!['m', 'a', 't', 'h']) || name == seq!['b', 'r'] || name == seq!['p'] || name
        == seq!['d', 'i', 'v']
}

/// The state after one more character. `<` opens a tag, `>` closes it and
/// leaves a space if the tag separates text; inside a tag everything but
/// whitespace counts as its name; outside, characters are kept.
pub open spec fn tag_step(st: TagState, c: char) -> TagState {
    if c == '<' {
        TagState { inside: true, name: Seq::empty(), ..st }
    } else if c == '>' {
        TagState {
            inside: false,
            out: if separates(str_lowercase(st.name)) {
                st.out.push(' ')
            } else {
                st.out
            },
            ..st
        }
    } else if st.inside {
        if char_is_whitespace(c) {
            st
        } else {
            TagState { name: st.name.push(c), ..st }
        }
    } else {
        TagState { out: st.out.push(c), ..st }
    }
}

/// The state after all of `s` was read.
pub open spec fn tag_scan(s: Seq<char>) -> TagState
    decreases s.len(),
{
    if s.len() == 0 {
        TagState { out: Seq::empty(), inside: false, name: Seq::empty() }
    } else {
        tag_step(tag_scan(s.drop_last()), s.last())
    }
}

/// `s` with the character entities for `<`, `>`, `&`, `"`, `'` and the
/// no-break space resolved, one entity after the other in this order.
pub open spec fn decoded(s: Seq<char>) -> Seq<char> {
    let a = replaced(s, seq!['&', 'l', 't', ';'], seq!['<']);
    let b = replaced(a, seq!['&', 'g', 't', ';'], seq!['>']);
    let c = replaced(b, seq!['&', 'a', 'm', 'p', ';'], seq!['&']);
    let d = replaced(c, seq!['&', 'q', 'u', 'o', 't', ';'], seq!['"']);
    let e = replaced(d, seq!['&', 'a', 'p', 'o', 's', ';'], seq!['\'']);
    replaced(e, seq!['&', 'n', 'b', 's', 'p', ';'], seq![' '])
}

/// `s` without markup: tags removed, entities resolved, and each run of
/// whitespace collapsed into one space.
pub open spec fn tags_stripped(s: Seq<char>) -> Seq<char> {
    joined(words(decoded(tag_scan(s).out)), seq![' '])
}

/// Whether a text looks as if it held markup: it has a `<` and a `>`.
pub open spec fn looks_tagged(s: Seq<char>) -> bool {
    s.contains('<') && s.contains('>')
}

/// `r` with the field `name` cleaned of markup, if the field is there and
/// looks tagged.
pub open spec fn sanitized_field(r: RecordView, name: Seq<char>) -> RecordView {
    match r.text_of(name) {
        Some(raw) => if looks_tagged(raw) {
            r.set(name, seq![ChunkView::Normal(tags_stripped(raw))])
        } else {
            r
        },
        None => r,
    }
}

/// `r` with title, abstract and journal names cleaned of markup.
pub open spec fn sanitized(r: RecordView) -> RecordView {
    sanitized_field(
        sanitized_field(sanitized_field(sanitized_field(r, "title"@), "abstract"@), "journal"@),
        "journaltitle"@,
    )
}

/// Whether `pat` occurs in `v` at position `i`.
fn matches_at(v: &Vec<char>, i: usize, pat: &Vec<char>) -> (r: bool)
    requires
        i <= v.len(),
    ensures
        r == occurs_at(v@, i as int, pat@),
{
    if pat.len() > v.len() - i {
        return false;
    }
    let mut k: usize = 0;
    while k < pat.len()
        invariant
            k <= pat.len(),
            i + pat.len() <= v.len(),
            v@.subrange(i as int, i + k) == pat@.take(k as int),
        decreases pat.len() - k,
    {
        if v[i + k] != pat[k] {
            assert(v@.subrange(i as int, i + pat.len())[k as int] != pat@[k as int]);
            return false;
        }
        k += 1;
        assert(v@.subrange(i as int, i + k) == v@.subrange(i as int, i + k - 1).push(v@[i + k - 1]));
        assert(pat@.take(k as int) == pat@.take(k - 1).push(pat@[k - 1]));
    }
    assert(pat@.take(pat.len() as int) == pat@);
    true
}

/// Whether `pat` occurs somewhere in `v`.
fn contains_text(v: &Vec<char>, pat: &Vec<char>) -> (r: bool)
    ensures
        r == occurs_in(v@, pat@),
{
    let mut i: usize = 0;
    while i <= v.len()
        invariant
            i <= v.len() + 1,
            forall|j: int| 0 <= j < i ==> !occurs_at(v@, j, pat@),
        decreases v.len() + 1 - i,
    {
        if matches_at(v, i, pat) {
            return true;
        }
        if i == v.len() {
            assert forall|j: int| !occurs_at(v@, j, pat@) by {
                if 0 <= j <= v.len() {
                }
            }
            return false;
        }
        i += 1;
    }
    false
}

/// Whether `c` is among the characters of `v`.
fn contains_char(v: &Vec<char>, c: char) -> (r: bool)
    ensures
        r == v@.contains(c),
{
    let mut i: usize = 0;
    while i < v.len()
        invariant
            i <= v.len(),
            forall|j: int| 0 <= j < i ==> v@[j] != c,
        decreases v.len() - i,
    {
        if v[i] == c {
            return true;
        }
        i += 1;
    }
    false
}

/// `v` with every occurrence of `pat` replaced by `to`. An empty `pat`
/// occurs nowhere.
pub fn replace_all(v: &Vec<char>, pat: &Vec<char>, to: &Vec<char>) -> (r: Vec<char>)
    ensures
        r@ == replaced(v@, pat@, to@),
{
    if pat.len() == 0 {
        return crate::text::copy_chars(v);
    }
    let mut r: Vec<char> = Vec::new();
    let mut i: usize = 0;
    assert(v@.skip(0) == v@);
    while i < v.len()
        invariant
            i <= v.len(),
            pat.len() > 0,
            r@ + replaced(v@.skip(i as int), pat@, to@) == replaced(v@, pat@, to@),
        decreases v.len() - i,
    {
        let ghost rest = v@.skip(i as int);
        if matches_at(v, i, pat) {
            assert(rest.subrange(0, pat.len() as int) == v@.subrange(i as int, i + pat.len()));
            assert(rest.skip(pat.len() as int) == v@.skip(i + pat.len()));
            push_all(&mut r, to);
            i += pat.len();
        } else {
            assert(i + pat.len() <= v.len() ==> rest.subrange(0, pat.len() as int) == v@.subrange(
                i as int,
                i + pat.len(),
            ));
            if v.len() - i < pat.len() {
                push_all(&mut r, &crate::text::slice(v, i, v.len()));
                assert(v@.skip(v.len() as int) =~= Seq::<char>::empty());
                assert(replaced(Seq::<char>::empty(), pat@, to@) == Seq::<char>::empty());
                assert(v@.subrange(i as int, v.len() as int) == rest);
                i = v.len();
            } else {
                assert(rest.skip(1) == v@.skip(i + 1));
                r.push(v[i]);
                i += 1;
            }
        }
    }
    assert(v@.skip(v.len() as int) =~= Seq::<char>::empty());
    r
}

/// Whether a tag with the lower-case name `name` separates text.
fn is_separating(name: &Vec<char>) -> (r: bool)
    ensures
        r == separates(name@),
{
    let math: Vec<char> = vec!['m', 'a', 't', 'h'];
    let br: Vec<char> = vec!['b', 'r'];
    let p: Vec<char> = vec!['p'];
    let div: Vec<char> = vec!['d', 'i', 'v'];
    assert(math@ =~= seq!['m', 'a', 't', 'h']);
    assert(br@ =~= seq!['b', 'r']);
    assert(p@ =~= seq!['p']);
    assert(div@ =~= seq!['d', 'i', 'v']);
    contains_text(name, &math) || chars_eq(name, &br) || chars_eq(name, &p) || chars_eq(name, &div)
}

/// The text of `v` outside its tags, with a space where a separating tag
/// stood.
fn drop_tags(v: &Vec<char>) -> (out: Vec<char>)
    ensures
        out@ == tag_scan(v@).out,
{
    let mut out: Vec<char> = Vec::new();
    let mut inside = false;
    let mut name: Vec<char> = Vec::new();
    let mut i: usize = 0;
    assert(v@.take(0) =~= Seq::<char>::empty());
    while i < v.len()
        invariant
            i <= v.len(),
            tag_scan(v@.take(i as int)) == (TagState { out: out@, inside, name: name@ }),
        decreases v.len() - i,
    {
        proof {
            let t = v@.take(i + 1);
            assert(t.drop_last() == v@.take(i as int));
            assert(t.last() == v@[i as int]);
        }
        let c = v[i];
        if c == '<' {
            inside = true;
            name = Vec::new();
        } else if c == '>' {
            inside = false;
            if is_separating(&lowercase(&name)) {
                out.push(' ');
            }
        } else if inside {
            if !is_whitespace(c) {
                name.push(c);
            }
        } else {
            out.push(c);
        }
        i += 1;
    }
    assert(v@.take(v.len() as int) == v@);
    out
}

/// Resolves the character entities in `v`.
fn decode_entities(v: &Vec<char>) -> (r: Vec<char>)
    ensures
        r@ == decoded(v@),
{
    let lt: Vec<char> = vec!['&', 'l', 't', ';'];
    let gt: Vec<char> = vec!['&', 'g', 't', ';'];
    let amp: Vec<char> = vec!['&', 'a', 'm', 'p', ';'];
    let quot: Vec<char> = vec!['&', 'q', 'u', 'o', 't', ';'];
    let apos: Vec<char> = vec!['&', 'a', 'p', 'o', 's', ';'];
    let nbsp: Vec<char> = vec!['&', 'n', 'b', 's', 'p', ';'];
    let less: Vec<char> = vec!['<'];
    let greater: Vec<char> = vec!['>'];
    let and: Vec<char> = vec!['&'];
    let double: Vec<char> = vec!['"'];
    let single: Vec<char> = vec!['\''];
    let space: Vec<char> = vec![' '];
    assert(lt@ =~= seq!['&', 'l', 't', ';'] && less@ =~= seq!['<']);
    assert(gt@ =~= seq!['&', 'g', 't', ';'] && greater@ =~= seq!['>']);
    assert(amp@ =~= seq!['&', 'a', 'm', 'p', ';'] && and@ =~= seq!['&']);
    assert(quot@ =~= seq!['&', 'q', 'u', 'o', 't', ';'] && double@ =~= seq!['"']);
    assert(apos@ =~= seq!['&', 'a', 'p', 'o', 's', ';'] && single@ =~= seq!['\'']);
    assert(nbsp@ =~= seq!['&', 'n', 'b', 's', 'p', ';'] && space@ =~= seq![' ']);
    let a = replace_all(v, &lt, &less);
    let b = replace_all(&a, &gt, &greater);
    let c = replace_all(&b, &amp, &and);
    let d = replace_all(&c, &quot, &double);
    let e = replace_all(&d, &apos, &single);
    replace_all(&e, &nbsp, &space)
}

/// Removes markup from `input`: tags go, a tag that separates text (one with
/// `math` in its name, `br`, `p`, `div`) leaves a space, the entities for
/// `<`, `>`, `&`, `"`, `'` and the no-break space are resolved, and runs of
/// whitespace collapse into single spaces.
pub fn strip_tags(input: &str) -> (r: String)
    ensures
        r@ == tags_stripped(input@),
{
    let kept = drop_tags(&chars_of(input));
    let plain = decode_entities(&kept);
    let parts = split_whitespace(&plain);
    let space: Vec<char> = vec![' '];
    assert(space@ =~= seq![' ']);
    string_of(&join(&parts, &space))
}

/// Cleans one field of `record` of markup.
fn sanitize_field(record: &mut Record, name: &str)
    ensures
        final(record)@ == sanitized_field(old(record)@, name@),
        old(record)@.wf() ==> final(record)@.wf(),
{
    match record.text_of(name) {
        Some(raw) => {
            if contains_char(&raw, '<') && contains_char(&raw, '>') {
                let clean = strip_tags(string_of(&raw).as_str());
                record.set(name, make_normal_chunk(clean));
            }
        },
        None => {},
    }
}

/// Cleans title, abstract and journal names of `record` of markup. A field
/// is touched only if it holds both a `<` and a `>`.
pub fn sanitize_entry_fields(record: &mut Record)
    ensures
        final(record)@ == sanitized(old(record)@),
        old(record)@.wf() ==> final(record)@.wf(),
{
    sanitize_field(record, "title");
    sanitize_field(record, "abstract");
    sanitize_field(record, "journal");
    sanitize_field(record, "journaltitle");
}

} // verus!
