//! Text as sequences of Unicode scalar values.
//!
//! Every algorithm of the crate works on `Vec<char>` and states its contract
//! over `Seq<char>`; this module holds the conversions from and to `String`
//! and the character classes the algorithms are stated over.

use vstd::prelude::*;
use vstd::string::*;

verus! {

/// Whether `c` has the Unicode `White_Space` property: the control characters
/// from tab to carriage return, the space, the next-line character, the
/// no-break space, the Ogham space mark, the spaces from en quad to hair
/// space, the line and the paragraph separator, the narrow no-break space, the
/// medium mathematical space and the ideographic space.
pub open spec fn char_is_whitespace(c: char) -> bool {
    let u = c as u32;
    ||| 0x09 <= u <= 0x0D
    ||| u == 0x20
    ||| u == 0x85
    ||| u == 0xA0
    ||| u == 0x1680
    ||| 0x2000 <= u <= 0x200A
    ||| u == 0x2028
    ||| u == 0x2029
    ||| u == 0x202F
    ||| u == 0x205F
    ||| u == 0x3000
}

/// Whether `c` is alphabetic or numeric in Unicode's sense.
pub uninterp spec fn char_is_alphanumeric(c: char) -> bool;

/// Whether `c` has the Unicode `Alphabetic` property.
pub uninterp spec fn char_is_alphabetic(c: char) -> bool;

/// `char::is_whitespace`: the result is the `White_Space` property of `c`, as
/// the Unicode character database lists it: twenty-five characters.
#[verifier::external_body]
pub(crate) fn is_whitespace(c: char) -> (b: bool)
    ensures
        b == char_is_whitespace(c),
{
    c.is_whitespace()
}

/// `char::is_alphanumeric`: the result is a fixed property of `c`, which this
/// crate only names.
#[verifier::external_body]
pub(crate) fn is_alphanumeric(c: char) -> (b: bool)
    ensures
        b == char_is_alphanumeric(c),
{
    c.is_alphanumeric()
}

/// `char::is_alphabetic`: the result is a fixed property of `c`, which this
/// crate only names.
#[verifier::external_body]
pub(crate) fn is_alphabetic(c: char) -> (b: bool)
    ensures
        b == char_is_alphabetic(c),
{
    c.is_alphabetic()
}

/// `String::push`: appends one character at the end.
#[verifier::external_body]
pub(crate) fn push_char(s: &mut String, c: char)
    ensures
        final(s)@ == old(s)@.push(c),
{
    s.push(c)
}

/// The characters of `s`, in order.
pub fn chars_of(s: &str) -> (v: Vec<char>)
    ensures
        v@ == s@,
{
    let mut v: Vec<char> = Vec::new();
    for c in it: s.chars()
        invariant
            v@ == it.seq().take(it.index() as int),
            it.seq() == s@,
    {
        v.push(c);
        assert(it.seq().take(it.index() + 1) == it.seq().take(it.index() as int).push(c));
    }
    assert(s@.take(s@.len() as int) == s@);
    v
}

/// The string made of the characters of `v`, in order.
pub fn string_of(v: &Vec<char>) -> (s: String)
    ensures
        s@ == v@,
{
    let mut s = String::new();
    let mut i: usize = 0;
    while i < v.len()
        invariant
            i <= v.len(),
            s@ == v@.take(i as int),
        decreases v.len() - i,
    {
        push_char(&mut s, v[i]);
        i += 1;
        assert(v@.take(i as int) == v@.take(i as int - 1).push(v@[i as int - 1]));
    }
    assert(v@.take(v.len() as int) == v@);
    s
}


/// What `str::to_lowercase` makes of a string. The mapping looks at more than
/// one character at a time (a final sigma), so it is named as a whole.
pub uninterp spec fn str_lowercase(s: Seq<char>) -> Seq<char>;

/// The upper-case expansion of one character, which may be several
/// characters long.
pub uninterp spec fn char_uppercase(c: char) -> Seq<char>;

/// `str::to_lowercase`: the result depends on the characters of `s` alone.
#[verifier::external_body]
pub(crate) fn str_to_lowercase(s: &str) -> (r: String)
    ensures
        r@ == str_lowercase(s@),
{
    s.to_lowercase()
}

/// `char::to_uppercase`: the characters that the iterator yields depend on
/// `c` alone.
#[verifier::external_body]
pub(crate) fn to_uppercase(c: char) -> (r: Vec<char>)
    ensures
        r@ == char_uppercase(c),
{
    c.to_uppercase().collect()
}

/// The predicate "is whitespace".
pub open spec fn is_ws() -> spec_fn(char) -> bool {
    |c: char| char_is_whitespace(c)
}

/// The predicate "is not whitespace".
pub open spec fn is_not_ws() -> spec_fn(char) -> bool {
    |c: char| !char_is_whitespace(c)
}

/// The predicate "is alphanumeric".
pub open spec fn is_alnum() -> spec_fn(char) -> bool {
    |c: char| char_is_alphanumeric(c)
}

/// The predicate "is not alphabetic".
pub open spec fn is_not_alpha() -> spec_fn(char) -> bool {
    |c: char| !char_is_alphabetic(c)
}

/// The end of the longest run of characters satisfying `p` that starts at
/// position `i` of `s`: the first position from `i` on whose character fails
/// `p`, or the length of `s` if there is none.
pub open spec fn run_end(s: Seq<char>, i: int, p: spec_fn(char) -> bool) -> int
    decreases s.len() - i,
{
    if 0 <= i < s.len() && p(s[i]) {
        run_end(s, i + 1, p)
    } else {
        i
    }
}

/// `run_end` stays inside the text, covers only characters that satisfy `p`,
/// and stops at one that does not.
pub proof fn lemma_run_end(s: Seq<char>, i: int, p: spec_fn(char) -> bool)
    requires
        0 <= i <= s.len(),
    ensures
        i <= run_end(s, i, p) <= s.len(),
        forall|k: int| i <= k < run_end(s, i, p) ==> p(#[trigger] s[k]),
        run_end(s, i, p) < s.len() ==> !p(s[run_end(s, i, p)]),
    decreases s.len() - i,
{
    if i < s.len() && p(s[i]) {
        lemma_run_end(s, i + 1, p);
    }
}

/// The characters of `s` that satisfy `p`, in order.
pub open spec fn keep(s: Seq<char>, p: spec_fn(char) -> bool) -> Seq<char>
    decreases s.len(),
{
    if s.len() == 0 {
        Seq::empty()
    } else if p(s.last()) {
        keep(s.drop_last(), p).push(s.last())
    } else {
        keep(s.drop_last(), p)
    }
}

/// The start of the longest run of characters satisfying `p` that ends just
/// before position `j` of `s`.
pub open spec fn run_start(s: Seq<char>, j: int, p: spec_fn(char) -> bool) -> int
    decreases j,
{
    if 0 < j <= s.len() && p(s[j - 1]) {
        run_start(s, j - 1, p)
    } else {
        j
    }
}

/// `s` without the characters at its two ends that satisfy `p`.
pub open spec fn stripped(s: Seq<char>, p: spec_fn(char) -> bool) -> Seq<char> {
    let a = run_end(s, 0, p);
    let b = run_start(s, s.len() as int, p);
    if a < b {
        s.subrange(a, b)
    } else {
        Seq::empty()
    }
}

/// `s` without its leading and trailing whitespace.
pub open spec fn trimmed(s: Seq<char>) -> Seq<char> {
    stripped(s, is_ws())
}

/// Whether a word starts at position `i` of `s`: the character there is not
/// whitespace, and it is the first of `s` or follows whitespace.
pub open spec fn starts_word(s: Seq<char>, i: int) -> bool {
    0 <= i < s.len() && !char_is_whitespace(s[i]) && (i == 0 || char_is_whitespace(s[i - 1]))
}

/// `s` in title case: the first character of each word is replaced by its
/// upper-case form, everything else stays.
pub open spec fn title_cased(s: Seq<char>) -> Seq<char>
    decreases s.len(),
{
    if s.len() == 0 {
        Seq::empty()
    } else {
        title_cased(s.drop_last()) + if starts_word(s, s.len() - 1) {
            char_uppercase(s.last())
        } else {
            seq![s.last()]
        }
    }
}

/// The maximal whitespace-free pieces of `s` from position `i` on, in order.
pub open spec fn words_from(s: Seq<char>, i: int) -> Seq<Seq<char>>
    decreases s.len() - i,
{
    let a = run_end(s, i, is_ws());
    let b = run_end(s, a, is_not_ws());
    if 0 <= i <= a && a < b <= s.len() {
        seq![s.subrange(a, b)] + words_from(s, b)
    } else {
        Seq::empty()
    }
}

/// The whitespace-delimited words of `s`.
pub open spec fn words(s: Seq<char>) -> Seq<Seq<char>> {
    words_from(s, 0)
}

/// The pieces of `parts` written one after the other with `sep` between
/// neighbours.
pub open spec fn joined(parts: Seq<Seq<char>>, sep: Seq<char>) -> Seq<char>
    decreases parts.len(),
{
    if parts.len() == 0 {
        Seq::empty()
    } else if parts.len() == 1 {
        parts[0]
    } else {
        joined(parts.drop_last(), sep) + sep + parts.last()
    }
}

/// `s` lowercased after everything that is not alphanumeric was removed.
pub open spec fn normalized(s: Seq<char>) -> Seq<char> {
    str_lowercase(keep(s, is_alnum()))
}

/// Whether `a` comes strictly before `b` when strings are ordered
/// lexicographically by code point.
pub open spec fn lex_lt(a: Seq<char>, b: Seq<char>) -> bool
    decreases a.len(),
{
    if b.len() == 0 {
        false
    } else if a.len() == 0 {
        true
    } else if a[0] != b[0] {
        a[0] < b[0]
    } else {
        lex_lt(a.drop_first(), b.drop_first())
    }
}


/// The views of the strings in `v`.
pub open spec fn views(v: Seq<Vec<char>>) -> Seq<Seq<char>> {
    Seq::new(v.len(), |i: int| v[i]@)
}

/// The end of the whitespace that starts at `i`.
pub fn skip_whitespace(v: &Vec<char>, i: usize) -> (j: usize)
    requires
        i <= v.len(),
    ensures
        j == run_end(v@, i as int, is_ws()),
        i <= j <= v.len(),
{
    let mut j = i;
    while j < v.len() && is_whitespace(v[j])
        invariant
            i <= j <= v.len(),
            run_end(v@, i as int, is_ws()) == run_end(v@, j as int, is_ws()),
        decreases v.len() - j,
    {
        j += 1;
    }
    j
}

/// The end of the whitespace-free run that starts at `i`.
pub fn skip_word(v: &Vec<char>, i: usize) -> (j: usize)
    requires
        i <= v.len(),
    ensures
        j == run_end(v@, i as int, is_not_ws()),
        i <= j <= v.len(),
{
    let mut j = i;
    while j < v.len() && !is_whitespace(v[j])
        invariant
            i <= j <= v.len(),
            run_end(v@, i as int, is_not_ws()) == run_end(v@, j as int, is_not_ws()),
        decreases v.len() - j,
    {
        j += 1;
    }
    j
}

/// A copy of the characters of `v` from `a` up to `b`.
pub fn slice(v: &Vec<char>, a: usize, b: usize) -> (r: Vec<char>)
    requires
        a <= b <= v.len(),
    ensures
        r@ == v@.subrange(a as int, b as int),
{
    let mut r: Vec<char> = Vec::new();
    let mut i = a;
    while i < b
        invariant
            a <= i <= b <= v.len(),
            r@ == v@.subrange(a as int, i as int),
        decreases b - i,
    {
        r.push(v[i]);
        i += 1;
    }
    r
}

/// A copy of `v`.
pub fn copy_chars(v: &Vec<char>) -> (r: Vec<char>)
    ensures
        r@ == v@,
{
    let r = slice(v, 0, v.len());
    assert(v@.subrange(0, v.len() as int) == v@);
    r
}

/// Appends the characters of `v` to `out`.
pub fn push_all(out: &mut Vec<char>, v: &Vec<char>)
    ensures
        final(out)@ == old(out)@ + v@,
{
    let mut i: usize = 0;
    while i < v.len()
        invariant
            i <= v.len(),
            out@ == old(out)@ + v@.take(i as int),
        decreases v.len() - i,
    {
        out.push(v[i]);
        i += 1;
    }
    assert(v@.take(v.len() as int) == v@);
}

/// Whether `a` and `b` hold the same characters.
pub fn chars_eq(a: &Vec<char>, b: &Vec<char>) -> (r: bool)
    ensures
        r == (a@ == b@),
{
    if a.len() != b.len() {
        return false;
    }
    let mut i: usize = 0;
    while i < a.len()
        invariant
            i <= a.len(),
            a.len() == b.len(),
            a@.take(i as int) == b@.take(i as int),
        decreases a.len() - i,
    {
        if a[i] != b[i] {
            return false;
        }
        i += 1;
        assert(a@.take(i as int) == a@.take(i - 1).push(a@[i - 1]));
        assert(b@.take(i as int) == b@.take(i - 1).push(b@[i - 1]));
    }
    assert(a@.take(a.len() as int) == a@);
    assert(b@.take(b.len() as int) == b@);
    true
}

/// `v` without its leading and trailing whitespace.
pub fn trim(v: &Vec<char>) -> (r: Vec<char>)
    ensures
        r@ == trimmed(v@),
{
    let a = skip_whitespace(v, 0);
    let mut b = v.len();
    while b > 0 && is_whitespace(v[b - 1])
        invariant
            b <= v.len(),
            run_start(v@, v.len() as int, is_ws()) == run_start(v@, b as int, is_ws()),
        decreases b,
    {
        b -= 1;
    }
    if a < b {
        slice(v, a, b)
    } else {
        Vec::new()
    }
}

/// The whitespace-delimited words of `v`.
pub fn split_whitespace(v: &Vec<char>) -> (r: Vec<Vec<char>>)
    ensures
        views(r@) == words(v@),
{
    let mut r: Vec<Vec<char>> = Vec::new();
    let mut i: usize = 0;
    loop
        invariant
            i <= v.len(),
            views(r@) + words_from(v@, i as int) == words(v@),
        ensures
            views(r@) == words(v@),
        decreases v.len() - i,
    {
        let a = skip_whitespace(v, i);
        let b = skip_word(v, a);
        if a < b {
            let w = slice(v, a, b);
            let ghost before = views(r@);
            r.push(w);
            assert(views(r@) == before + seq![v@.subrange(a as int, b as int)]);
            i = b;
        } else {
            assert(words_from(v@, i as int) == Seq::<Seq<char>>::empty());
            assert(views(r@) + Seq::<Seq<char>>::empty() == views(r@));
            break;
        }
    }
    r
}

/// The strings of `parts` written one after the other with `sep` between
/// neighbours.
pub fn join(parts: &Vec<Vec<char>>, sep: &Vec<char>) -> (r: Vec<char>)
    ensures
        r@ == joined(views(parts@), sep@),
{
    let mut r: Vec<char> = Vec::new();
    let mut k: usize = 0;
    while k < parts.len()
        invariant
            k <= parts.len(),
            r@ == joined(views(parts@).take(k as int), sep@),
        decreases parts.len() - k,
    {
        if k > 0 {
            push_all(&mut r, sep);
        }
        push_all(&mut r, &parts[k]);
        k += 1;
        proof {
            let t = views(parts@).take(k as int);
            assert(t.drop_last() == views(parts@).take(k - 1));
            assert(t.last() == parts@[k - 1]@);
        }
    }
    assert(views(parts@).take(parts.len() as int) == views(parts@));
    r
}

/// The characters of `v` that are alphanumeric, in order.
pub fn keep_alphanumeric(v: &Vec<char>) -> (r: Vec<char>)
    ensures
        r@ == keep(v@, is_alnum()),
{
    let mut r: Vec<char> = Vec::new();
    let mut i: usize = 0;
    while i < v.len()
        invariant
            i <= v.len(),
            r@ == keep(v@.take(i as int), is_alnum()),
        decreases v.len() - i,
    {
        if is_alphanumeric(v[i]) {
            r.push(v[i]);
        }
        i += 1;
        proof {
            let t = v@.take(i as int);
            assert(t.drop_last() == v@.take(i - 1));
            assert(t.last() == v@[i - 1]);
        }
    }
    assert(v@.take(v.len() as int) == v@);
    r
}

/// The lower-case form of `v`.
pub fn lowercase(v: &Vec<char>) -> (r: Vec<char>)
    ensures
        r@ == str_lowercase(v@),
{
    let s = string_of(v);
    let low = str_to_lowercase(s.as_str());
    chars_of(low.as_str())
}

/// Lowercases `s` after removing every character that is not alphanumeric.
pub fn normalize(s: &str) -> (r: String)
    ensures
        r@ == normalized(s@),
{
    let v = chars_of(s);
    let kept = keep_alphanumeric(&v);
    let low = lowercase(&kept);
    string_of(&low)
}

/// Whether `a` comes strictly before `b` in lexicographic order by code
/// point.
pub fn less_than(a: &Vec<char>, b: &Vec<char>) -> (r: bool)
    ensures
        r == lex_lt(a@, b@),
{
    let mut i: usize = 0;
    assert(a@.skip(0) == a@ && b@.skip(0) == b@);
    while i < a.len() && i < b.len()
        invariant
            i <= a.len(),
            i <= b.len(),
            lex_lt(a@, b@) == lex_lt(a@.skip(i as int), b@.skip(i as int)),
        decreases a.len() - i,
    {
        if a[i] != b[i] {
            return a[i] < b[i];
        }
        proof {
            assert(a@.skip(i as int).drop_first() == a@.skip(i + 1));
            assert(b@.skip(i as int).drop_first() == b@.skip(i + 1));
        }
        i += 1;
    }
    i < b.len()
}


/// `v` without the characters at its two ends that are not alphabetic.
pub fn strip_non_alphabetic(v: &Vec<char>) -> (r: Vec<char>)
    ensures
        r@ == stripped(v@, is_not_alpha()),
{
    let mut a: usize = 0;
    while a < v.len() && !is_alphabetic(v[a])
        invariant
            a <= v.len(),
            run_end(v@, 0, is_not_alpha()) == run_end(v@, a as int, is_not_alpha()),
        decreases v.len() - a,
    {
        a += 1;
    }
    let mut b = v.len();
    while b > 0 && !is_alphabetic(v[b - 1])
        invariant
            b <= v.len(),
            run_start(v@, v.len() as int, is_not_alpha()) == run_start(v@, b as int, is_not_alpha()),
        decreases b,
    {
        b -= 1;
    }
    if a < b {
        slice(v, a, b)
    } else {
        Vec::new()
    }
}

/// `v` in title case.
pub fn title_case(v: &Vec<char>) -> (r: Vec<char>)
    ensures
        r@ == title_cased(v@),
{
    let mut r: Vec<char> = Vec::new();
    let mut i: usize = 0;
    assert(v@.take(0) =~= Seq::<char>::empty());
    while i < v.len()
        invariant
            i <= v.len(),
            r@ == title_cased(v@.take(i as int)),
        decreases v.len() - i,
    {
        proof {
            let t = v@.take(i + 1);
            assert(t.drop_last() == v@.take(i as int));
            assert(t.last() == v@[i as int]);
            if i > 0 {
                assert(t[i - 1] == v@[i - 1]);
            }
        }
        let c = v[i];
        if !is_whitespace(c) && (i == 0 || is_whitespace(v[i - 1])) {
            let upper = to_uppercase(c);
            push_all(&mut r, &upper);
        } else {
            r.push(c);
        }
        i += 1;
    }
    assert(v@.take(v.len() as int) == v@);
    r
}


/// The decimal digit for `d`.
pub open spec fn digit_char(d: int) -> char {
    (48 + d) as char
}

/// The decimal numeral of `n`.
pub open spec fn decimal(n: nat) -> Seq<char>
    decreases n,
{
    if n < 10 {
        seq![digit_char(n as int)]
    } else {
        decimal(n / 10).push(digit_char((n % 10) as int))
    }
}

/// The number that a decimal numeral stands for.
pub open spec fn decimal_value(s: Seq<char>) -> int
    decreases s.len(),
{
    if s.len() == 0 {
        0
    } else {
        decimal_value(s.drop_last()) * 10 + (s.last() as int - 48)
    }
}

/// A numeral stands for the number it was made of, so different numbers
/// have different numerals.
pub proof fn lemma_decimal_value(n: nat)
    ensures
        decimal_value(decimal(n)) == n,
        decimal(n).len() >= 1,
    decreases n,
{
    if n < 10 {
        assert(decimal(n).drop_last() =~= Seq::<char>::empty());
        assert(decimal_value(Seq::<char>::empty()) == 0);
    } else {
        lemma_decimal_value(n / 10);
        assert(decimal(n).drop_last() == decimal(n / 10));
    }
}

/// The decimal numeral of `n`.
pub fn decimal_of(n: u128) -> (r: Vec<char>)
    ensures
        r@ == decimal(n as nat),
    decreases n,
{
    if n < 10 {
        let mut r: Vec<char> = Vec::new();
        r.push((48u8 + n as u8) as char);
        assert(r@ =~= decimal(n as nat));
        r
    } else {
        let mut r = decimal_of(n / 10);
        r.push((48u8 + (n % 10) as u8) as char);
        r
    }
}

} // verus!
