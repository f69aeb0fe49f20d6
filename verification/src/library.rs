//! The library: the records of a session, reachable by citation key.

use crate::record::{Record, RecordView};
use crate::text::{chars_eq, chars_of, copy_chars, decimal, decimal_of, lemma_decimal_value, string_of};
use vstd::prelude::*;

verus! {

/// The views of the records in `v`.
pub open spec fn record_views(v: Seq<Record>) -> Seq<RecordView> {
    Seq::new(v.len(), |i: int| v[i]@)
}

/// The position of the first record whose key is exactly `key`, or the number
/// of records if there is none.
pub open spec fn key_index(l: Seq<RecordView>, key: Seq<char>) -> int
    decreases l.len(),
{
    if l.len() == 0 || l[0].key == key {
        0
    } else {
        1 + key_index(l.drop_first(), key)
    }
}

/// Whether a record of `l` has exactly the key `key`.
pub open spec fn has_record(l: Seq<RecordView>, key: Seq<char>) -> bool {
    key_index(l, key) < l.len()
}

/// No two records share a key. Keys are compared exactly: keys that differ in
/// case only are different keys.
pub open spec fn keys_distinct(l: Seq<RecordView>) -> bool {
    forall|i: int, j: int| 0 <= i < j < l.len() ==> (#[trigger] l[i]).key != (#[trigger] l[j]).key
}

/// What holds of every library: keys are not empty and pairwise distinct, and
/// each record keeps its fields sorted.
pub open spec fn library_wf(l: Seq<RecordView>) -> bool {
    &&& keys_distinct(l)
    &&& forall|i: int| 0 <= i < l.len() ==> (#[trigger] l[i]).wf() && l[i].key.len() > 0
}

/// `l` after `record` was put in: in the place of the record with the same
/// key, or at the end if there is none.
pub open spec fn inserted(l: Seq<RecordView>, record: RecordView) -> Seq<RecordView> {
    if has_record(l, record.key) {
        l.update(key_index(l, record.key), record)
    } else {
        l.push(record)
    }
}

/// `l` without the record whose key is `key`.
pub open spec fn removed(l: Seq<RecordView>, key: Seq<char>) -> Seq<RecordView> {
    if has_record(l, key) {
        l.remove(key_index(l, key))
    } else {
        l
    }
}

/// `key_index` points at the first record with the key.
pub proof fn lemma_key_index(l: Seq<RecordView>, key: Seq<char>)
    ensures
        0 <= key_index(l, key) <= l.len(),
        key_index(l, key) < l.len() ==> l[key_index(l, key)].key == key,
        forall|i: int| 0 <= i < key_index(l, key) ==> (#[trigger] l[i]).key != key,
    decreases l.len(),
{
    if l.len() > 0 && l[0].key != key {
        let rest = l.drop_first();
        lemma_key_index(rest, key);
        assert forall|i: int| 0 <= i < key_index(l, key) implies (#[trigger] l[i]).key != key by {
            if i > 0 {
                assert(l[i] == rest[i - 1]);
            }
        }
    }
}

/// Putting a record in and taking one out keep a library well formed.
pub proof fn lemma_library_ops(l: Seq<RecordView>, record: RecordView, key: Seq<char>)
    requires
        library_wf(l),
    ensures
        record.wf() && record.key.len() > 0 ==> library_wf(inserted(l, record)),
        library_wf(removed(l, key)),
        !has_record(removed(l, key), key),
        has_record(inserted(l, record), record.key),
{
    lemma_key_index(l, record.key);
    lemma_key_index(l, key);
    let ins = inserted(l, record);
    let rem = removed(l, key);
    if record.wf() && record.key.len() > 0 {
        assert forall|i: int, j: int| 0 <= i < j < ins.len() implies (#[trigger] ins[i]).key != (
        #[trigger] ins[j]).key by {
            if has_record(l, record.key) {
                assert(ins[i].key == l[i].key && ins[j].key == l[j].key);
            }
        }
    }
    if has_record(l, key) {
        let p = key_index(l, key);
        assert forall|i: int| 0 <= i < rem.len() implies (#[trigger] rem[i]) == l[if i < p { i } else { i + 1 }] by {}
        assert forall|i: int, j: int| 0 <= i < j < rem.len() implies (#[trigger] rem[i]).key != (
        #[trigger] rem[j]).key by {
            assert(rem[i] == l[if i < p { i } else { i + 1 }]);
            assert(rem[j] == l[if j < p { j } else { j + 1 }]);
        }
        assert forall|i: int| 0 <= i < rem.len() implies (#[trigger] rem[i]).wf() && rem[i].key.len() > 0 by {
            assert(rem[i] == l[if i < p { i } else { i + 1 }]);
        }
        lemma_key_index(rem, key);
        if has_record(rem, key) {
            let q = key_index(rem, key);
            assert(rem[q] == l[if q < p { q } else { q + 1 }]);
        }
    }
    lemma_key_index(ins, record.key);
    if has_record(l, record.key) {
        assert(ins[key_index(l, record.key)].key == record.key);
    } else {
        assert(ins[l.len() as int].key == record.key);
    }
}

/// The records of a session. No two of them share a key.
#[derive(Clone, Debug)]
pub struct Library {
    pub records: Vec<Record>,
}

impl View for Library {
    type V = Seq<RecordView>;

    open spec fn view(&self) -> Seq<RecordView> {
        record_views(self.records@)
    }
}

impl Library {
    /// Whether this library is well formed.
    pub open spec fn wf(&self) -> bool {
        library_wf(self@)
    }

    /// A library without records.
    pub fn new() -> (r: Library)
        ensures
            r@ == Seq::<RecordView>::empty(),
            r.wf(),
    {
        let r = Library { records: Vec::new() };
        assert(r@ =~= Seq::<RecordView>::empty());
        r
    }

    /// The number of records.
    pub fn len(&self) -> (n: usize)
        ensures
            n == self@.len(),
    {
        self.records.len()
    }

    /// Whether the library holds no record.
    pub fn is_empty(&self) -> (b: bool)
        ensures
            b == (self@.len() == 0),
    {
        self.records.len() == 0
    }

    /// The position of the record whose key is exactly `key`.
    pub fn find(&self, key: &Vec<char>) -> (r: Option<usize>)
        ensures
            match r {
                Some(i) => has_record(self@, key@) && i == key_index(self@, key@),
                None => !has_record(self@, key@),
            },
    {
        let ghost all = self@;
        let mut i: usize = 0;
        assert(all.skip(0) == all);
        while i < self.records.len()
            invariant
                i <= self.records.len(),
                all == self@,
                key_index(all, key@) == i + key_index(all.skip(i as int), key@),
            decreases self.records.len() - i,
        {
            let here = chars_of(self.records[i].key.as_str());
            assert(all.skip(i as int)[0] == all[i as int]);
            if chars_eq(&here, key) {
                return Some(i);
            }
            assert(all.skip(i as int).drop_first() == all.skip(i + 1));
            i += 1;
        }
        None
    }

    /// Whether a record has exactly the key `key`.
    pub fn contains_key(&self, key: &str) -> (b: bool)
        ensures
            b == has_record(self@, key@),
    {
        let k = chars_of(key);
        self.find(&k).is_some()
    }

    /// The record whose key is exactly `key`.
    pub fn get(&self, key: &str) -> (r: Option<&Record>)
        ensures
            match r {
                Some(rec) => has_record(self@, key@) && rec@ == self@[key_index(self@, key@)],
                None => !has_record(self@, key@),
            },
    {
        let k = chars_of(key);
        match self.find(&k) {
            Some(i) => Some(&self.records[i]),
            None => None,
        }
    }

    /// Puts `record` in: in the place of the record with the same key, or at
    /// the end if there is none. Returns whether a record was replaced.
    pub fn insert(&mut self, record: Record) -> (replaced: bool)
        requires
            old(self).wf(),
            record@.wf(),
            record@.key.len() > 0,
        ensures
            final(self)@ == inserted(old(self)@, record@),
            replaced == has_record(old(self)@, record@.key),
            final(self).wf(),
    {
        let k = chars_of(record.key.as_str());
        proof {
            lemma_library_ops(self@, record@, record@.key);
        }
        match self.find(&k) {
            Some(i) => {
                self.records.set(i, record);
                assert(self@ =~= inserted(old(self)@, record@));
                true
            },
            None => {
                self.records.push(record);
                assert(self@ =~= inserted(old(self)@, record@));
                false
            },
        }
    }

    /// Takes out the record whose key is exactly `key` and returns it.
    pub fn remove(&mut self, key: &str) -> (r: Option<Record>)
        requires
            old(self).wf(),
        ensures
            final(self)@ == removed(old(self)@, key@),
            final(self).wf(),
            match r {
                Some(rec) => has_record(old(self)@, key@) && rec@ == old(self)@[key_index(
                    old(self)@,
                    key@,
                )],
                None => !has_record(old(self)@, key@),
            },
    {
        let k = chars_of(key);
        proof {
            lemma_library_ops(self@, self@[0], key@);
        }
        match self.find(&k) {
            Some(i) => {
                let rec = self.records.remove(i);
                assert(self@ =~= removed(old(self)@, key@));
                Some(rec)
            },
            None => None,
        }
    }

    /// A copy of this library.
    pub fn copy(&self) -> (r: Library)
        ensures
            r@ == self@,
    {
        let mut records: Vec<Record> = Vec::new();
        let mut i: usize = 0;
        while i < self.records.len()
            invariant
                i <= self.records.len(),
                records.len() == i,
                forall|k: int| 0 <= k < i ==> (#[trigger] records@[k])@ == self.records@[k]@,
            decreases self.records.len() - i,
        {
            records.push(self.records[i].copy());
            i += 1;
        }
        let r = Library { records };
        assert(r@ =~= self@);
        r
    }
}


/// Candidate `n` for a key that is to be unique: the base key itself, then
/// the base key with one of the letters `a` to `z`, then the base key with
/// `_1`, `_2` and so on.
pub open spec fn candidate(base: Seq<char>, n: nat) -> Seq<char> {
    if n == 0 {
        base
    } else if n <= 26 {
        base.push((96 + n) as char)
    } else {
        base + seq!['_'] + decimal((n - 26) as nat)
    }
}

/// Whether `key` can be given to a new record of `l`: it is not empty and no
/// record has it.
pub open spec fn is_free(l: Seq<RecordView>, key: Seq<char>) -> bool {
    key.len() > 0 && !has_record(l, key)
}

/// The number of the first free candidate from candidate `n` on.
pub open spec fn first_free(base: Seq<char>, l: Seq<RecordView>, n: nat) -> nat
    decreases l.len() + 2 - n,
{
    if n > l.len() + 1 || is_free(l, candidate(base, n)) {
        n
    } else {
        first_free(base, l, n + 1)
    }
}

/// The key that a record with the key `base` gets in `l`: the first
/// candidate that is free.
pub open spec fn unique_key(base: Seq<char>, l: Seq<RecordView>) -> Seq<char> {
    candidate(base, first_free(base, l, 0))
}

/// `l` after `record` was added under a key that is unique in `l`.
pub open spec fn added(l: Seq<RecordView>, record: RecordView) -> Seq<RecordView> {
    l.push(record.with_key(unique_key(record.key, l)))
}

/// `l` after the records `rs` were added one after the other.
pub open spec fn added_all(l: Seq<RecordView>, rs: Seq<RecordView>) -> Seq<RecordView>
    decreases rs.len(),
{
    if rs.len() == 0 {
        l
    } else {
        added(added_all(l, rs.drop_last()), rs.last())
    }
}

/// Different candidate numbers give different candidates, the base key
/// aside.
proof fn lemma_candidates_differ(base: Seq<char>, a: nat, b: nat)
    requires
        1 <= a < b,
    ensures
        candidate(base, a) != candidate(base, b),
        candidate(base, a).len() > 0,
{
    let ca = candidate(base, a);
    let cb = candidate(base, b);
    if b <= 26 {
        assert(ca.last() == (96 + a) as char);
        assert(cb.last() == (96 + b) as char);
    } else if a <= 26 {
        lemma_decimal_value((b - 26) as nat);
        assert(ca.len() == base.len() + 1);
        assert(cb.len() >= base.len() + 2);
    } else {
        lemma_decimal_value((a - 26) as nat);
        lemma_decimal_value((b - 26) as nat);
        if ca == cb {
            assert(ca.skip(base.len() as int + 1) =~= decimal((a - 26) as nat));
            assert(cb.skip(base.len() as int + 1) =~= decimal((b - 26) as nat));
        }
    }
}

proof fn lemma_has_record(l: Seq<RecordView>, q: int)
    requires
        0 <= q < l.len(),
    ensures
        has_record(l, l[q].key),
{
    lemma_key_index(l, l[q].key);
}

/// Keys that are pairwise different and all in `l` are no more than `l` has
/// records.
proof fn lemma_distinct_keys_fit(l: Seq<RecordView>, keys: Seq<Seq<char>>)
    requires
        forall|i: int| 0 <= i < keys.len() ==> has_record(l, #[trigger] keys[i]),
        forall|i: int, j: int| 0 <= i < j < keys.len() ==> keys[i] != keys[j],
    ensures
        keys.len() <= l.len(),
    decreases keys.len(),
{
    if keys.len() > 0 {
        let k = keys.last();
        lemma_key_index(l, k);
        let p = key_index(l, k);
        let rest = l.remove(p);
        let fewer = keys.drop_last();
        assert forall|i: int| 0 <= i < fewer.len() implies has_record(rest, #[trigger] fewer[i]) by {
            assert(fewer[i] == keys[i]);
            assert(has_record(l, keys[i]));
            lemma_key_index(l, keys[i]);
            let q = key_index(l, keys[i]);
            assert(keys[i] != keys[keys.len() - 1]);
            let q2 = if q < p { q } else { q - 1 };
            assert(rest[q2] == l[q]);
            lemma_has_record(rest, q2);
        }
        assert forall|i: int, j: int| 0 <= i < j < fewer.len() implies fewer[i] != fewer[j] by {
            assert(fewer[i] == keys[i] && fewer[j] == keys[j]);
        }
        lemma_distinct_keys_fit(rest, fewer);
    }
}

/// If the candidates before `n` are all taken, `n` is at most one more than
/// the number of records.
proof fn lemma_taken_candidates(base: Seq<char>, l: Seq<RecordView>, n: nat)
    requires
        forall|m: nat| m < n ==> !is_free(l, #[trigger] candidate(base, m)),
    ensures
        n <= l.len() + 1,
{
    if n > l.len() + 1 {
        let keys = Seq::new(l.len() + 1, |i: int| candidate(base, (i + 1) as nat));
        assert forall|i: int| 0 <= i < keys.len() implies has_record(l, #[trigger] keys[i]) by {
            let m = (i + 1) as nat;
            lemma_candidates_differ(base, m, m + 1);
            assert(!is_free(l, candidate(base, m)));
        }
        assert forall|i: int, j: int| 0 <= i < j < keys.len() implies keys[i] != keys[j] by {
            lemma_candidates_differ(base, (i + 1) as nat, (j + 1) as nat);
        }
        lemma_distinct_keys_fit(l, keys);
    }
}

proof fn lemma_first_free(base: Seq<char>, l: Seq<RecordView>, n: nat)
    requires
        forall|m: nat| m < n ==> !is_free(l, #[trigger] candidate(base, m)),
    ensures
        is_free(l, candidate(base, first_free(base, l, n))),
        forall|m: nat| m < first_free(base, l, n) ==> !is_free(l, #[trigger] candidate(base, m)),
    decreases l.len() + 2 - n,
{
    lemma_taken_candidates(base, l, n);
    if !is_free(l, candidate(base, n)) {
        assert forall|m: nat| m < n + 1 implies !is_free(l, #[trigger] candidate(base, m)) by {
            if m == n {
            }
        }
        lemma_taken_candidates(base, l, n + 1);
        lemma_first_free(base, l, n + 1);
    }
}

/// The key that the resolver picks is free: it is not empty and no record
/// has it. Every candidate before it is taken.
pub proof fn lemma_unique_key_is_free(base: Seq<char>, l: Seq<RecordView>)
    ensures
        is_free(l, unique_key(base, l)),
        forall|m: nat| m < first_free(base, l, 0) ==> !is_free(l, #[trigger] candidate(base, m)),
        first_free(base, l, 0) <= l.len() + 1,
{
    lemma_first_free(base, l, 0);
    lemma_taken_candidates(base, l, first_free(base, l, 0));
}

/// Adding a record keeps a library well formed: whatever records are added,
/// in whatever order, the keys stay pairwise distinct.
pub proof fn lemma_added_keeps_keys_distinct(l: Seq<RecordView>, record: RecordView)
    requires
        library_wf(l),
        record.wf(),
    ensures
        library_wf(added(l, record)),
{
    lemma_unique_key_is_free(record.key, l);
    let key = unique_key(record.key, l);
    let out = added(l, record);
    assert forall|i: int, j: int| 0 <= i < j < out.len() implies (#[trigger] out[i]).key != (
    #[trigger] out[j]).key by {
        if j == l.len() {
            assert(out[i] == l[i]);
            lemma_has_record(l, i);
        } else {
            assert(out[i] == l[i] && out[j] == l[j]);
        }
    }
    assert forall|i: int| 0 <= i < out.len() implies (#[trigger] out[i]).wf() && out[i].key.len() > 0 by {
        if i < l.len() {
            assert(out[i] == l[i]);
        }
    }
}

/// After any sequence of additions to a well-formed library all keys are
/// pairwise distinct.
pub proof fn lemma_additions_keep_keys_distinct(l: Seq<RecordView>, rs: Seq<RecordView>)
    requires
        library_wf(l),
        forall|i: int| 0 <= i < rs.len() ==> (#[trigger] rs[i]).wf(),
    ensures
        library_wf(added_all(l, rs)),
        keys_distinct(added_all(l, rs)),
    decreases rs.len(),
{
    if rs.len() > 0 {
        assert forall|i: int| 0 <= i < rs.drop_last().len() implies (#[trigger] rs.drop_last()[i]).wf() by {
            assert(rs.drop_last()[i] == rs[i]);
        }
        lemma_additions_keep_keys_distinct(l, rs.drop_last());
        lemma_added_keeps_keys_distinct(added_all(l, rs.drop_last()), rs.last());
    }
}

/// Candidate `n` for the base key `base`.
fn candidate_of(base: &Vec<char>, n: u128) -> (r: Vec<char>)
    ensures
        r@ == candidate(base@, n as nat),
{
    let mut r = copy_chars(base);
    if n == 0 {
    } else if n <= 26 {
        r.push((96u8 + n as u8) as char);
    } else {
        r.push('_');
        let digits = decimal_of(n - 26);
        crate::text::push_all(&mut r, &digits);
    }
    assert(r@ =~= candidate(base@, n as nat));
    r
}

/// Resolves a key against the library: the key itself if it is free, else
/// the key with the first of the letters `a` to `z` that makes it free, else
/// the key with the first of `_1`, `_2`, ... that makes it free. An empty key
/// is never free.
pub fn ensure_unique(base_key: &str, library: &Library) -> (key: String)
    ensures
        key@ == unique_key(base_key@, library@),
        is_free(library@, key@),
{
    let base = chars_of(base_key);
    let mut n: u128 = 0;
    proof {
        lemma_unique_key_is_free(base@, library@);
    }
    let count = library.len();
    loop
        invariant
            base@ == base_key@,
            library@.len() == count,
            n <= first_free(base@, library@, 0) <= library@.len() + 1,
            first_free(base@, library@, 0) == first_free(base@, library@, n as nat),
            is_free(library@, unique_key(base@, library@)),
        decreases library@.len() + 2 - n,
    {
        let c = candidate_of(&base, n);
        if c.len() > 0 && library.find(&c).is_none() {
            return string_of(&c);
        }
        n += 1;
    }
}

impl Library {
    /// Adds `record` under a key that no other record has: its own key if
    /// that is free, else the first free candidate that the resolver makes of
    /// it. Returns the key.
    pub fn add(&mut self, record: Record) -> (key: String)
        requires
            old(self).wf(),
            record@.wf(),
        ensures
            final(self)@ == added(old(self)@, record@),
            final(self).wf(),
            key@ == unique_key(record@.key, old(self)@),
    {
        let key = ensure_unique(record.key.as_str(), self);
        proof {
            lemma_added_keeps_keys_distinct(self@, record@);
        }
        let mut record = record;
        record.key = key.clone();
        self.records.push(record);
        assert(self@ =~= added(old(self)@, record@));
        key
    }
}


impl Library {
    /// Tests whether the library is well formed: no key is empty, no two
    /// records share a key, and every record keeps its fields in order.
    pub fn is_sound(&self) -> (ok: bool)
        ensures
            ok == self.wf(),
    {
        let n = self.records.len();
        let mut keys: Vec<Vec<char>> = Vec::new();
        let mut k: usize = 0;
        while k < n
            invariant
                k <= n,
                n == self.records.len(),
                keys.len() == k,
                forall|a: int| 0 <= a < k ==> (#[trigger] keys@[a])@ == self@[a].key,
                forall|a: int| 0 <= a < k ==> (#[trigger] self@[a]).wf() && self@[a].key.len() > 0,
            decreases n - k,
        {
            let record = &self.records[k];
            assert(self@[k as int] == record@);
            let key = chars_of(record.key.as_str());
            if key.len() == 0 || !record.is_sound() {
                return false;
            }
            keys.push(key);
            k += 1;
        }
        let mut i: usize = 0;
        while i < n
            invariant
                i <= n,
                n == self.records.len(),
                keys.len() == n,
                forall|a: int| 0 <= a < n ==> (#[trigger] keys@[a])@ == self@[a].key,
                forall|a: int| 0 <= a < n ==> (#[trigger] self@[a]).wf() && self@[a].key.len() > 0,
                forall|a: int, b: int| 0 <= a < i && a < b < n ==> (#[trigger] self@[a]).key != (
                #[trigger] self@[b]).key,
            decreases n - i,
        {
            let mut j: usize = i + 1;
            while j < n
                invariant
                    i < j <= n,
                    n == self.records.len(),
                    keys.len() == n,
                    forall|a: int| 0 <= a < n ==> (#[trigger] keys@[a])@ == self@[a].key,
                    forall|b: int| i < b < j ==> self@[i as int].key != (#[trigger] self@[b]).key,
                decreases n - j,
            {
                if chars_eq(&keys[i], &keys[j]) {
                    assert(self@[i as int].key == self@[j as int].key);
                    return false;
                }
                j += 1;
            }
            i += 1;
        }
        true
    }
}

impl Library {
    /// Whether two libraries hold the same records in the same order.
    pub fn same_as(&self, other: &Library) -> (r: bool)
        ensures
            r == (self@ == other@),
    {
        if self.records.len() != other.records.len() {
            assert(self@.len() != other@.len());
            return false;
        }
        let mut i: usize = 0;
        while i < self.records.len()
            invariant
                i <= self.records.len(),
                self.records.len() == other.records.len(),
                forall|k: int| 0 <= k < i ==> (#[trigger] self.records@[k])@ == other.records@[k]@,
            decreases self.records.len() - i,
        {
            if !self.records[i].same_as(&other.records[i]) {
                assert(self@[i as int] != other@[i as int]);
                return false;
            }
            i += 1;
        }
        assert(self@ =~= other@);
        true
    }
}

} // verus!
