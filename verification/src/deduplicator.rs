//! Finding records that are probably the same work, by the similarity of
//! their titles.

use crate::bibtex::{parse_persons, parsed_persons, person_views, Person, PersonView};
use crate::library::Library;
use crate::record::{Record, RecordView};
use crate::text::{chars_of, join, joined, lowercase, push_all, split_whitespace, str_lowercase, string_of, views, words};
use vstd::prelude::*;

verus! {

/// The Jaro-Winkler similarity of two strings as the bit pattern of the
/// 64-bit float that `strsim` computes. The similarity lies between 0 and 1,
/// and for such floats a larger number has a larger bit pattern.
pub uninterp spec fn jaro_winkler_bits(a: Seq<char>, b: Seq<char>) -> u64;

/// The bit pattern of 1.0, the similarity of equal strings and the largest
/// there is.
pub const SIMILARITY_ONE_BITS: u64 = 0x3FF0_0000_0000_0000;

/// `strsim::jaro_winkler`, its result handed on as a bit pattern
/// (`f64::to_bits`). Taken on trust: the result depends on the two strings
/// alone, and it is a float from 0.0 to 1.0, so that its bit pattern is at
/// most that of 1.0.
#[verifier::external_body]
pub(crate) fn similarity_bits(a: &str, b: &str) -> (bits: u64)
    ensures
        bits == jaro_winkler_bits(a@, b@),
        bits <= SIMILARITY_ONE_BITS,
{
    strsim::jaro_winkler(a, b).to_bits()
}

/// The bit pattern of 0.93, the similarity that two titles must exceed to
/// count as duplicates.
pub const SIMILARITY_THRESHOLD_BITS: u64 = 0x3FED_C28F_5C28_F5C3;

/// The shortest normalized title that is compared at all.
pub const MIN_TITLE_LEN: usize = 5;

/// What a duplicate report shows of a record.
#[derive(Clone, Debug)]
pub struct EntryInfo {
    pub key: String,
    pub title: String,
    pub author: String,
    pub year: String,
}

/// The mathematical value of an [`EntryInfo`].
pub struct EntryInfoView {
    pub key: Seq<char>,
    pub title: Seq<char>,
    pub author: Seq<char>,
    pub year: Seq<char>,
}

impl View for EntryInfo {
    type V = EntryInfoView;

    open spec fn view(&self) -> EntryInfoView {
        EntryInfoView { key: self.key@, title: self.title@, author: self.author@, year: self.year@ }
    }
}

/// A record that matches the original of its group.
#[derive(Clone, Debug)]
pub struct DuplicateCandidate {
    pub info: EntryInfo,
    /// The similarity to the original, as the bit pattern of a 64-bit float.
    pub similarity_bits: u64,
}

/// A record and the later records whose titles match its title.
#[derive(Clone, Debug)]
pub struct DuplicateGroup {
    pub original: EntryInfo,
    pub candidates: Vec<DuplicateCandidate>,
}

/// The mathematical value of a [`DuplicateGroup`].
pub struct DuplicateGroupView {
    pub original: EntryInfoView,
    pub candidates: Seq<(EntryInfoView, u64)>,
}

impl View for DuplicateGroup {
    type V = DuplicateGroupView;

    open spec fn view(&self) -> DuplicateGroupView {
        DuplicateGroupView {
            original: self.original@,
            candidates: Seq::new(
                self.candidates@.len(),
                |i: int| (self.candidates@[i].info@, self.candidates@[i].similarity_bits),
            ),
        }
    }
}

/// The views of the groups in `v`.
pub open spec fn group_views(v: Seq<DuplicateGroup>) -> Seq<DuplicateGroupView> {
    Seq::new(v.len(), |i: int| v[i]@)
}

/// A group by positions: the original and the members with their scores.
pub struct Cluster {
    pub original: usize,
    pub members: Vec<(usize, u64)>,
}

/// The mathematical value of a [`Cluster`].
pub struct ClusterView {
    pub original: int,
    pub members: Seq<(int, u64)>,
}

/// The members of a cluster as mathematical pairs.
pub open spec fn member_views(v: Seq<(usize, u64)>) -> Seq<(int, u64)> {
    Seq::new(v.len(), |i: int| (v[i].0 as int, v[i].1))
}

impl View for Cluster {
    type V = ClusterView;

    open spec fn view(&self) -> ClusterView {
        ClusterView { original: self.original as int, members: member_views(self.members@) }
    }
}

/// The views of the clusters in `v`.
pub open spec fn cluster_views(v: Seq<Cluster>) -> Seq<ClusterView> {
    Seq::new(v.len(), |i: int| v[i]@)
}

/// Whether a score exceeds the threshold.
pub open spec fn is_match(score: u64) -> bool {
    score > SIMILARITY_THRESHOLD_BITS
}

/// Whether record `j` joins the group of record `i`, given the records
/// `visited` before the group was started: it comes later, is eligible, is in
/// no group yet, and its score against `i` exceeds the threshold.
pub open spec fn joins(
    scores: Seq<Seq<u64>>,
    eligible: Seq<bool>,
    visited: Seq<bool>,
    i: int,
    j: int,
) -> bool {
    i < j < eligible.len() && !visited[j] && eligible[j] && is_match(scores[i][j])
}

/// The members of the group of record `i` among the records before `upto`,
/// in their order.
pub open spec fn members_upto(
    scores: Seq<Seq<u64>>,
    eligible: Seq<bool>,
    visited: Seq<bool>,
    i: int,
    upto: int,
) -> Seq<(int, u64)>
    decreases upto,
{
    if upto <= i + 1 || upto <= 0 {
        Seq::empty()
    } else if joins(scores, eligible, visited, i, upto - 1) {
        members_upto(scores, eligible, visited, i, upto - 1).push((upto - 1, scores[i][upto - 1]))
    } else {
        members_upto(scores, eligible, visited, i, upto - 1)
    }
}

/// The records in a group once those before `upto` that join the group of
/// `i` were added to `visited`.
pub open spec fn visited_upto(
    scores: Seq<Seq<u64>>,
    eligible: Seq<bool>,
    visited: Seq<bool>,
    i: int,
    upto: int,
) -> Seq<bool> {
    Seq::new(visited.len(), |x: int| visited[x] || (x < upto && joins(scores, eligible, visited, i, x)))
}

/// The records that are in a group after the first `k` records had their
/// turn as original.
pub open spec fn visited_after(scores: Seq<Seq<u64>>, eligible: Seq<bool>, k: int) -> Seq<bool>
    decreases k,
{
    if k <= 0 {
        Seq::new(eligible.len(), |x: int| false)
    } else {
        let v = visited_after(scores, eligible, k - 1);
        let i = k - 1;
        let n = eligible.len() as int;
        if v[i] || !eligible[i] || members_upto(scores, eligible, v, i, n).len() == 0 {
            v
        } else {
            visited_upto(scores, eligible, v, i, n).update(i, true)
        }
    }
}

/// The groups found after the first `k` records had their turn as original.
/// A record starts a group if it is eligible, in no group yet, and at least
/// one later record joins it.
pub open spec fn clusters_after(
    scores: Seq<Seq<u64>>,
    eligible: Seq<bool>,
    k: int,
) -> Seq<ClusterView>
    decreases k,
{
    if k <= 0 {
        Seq::empty()
    } else {
        let v = visited_after(scores, eligible, k - 1);
        let i = k - 1;
        let n = eligible.len() as int;
        let before = clusters_after(scores, eligible, k - 1);
        let members = members_upto(scores, eligible, v, i, n);
        if v[i] || !eligible[i] || members.len() == 0 {
            before
        } else {
            before.push(ClusterView { original: i, members })
        }
    }
}

/// The groups of a library of `eligible.len()` records.
pub open spec fn clusters_of(scores: Seq<Seq<u64>>, eligible: Seq<bool>) -> Seq<ClusterView> {
    clusters_after(scores, eligible, eligible.len() as int)
}

/// The scores as rows of numbers.
pub open spec fn score_rows(v: Seq<Vec<u64>>) -> Seq<Seq<u64>> {
    Seq::new(v.len(), |i: int| v[i]@)
}

/// Groups records greedily by the scores of their pairs.
///
/// The records are taken in order. A record that is eligible and in no group
/// yet is compared with every later record that is eligible and in no group
/// yet; those whose score exceeds the threshold become its group, in their
/// order, and are in a group from then on. `scores[i][j]` is the score of
/// records `i` and `j`, read only for `i < j`.
pub fn cluster(eligible: &Vec<bool>, scores: &Vec<Vec<u64>>) -> (out: Vec<Cluster>)
    requires
        scores.len() == eligible.len(),
        forall|i: int| 0 <= i < scores.len() ==> (#[trigger] scores@[i]).len() == eligible.len(),
    ensures
        cluster_views(out@) == clusters_of(score_rows(scores@), eligible@),
{
    let n = eligible.len();
    let ghost sc = score_rows(scores@);
    let mut out: Vec<Cluster> = Vec::new();
    let mut visited: Vec<bool> = Vec::new();
    let mut x: usize = 0;
    while x < n
        invariant
            x <= n,
            visited.len() == x,
            forall|y: int| 0 <= y < x ==> !visited@[y],
        decreases n - x,
    {
        visited.push(false);
        x += 1;
    }
    assert(visited@ =~= visited_after(sc, eligible@, 0));
    let mut i: usize = 0;
    while i < n
        invariant
            i <= n,
            n == eligible.len(),
            scores.len() == n,
            forall|r: int| 0 <= r < scores.len() ==> (#[trigger] scores@[r]).len() == n,
            sc == score_rows(scores@),
            visited.len() == n,
            visited@ == visited_after(sc, eligible@, i as int),
            cluster_views(out@) == clusters_after(sc, eligible@, i as int),
        decreases n - i,
    {
        let ghost v0 = visited@;
        if !visited[i] && eligible[i] {
            let mut members: Vec<(usize, u64)> = Vec::new();
            let mut j: usize = i + 1;
            assert(visited@ =~= visited_upto(sc, eligible@, v0, i as int, j as int));
            while j < n
                invariant
                    i < j <= n,
                    n == eligible.len(),
                    scores.len() == n,
                    forall|r: int| 0 <= r < scores.len() ==> (#[trigger] scores@[r]).len() == n,
                    sc == score_rows(scores@),
                    v0.len() == n,
                    visited.len() == n,
                    visited@ == visited_upto(sc, eligible@, v0, i as int, j as int),
                    member_views(members@) == members_upto(sc, eligible@, v0, i as int, j as int),
                decreases n - j,
            {
                let score = scores[i][j];
                assert(sc[i as int][j as int] == score);
                let ghost before = member_views(members@);
                if !visited[j] && eligible[j] && score > SIMILARITY_THRESHOLD_BITS {
                    members.push((j, score));
                    visited.set(j, true);
                    assert(member_views(members@) =~= before.push((j as int, score)));
                }
                j += 1;
                assert(visited@ =~= visited_upto(sc, eligible@, v0, i as int, j as int));
            }
            if members.len() > 0 {
                visited.set(i, true);
                let ghost before = cluster_views(out@);
                let ghost m = member_views(members@);
                out.push(Cluster { original: i, members });
                assert(cluster_views(out@) =~= before.push(ClusterView { original: i as int, members: m }));
            } else {
                proof {
                    lemma_no_members(sc, eligible@, v0, i as int, n as int);
                }
                assert(visited@ =~= v0);
            }
        }
        i += 1;
    }
    out
}

/// The normalized title of a record: the text of its `title` field in lower
/// case with each run of whitespace collapsed into one space and none at the
/// ends, or nothing if the record has no title.
pub open spec fn title_key(r: RecordView) -> Seq<char> {
    match r.text_of("title"@) {
        Some(t) => joined(words(str_lowercase(t)), seq![' ']),
        None => Seq::empty(),
    }
}

/// How a person is shown: given name, prefix, family name and suffix, as far
/// as they are there, with single spaces between them.
pub open spec fn person_text(p: PersonView) -> Seq<char> {
    (if p.given_name.len() > 0 {
        p.given_name + seq![' ']
    } else {
        Seq::empty()
    }) + (if p.prefix.len() > 0 {
        p.prefix + seq![' ']
    } else {
        Seq::empty()
    }) + p.name + (if p.suffix.len() > 0 {
        seq![' '] + p.suffix
    } else {
        Seq::empty()
    })
}

/// What the report shows of `r`: its key, its title or `Untitled`, its
/// authors separated by commas or `Unknown Author`, and its year or nothing.
pub open spec fn info_of(r: RecordView) -> EntryInfoView {
    EntryInfoView {
        key: r.key,
        title: match r.text_of("title"@) {
            Some(t) => t,
            None => "Untitled"@,
        },
        author: match r.get("author"@) {
            Some(chunks) => joined(
                Seq::new(parsed_persons(chunks).len(), |i: int| person_text(parsed_persons(chunks)[i])),
                seq![',', ' '],
            ),
            None => "Unknown Author"@,
        },
        year: match r.text_of("year"@) {
            Some(y) => y,
            None => Seq::empty(),
        },
    }
}

/// Which records take part in the comparison: those whose normalized title
/// has at least five characters.
pub open spec fn eligible_of(l: Seq<RecordView>) -> Seq<bool> {
    Seq::new(l.len(), |i: int| title_key(l[i]).len() >= MIN_TITLE_LEN)
}

/// The similarity scores of the normalized titles of `l`, for each pair of
/// eligible records in the order of the library; zero elsewhere.
pub open spec fn scores_of(l: Seq<RecordView>) -> Seq<Seq<u64>> {
    Seq::new(
        l.len(),
        |i: int|
            Seq::new(
                l.len(),
                |j: int|
                    if i < j && eligible_of(l)[i] && eligible_of(l)[j] {
                        jaro_winkler_bits(title_key(l[i]), title_key(l[j]))
                    } else {
                        0u64
                    },
            ),
    )
}

/// A group by positions turned into a group of the report.
pub open spec fn group_of(l: Seq<RecordView>, c: ClusterView) -> DuplicateGroupView {
    DuplicateGroupView {
        original: info_of(l[c.original]),
        candidates: Seq::new(c.members.len(), |x: int| (info_of(l[c.members[x].0]), c.members[x].1)),
    }
}

/// The duplicate groups of a library.
pub open spec fn duplicate_groups(l: Seq<RecordView>) -> Seq<DuplicateGroupView> {
    Seq::new(
        clusters_of(scores_of(l), eligible_of(l)).len(),
        |g: int| group_of(l, clusters_of(scores_of(l), eligible_of(l))[g]),
    )
}

/// The normalized title of `record`.
pub fn get_title_normalized(record: &Record) -> (t: Vec<char>)
    ensures
        t@ == title_key(record@),
{
    match record.text_of("title") {
        Some(text) => {
            let low = lowercase(&text);
            let parts = split_whitespace(&low);
            let space: Vec<char> = vec![' '];
            assert(space@ =~= seq![' ']);
            join(&parts, &space)
        },
        None => Vec::new(),
    }
}

/// The year of `record`, or nothing.
pub fn get_year(record: &Record) -> (y: String)
    ensures
        y@ == info_of(record@).year,
{
    match record.text_of("year") {
        Some(y) => string_of(&y),
        None => String::new(),
    }
}

/// How `p` is shown.
fn person_display(p: &Person) -> (r: Vec<char>)
    ensures
        r@ == person_text(p@),
{
    let mut r: Vec<char> = Vec::new();
    let given = chars_of(p.given_name.as_str());
    let prefix = chars_of(p.prefix.as_str());
    let name = chars_of(p.name.as_str());
    let suffix = chars_of(p.suffix.as_str());
    if given.len() > 0 {
        push_all(&mut r, &given);
        r.push(' ');
    }
    if prefix.len() > 0 {
        push_all(&mut r, &prefix);
        r.push(' ');
    }
    push_all(&mut r, &name);
    if suffix.len() > 0 {
        r.push(' ');
        push_all(&mut r, &suffix);
    }
    assert(r@ =~= person_text(p@));
    r
}

/// What the report shows of `record`.
pub fn extract_info(record: &Record) -> (info: EntryInfo)
    ensures
        info@ == info_of(record@),
{
    let title = match record.text_of("title") {
        Some(t) => string_of(&t),
        None => "Untitled".to_owned(),
    };
    let author = match record.get("author") {
        Some(chunks) => {
            let persons = parse_persons(chunks);
            let ghost shown = Seq::new(
                person_views(persons@).len(),
                |i: int| person_text(person_views(persons@)[i]),
            );
            let mut names: Vec<Vec<char>> = Vec::new();
            let mut i: usize = 0;
            while i < persons.len()
                invariant
                    i <= persons.len(),
                    names.len() == i,
                    forall|k: int| 0 <= k < i ==> (#[trigger] names@[k])@ == person_text(persons@[k]@),
                decreases persons.len() - i,
            {
                names.push(person_display(&persons[i]));
                i += 1;
            }
            assert(views(names@) =~= shown);
            let comma: Vec<char> = vec![',', ' '];
            assert(comma@ =~= seq![',', ' ']);
            string_of(&join(&names, &comma))
        },
        None => "Unknown Author".to_owned(),
    };
    EntryInfo { key: record.key.clone(), title, author, year: get_year(record) }
}

/// Scans the library for records that are probably duplicates of one
/// another.
///
/// Titles are compared in normalized form; a record whose normalized title
/// has fewer than five characters takes no part. Two titles match when their
/// Jaro-Winkler similarity exceeds 0.93. The records are taken in order: a
/// record that is in no group yet is compared with every later record that is
/// in no group yet, and those that match become its group. Groups come in the
/// order of their originals, members in the order of the library. The years
/// of the records play no part.
pub fn find_duplicates(library: &Library) -> (groups: Vec<DuplicateGroup>)
    ensures
        group_views(groups@) == duplicate_groups(library@),
        forall|g: int, c: int|
            0 <= g < groups@.len() && 0 <= c < groups@[g].candidates@.len()
                ==> SIMILARITY_THRESHOLD_BITS < (#[trigger] groups@[g].candidates@[c]).similarity_bits
                <= SIMILARITY_ONE_BITS,
{
    let n = library.records.len();
    let ghost l = library@;
    let mut titles: Vec<String> = Vec::new();
    let mut eligible: Vec<bool> = Vec::new();
    let mut i: usize = 0;
    while i < n
        invariant
            i <= n,
            n == library.records.len(),
            l == library@,
            titles.len() == i,
            eligible.len() == i,
            forall|k: int| 0 <= k < i ==> (#[trigger] titles@[k])@ == title_key(l[k]),
            forall|k: int| 0 <= k < i ==> #[trigger] eligible@[k] == eligible_of(l)[k],
        decreases n - i,
    {
        assert(l[i as int] == library.records@[i as int]@);
        let t = get_title_normalized(&library.records[i]);
        eligible.push(t.len() >= MIN_TITLE_LEN);
        titles.push(string_of(&t));
        i += 1;
    }
    assert(eligible@ =~= eligible_of(l));
    let mut scores: Vec<Vec<u64>> = Vec::new();
    let mut a: usize = 0;
    while a < n
        invariant
            a <= n,
            n == l.len(),
            titles.len() == n,
            eligible@ == eligible_of(l),
            forall|k: int| 0 <= k < n ==> (#[trigger] titles@[k])@ == title_key(l[k]),
            scores.len() == a,
            forall|r: int| 0 <= r < a ==> (#[trigger] scores@[r])@ == scores_of(l)[r],
            forall|r: int, c: int| 0 <= r < a && 0 <= c < n ==> (#[trigger] scores@[r]@[c]) <= SIMILARITY_ONE_BITS,
        decreases n - a,
    {
        let mut row: Vec<u64> = Vec::new();
        let mut b: usize = 0;
        while b < n
            invariant
                a < n,
                b <= n,
                n == l.len(),
                titles.len() == n,
                eligible@ == eligible_of(l),
                forall|k: int| 0 <= k < n ==> (#[trigger] titles@[k])@ == title_key(l[k]),
                row.len() == b,
                forall|c: int| 0 <= c < b ==> #[trigger] row@[c] == scores_of(l)[a as int][c],
                forall|c: int| 0 <= c < b ==> #[trigger] row@[c] <= SIMILARITY_ONE_BITS,
            decreases n - b,
        {
            let score = if a < b && eligible[a] && eligible[b] {
                similarity_bits(titles[a].as_str(), titles[b].as_str())
            } else {
                0
            };
            row.push(score);
            b += 1;
        }
        assert(row@ =~= scores_of(l)[a as int]);
        scores.push(row);
        a += 1;
    }
    assert(score_rows(scores@) =~= scores_of(l));
    let clusters = cluster(&eligible, &scores);
    let ghost cs = clusters_of(scores_of(l), eligible_of(l));
    proof {
        lemma_clusters_in_range(scores_of(l), eligible_of(l), n as int);
        lemma_clusters_scored(scores_of(l), eligible_of(l), n as int);
    }
    let mut groups: Vec<DuplicateGroup> = Vec::new();
    let mut g: usize = 0;
    while g < clusters.len()
        invariant
            g <= clusters.len(),
            n == library.records.len(),
            l == library@,
            cs == clusters_of(scores_of(l), eligible_of(l)),
            cluster_views(clusters@) == cs,
            members_in_range(cs, n as int),
            members_scored(cs, score_rows(scores@)),
            scores.len() == n,
            forall|r: int| 0 <= r < n ==> (#[trigger] scores@[r]).len() == n,
            forall|r: int, c: int| 0 <= r < n && 0 <= c < n ==> (#[trigger] scores@[r]@[c]) <= SIMILARITY_ONE_BITS,
            groups.len() == g,
            forall|k: int| 0 <= k < g ==> (#[trigger] groups@[k])@ == group_of(l, cs[k]),
            forall|k: int, c: int|
                0 <= k < g && 0 <= c < groups@[k].candidates@.len()
                    ==> SIMILARITY_THRESHOLD_BITS < (#[trigger] groups@[k].candidates@[c]).similarity_bits
                    <= SIMILARITY_ONE_BITS,
        decreases clusters.len() - g,
    {
        let c = &clusters[g];
        assert(cs[g as int] == c@);
        assert(l[c.original as int] == library.records@[c.original as int]@);
        let original = extract_info(&library.records[c.original]);
        let mut candidates: Vec<DuplicateCandidate> = Vec::new();
        let mut m: usize = 0;
        while m < c.members.len()
            invariant
                m <= c.members.len(),
                n == library.records.len(),
                l == library@,
                cs[g as int] == c@,
                0 <= g < cs.len(),
                members_in_range(cs, n as int),
                members_scored(cs, score_rows(scores@)),
                scores.len() == n,
                forall|r: int| 0 <= r < n ==> (#[trigger] scores@[r]).len() == n,
                forall|r: int, c: int| 0 <= r < n && 0 <= c < n ==> (#[trigger] scores@[r]@[c]) <= SIMILARITY_ONE_BITS,
                candidates.len() == m,
                forall|k: int| 0 <= k < m ==> (#[trigger] candidates@[k]).info@ == info_of(l[c.members@[k].0 as int]) && candidates@[k].similarity_bits == c.members@[k].1,
                forall|k: int| 0 <= k < m ==> SIMILARITY_THRESHOLD_BITS < (#[trigger] candidates@[k]).similarity_bits <= SIMILARITY_ONE_BITS,
            decreases c.members.len() - m,
        {
            let (index, score) = c.members[m];
            assert(c@.members[m as int] == (index as int, score));
            assert(0 <= index < n);
            assert(scored(score_rows(scores@), cs[g as int].original, cs[g as int].members[m as int]));
            assert(score_rows(scores@)[c.original as int][index as int] == scores@[c.original as int]@[index as int]);
            assert(l[index as int] == library.records@[index as int]@);
            candidates.push(DuplicateCandidate { info: extract_info(&library.records[index]), similarity_bits: score });
            m += 1;
        }
        let group = DuplicateGroup { original, candidates };
        assert(group@.candidates =~= group_of(l, cs[g as int]).candidates);
        groups.push(group);
        g += 1;
    }
    assert(group_views(groups@) =~= duplicate_groups(l));
    groups
}

/// Whether a member of the group of `original` carries the score of its pair
/// with the original, and that score exceeds the threshold.
pub open spec fn scored(scores: Seq<Seq<u64>>, original: int, member: (int, u64)) -> bool {
    member.1 == scores[original][member.0] && is_match(member.1)
}

/// Every member of every cluster carries the score of its pair with the
/// original of the cluster, and that score exceeds the threshold.
pub open spec fn members_scored(cs: Seq<ClusterView>, scores: Seq<Seq<u64>>) -> bool {
    forall|g: int, x: int| 0 <= g < cs.len() && 0 <= x < cs[g].members.len() ==> scored(scores, cs[g].original, #[trigger] cs[g].members[x])
}

proof fn lemma_members_scored(
    scores: Seq<Seq<u64>>,
    eligible: Seq<bool>,
    visited: Seq<bool>,
    i: int,
    upto: int,
)
    ensures
        forall|x: int| 0 <= x < members_upto(scores, eligible, visited, i, upto).len() ==> scored(scores, i, #[trigger] members_upto(scores, eligible, visited, i, upto)[x]),
    decreases upto,
{
    if !(upto <= i + 1 || upto <= 0) {
        lemma_members_scored(scores, eligible, visited, i, upto - 1);
        let before = members_upto(scores, eligible, visited, i, upto - 1);
        let now = members_upto(scores, eligible, visited, i, upto);
        assert forall|x: int| 0 <= x < now.len() implies scored(scores, i, #[trigger] now[x]) by {
            if x < before.len() {
                assert(now[x] == before[x]);
            }
        }
    }
}

proof fn lemma_clusters_scored(scores: Seq<Seq<u64>>, eligible: Seq<bool>, k: int)
    ensures
        members_scored(clusters_after(scores, eligible, k), scores),
    decreases k,
{
    if k > 0 {
        lemma_clusters_scored(scores, eligible, k - 1);
        let v = visited_after(scores, eligible, k - 1);
        lemma_members_scored(scores, eligible, v, k - 1, eligible.len() as int);
        let before = clusters_after(scores, eligible, k - 1);
        let now = clusters_after(scores, eligible, k);
        assert forall|g: int, x: int| 0 <= g < now.len() && 0 <= x < now[g].members.len() implies scored(
            scores,
            now[g].original,
            #[trigger] now[g].members[x],
        ) by {
            if g < before.len() {
                assert(now[g] == before[g]);
            }
        }
    }
}

/// Every position in the clusters is a position of the library.
pub open spec fn members_in_range(cs: Seq<ClusterView>, n: int) -> bool {
    forall|g: int| 0 <= g < cs.len() ==> 0 <= (#[trigger] cs[g]).original < n && forall|x: int|
        0 <= x < cs[g].members.len() ==> 0 <= (#[trigger] cs[g].members[x]).0 < n
}

proof fn lemma_members_in_range(
    scores: Seq<Seq<u64>>,
    eligible: Seq<bool>,
    visited: Seq<bool>,
    i: int,
    upto: int,
)
    requires
        0 <= i,
        upto <= eligible.len(),
    ensures
        forall|x: int| 0 <= x < members_upto(scores, eligible, visited, i, upto).len() ==> 0 <= (#[trigger] members_upto(scores, eligible, visited, i, upto)[x]).0 < eligible.len(),
    decreases upto,
{
    if !(upto <= i + 1 || upto <= 0) {
        lemma_members_in_range(scores, eligible, visited, i, upto - 1);
        let before = members_upto(scores, eligible, visited, i, upto - 1);
        let now = members_upto(scores, eligible, visited, i, upto);
        assert forall|x: int| 0 <= x < now.len() implies 0 <= (#[trigger] now[x]).0 < eligible.len() by {
            if x < before.len() {
                assert(now[x] == before[x]);
            }
        }
    }
}

proof fn lemma_no_members(
    scores: Seq<Seq<u64>>,
    eligible: Seq<bool>,
    visited: Seq<bool>,
    i: int,
    upto: int,
)
    requires
        0 <= i,
        members_upto(scores, eligible, visited, i, upto).len() == 0,
    ensures
        forall|x: int| x < upto ==> !#[trigger] joins(scores, eligible, visited, i, x),
    decreases upto,
{
    if !(upto <= i + 1 || upto <= 0) {
        if !joins(scores, eligible, visited, i, upto - 1) {
            lemma_no_members(scores, eligible, visited, i, upto - 1);
            assert forall|x: int| x < upto implies !#[trigger] joins(scores, eligible, visited, i, x) by {
                if x < upto - 1 {
                } else {
                    assert(x == upto - 1);
                }
            }
        } else {
            assert(members_upto(scores, eligible, visited, i, upto).len() > 0);
        }
    }
}

proof fn lemma_clusters_in_range(scores: Seq<Seq<u64>>, eligible: Seq<bool>, k: int)
    requires
        0 <= k <= eligible.len(),
    ensures
        members_in_range(clusters_after(scores, eligible, k), eligible.len() as int),
    decreases k,
{
    if k > 0 {
        lemma_clusters_in_range(scores, eligible, k - 1);
        let v = visited_after(scores, eligible, k - 1);
        lemma_members_in_range(scores, eligible, v, k - 1, eligible.len() as int);
        let before = clusters_after(scores, eligible, k - 1);
        let now = clusters_after(scores, eligible, k);
        assert forall|g: int| 0 <= g < now.len() implies 0 <= (#[trigger] now[g]).original < eligible.len()
            && forall|x: int| 0 <= x < now[g].members.len() ==> 0 <= (#[trigger] now[g].members[x]).0 < eligible.len() by {
            if g < before.len() {
                assert(now[g] == before[g]);
            }
        }
    }
}

} // verus!
