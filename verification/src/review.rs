//! Going through duplicate groups one conflict at a time.

use crate::deduplicator::{group_views, DuplicateGroup, DuplicateGroupView, EntryInfo, EntryInfoView};
use crate::text::{chars_of, decimal, decimal_of, push_all, string_of};
use vstd::prelude::*;

verus! {

/// What is done about a conflict between the original of a group and one of
/// its candidates.
#[derive(Clone, Copy, Debug, PartialEq, Eq, Structural)]
pub enum Resolution {
    /// The original stays and the candidate is deleted.
    KeepOriginal,
    /// The candidate stays and the original is deleted.
    KeepCandidate,
    /// Both stay.
    Ignore,
}

/// A review of duplicate groups: the groups, the conflict at hand, and
/// whether the review is going on.
pub struct DuplicateReview {
    pub groups: Vec<DuplicateGroup>,
    pub group_index: usize,
    pub candidate_index: usize,
    pub is_active: bool,
}

/// The mathematical value of a [`DuplicateReview`].
pub struct ReviewView {
    pub groups: Seq<DuplicateGroupView>,
    pub group_index: int,
    pub candidate_index: int,
    pub is_active: bool,
}

impl View for DuplicateReview {
    type V = ReviewView;

    open spec fn view(&self) -> ReviewView {
        ReviewView {
            groups: group_views(self.groups@),
            group_index: self.group_index as int,
            candidate_index: self.candidate_index as int,
            is_active: self.is_active,
        }
    }
}

impl ReviewView {
    /// The group at hand is one of the groups, if there are any.
    pub open spec fn wf(self) -> bool {
        0 <= self.candidate_index && (self.groups.len() == 0 || 0 <= self.group_index
            < self.groups.len())
    }

    /// The review of freshly found groups: at the first conflict, going on
    /// if there is a group at all.
    pub open spec fn started(groups: Seq<DuplicateGroupView>) -> ReviewView {
        ReviewView { groups, group_index: 0, candidate_index: 0, is_active: groups.len() > 0 }
    }

    /// The review at the first conflict of the next group, or over and
    /// without groups after the last group.
    pub open spec fn next_group(self) -> ReviewView {
        if self.group_index + 1 < self.groups.len() {
            ReviewView { group_index: self.group_index + 1, candidate_index: 0, ..self }
        } else {
            ReviewView { groups: Seq::empty(), is_active: false, ..self }
        }
    }

    /// The review at the next candidate of the group at hand, or at the next
    /// group after the last candidate.
    pub open spec fn next_conflict(self) -> ReviewView {
        if self.candidate_index + 1 < self.groups[self.group_index].candidates.len() {
            ReviewView { candidate_index: self.candidate_index + 1, ..self }
        } else {
            self.next_group()
        }
    }

    /// Whether there is a conflict at hand.
    pub open spec fn has_conflict(self) -> bool {
        self.groups.len() > 0 && self.candidate_index < self.groups[self.group_index].candidates.len()
    }

    /// The review after the conflict at hand was resolved.
    pub open spec fn resolved(self, resolution: Resolution) -> ReviewView {
        if self.groups.len() == 0 {
            self
        } else if !self.has_conflict() {
            self.next_group()
        } else {
            match resolution {
                Resolution::KeepOriginal => self.next_conflict(),
                Resolution::KeepCandidate => self.next_group(),
                Resolution::Ignore => self.next_conflict(),
            }
        }
    }

    /// The key of the record that resolving the conflict at hand deletes.
    pub open spec fn deleted(self, resolution: Resolution) -> Option<Seq<char>> {
        if !self.has_conflict() {
            None
        } else {
            match resolution {
                Resolution::KeepOriginal => Some(
                    self.groups[self.group_index].candidates[self.candidate_index].0.key,
                ),
                Resolution::KeepCandidate => Some(self.groups[self.group_index].original.key),
                Resolution::Ignore => None,
            }
        }
    }

    /// Where the review stands, in words.
    pub open spec fn status(self) -> Seq<char> {
        if self.groups.len() == 0 {
            "Done"@
        } else if self.groups[self.group_index].candidates.len() > 1 {
            "Group "@ + decimal((self.group_index + 1) as nat) + " of "@ + decimal(self.groups.len())
                + " (Conflict "@ + decimal((self.candidate_index + 1) as nat) + " of "@ + decimal(
                self.groups[self.group_index].candidates.len(),
            ) + ")"@
        } else {
            "Conflict "@ + decimal((self.group_index + 1) as nat) + " of "@ + decimal(
                self.groups.len(),
            )
        }
    }
}

/// What is shown where there is no record to show.
pub open spec fn no_info() -> EntryInfoView {
    EntryInfoView { key: "---"@, title: "---"@, author: "---"@, year: "---"@ }
}

/// What is shown where there is no record to show.
pub fn empty_info() -> (info: EntryInfo)
    ensures
        info@ == no_info(),
{
    EntryInfo {
        key: "---".to_owned(),
        title: "---".to_owned(),
        author: "---".to_owned(),
        year: "---".to_owned(),
    }
}

/// A copy of `info`.
fn copy_info(info: &EntryInfo) -> (r: EntryInfo)
    ensures
        r@ == info@,
{
    EntryInfo {
        key: info.key.clone(),
        title: info.title.clone(),
        author: info.author.clone(),
        year: info.year.clone(),
    }
}

impl DuplicateReview {
    /// Whether this review is well formed.
    pub open spec fn wf(&self) -> bool {
        self@.wf()
    }

    /// Tests whether the review is well formed: the group at hand is one
    /// of the groups, if there are any.
    pub fn is_sound(&self) -> (ok: bool)
        ensures
            ok == self.wf(),
    {
        self.groups.len() == 0 || self.group_index < self.groups.len()
    }

    /// A review without groups.
    pub fn new() -> (r: DuplicateReview)
        ensures
            r@ == ReviewView::started(Seq::empty()),
            r.wf(),
    {
        let r = DuplicateReview { groups: Vec::new(), group_index: 0, candidate_index: 0, is_active: false };
        assert(r@.groups =~= Seq::empty());
        r
    }

    /// Starts the review of `groups`.
    pub fn load_groups(&mut self, groups: Vec<DuplicateGroup>)
        ensures
            final(self)@ == ReviewView::started(group_views(groups@)),
            final(self).wf(),
    {
        self.is_active = groups.len() > 0;
        self.groups = groups;
        self.group_index = 0;
        self.candidate_index = 0;
    }

    /// Ends the review.
    pub fn close(&mut self)
        ensures
            final(self)@ == (ReviewView { is_active: false, ..old(self)@ }),
    {
        self.is_active = false;
    }

    fn next_group(&mut self)
        requires
            old(self).wf(),
        ensures
            final(self)@ == old(self)@.next_group(),
            final(self).wf(),
    {
        if self.groups.len() > 0 && self.group_index + 1 < self.groups.len() {
            self.group_index += 1;
            self.candidate_index = 0;
        } else {
            self.is_active = false;
            self.groups = Vec::new();
            assert(self@.groups =~= Seq::empty());
        }
    }

    fn next_conflict(&mut self)
        requires
            old(self).wf(),
            old(self)@.has_conflict(),
        ensures
            final(self)@ == old(self)@.next_conflict(),
            final(self).wf(),
    {
        let n = self.groups[self.group_index].candidates.len();
        assert(self@.groups[self@.group_index] == self.groups@[self.group_index as int]@);
        if self.candidate_index + 1 < n {
            self.candidate_index += 1;
        } else {
            self.next_group();
        }
    }

    /// Resolves the conflict at hand and moves on. Returns the key of the
    /// record that is to be deleted, if the resolution deletes one. Keeping
    /// the candidate ends the group, since its original is gone.
    pub fn resolve(&mut self, resolution: Resolution) -> (delete: Option<String>)
        requires
            old(self).wf(),
        ensures
            final(self)@ == old(self)@.resolved(resolution),
            match delete {
                Some(key) => old(self)@.deleted(resolution) == Some(key@),
                None => old(self)@.deleted(resolution) is None,
            },
            final(self).wf(),
    {
        if self.groups.len() == 0 {
            return None;
        }
        let group = &self.groups[self.group_index];
        assert(self@.groups[self@.group_index] == group@);
        if self.candidate_index >= group.candidates.len() {
            self.next_group();
            return None;
        }
        match resolution {
            Resolution::KeepOriginal => {
                let key = group.candidates[self.candidate_index].info.key.clone();
                self.next_conflict();
                Some(key)
            },
            Resolution::KeepCandidate => {
                let key = group.original.key.clone();
                self.next_group();
                Some(key)
            },
            Resolution::Ignore => {
                self.next_conflict();
                None
            },
        }
    }

    /// Where the review stands, in words.
    pub fn status_label(&self) -> (label: String)
        requires
            self.wf(),
        ensures
            label@ == self@.status(),
    {
        if self.groups.len() == 0 {
            return "Done".to_owned();
        }
        let total = self.groups.len();
        let group = &self.groups[self.group_index];
        assert(self@.groups[self@.group_index] == group@);
        let candidates = group.candidates.len();
        let mut out: Vec<char> = Vec::new();
        if candidates > 1 {
            push_all(&mut out, &chars_of("Group "));
            push_all(&mut out, &decimal_of(self.group_index as u128 + 1));
            push_all(&mut out, &chars_of(" of "));
            push_all(&mut out, &decimal_of(total as u128));
            push_all(&mut out, &chars_of(" (Conflict "));
            push_all(&mut out, &decimal_of(self.candidate_index as u128 + 1));
            push_all(&mut out, &chars_of(" of "));
            push_all(&mut out, &decimal_of(candidates as u128));
            push_all(&mut out, &chars_of(")"));
        } else {
            push_all(&mut out, &chars_of("Conflict "));
            push_all(&mut out, &decimal_of(self.group_index as u128 + 1));
            push_all(&mut out, &chars_of(" of "));
            push_all(&mut out, &decimal_of(total as u128));
        }
        string_of(&out)
    }

    /// The original of the group at hand, or dashes if there is none.
    pub fn original_info(&self) -> (info: EntryInfo)
        ensures
            info@ == if 0 <= self@.group_index < self@.groups.len() {
                self@.groups[self@.group_index].original
            } else {
                no_info()
            },
    {
        if self.group_index < self.groups.len() {
            assert(self@.groups[self@.group_index] == self.groups@[self.group_index as int]@);
            copy_info(&self.groups[self.group_index].original)
        } else {
            empty_info()
        }
    }

    /// The candidate at hand, or dashes if there is none.
    pub fn candidate_info(&self) -> (info: EntryInfo)
        ensures
            info@ == if 0 <= self@.group_index < self@.groups.len() && self@.candidate_index
                < self@.groups[self@.group_index].candidates.len() {
                self@.groups[self@.group_index].candidates[self@.candidate_index].0
            } else {
                no_info()
            },
    {
        if self.group_index < self.groups.len() {
            let group = &self.groups[self.group_index];
            assert(self@.groups[self@.group_index] == group@);
            if self.candidate_index < group.candidates.len() {
                return copy_info(&group.candidates[self.candidate_index].info);
            }
        }
        empty_info()
    }

    /// The similarity of the candidate at hand to its original, as the bit
    /// pattern of a 64-bit float, if there is a candidate at hand.
    pub fn current_score_bits(&self) -> (bits: Option<u64>)
        ensures
            bits == if 0 <= self@.group_index < self@.groups.len() && self@.candidate_index
                < self@.groups[self@.group_index].candidates.len() {
                Some(self@.groups[self@.group_index].candidates[self@.candidate_index].1)
            } else {
                None
            },
    {
        if self.group_index < self.groups.len() {
            let group = &self.groups[self.group_index];
            assert(self@.groups[self@.group_index] == group@);
            if self.candidate_index < group.candidates.len() {
                return Some(group.candidates[self.candidate_index].similarity_bits);
            }
        }
        None
    }
}

} // verus!
