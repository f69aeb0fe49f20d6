//! Changes of a library as values: a change can be applied, and it can be
//! turned into the change that takes it back.

use crate::library::{has_record, inserted, key_index, lemma_key_index, lemma_library_ops, removed, Library};
use crate::record::{make_normal_chunk, ChunkView, Record, RecordView};
use crate::text::{chars_of, lowercase, str_lowercase, string_of};
use vstd::prelude::*;

verus! {

/// A change of a library.
pub enum Action {
    /// A record was put in.
    EntryAdded(Record),
    /// A record was taken out.
    EntryDeleted(Record),
    /// A field of the record with the key `key` went from one text to
    /// another.
    FieldChanged { key: String, field: String, old_value: String, new_value: String },
    /// Several changes, one after the other.
    Transaction(Vec<Action>),
}

/// `l` after the record with the key `key`, if there is one, had its field
/// `field` set to the text `value`. The name of the field is taken in lower
/// case.
pub open spec fn with_text(
    l: Seq<RecordView>,
    key: Seq<char>,
    field: Seq<char>,
    value: Seq<char>,
) -> Seq<RecordView> {
    if has_record(l, key) {
        l.update(
            key_index(l, key),
            l[key_index(l, key)].set(str_lowercase(field), seq![ChunkView::Normal(value)]),
        )
    } else {
        l
    }
}

impl Action {
    /// Whether the records of the action can stand in a library: their
    /// fields are in order and their keys are not empty.
    pub open spec fn valid(self) -> bool
        decreases self, 0nat,
    {
        match self {
            Action::EntryAdded(r) => r@.wf() && r@.key.len() > 0,
            Action::EntryDeleted(r) => r@.wf() && r@.key.len() > 0,
            Action::FieldChanged { .. } => true,
            Action::Transaction(actions) => Self::valid_upto(actions, actions@.len()),
        }
    }

    /// Whether the first `n` of `actions` are valid.
    pub open spec fn valid_upto(actions: Vec<Action>, n: nat) -> bool
        decreases actions, n,
    {
        if n == 0 || n > actions@.len() {
            true
        } else {
            Self::valid_upto(actions, (n - 1) as nat) && actions@[n - 1].valid()
        }
    }

    /// `l` after the action.
    pub open spec fn applied(self, l: Seq<RecordView>) -> Seq<RecordView>
        decreases self, 0nat,
    {
        match self {
            Action::EntryAdded(r) => inserted(l, r@),
            Action::EntryDeleted(r) => removed(l, r@.key),
            Action::FieldChanged { key, field, old_value, new_value } => with_text(
                l,
                key@,
                field@,
                new_value@,
            ),
            Action::Transaction(actions) => Self::applied_upto(actions, actions@.len(), l),
        }
    }

    /// `l` after the first `n` of `actions`, in their order.
    pub open spec fn applied_upto(
        actions: Vec<Action>,
        n: nat,
        l: Seq<RecordView>,
    ) -> Seq<RecordView>
        decreases actions, n,
    {
        if n == 0 || n > actions@.len() {
            l
        } else {
            actions@[n - 1].applied(Self::applied_upto(actions, (n - 1) as nat, l))
        }
    }

    /// The action that takes this one back: an addition for a deletion and
    /// the other way round, a field change with its texts exchanged, and for
    /// a transaction the inverses of its parts in reverse order.
    pub open spec fn inverted(self, other: Action) -> bool
        decreases self, 0nat,
    {
        match self {
            Action::EntryAdded(r) => other matches Action::EntryDeleted(o) && o@ == r@,
            Action::EntryDeleted(r) => other matches Action::EntryAdded(o) && o@ == r@,
            Action::FieldChanged { key, field, old_value, new_value } => other matches Action::FieldChanged {
                key: k,
                field: f,
                old_value: o,
                new_value: n,
            } && k@ == key@ && f@ == field@ && o@ == new_value@ && n@ == old_value@,
            Action::Transaction(actions) => other matches Action::Transaction(others)
                && others@.len() == actions@.len() && Self::inverted_upto(
                actions,
                others,
                actions@.len(),
            ),
        }
    }

    /// Whether the first `n` of `actions` have their inverses at the
    /// mirrored places of `others`.
    pub open spec fn inverted_upto(actions: Vec<Action>, others: Vec<Action>, n: nat) -> bool
        decreases actions, n,
    {
        if n == 0 || n > actions@.len() || others@.len() != actions@.len() {
            true
        } else {
            Self::inverted_upto(actions, others, (n - 1) as nat) && actions@[n - 1].inverted(
                others@[actions@.len() - n],
            )
        }
    }

    /// Applies the action to `library`. An addition replaces a record with
    /// the same key; a deletion or a field change of a record that is not
    /// there does nothing.
    pub fn apply(&self, library: &mut Library)
        requires
            old(library).wf(),
            self.valid(),
        ensures
            final(library)@ == self.applied(old(library)@),
            final(library).wf(),
        decreases self,
    {
        match self {
            Action::EntryAdded(r) => {
                library.insert(r.copy());
            },
            Action::EntryDeleted(r) => {
                let gone = library.remove(r.key.as_str());
            },
            Action::FieldChanged { key, field, old_value, new_value } => {
                let k = chars_of(key.as_str());
                match library.find(&k) {
                    Some(i) => {
                        let mut record = library.records[i].copy();
                        let name = string_of(&lowercase(&chars_of(field.as_str())));
                        record.set(name.as_str(), make_normal_chunk(new_value.clone()));
                        proof {
                            lemma_key_index(library@, key@);
                            lemma_library_ops(library@, record@, key@);
                            assert(library@[i as int] == library.records@[i as int]@);
                        }
                        library.insert(record);
                    },
                    None => {},
                }
            },
            Action::Transaction(actions) => {
                let mut i: usize = 0;
                while i < actions.len()
                    invariant
                        i <= actions.len(),
                        *self == Action::Transaction(*actions),
                        library.wf(),
                        Self::valid_upto(*actions, actions@.len()),
                        library@ == Self::applied_upto(*actions, i as nat, old(library)@),
                    decreases actions.len() - i,
                {
                    proof {
                        Self::lemma_valid_at(*actions, actions@.len(), i as int);
                        vstd::std_specs::vec::axiom_vec_index_decreases(*actions, i as int);
                        assert(self->Transaction_0 == *actions);
                        assert(decreases_to!(*self => self->Transaction_0));
                    }
                    actions[i].apply(library);
                    i += 1;
                }
            },
        }
    }

    proof fn lemma_valid_at(actions: Vec<Action>, n: nat, i: int)
        requires
            Self::valid_upto(actions, n),
            0 <= i < n <= actions@.len(),
        ensures
            actions@[i].valid(),
        decreases n,
    {
        if i < n - 1 {
            Self::lemma_valid_at(actions, (n - 1) as nat, i);
        }
    }

    /// Makes the action that takes this one back.
    pub fn invert(&self) -> (r: Action)
        ensures
            self.inverted(r),
        decreases self,
    {
        match self {
            Action::EntryAdded(r) => Action::EntryDeleted(r.copy()),
            Action::EntryDeleted(r) => Action::EntryAdded(r.copy()),
            Action::FieldChanged { key, field, old_value, new_value } => Action::FieldChanged {
                key: key.clone(),
                field: field.clone(),
                old_value: new_value.clone(),
                new_value: old_value.clone(),
            },
            Action::Transaction(actions) => {
                let n = actions.len();
                let mut out: Vec<Action> = Vec::new();
                let mut i: usize = n;
                while i > 0
                    invariant
                        i <= n,
                        n == actions.len(),
                        *self == Action::Transaction(*actions),
                        out.len() == n - i,
                        forall|k: int| i <= k < n ==> (#[trigger] actions@[k]).inverted(out@[n - 1 - k]),
                    decreases i,
                {
                    i -= 1;
                    proof {
                        vstd::std_specs::vec::axiom_vec_index_decreases(*actions, i as int);
                        assert(self->Transaction_0 == *actions);
                        assert(decreases_to!(*self => self->Transaction_0));
                    }
                    out.push(actions[i].invert());
                }
                proof {
                    Self::lemma_inverted_upto(*actions, out, n as nat);
                }
                Action::Transaction(out)
            },
        }
    }

    proof fn lemma_inverted_upto(actions: Vec<Action>, others: Vec<Action>, m: nat)
        requires
            others@.len() == actions@.len(),
            m <= actions@.len(),
            forall|k: int| 0 <= k < actions@.len() ==> (#[trigger] actions@[k]).inverted(others@[actions@.len() - 1 - k]),
        ensures
            Self::inverted_upto(actions, others, m),
        decreases m,
    {
        if m > 0 {
            Self::lemma_inverted_upto(actions, others, (m - 1) as nat);
            assert(actions@[m - 1].inverted(others@[actions@.len() - 1 - (m - 1)]));
        }
    }
}

} // verus!
