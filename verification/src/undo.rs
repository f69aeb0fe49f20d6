//! A session and its history: whole-library snapshots for undo and redo.

use crate::keygen::{KeyGenConfig, KeyGenConfigView};
use crate::library::{library_wf, Library};
use crate::record::RecordView;
use vstd::prelude::*;

verus! {

/// The state of a session: the library, the snapshots that undo and redo
/// draw on, the configuration, and whether there are unsaved changes.
pub struct Session {
    pub library: Library,
    pub undo_stack: Vec<Library>,
    pub redo_stack: Vec<Library>,
    pub key_config: KeyGenConfig,
    /// The text of the file as it was read or written last, if there is a
    /// file.
    pub original_text: Option<String>,
    pub is_dirty: bool,
}

/// The mathematical value of a [`Session`].
pub struct SessionView {
    pub library: Seq<RecordView>,
    pub undo: Seq<Seq<RecordView>>,
    pub redo: Seq<Seq<RecordView>>,
    pub key_config: KeyGenConfigView,
    pub original_text: Option<Seq<char>>,
    pub is_dirty: bool,
}

/// The views of the libraries in `v`.
pub open spec fn library_views(v: Seq<Library>) -> Seq<Seq<RecordView>> {
    Seq::new(v.len(), |i: int| v[i]@)
}

impl View for Session {
    type V = SessionView;

    open spec fn view(&self) -> SessionView {
        SessionView {
            library: self.library@,
            undo: library_views(self.undo_stack@),
            redo: library_views(self.redo_stack@),
            key_config: self.key_config@,
            original_text: match self.original_text {
                Some(t) => Some(t@),
                None => None,
            },
            is_dirty: self.is_dirty,
        }
    }
}

impl SessionView {
    /// The library and every snapshot are well formed.
    pub open spec fn wf(self) -> bool {
        &&& library_wf(self.library)
        &&& forall|i: int| 0 <= i < self.undo.len() ==> library_wf(#[trigger] self.undo[i])
        &&& forall|i: int| 0 <= i < self.redo.len() ==> library_wf(#[trigger] self.redo[i])
    }

    /// The session after a snapshot of the library was taken.
    pub open spec fn snapshot(self) -> SessionView {
        SessionView { undo: self.undo.push(self.library), ..self }
    }

    /// The session after its last snapshot was dropped again.
    pub open spec fn forget(self) -> SessionView {
        if self.undo.len() > 0 {
            SessionView { undo: self.undo.drop_last(), ..self }
        } else {
            self
        }
    }

    /// The session after a change made `l` its library.
    pub open spec fn changed_to(self, l: Seq<RecordView>) -> SessionView {
        SessionView { library: l, is_dirty: true, ..self }
    }

    /// The session after an operation made `l` of its library: a step of the
    /// history if the library changed, and the session as it was if the
    /// library came out as it was. An operation that changes nothing leaves no
    /// snapshot behind.
    pub open spec fn committed(self, l: Seq<RecordView>) -> SessionView {
        if l == self.library {
            self
        } else {
            self.snapshot().changed_to(l)
        }
    }

    /// The session after an undo: the last snapshot is the library again and
    /// the library that was current can be had back by redo. Without a
    /// snapshot nothing changes.
    pub open spec fn undone(self) -> SessionView {
        if self.undo.len() > 0 {
            SessionView {
                library: self.undo.last(),
                undo: self.undo.drop_last(),
                redo: self.redo.push(self.library),
                is_dirty: true,
                ..self
            }
        } else {
            self
        }
    }

    /// The session after a redo, the mirror image of an undo.
    pub open spec fn redone(self) -> SessionView {
        if self.redo.len() > 0 {
            SessionView {
                library: self.redo.last(),
                undo: self.undo.push(self.library),
                redo: self.redo.drop_last(),
                is_dirty: true,
                ..self
            }
        } else {
            self
        }
    }

    /// The session after `l` was loaded from a file with the text `text`: a
    /// new document without history and without unsaved changes.
    pub open spec fn loaded(self, l: Seq<RecordView>, text: Seq<char>) -> SessionView {
        SessionView {
            library: l,
            undo: Seq::empty(),
            redo: Seq::empty(),
            original_text: Some(text),
            is_dirty: false,
            ..self
        }
    }

    /// The session after its library was written to a file as `text`.
    pub open spec fn saved(self, text: Seq<char>) -> SessionView {
        SessionView { original_text: Some(text), is_dirty: false, ..self }
    }
}

/// Undo takes a change back and redo makes it again: after a snapshot and
/// any change of the library, undo gives the library and the undo history of
/// before, and redo after that undo gives the whole state of after the
/// change.
pub proof fn lemma_undo_redo_symmetry(s: SessionView, after: Seq<RecordView>)
    ensures
        s.snapshot().changed_to(after).undone().library == s.library,
        s.snapshot().changed_to(after).undone().undo == s.undo,
        s.snapshot().changed_to(after).undone().redone() == s.snapshot().changed_to(after),
{
    let m = s.snapshot().changed_to(after);
    assert(m.undo.drop_last() =~= s.undo);
    let u = m.undone();
    assert(u.redo.drop_last() =~= s.redo);
    assert(u.redone().undo =~= m.undo);
    assert(u.redone().redo =~= m.redo);
}

/// Every step of the history keeps the session well formed.
pub proof fn lemma_history_keeps_wf(s: SessionView)
    requires
        s.wf(),
    ensures
        s.snapshot().wf(),
        s.forget().wf(),
        s.undone().wf(),
        s.redone().wf(),
{
    assert forall|i: int| 0 <= i < s.snapshot().undo.len() implies library_wf(
        #[trigger] s.snapshot().undo[i],
    ) by {
        if i < s.undo.len() {
            assert(s.snapshot().undo[i] == s.undo[i]);
        }
    }
    if s.undo.len() > 0 {
        assert forall|i: int| 0 <= i < s.forget().undo.len() implies library_wf(
            #[trigger] s.forget().undo[i],
        ) by {
            assert(s.forget().undo[i] == s.undo[i]);
        }
        assert forall|i: int| 0 <= i < s.undone().redo.len() implies library_wf(
            #[trigger] s.undone().redo[i],
        ) by {
            if i < s.redo.len() {
                assert(s.undone().redo[i] == s.redo[i]);
            }
        }
        assert(library_wf(s.undo[s.undo.len() - 1]));
    }
    if s.redo.len() > 0 {
        assert forall|i: int| 0 <= i < s.redone().redo.len() implies library_wf(
            #[trigger] s.redone().redo[i],
        ) by {
            assert(s.redone().redo[i] == s.redo[i]);
        }
        assert forall|i: int| 0 <= i < s.redone().undo.len() implies library_wf(
            #[trigger] s.redone().undo[i],
        ) by {
            if i < s.undo.len() {
                assert(s.redone().undo[i] == s.undo[i]);
            }
        }
        assert(library_wf(s.redo[s.redo.len() - 1]));
    }
}

impl Session {
    /// Whether this session is well formed.
    pub open spec fn wf(&self) -> bool {
        self@.wf()
    }

    /// A session with an empty library and no history.
    pub fn new(key_config: KeyGenConfig) -> (s: Session)
        ensures
            s@ == (SessionView {
                library: Seq::empty(),
                undo: Seq::empty(),
                redo: Seq::empty(),
                key_config: key_config@,
                original_text: None,
                is_dirty: false,
            }),
            s.wf(),
    {
        let s = Session {
            library: Library::new(),
            undo_stack: Vec::new(),
            redo_stack: Vec::new(),
            key_config,
            original_text: None,
            is_dirty: false,
        };
        assert(s@.undo =~= Seq::empty());
        assert(s@.redo =~= Seq::empty());
        s
    }

    /// Copies the current library onto the undo stack. Every operation that
    /// changes the library does this first.
    pub fn push_snapshot(&mut self)
        ensures
            final(self)@ == old(self)@.snapshot(),
            old(self).wf() ==> final(self).wf(),
    {
        let copy = self.library.copy();
        self.undo_stack.push(copy);
        assert(self@.undo =~= old(self)@.undo.push(old(self)@.library));
        proof {
            if old(self).wf() {
                lemma_history_keeps_wf(old(self)@);
            }
        }
    }

    /// Drops the snapshot taken last, for an operation that changed nothing
    /// after all.
    pub fn pop_snapshot(&mut self)
        ensures
            final(self)@ == old(self)@.forget(),
            old(self).wf() ==> final(self).wf(),
    {
        let dropped = self.undo_stack.pop();
        assert(self@.undo =~= old(self)@.forget().undo);
        proof {
            if old(self).wf() {
                lemma_history_keeps_wf(old(self)@);
            }
        }
    }

    /// Replaces the library by one loaded from a file with the text `text`
    /// and clears the history.
    pub fn load(&mut self, library: Library, text: String)
        ensures
            final(self)@ == old(self)@.loaded(library@, text@),
            library.wf() ==> final(self).wf(),
    {
        self.library = library;
        self.original_text = Some(text);
        self.undo_stack = Vec::new();
        self.redo_stack = Vec::new();
        self.is_dirty = false;
        assert(self@.undo =~= Seq::empty());
        assert(self@.redo =~= Seq::empty());
    }
}

impl Session {
    /// Makes `library` the library of the session. If it differs from the
    /// library as it is, the library as it is is kept as a snapshot first; if
    /// it does not, nothing changes. Returns whether anything changed.
    pub fn commit(&mut self, library: Library) -> (changed: bool)
        ensures
            final(self)@ == old(self)@.committed(library@),
            changed == (library@ != old(self)@.library),
            library.wf() ==> final(self).library.wf(),
            old(self).wf() && library.wf() ==> final(self).wf(),
    {
        if library.same_as(&self.library) {
            false
        } else {
            self.push_snapshot();
            self.library = library;
            self.is_dirty = true;
            true
        }
    }

    /// Records that the library was written to its file as `text`.
    pub fn mark_saved(&mut self, text: String)
        ensures
            final(self)@ == old(self)@.saved(text@),
            old(self).wf() ==> final(self).wf(),
    {
        self.original_text = Some(text);
        self.is_dirty = false;
    }
}

impl Session {
    /// Tests whether the session is well formed: its library and every
    /// snapshot are.
    pub fn is_sound(&self) -> (ok: bool)
        ensures
            ok == self.wf(),
    {
        if !self.library.is_sound() {
            return false;
        }
        let mut i: usize = 0;
        while i < self.undo_stack.len()
            invariant
                i <= self.undo_stack.len(),
                forall|k: int| 0 <= k < i ==> library_wf(#[trigger] self@.undo[k]),
            decreases self.undo_stack.len() - i,
        {
            assert(self@.undo[i as int] == self.undo_stack@[i as int]@);
            if !self.undo_stack[i].is_sound() {
                return false;
            }
            i += 1;
        }
        let mut j: usize = 0;
        while j < self.redo_stack.len()
            invariant
                j <= self.redo_stack.len(),
                forall|k: int| 0 <= k < self.undo_stack.len() ==> library_wf(#[trigger] self@.undo[k]),
                forall|k: int| 0 <= k < j ==> library_wf(#[trigger] self@.redo[k]),
            decreases self.redo_stack.len() - j,
        {
            assert(self@.redo[j as int] == self.redo_stack@[j as int]@);
            if !self.redo_stack[j].is_sound() {
                return false;
            }
            j += 1;
        }
        true
    }
}

/// Takes the last change back. Returns whether there was anything to undo.
pub fn perform_undo(session: &mut Session) -> (done: bool)
    ensures
        final(session)@ == old(session)@.undone(),
        done == (old(session)@.undo.len() > 0),
        old(session).wf() ==> final(session).wf(),
{
    proof {
        if old(session).wf() {
            lemma_history_keeps_wf(old(session)@);
        }
    }
    match session.undo_stack.pop() {
        Some(previous) => {
            let current = session.library.copy();
            session.redo_stack.push(current);
            session.library = previous;
            session.is_dirty = true;
            assert(session@.undo =~= old(session)@.undone().undo);
            assert(session@.redo =~= old(session)@.undone().redo);
            true
        },
        None => false,
    }
}

/// Makes the change again that the last undo took back. Returns whether
/// there was anything to redo.
pub fn perform_redo(session: &mut Session) -> (done: bool)
    ensures
        final(session)@ == old(session)@.redone(),
        done == (old(session)@.redo.len() > 0),
        old(session).wf() ==> final(session).wf(),
{
    proof {
        if old(session).wf() {
            lemma_history_keeps_wf(old(session)@);
        }
    }
    match session.redo_stack.pop() {
        Some(next) => {
            let current = session.library.copy();
            session.undo_stack.push(current);
            session.library = next;
            session.is_dirty = true;
            assert(session@.undo =~= old(session)@.redone().undo);
            assert(session@.redo =~= old(session)@.redone().redo);
            true
        },
        None => false,
    }
}

} // verus!
