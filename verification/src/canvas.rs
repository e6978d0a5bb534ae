use crate::color::Color;
use crate::document::{ceil_div, Document, Picture};
use vstd::prelude::*;

verus! {

/// What a history holds: the pictures of its snapshots, oldest first, the
/// position of the current one, and the picture that is being edited.
pub struct Timeline {
    pub snapshots: Seq<Picture>,
    pub cursor: int,
    pub active: Picture,
}

impl Timeline {
    /// There is at least one snapshot and the cursor points at one.
    pub open spec fn inv(self) -> bool {
        0 <= self.cursor < self.snapshots.len()
    }

    /// The active picture becomes a new snapshot right after the current one,
    /// the snapshots that followed are dropped, and the cursor moves onto
    /// the new snapshot.
    pub open spec fn commit(self) -> Timeline {
        Timeline {
            snapshots: self.snapshots.subrange(0, self.cursor + 1).push(self.active),
            cursor: self.cursor + 1,
            active: self.active,
        }
    }

    pub open spec fn can_undo(self) -> bool {
        self.cursor > 0
    }

    /// The cursor steps back by one and the snapshot there becomes active;
    /// at the first snapshot nothing changes.
    pub open spec fn undo(self) -> Timeline {
        if self.can_undo() {
            Timeline {
                snapshots: self.snapshots,
                cursor: self.cursor - 1,
                active: self.snapshots[self.cursor - 1],
            }
        } else {
            self
        }
    }

    pub open spec fn can_redo(self) -> bool {
        self.cursor < self.snapshots.len() - 1
    }

    /// The cursor steps forward by one and the snapshot there becomes
    /// active; at the last snapshot nothing changes.
    pub open spec fn redo(self) -> Timeline {
        if self.can_redo() {
            Timeline {
                snapshots: self.snapshots,
                cursor: self.cursor + 1,
                active: self.snapshots[self.cursor + 1],
            }
        } else {
            self
        }
    }

    /// Snapshots `0..=i` stay and the cursor moves to `i`.
    pub open spec fn clear_from(self, i: int) -> Timeline {
        Timeline { snapshots: self.snapshots.subrange(0, i + 1), cursor: i, active: self.active }
    }

    /// Snapshot `i` can be erased: it exists, it is not the only one, and
    /// the cursor has a place to go.
    pub open spec fn can_erase(self, i: int) -> bool {
        &&& self.snapshots.len() > 1
        &&& 0 <= i < self.snapshots.len()
        &&& i <= self.cursor ==> self.cursor > 0
    }

    /// Snapshot `i` leaves; the cursor steps back by one if `i` was at or
    /// before it.
    pub open spec fn erase(self, i: int) -> Timeline {
        Timeline {
            snapshots: self.snapshots.remove(i),
            cursor: if i <= self.cursor {
                self.cursor - 1
            } else {
                self.cursor
            },
            active: self.active,
        }
    }
}

/// One step in the life of a history.
pub enum Edit {
    Commit,
    Undo,
    Redo,
    ClearFrom(int),
    Erase(int),
}

impl Timeline {
    /// The edit may be made in this state.
    pub open spec fn allows(self, edit: Edit) -> bool {
        match edit {
            Edit::ClearFrom(i) => 0 < i < self.snapshots.len(),
            Edit::Erase(i) => self.can_erase(i),
            _ => true,
        }
    }

    /// The state after the edit.
    pub open spec fn apply(self, edit: Edit) -> Timeline {
        match edit {
            Edit::Commit => self.commit(),
            Edit::Undo => self.undo(),
            Edit::Redo => self.redo(),
            Edit::ClearFrom(i) => self.clear_from(i),
            Edit::Erase(i) => self.erase(i),
        }
    }

    /// The state after the edits, made one after the other.
    pub open spec fn after(self, edits: Seq<Edit>) -> Timeline
        decreases edits.len(),
    {
        if edits.len() == 0 {
            self
        } else {
            self.after(edits.drop_last()).apply(edits.last())
        }
    }

    /// Each of the edits may be made in the state that the ones before it
    /// lead to.
    pub open spec fn allows_all(self, edits: Seq<Edit>) -> bool
        decreases edits.len(),
    {
        edits.len() == 0 || (self.allows_all(edits.drop_last()) && self.after(
            edits.drop_last(),
        ).allows(edits.last()))
    }
}

/// One allowed edit keeps a history valid: it is never empty and the cursor
/// points at a snapshot.
pub proof fn lemma_edit_keeps_history_valid(state: Timeline, edit: Edit)
    requires
        state.inv(),
        state.allows(edit),
    ensures
        state.apply(edit).inv(),
{
}

/// However many commits, undos, redos, clearings and erasures are made, each
/// where it is allowed, the history is valid after every one of them.
pub proof fn lemma_history_stays_valid(start: Timeline, edits: Seq<Edit>)
    requires
        start.inv(),
        start.allows_all(edits),
    ensures
        forall|k: int| 0 <= k <= edits.len() ==> (#[trigger] start.after(edits.take(k))).inv(),
    decreases edits.len(),
{
    if edits.len() > 0 {
        let shorter = edits.drop_last();
        lemma_history_stays_valid(start, shorter);
        assert forall|k: int| 0 <= k <= edits.len() implies (#[trigger] start.after(
            edits.take(k),
        )).inv() by {
            if k < edits.len() {
                assert(edits.take(k) =~= shorter.take(k));
            } else {
                assert(edits.take(k) =~= edits);
                assert(shorter.take(shorter.len() as int) =~= shorter);
                lemma_edit_keeps_history_valid(start.after(shorter), edits.last());
            }
        }
    } else {
        assert forall|k: int| 0 <= k <= edits.len() implies (#[trigger] start.after(
            edits.take(k),
        )).inv() by {
            assert(edits.take(k) =~= edits);
        }
    }
}

/// Undo after commit goes back to the snapshot that was current before, and
/// shows it: the picture that was visible before the commit, where nothing
/// had been edited since that snapshot. Redo after that leads to the state
/// that the commit left.
pub proof fn lemma_commit_undo_redo(state: Timeline)
    requires
        state.inv(),
    ensures
        state.commit().undo().cursor == state.cursor,
        state.commit().undo().active == state.snapshots[state.cursor],
        state.active == state.snapshots[state.cursor] ==> state.commit().undo().active
            == state.active,
        state.commit().undo().redo() == state.commit(),
{
    let committed = state.commit();
    assert(committed.snapshots[state.cursor] == state.snapshots[state.cursor]);
    assert(committed.snapshots[state.cursor + 1] == state.active);
}

/// Where the visible picture is the current snapshot, redo after undo leads
/// back to the same state.
pub proof fn lemma_undo_redo(state: Timeline)
    requires
        state.inv(),
        state.can_undo(),
        state.active == state.snapshots[state.cursor],
    ensures
        state.undo().redo() == state,
{
}

/// After a commit there is nothing to redo, whatever came before it; so
/// none after an undo followed by a commit.
pub proof fn lemma_commit_blocks_redo(state: Timeline)
    requires
        state.inv(),
    ensures
        !state.commit().can_redo(),
        state.commit().redo() == state.commit(),
        !state.undo().commit().can_redo(),
        state.undo().commit().redo() == state.undo().commit(),
{
}

/// Right after a commit, an undo or a redo that took place, the visible
/// picture is the current snapshot.
pub proof fn lemma_visible_is_current(state: Timeline)
    requires
        state.inv(),
    ensures
        state.commit().active == state.commit().snapshots[state.commit().cursor],
        state.can_undo() ==> state.undo().active == state.undo().snapshots[state.undo().cursor],
        state.can_redo() ==> state.redo().active == state.redo().snapshots[state.redo().cursor],
{
}

/// Erasing a snapshot before the current one leaves the cursor on the same
/// picture; erasing one after it leaves the cursor where it was.
pub proof fn lemma_erase_keeps_current(state: Timeline, i: int)
    requires
        state.inv(),
        state.can_erase(i),
        i != state.cursor,
    ensures
        state.erase(i).snapshots[state.erase(i).cursor] == state.snapshots[state.cursor],
{
}

/// A document under edit together with its undo history.
#[derive(Debug)]
pub struct DrawingCanvas {
    /// Snapshots of the document, oldest first.
    m_history: Vec<Document>,
    /// Index of the current snapshot.
    m_selected: usize,
    /// The document that is shown and edited.
    m_visible_doc: Document,
}

/// The pictures that the documents show.
pub open spec fn pictures(docs: Seq<Document>) -> Seq<Picture> {
    Seq::new(docs.len(), |k: int| docs[k]@)
}

impl View for DrawingCanvas {
    type V = Timeline;

    open spec fn view(&self) -> Timeline {
        Timeline {
            snapshots: pictures(self.history()@),
            cursor: self.current_idx() as int,
            active: self.visible_doc()@,
        }
    }
}

impl DrawingCanvas {
    pub closed spec fn spec_history(&self) -> &Vec<Document> {
        &self.m_history
    }

    pub closed spec fn spec_current_idx(&self) -> usize {
        self.m_selected
    }

    pub closed spec fn spec_visible_doc(&self) -> &Document {
        &self.m_visible_doc
    }

    /// The history is never empty, the cursor points into it, and every
    /// document is well formed.
    pub open spec fn wf(&self) -> bool {
        &&& self@.inv()
        &&& self.visible_doc().wf()
        &&& forall|k: int| 0 <= k < self.history()@.len() ==> (#[trigger] self.history()@[k]).wf()
    }

    /// Creates a canvas of the given size with every pixel `bg_color`. The
    /// history holds that one state.
    pub fn new(width: usize, height: usize, bg_color: Color) -> (canvas: Self)
        requires
            ceil_div(width as int, 128) * ceil_div(height as int, 128) <= usize::MAX,
        ensures
            canvas.wf(),
            canvas@ == (Timeline {
                snapshots: seq![crate::document::blank(width as nat, height as nat, bg_color)],
                cursor: 0,
                active: crate::document::blank(width as nat, height as nat, bg_color),
            }),
    {
        let doc = Document::new(width, height, bg_color);
        let mut history: Vec<Document> = Vec::new();
        history.push(doc.clone());
        let canvas = DrawingCanvas { m_history: history, m_selected: 0, m_visible_doc: doc };
        proof {
            assert(canvas@.snapshots =~= seq![
                crate::document::blank(width as nat, height as nat, bg_color),
            ]);
        }
        canvas
    }

    /// Makes the visible document the snapshot that follows the current one,
    /// and that snapshot the current one. The snapshots that followed before
    /// are dropped.
    pub fn commit(&mut self)
        requires
            old(self).wf(),
        ensures
            final(self).wf(),
            final(self)@ == old(self)@.commit(),
    {
        assert(self.m_selected < self.m_history.len());
        self.m_history.truncate(self.m_selected + 1);
        self.m_history.push(self.m_visible_doc.clone());
        self.m_selected += 1;
        proof {
            assert(self@.snapshots =~= old(self)@.commit().snapshots);
        }
    }

    /// Steps back to the snapshot before the current one and shows it.
    /// Returns false, and changes nothing, if there is none.
    pub fn undo(&mut self) -> (done: bool)
        requires
            old(self).wf(),
        ensures
            final(self).wf(),
            done == old(self)@.can_undo(),
            final(self)@ == old(self)@.undo(),
    {
        if self.m_selected == 0 {
            return false;
        }
        self.m_selected -= 1;
        self.m_visible_doc = self.m_history[self.m_selected].clone();
        true
    }

    /// Steps forward to the snapshot after the current one and shows it.
    /// Returns false, and changes nothing, if there is none.
    pub fn redo(&mut self) -> (done: bool)
        requires
            old(self).wf(),
        ensures
            final(self).wf(),
            done == old(self)@.can_redo(),
            final(self)@ == old(self)@.redo(),
    {
        if self.m_selected == self.m_history.len() - 1 {
            return false;
        }
        self.m_selected += 1;
        self.m_visible_doc = self.m_history[self.m_selected].clone();
        true
    }

    /// The document that is shown and edited.
    #[verifier::when_used_as_spec(spec_visible_doc)]
    pub fn visible_doc(&self) -> (doc: &Document)
        ensures
            doc == self.visible_doc(),
    {
        &self.m_visible_doc
    }

    /// The document that is shown, for editing. The history does not change.
    pub fn visible_doc_mut(&mut self) -> (doc: &mut Document)
        ensures
            *doc == *old(self).visible_doc(),
            *final(self).visible_doc() == *final(doc),
            final(self).history() == old(self).history(),
            final(self).current_idx() == old(self).current_idx(),
    {
        &mut self.m_visible_doc
    }

    /// The snapshots, oldest first.
    #[verifier::when_used_as_spec(spec_history)]
    pub fn history(&self) -> (docs: &Vec<Document>)
        ensures
            docs == self.history(),
    {
        &self.m_history
    }

    /// Index of the current snapshot.
    #[verifier::when_used_as_spec(spec_current_idx)]
    pub fn current_idx(&self) -> (idx: usize)
        ensures
            idx == self.current_idx(),
    {
        self.m_selected
    }

    /// The current snapshot.
    pub fn current(&self) -> (doc: &Document)
        requires
            self.wf(),
        ensures
            *doc == self.history()@[self.current_idx() as int],
    {
        &self.m_history[self.m_selected]
    }

    /// Drops the snapshots after index `i` and makes snapshot `i` the
    /// current one.
    pub fn clear_history_from(&mut self, i: usize)
        requires
            old(self).wf(),
            0 < i < old(self).history()@.len(),
        ensures
            final(self).wf(),
            final(self)@ == old(self)@.clear_from(i as int),
    {
        assert(i < self.m_history.len());
        self.m_history.truncate(i + 1);
        self.m_selected = i;
        proof {
            assert(self@.snapshots =~= old(self)@.clear_from(i as int).snapshots);
        }
    }

    /// Removes snapshot `i`. The cursor steps back by one if the snapshot was
    /// at or before it.
    pub fn erase_history_element(&mut self, i: usize)
        requires
            old(self).wf(),
            old(self)@.can_erase(i as int),
        ensures
            final(self).wf(),
            final(self)@ == old(self)@.erase(i as int),
    {
        self.m_history.remove(i);
        if i <= self.m_selected {
            self.m_selected -= 1;
        }
        proof {
            assert(self@.snapshots =~= old(self)@.erase(i as int).snapshots);
        }
    }
}

impl Clone for DrawingCanvas {
    /// A canvas with the same snapshots, cursor and visible picture. Its
    /// documents share their tiles with this one's.
    fn clone(&self) -> (res: Self)
        ensures
            res@ == self@,
            res.wf() == self.wf(),
    {
        let count = self.m_history.len();
        let mut history: Vec<Document> = Vec::with_capacity(count);
        let mut k: usize = 0;
        while k < count
            invariant
                count == self.m_history@.len(),
                k <= count,
                history@.len() == k,
                forall|i: int|
                    0 <= i < k ==> (#[trigger] history@[i])@ == self.m_history@[i]@ && history@[i].wf()
                        == self.m_history@[i].wf(),
            decreases count - k,
        {
            history.push(self.m_history[k].clone());
            k += 1;
        }
        let res = DrawingCanvas {
            m_history: history,
            m_selected: self.m_selected,
            m_visible_doc: self.m_visible_doc.clone(),
        };
        proof {
            assert(res@.snapshots =~= self@.snapshots);
            if self.wf() {
                assert forall|i: int| 0 <= i < res.history()@.len() implies (
                #[trigger] res.history()@[i]).wf() by {
                    assert(self.history()@[i].wf());
                }
            }
            if res.wf() {
                assert forall|i: int| 0 <= i < self.history()@.len() implies (
                #[trigger] self.history()@[i]).wf() by {
                    assert(res.history()@[i].wf());
                }
            }
        }
        res
    }
}

} // verus!
