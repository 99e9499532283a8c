//! Undo and redo: whole projects as they were before each edit.

use crate::project::{Project, ProjectView};
use crate::timeline::{views, Duplicate};
use vstd::prelude::*;

verus! {

/// How many edits can be undone.
pub const UNDO_LIMIT: usize = 100;

/// The projects to go back and forward to, the nearest ones last.
#[derive(Debug, Clone)]
pub struct History {
    pub undo: Vec<Project>,
    pub redo: Vec<Project>,
}

/// A history with its projects by their views.
pub struct HistoryView {
    pub undo: Seq<ProjectView>,
    pub redo: Seq<ProjectView>,
}

impl View for History {
    type V = HistoryView;

    open spec fn view(&self) -> HistoryView {
        HistoryView { undo: views(self.undo@), redo: views(self.redo@) }
    }
}

impl HistoryView {
    pub open spec fn bounded(self) -> bool {
        self.undo.len() + self.redo.len() <= UNDO_LIMIT
    }

    /// The history once `p` is about to be edited: `p` can be gone back to, there
    /// is nothing to go forward to, and the oldest project is given up where there
    /// are too many.
    pub open spec fn recorded(self, p: ProjectView) -> HistoryView {
        let all = self.undo.push(p);
        HistoryView {
            undo: if all.len() > UNDO_LIMIT {
                all.drop_first()
            } else {
                all
            },
            redo: Seq::empty(),
        }
    }

    pub open spec fn can_undo(self) -> bool {
        self.undo.len() > 0
    }

    pub open spec fn can_redo(self) -> bool {
        self.redo.len() > 0
    }

    /// The history after going back from `p`.
    pub open spec fn undone(self, p: ProjectView) -> HistoryView {
        if self.can_undo() {
            HistoryView { undo: self.undo.drop_last(), redo: self.redo.push(p) }
        } else {
            self
        }
    }

    /// The project after going back from `p`.
    pub open spec fn previous(self, p: ProjectView) -> ProjectView {
        if self.can_undo() {
            self.undo.last()
        } else {
            p
        }
    }

    /// The history after going forward from `p`.
    pub open spec fn redone(self, p: ProjectView) -> HistoryView {
        if self.can_redo() {
            HistoryView { undo: self.undo.push(p), redo: self.redo.drop_last() }
        } else {
            self
        }
    }

    /// The project after going forward from `p`.
    pub open spec fn next(self, p: ProjectView) -> ProjectView {
        if self.can_redo() {
            self.redo.last()
        } else {
            p
        }
    }
}

impl History {
    pub fn new() -> (h: History)
        ensures
            h@ == (HistoryView { undo: Seq::empty(), redo: Seq::empty() }),
            h@.bounded(),
    {
        let h: History = History { undo: Vec::new(), redo: Vec::new() };
        proof {
            assert(views(h.undo@) =~= Seq::empty());
            assert(views(h.redo@) =~= Seq::empty());
        }
        h
    }

    /// Keeps a copy of a project that is about to be edited.
    pub fn record(&mut self, p: &Project)
        ensures
            final(self)@ == old(self)@.recorded(p@),
            old(self)@.bounded() ==> final(self)@.bounded(),
    {
        let ghost before = self@;
        self.undo.push(p.duplicate());
        self.redo = Vec::new();
        proof {
            assert(views(self.undo@) =~= before.undo.push(p@));
            assert(views(self.redo@) =~= Seq::empty());
        }
        if self.undo.len() > UNDO_LIMIT {
            let _ = self.undo.remove(0);
            proof {
                assert(views(self.undo@) =~= before.undo.push(p@).drop_first());
            }
        }
    }

    /// Goes back to the project before the last edit; `false` where there is none.
    pub fn undo(&mut self, p: &mut Project) -> (done: bool)
        ensures
            done == old(self)@.can_undo(),
            final(self)@ == old(self)@.undone(old(p)@),
            final(p)@ == old(self)@.previous(old(p)@),
            !done ==> *final(p) == *old(p) && *final(self) == *old(self),
            old(self)@.bounded() ==> final(self)@.bounded(),
    {
        if self.undo.len() == 0 {
            return false;
        }
        let ghost before = self@;
        match self.undo.pop() {
            Some(prev) => {
                let mut other: Project = prev;
                std::mem::swap(p, &mut other);
                self.redo.push(other);
                proof {
                    assert(views(self.undo@) =~= before.undo.drop_last());
                    assert(views(self.redo@) =~= before.redo.push(old(p)@));
                }
                true
            },
            None => false,
        }
    }

    /// Goes forward to the project that the last undo left; `false` where there is
    /// none.
    pub fn redo(&mut self, p: &mut Project) -> (done: bool)
        ensures
            done == old(self)@.can_redo(),
            final(self)@ == old(self)@.redone(old(p)@),
            final(p)@ == old(self)@.next(old(p)@),
            !done ==> *final(p) == *old(p) && *final(self) == *old(self),
            old(self)@.bounded() ==> final(self)@.bounded(),
    {
        if self.redo.len() == 0 {
            return false;
        }
        let ghost before = self@;
        match self.redo.pop() {
            Some(next) => {
                let mut other: Project = next;
                std::mem::swap(p, &mut other);
                self.undo.push(other);
                proof {
                    assert(views(self.redo@) =~= before.redo.drop_last());
                    assert(views(self.undo@) =~= before.undo.push(old(p)@));
                }
                true
            },
            None => false,
        }
    }
}

/// Undo takes back an edit: after recording `before` and changing it to `after`,
/// going back gives `before`.
pub proof fn law_undo_takes_back(h: HistoryView, before: ProjectView, after: ProjectView)
    ensures
        h.recorded(before).can_undo(),
        h.recorded(before).previous(after) == before,
{
    let all = h.undo.push(before);
    if all.len() > UNDO_LIMIT {
        assert(all.drop_first().last() == before);
    }
}

/// Redo takes back an undo, and undo takes back a redo: both the project and the
/// history are as they were.
pub proof fn law_undo_and_redo_are_inverse(h: HistoryView, p: ProjectView)
    ensures
        h.can_undo() ==> h.undone(p).next(h.previous(p)) == p && h.undone(p).redone(h.previous(p))
            == h,
        h.can_redo() ==> h.redone(p).previous(h.next(p)) == p && h.redone(p).undone(h.next(p)) == h,
{
    if h.can_undo() {
        let back = h.undone(p).redone(h.previous(p));
        assert(back.undo =~= h.undo);
        assert(back.redo =~= h.redo);
    }
    if h.can_redo() {
        let back = h.redone(p).undone(h.next(p));
        assert(back.undo =~= h.undo);
        assert(back.redo =~= h.redo);
    }
}

/// A new edit leaves nothing to go forward to, and a history that keeps to the
/// limit keeps to it through every operation.
pub proof fn law_history_is_bounded(h: HistoryView, p: ProjectView)
    requires
        h.bounded(),
    ensures
        !h.recorded(p).can_redo(),
        h.recorded(p).bounded(),
        h.undone(p).bounded(),
        h.redone(p).bounded(),
{
}

} // verus!
