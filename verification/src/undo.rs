//! Undo and redo over whole snapshots of the notebook being edited.

use vstd::prelude::*;

verus! {

/// How many snapshots undo keeps.
pub const UNDO_DEPTH: usize = 60;

/// The snapshots behind and ahead of the current state.
pub struct UndoStack<T> {
    past: Vec<T>,
    future: Vec<T>,
}

/// The state of an edit history: snapshots behind, snapshots ahead, and the
/// state on screen.
pub type Timeline<T> = (Seq<T>, Seq<T>, T);

/// `past` with `before` laid on top, the oldest snapshot dropped beyond
/// `UNDO_DEPTH`.
pub open spec fn pushed<T>(past: Seq<T>, before: T) -> Seq<T> {
    if past.len() + 1 > UNDO_DEPTH {
        past.push(before).drop_first()
    } else {
        past.push(before)
    }
}

/// One step back: the last snapshot comes on screen and the screen goes
/// ahead; nothing when there is no snapshot behind.
pub open spec fn undo_step<T>(t: Timeline<T>) -> Option<Timeline<T>> {
    if t.0.len() == 0 {
        None
    } else {
        Some((t.0.drop_last(), t.1.push(t.2), t.0.last()))
    }
}

/// One step forward, the mirror of `undo_step`.
pub open spec fn redo_step<T>(t: Timeline<T>) -> Option<Timeline<T>> {
    if t.1.len() == 0 {
        None
    } else {
        Some((t.0.push(t.2), t.1.drop_last(), t.1.last()))
    }
}

impl<T> UndoStack<T> {
    /// The snapshots behind, oldest first.
    pub closed spec fn past(&self) -> Seq<T> {
        self.past@
    }

    /// The snapshots ahead, the next one last.
    pub closed spec fn future(&self) -> Seq<T> {
        self.future@
    }

    /// The history never holds more than `UNDO_DEPTH` snapshots in all.
    pub closed spec fn wf(&self) -> bool {
        self.past@.len() + self.future@.len() <= UNDO_DEPTH
    }

    /// Snapshots behind and ahead together never exceed `UNDO_DEPTH`.
    pub proof fn law_history_depth(&self)
        requires
            self.wf(),
        ensures
            self.past().len() + self.future().len() <= UNDO_DEPTH,
    {
    }

    pub fn new() -> (s: Self)
        ensures
            s.wf(),
            s.past() == Seq::<T>::empty(),
            s.future() == Seq::<T>::empty(),
    {
        UndoStack { past: Vec::new(), future: Vec::new() }
    }

    /// Records `before`, the state an edit is about to change. The redo
    /// branch is dropped.
    pub fn push(&mut self, before: T)
        requires
            old(self).wf(),
        ensures
            final(self).wf(),
            final(self).past() == pushed(old(self).past(), before),
            final(self).future() == Seq::<T>::empty(),
    {
        self.past.push(before);
        if self.past.len() > UNDO_DEPTH {
            self.past.remove(0);
            assert(self.past@ =~= pushed(old(self).past(), before));
        }
        self.future.clear();
    }

    /// Steps back: `current` takes the last snapshot and goes ahead.
    /// Returns whether there was a snapshot to step back to.
    pub fn undo(&mut self, current: &mut T) -> (r: bool)
        requires
            old(self).wf(),
        ensures
            final(self).wf(),
            r == (old(self).past().len() > 0),
            undo_step((old(self).past(), old(self).future(), *old(current))) == if r {
                Some((final(self).past(), final(self).future(), *final(current)))
            } else {
                None::<Timeline<T>>
            },
            !r ==> final(self).past() == old(self).past() && final(self).future() == old(
                self,
            ).future() && *final(current) == *old(current),
    {
        match self.past.pop() {
            None => false,
            Some(prev) => {
                let mut prev = prev;
                std::mem::swap(current, &mut prev);
                self.future.push(prev);
                true
            },
        }
    }

    /// Steps forward again: `current` takes the next snapshot and goes back.
    /// Returns whether there was a snapshot to step forward to.
    pub fn redo(&mut self, current: &mut T) -> (r: bool)
        requires
            old(self).wf(),
        ensures
            final(self).wf(),
            r == (old(self).future().len() > 0),
            redo_step((old(self).past(), old(self).future(), *old(current))) == if r {
                Some((final(self).past(), final(self).future(), *final(current)))
            } else {
                None::<Timeline<T>>
            },
            !r ==> final(self).past() == old(self).past() && final(self).future() == old(
                self,
            ).future() && *final(current) == *old(current),
    {
        match self.future.pop() {
            None => false,
            Some(next) => {
                let mut next = next;
                std::mem::swap(current, &mut next);
                self.past.push(next);
                true
            },
        }
    }

    /// Forgets every snapshot.
    pub fn clear(&mut self)
        ensures
            final(self).wf(),
            final(self).past() == Seq::<T>::empty(),
            final(self).future() == Seq::<T>::empty(),
    {
        self.past.clear();
        self.future.clear();
    }
}

impl<T> Default for UndoStack<T> {
    fn default() -> (s: Self)
        ensures
            s.wf(),
            s.past() == Seq::<T>::empty(),
            s.future() == Seq::<T>::empty(),
    {
        UndoStack::new()
    }
}

/// Undo right after recording `before` brings `before` back on screen, and
/// the screen state goes ahead for redo.
pub proof fn law_undo_after_push<T>(past: Seq<T>, before: T, current: T)
    ensures
        undo_step((pushed(past, before), Seq::<T>::empty(), current)) == Some(
            (
                if past.len() + 1 > UNDO_DEPTH {
                    past.drop_first()
                } else {
                    past
                },
                seq![current],
                before,
            ),
        ),
{
    let p = pushed(past, before);
    assert(p.last() == before);
    if past.len() + 1 > UNDO_DEPTH {
        assert(p.drop_last() =~= past.drop_first());
    } else {
        assert(p.drop_last() =~= past);
    }
    assert(Seq::<T>::empty().push(current) =~= seq![current]);
}

/// Redo undoes an undo: stepping back and forward again restores the
/// snapshots and the state on screen.
pub proof fn law_redo_after_undo<T>(t: Timeline<T>)
    ensures
        undo_step(t) matches Some(u) ==> redo_step(u) == Some(t),
{
    if t.0.len() > 0 {
        assert(t.0.drop_last().push(t.0.last()) =~= t.0);
        assert(t.1.push(t.2).drop_last() =~= t.1);
    }
}

/// Undo undoes a redo.
pub proof fn law_undo_after_redo<T>(t: Timeline<T>)
    ensures
        redo_step(t) matches Some(u) ==> undo_step(u) == Some(t),
{
    if t.1.len() > 0 {
        assert(t.1.drop_last().push(t.1.last()) =~= t.1);
        assert(t.0.push(t.2).drop_last() =~= t.0);
    }
}

} // verus!
