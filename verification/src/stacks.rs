//! The undo and redo stacks of one user in one file. An event is the unit of
//! undo: the entries recorded between two beginnings.

use vstd::prelude::*;
use crate::model::{views, ChangeSource, EntryView, Error, UndoEntry};

verus! {

/// An undo event: entries in the order in which their changes were committed.
pub type UndoEvent = Vec<UndoEntry>;

/// The two stacks as mathematics; the last event of a stack is its top.
pub struct StacksView {
    pub undo: Seq<Seq<EntryView>>,
    pub redo: Seq<Seq<EntryView>>,
    /// Whether the top of the undo stack still takes entries.
    pub undo_open: bool,
    /// Whether the top of the redo stack still takes entries.
    pub redo_open: bool,
}

/// A stack after one more entry: the entry joins the top event where that is
/// open, and starts a new event on top where it is not.
pub open spec fn spec_extend(stack: Seq<Seq<EntryView>>, open: bool, entry: EntryView) -> Seq<
    Seq<EntryView>,
> {
    if open && stack.len() > 0 {
        stack.drop_last().push(stack.last().push(entry))
    } else {
        stack.push(seq![entry])
    }
}

impl StacksView {
    /// No events, nothing open.
    pub open spec fn empty() -> StacksView {
        StacksView { undo: Seq::empty(), redo: Seq::empty(), undo_open: false, redo_open: false }
    }

    /// No event on either stack is empty.
    pub open spec fn wf(self) -> bool {
        &&& forall|i: int| 0 <= i < self.undo.len() ==> (#[trigger] self.undo[i]).len() > 0
        &&& forall|i: int| 0 <= i < self.redo.len() ==> (#[trigger] self.redo[i]).len() > 0
    }

    /// After the beginning of an event: the stacks are as before, and the next
    /// entry will start a new event.
    pub open spec fn begin(self) -> StacksView {
        StacksView { undo: self.undo, redo: self.redo, undo_open: false, redo_open: false }
    }

    /// After one committed change was recorded. What an undo committed can be
    /// redone, so it goes to the redo stack; everything else can be undone and
    /// goes to the undo stack.
    pub open spec fn record(self, entry: EntryView, source: ChangeSource) -> StacksView {
        if source == ChangeSource::Undo {
            StacksView {
                undo: self.undo,
                redo: spec_extend(self.redo, self.redo_open, entry),
                undo_open: self.undo_open,
                redo_open: true,
            }
        } else {
            StacksView {
                undo: spec_extend(self.undo, self.undo_open, entry),
                redo: self.redo,
                undo_open: true,
                redo_open: self.redo_open,
            }
        }
    }

    /// After the top of the undo stack was taken off.
    pub open spec fn pop_undo(self) -> StacksView {
        StacksView { undo: self.undo.drop_last(), redo: self.redo, undo_open: false, redo_open: false }
    }

    /// After the top of the redo stack was taken off.
    pub open spec fn pop_redo(self) -> StacksView {
        StacksView { undo: self.undo, redo: self.redo.drop_last(), undo_open: false, redo_open: false }
    }
}

/// Stacks without an empty event stay so through every step: a beginning, a
/// recorded entry, and the taking of an event off either stack.
pub proof fn lemma_no_empty_event(stacks: StacksView, entry: EntryView, source: ChangeSource)
    requires
        stacks.wf(),
    ensures
        StacksView::empty().wf(),
        stacks.begin().wf(),
        stacks.record(entry, source).wf(),
        stacks.undo.len() > 0 ==> stacks.pop_undo().wf(),
        stacks.redo.len() > 0 ==> stacks.pop_redo().wf(),
{
    let recorded = stacks.record(entry, source);
    assert forall|i: int| 0 <= i < recorded.undo.len() implies (#[trigger] recorded.undo[i]).len() > 0 by {
        if i < stacks.undo.len() {
            assert(stacks.undo[i].len() > 0);
        }
    }
    assert forall|i: int| 0 <= i < recorded.redo.len() implies (#[trigger] recorded.redo[i]).len() > 0 by {
        if i < stacks.redo.len() {
            assert(stacks.redo[i].len() > 0);
        }
    }
    if stacks.undo.len() > 0 {
        assert forall|i: int| 0 <= i < stacks.pop_undo().undo.len() implies (
        #[trigger] stacks.pop_undo().undo[i]).len() > 0 by {
            assert(stacks.undo[i].len() > 0);
        }
    }
    if stacks.redo.len() > 0 {
        assert forall|i: int| 0 <= i < stacks.pop_redo().redo.len() implies (
        #[trigger] stacks.pop_redo().redo[i]).len() > 0 by {
            assert(stacks.redo[i].len() > 0);
        }
    }
}

/// The views of the events of a stack, bottom first.
pub open spec fn spec_events(stack: Seq<UndoEvent>) -> Seq<Seq<EntryView>> {
    Seq::new(stack.len(), |i: int| views(stack[i]@))
}

/// The two stacks of one user in one file.
pub struct UserStacks {
    undo: Vec<UndoEvent>,
    redo: Vec<UndoEvent>,
    undo_open: bool,
    redo_open: bool,
}

impl View for UserStacks {
    type V = StacksView;

    closed spec fn view(&self) -> StacksView {
        StacksView {
            undo: spec_events(self.undo@),
            redo: spec_events(self.redo@),
            undo_open: self.undo_open,
            redo_open: self.redo_open,
        }
    }
}

/// Puts an entry on a stack: into the top event where that is open, as a new
/// event where it is not.
fn extend(stack: &mut Vec<UndoEvent>, open: bool, entry: UndoEntry)
    ensures
        spec_events(final(stack)@) == spec_extend(spec_events(old(stack)@), open, entry@),
{
    if open && stack.len() > 0 {
        let top = stack.len() - 1;
        stack[top].push(entry);
        proof {
            let before = spec_events(old(stack)@);
            assert(views(stack[top as int]@) =~= before.last().push(entry@));
            assert(spec_events(stack@) =~= before.drop_last().push(before.last().push(entry@)));
        }
    } else {
        let mut event: UndoEvent = Vec::new();
        event.push(entry);
        stack.push(event);
        proof {
            assert(views(event@) =~= seq![entry@]);
            assert(spec_events(stack@) =~= spec_events(old(stack)@).push(seq![entry@]));
        }
    }
}

/// A copy of an event, entry by entry.
pub fn copy_event(event: &UndoEvent) -> (res: UndoEvent)
    ensures
        views(res@) == views(event@),
{
    let mut res: UndoEvent = Vec::new();
    let mut i: usize = 0;
    while i < event.len()
        invariant
            i <= event.len(),
            res.len() == i,
            forall|j: int| 0 <= j < i ==> (#[trigger] res@[j])@ == event@[j]@,
        decreases event.len() - i,
    {
        res.push(event[i].clone());
        i += 1;
    }
    assert(views(res@) =~= views(event@));
    res
}

impl UserStacks {
    /// Two empty stacks.
    pub fn new() -> (res: Self)
        ensures
            res@ == StacksView::empty(),
    {
        let res = UserStacks { undo: Vec::new(), redo: Vec::new(), undo_open: false, redo_open: false };
        proof {
            assert(res@.undo =~= Seq::<Seq<EntryView>>::empty());
            assert(res@.redo =~= Seq::<Seq<EntryView>>::empty());
        }
        res
    }

    /// Marks the beginning of an event: the next recorded entry starts a new
    /// one.
    pub fn begin(&mut self)
        ensures
            final(self)@ == old(self)@.begin(),
    {
        self.undo_open = false;
        self.redo_open = false;
    }

    /// Records one committed change.
    pub fn record(&mut self, entry: UndoEntry, source: ChangeSource)
        ensures
            final(self)@ == old(self)@.record(entry@, source),
    {
        match source {
            ChangeSource::Undo => {
                extend(&mut self.redo, self.redo_open, entry);
                self.redo_open = true;
            },
            _ => {
                extend(&mut self.undo, self.undo_open, entry);
                self.undo_open = true;
            },
        }
    }

    /// Takes the latest event off the undo stack. With nothing to undo, both
    /// stacks stay as they are.
    pub fn pop_undo(&mut self) -> (res: Result<UndoEvent, Error>)
        ensures
            match res {
                Ok(event) => old(self)@.undo.len() > 0 && views(event@) == old(self)@.undo.last() && final(self)@ == old(self)@.pop_undo(),
                Err(e) => e == Error::EmptyStack && old(self)@.undo.len() == 0 && *final(self) == *old(self),
            },
    {
        if self.undo.len() == 0 {
            return Err(Error::EmptyStack);
        }
        match self.undo.pop() {
            Some(event) => {
                self.undo_open = false;
                self.redo_open = false;
                proof {
                    assert(spec_events(self.undo@) =~= spec_events(old(self).undo@).drop_last());
                    assert(spec_events(old(self).undo@).last() == views(event@));
                }
                Ok(event)
            },
            None => Err(Error::EmptyStack),
        }
    }

    /// Takes the latest event off the redo stack. With nothing to redo, both
    /// stacks stay as they are.
    pub fn pop_redo(&mut self) -> (res: Result<UndoEvent, Error>)
        ensures
            match res {
                Ok(event) => old(self)@.redo.len() > 0 && views(event@) == old(self)@.redo.last() && final(self)@ == old(self)@.pop_redo(),
                Err(e) => e == Error::EmptyStack && old(self)@.redo.len() == 0 && *final(self) == *old(self),
            },
    {
        if self.redo.len() == 0 {
            return Err(Error::EmptyStack);
        }
        match self.redo.pop() {
            Some(event) => {
                self.undo_open = false;
                self.redo_open = false;
                proof {
                    assert(spec_events(self.redo@) =~= spec_events(old(self).redo@).drop_last());
                    assert(spec_events(old(self).redo@).last() == views(event@));
                }
                Ok(event)
            },
            None => Err(Error::EmptyStack),
        }
    }

    /// A copy of the event that an undo would take back, if there is one.
    pub fn top_undo(&self) -> (res: Option<UndoEvent>)
        ensures
            match res {
                Some(event) => self@.undo.len() > 0 && views(event@) == self@.undo.last(),
                None => self@.undo.len() == 0,
            },
    {
        if self.undo.len() == 0 {
            None
        } else {
            Some(copy_event(&self.undo[self.undo.len() - 1]))
        }
    }

    /// A copy of the event that a redo would bring back, if there is one.
    pub fn top_redo(&self) -> (res: Option<UndoEvent>)
        ensures
            match res {
                Some(event) => self@.redo.len() > 0 && views(event@) == self@.redo.last(),
                None => self@.redo.len() == 0,
            },
    {
        if self.redo.len() == 0 {
            None
        } else {
            Some(copy_event(&self.redo[self.redo.len() - 1]))
        }
    }

    /// How many events can be undone.
    pub fn undo_depth(&self) -> (res: usize)
        ensures
            res == self@.undo.len(),
    {
        self.undo.len()
    }

    /// How many events can be redone.
    pub fn redo_depth(&self) -> (res: usize)
        ensures
            res == self@.redo.len(),
    {
        self.redo.len()
    }
}

} // verus!
