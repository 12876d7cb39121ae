//! The shared data model: changes, query keys, undo entries and errors, each
//! with the mathematical view that the contracts of the other modules speak of.

use vstd::prelude::*;

verus! {

/// Logical time within one file: the sequence number of a committed change.
pub type Offset = i64;

/// Why an operation was refused.
#[derive(Clone, Copy, Debug, PartialEq, Eq, Structural)]
pub enum Error {
    /// The request is malformed, for instance it lacks its prefix.
    InvalidArgument,
    /// The base offset of the request is older than the file's log.
    OffsetConflict,
    /// The file, object or offset is unknown.
    NotFound,
    /// There is no event to undo or to redo.
    EmptyStack,
    /// The log or the cache cannot be reached or cannot take writes.
    Unavailable,
    /// The history does not allow the inversion that was asked for.
    Inconsistent,
    /// A batch went through but no offset came back for it.
    OutOfRange,
}

/// Where a change comes from. It never alters what the operation means.
#[derive(Clone, Copy, Debug, PartialEq, Eq, Structural)]
pub enum ChangeSource {
    Normal,
    Undo,
    Redo,
}

/// The kind of operation that an undo entry remembers, without its payload.
#[derive(Clone, Copy, Debug, PartialEq, Eq, Structural)]
pub enum UndoChangeKind {
    Add,
    Modify,
    Delete,
    NotSet,
}

/// The whole state of one object, as opaque bytes. It is replaced as a whole
/// and never updated in part.
#[derive(Debug, PartialEq, Eq)]
pub struct ObjectRepresentation {
    pub data: Vec<u8>,
}

impl View for ObjectRepresentation {
    type V = Seq<u8>;

    open spec fn view(&self) -> Seq<u8> {
        self.data@
    }
}

impl Clone for ObjectRepresentation {
    fn clone(&self) -> (res: Self)
        ensures
            res@ == self@,
    {
        ObjectRepresentation { data: self.data.clone() }
    }
}

/// What a change does to its object.
#[derive(Debug, PartialEq, Eq)]
pub enum ChangeOp {
    Add(ObjectRepresentation),
    Modify(ObjectRepresentation),
    Delete,
}

/// The view of a [`ChangeOp`].
pub enum OpView {
    Add(Seq<u8>),
    Modify(Seq<u8>),
    Delete,
}

impl OpView {
    /// The representation that the object has once the operation is applied:
    /// none after a delete.
    pub open spec fn representation(self) -> Option<Seq<u8>> {
        match self {
            OpView::Add(r) => Some(r),
            OpView::Modify(r) => Some(r),
            OpView::Delete => None,
        }
    }

    /// The kind under which an undo entry remembers the operation.
    pub open spec fn kind(self) -> UndoChangeKind {
        match self {
            OpView::Add(_) => UndoChangeKind::Add,
            OpView::Modify(_) => UndoChangeKind::Modify,
            OpView::Delete => UndoChangeKind::Delete,
        }
    }
}

impl View for ChangeOp {
    type V = OpView;

    open spec fn view(&self) -> OpView {
        match *self {
            ChangeOp::Add(r) => OpView::Add(r@),
            ChangeOp::Modify(r) => OpView::Modify(r@),
            ChangeOp::Delete => OpView::Delete,
        }
    }
}

impl Clone for ChangeOp {
    fn clone(&self) -> (res: Self)
        ensures
            res@ == self@,
    {
        match self {
            ChangeOp::Add(r) => ChangeOp::Add(r.clone()),
            ChangeOp::Modify(r) => ChangeOp::Modify(r.clone()),
            ChangeOp::Delete => ChangeOp::Delete,
        }
    }
}

impl ChangeOp {
    /// The kind under which an undo entry remembers this operation.
    pub fn kind(&self) -> (res: UndoChangeKind)
        ensures
            res == self@.kind(),
    {
        match self {
            ChangeOp::Add(_) => UndoChangeKind::Add,
            ChangeOp::Modify(_) => UndoChangeKind::Modify,
            ChangeOp::Delete => UndoChangeKind::Delete,
        }
    }
}

/// A change that has not been given an offset yet.
#[derive(Debug, PartialEq, Eq)]
pub struct PendingChange {
    /// The object that is changed.
    pub id: String,
    /// The user on whose behalf the change was made up.
    pub user: String,
    pub source: ChangeSource,
    pub op: ChangeOp,
}

/// The view of a [`PendingChange`].
pub struct PendingView {
    pub id: Seq<char>,
    pub user: Seq<char>,
    pub source: ChangeSource,
    pub op: OpView,
}

impl View for PendingChange {
    type V = PendingView;

    open spec fn view(&self) -> PendingView {
        PendingView { id: self.id@, user: self.user@, source: self.source, op: self.op@ }
    }
}

impl Clone for PendingChange {
    fn clone(&self) -> (res: Self)
        ensures
            res@ == self@,
    {
        PendingChange {
            id: self.id.clone(),
            user: self.user.clone(),
            source: self.source,
            op: self.op.clone(),
        }
    }
}

/// A committed change. Once it has its offset it is never altered.
#[derive(Debug, PartialEq, Eq)]
pub struct Change {
    /// The object that is changed.
    pub id: String,
    /// The user who submitted the change.
    pub user: String,
    pub offset: Offset,
    pub source: ChangeSource,
    pub op: ChangeOp,
}

/// The view of a [`Change`].
pub struct ChangeView {
    pub id: Seq<char>,
    pub user: Seq<char>,
    pub offset: int,
    pub source: ChangeSource,
    pub op: OpView,
}

impl View for Change {
    type V = ChangeView;

    open spec fn view(&self) -> ChangeView {
        ChangeView {
            id: self.id@,
            user: self.user@,
            offset: self.offset as int,
            source: self.source,
            op: self.op@,
        }
    }
}

impl Clone for Change {
    fn clone(&self) -> (res: Self)
        ensures
            res@ == self@,
    {
        Change {
            id: self.id.clone(),
            user: self.user.clone(),
            offset: self.offset,
            source: self.source,
            op: self.op.clone(),
        }
    }
}

/// The key of a point-in-time query: the object as committed strictly before
/// `offset`.
#[derive(Debug, PartialEq, Eq)]
pub struct ObjectAtOffset {
    pub obj_id: String,
    pub offset: Offset,
}

/// The view of an [`ObjectAtOffset`].
pub struct QueryView {
    pub obj_id: Seq<char>,
    pub offset: int,
}

impl View for ObjectAtOffset {
    type V = QueryView;

    open spec fn view(&self) -> QueryView {
        QueryView { obj_id: self.obj_id@, offset: self.offset as int }
    }
}

/// What an undo event remembers of one committed change.
#[derive(Debug, PartialEq, Eq)]
pub struct UndoEntry {
    pub obj_id: String,
    pub offset: Offset,
    pub applied_op_kind: UndoChangeKind,
}

/// The view of an [`UndoEntry`].
pub struct EntryView {
    pub obj_id: Seq<char>,
    pub offset: int,
    pub applied_op_kind: UndoChangeKind,
}

impl View for UndoEntry {
    type V = EntryView;

    open spec fn view(&self) -> EntryView {
        EntryView {
            obj_id: self.obj_id@,
            offset: self.offset as int,
            applied_op_kind: self.applied_op_kind,
        }
    }
}

impl Clone for UndoEntry {
    fn clone(&self) -> (res: Self)
        ensures
            res@ == self@,
    {
        UndoEntry {
            obj_id: self.obj_id.clone(),
            offset: self.offset,
            applied_op_kind: self.applied_op_kind,
        }
    }
}

/// The views of the items of a sequence, in the same order.
pub open spec fn views<T: View>(s: Seq<T>) -> Seq<T::V> {
    Seq::new(s.len(), |i: int| s[i]@)
}

/// The view of an optional item.
pub open spec fn option_view<T: View>(o: Option<T>) -> Option<T::V> {
    match o {
        Some(t) => Some(t@),
        None => None,
    }
}

/// The views of the optional items of a sequence, in the same order.
pub open spec fn option_views<T: View>(s: Seq<Option<T>>) -> Seq<Option<T::V>> {
    Seq::new(s.len(), |i: int| option_view(s[i]))
}

} // verus!
