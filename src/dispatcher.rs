//! Delivery of change batches to the application: an ordered queue per table,
//! filled by the cache and drained by whoever runs the callbacks.
use std::sync::Arc;
use vstd::prelude::*;
use crate::entity::{share_arc_of, DbRow};

verus! {

/// How a row changed.
#[derive(Clone, Copy, PartialEq, Eq, Structural, Debug)]
pub enum ChangeKind {
    Added,
    Updated,
    /// Added or updated, for an observer that does not tell the two apart.
    InsertedOrReplaced,
    Deleted,
}

/// Which kind of observer the batches are for.
#[derive(Clone, Copy, PartialEq, Eq, Structural, Debug)]
pub enum ObserverShape {
    /// Inserted-or-replaced and deleted: one merged batch per partition for
    /// the rows that are there now.
    TwoWay,
    /// Added, updated and deleted.
    ThreeWay,
}

/// All rows of one kind of change within one partition.
pub struct ChangeBatch<E> {
    pub kind: ChangeKind,
    pub partition_key: String,
    pub rows: Vec<DbRow<E>>,
}

/// A batch as a value: its kind, its partition key and its rows.
pub type BatchView<E> = (ChangeKind, Seq<char>, Seq<DbRow<E>>);

impl<E> View for ChangeBatch<E> {
    type V = BatchView<E>;

    open spec fn view(&self) -> BatchView<E> {
        (self.kind, self.partition_key@, self.rows@)
    }
}

pub open spec fn batch_views<E>(s: Seq<ChangeBatch<E>>) -> Seq<BatchView<E>> {
    s.map_values(|b: ChangeBatch<E>| b@)
}

/// The queue of batches that wait for delivery, oldest first.
pub struct MyNoSqlDataReaderCallBacksPusher<E> {
    shape: ObserverShape,
    events: Vec<ChangeBatch<E>>,
}

impl<E> MyNoSqlDataReaderCallBacksPusher<E> {
    pub closed spec fn pending(&self) -> Seq<BatchView<E>> {
        batch_views(self.events@)
    }

    /// Whether added and updated rows go out as one merged batch.
    pub closed spec fn merged(&self) -> bool {
        self.shape == ObserverShape::TwoWay
    }

    pub fn new(shape: ObserverShape) -> (r: Self)
        ensures
            r.pending() == Seq::<BatchView<E>>::empty(),
            r.merged() == (shape == ObserverShape::TwoWay),
    {
        let r = MyNoSqlDataReaderCallBacksPusher { shape, events: Vec::new() };
        assert(r.pending() =~= Seq::<BatchView<E>>::empty());
        r
    }

    /// Puts a batch at the back of the queue; never waits.
    pub fn push(&mut self, batch: ChangeBatch<E>)
        ensures
            final(self).pending() == old(self).pending().push(batch@),
            final(self).merged() == old(self).merged(),
    {
        let ghost v = batch@;
        self.events.push(batch);
        assert(self.pending() =~= old(self).pending().push(v));
    }

    /// Takes the oldest batch out of the queue.
    pub fn pop(&mut self) -> (r: Option<ChangeBatch<E>>)
        ensures
            final(self).merged() == old(self).merged(),
            old(self).pending().len() == 0 ==> r is None && final(self).pending() == old(
                self,
            ).pending(),
            old(self).pending().len() > 0 ==> (r matches Some(b) && b@ == old(self).pending()[0]
                && final(self).pending() == old(self).pending().drop_first()),
    {
        if self.events.len() == 0 {
            None
        } else {
            let b = self.events.remove(0);
            assert(self.pending() =~= old(self).pending().drop_first());
            Some(b)
        }
    }

    pub fn is_merged(&self) -> (r: bool)
        ensures
            r == self.merged(),
    {
        match self.shape {
            ObserverShape::TwoWay => true,
            ObserverShape::ThreeWay => false,
        }
    }

    pub fn len(&self) -> (r: usize)
        ensures
            r == self.pending().len(),
    {
        self.events.len()
    }
}

/// An application observer that tells inserted-or-replaced rows from deleted ones.
pub trait MyNoSqlDataReaderCallBacks<E> {
    fn inserted_or_replaced(&self, partition_key: &str, entities: Vec<Arc<E>>);

    fn deleted(&self, partition_key: &str, entities: Vec<Arc<E>>);
}

/// An application observer that tells added, updated and deleted rows apart.
pub trait MyNoSqlDataReaderChangeCallBacks<E> {
    fn added(&self, partition_key: &str, entities: Vec<Arc<E>>);

    fn updated(&self, partition_key: &str, entities: Vec<Arc<E>>);

    fn deleted(&self, partition_key: &str, entities: Vec<Arc<E>>);
}

/// The entities of the rows, in order.
pub fn entities_of<E>(rows: &Vec<DbRow<E>>) -> (r: Vec<Arc<E>>)
    ensures
        r@.len() == rows@.len(),
        forall|i: int| 0 <= i < rows@.len() ==> #[trigger] r@[i] == rows@[i].entity,
{
    let mut r: Vec<Arc<E>> = Vec::new();
    let mut i: usize = 0;
    while i < rows.len()
        invariant
            i <= rows@.len(),
            r@.len() == i,
            forall|j: int| 0 <= j < i ==> #[trigger] r@[j] == rows@[j].entity,
        decreases rows@.len() - i,
    {
        r.push(share_arc_of(&rows[i]));
        i = i + 1;
    }
    r
}

/// Hands one batch to a two-way observer: added and updated rows both go to
/// `inserted_or_replaced`.
pub fn deliver<E, C: MyNoSqlDataReaderCallBacks<E>>(callbacks: &C, batch: ChangeBatch<E>) {
    let entities = entities_of(&batch.rows);
    match batch.kind {
        ChangeKind::Added | ChangeKind::Updated | ChangeKind::InsertedOrReplaced => {
            callbacks.inserted_or_replaced(batch.partition_key.as_str(), entities)
        },
        ChangeKind::Deleted => callbacks.deleted(batch.partition_key.as_str(), entities),
    }
}

/// Hands one batch to a three-way observer. Its queue holds no merged
/// batches; one that comes anyway goes to `updated`.
pub fn deliver_changes<E, C: MyNoSqlDataReaderChangeCallBacks<E>>(
    callbacks: &C,
    batch: ChangeBatch<E>,
) {
    let entities = entities_of(&batch.rows);
    match batch.kind {
        ChangeKind::Added => callbacks.added(batch.partition_key.as_str(), entities),
        ChangeKind::Updated | ChangeKind::InsertedOrReplaced => callbacks.updated(
            batch.partition_key.as_str(),
            entities,
        ),
        ChangeKind::Deleted => callbacks.deleted(batch.partition_key.as_str(), entities),
    }
}

/// Delivers every waiting batch, oldest first, and leaves the queue empty.
pub fn deliver_all<E, C: MyNoSqlDataReaderCallBacks<E>>(
    pusher: &mut MyNoSqlDataReaderCallBacksPusher<E>,
    callbacks: &C,
)
    ensures
        final(pusher).pending().len() == 0,
{
    while pusher.len() > 0
        decreases pusher.pending().len(),
    {
        match pusher.pop() {
            Some(b) => deliver(callbacks, b),
            None => {},
        }
    }
}

} // verus!
