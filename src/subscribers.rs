//! The registry of subscribed tables: one cache per table name, at most one
//! subscription per name, and routing of updates by table name.
use vstd::prelude::*;
use crate::cache::{apply_update, update_batches_of, MyNoSqlDataReaderData, TableUpdate};
use crate::dispatcher::ObserverShape;
use crate::dispatcher::ChangeBatch;
use crate::keys::{compare_keys, KeyOrder};

verus! {

/// A second subscription to a table already subscribed.
pub struct SubscriptionConflict {
    pub table_name: String,
}

impl SubscriptionConflict {
    pub fn to_message(&self) -> (r: String)
        ensures
            r@ == "You already subscribed for the table "@ + self.table_name@,
    {
        let prefix = "You already subscribed for the table ";
        let mut r = String::from_str(prefix);
        r.append(self.table_name.as_str());
        r
    }
}

/// The caches of all subscribed tables, in order of subscription.
pub struct Subscribers<E> {
    subscribers: Vec<MyNoSqlDataReaderData<E>>,
}

/// Table names in order of subscription.
pub open spec fn names_of<E>(rs: Seq<MyNoSqlDataReaderData<E>>) -> Seq<Seq<char>> {
    rs.map_values(|r: MyNoSqlDataReaderData<E>| r.name())
}

/// What routing `update` to `table_name` leaves: the cache of that table, if
/// subscribed, has the update applied; every other cache is as it was.
pub open spec fn routed<E>(
    before: Seq<MyNoSqlDataReaderData<E>>,
    after: Seq<MyNoSqlDataReaderData<E>>,
    table_name: Seq<char>,
    update: TableUpdate<E>,
) -> bool {
    &&& after.len() == before.len()
    &&& names_of(after) == names_of(before)
    &&& !names_of(before).contains(table_name) ==> after == before
    &&& names_of(before).contains(table_name) ==> exists|i: int|
        0 <= i < before.len() && before[i].name() == table_name
            && #[trigger] after[i].model() == apply_update(before[i].model(), update)
            && after[i].notifying() == before[i].notifying() && after[i].merged()
            == before[i].merged() && (after[i].notifying() ==> after[i].pending()
            == before[i].pending() + update_batches_of(
            before[i].merged(),
            before[i].table(),
            after[i].table(),
            update,
        )) && (!after[i].notifying() ==> after[i].pending() == before[i].pending()) && forall|j: int|
            0 <= j < before.len() && j != i ==> #[trigger] after[j] == before[j]
}

impl<E> Subscribers<E> {
    pub closed spec fn readers(&self) -> Seq<MyNoSqlDataReaderData<E>> {
        self.subscribers@
    }

    pub open spec fn names(&self) -> Seq<Seq<char>> {
        names_of(self.readers())
    }

    /// Names are distinct and every cache is well formed.
    pub open spec fn wf(&self) -> bool {
        &&& forall|i: int, j: int|
            0 <= i < j < self.readers().len() ==> #[trigger] self.readers()[i].name()
                != #[trigger] self.readers()[j].name()
        &&& forall|i: int| 0 <= i < self.readers().len() ==> #[trigger] self.readers()[i].wf()
    }

    pub fn new() -> (r: Self)
        ensures
            r.wf(),
            r.readers() == Seq::<MyNoSqlDataReaderData<E>>::empty(),
    {
        Subscribers { subscribers: Vec::new() }
    }

    pub fn len(&self) -> (r: usize)
        ensures
            r == self.readers().len(),
    {
        self.subscribers.len()
    }

    /// The index of the cache for `table_name`.
    pub fn get(&self, table_name: &str) -> (r: Option<usize>)
        requires
            self.wf(),
        ensures
            r matches Some(i) ==> i < self.readers().len() && self.readers()[i as int].name()
                == table_name@,
            r is None ==> !self.names().contains(table_name@),
    {
        let mut i: usize = 0;
        while i < self.subscribers.len()
            invariant
                i <= self.readers().len(),
                forall|j: int| 0 <= j < i ==> #[trigger] self.readers()[j].name() != table_name@,
            decreases self.readers().len() - i,
        {
            if matches!(
                compare_keys(self.subscribers[i].get_table_name(), table_name),
                KeyOrder::Equal
            ) {
                return Some(i);
            }
            i = i + 1;
        }
        proof {
            if self.names().contains(table_name@) {
                let j = choose|j: int| 0 <= j < self.names().len() && self.names()[j] == table_name@;
                assert(self.readers()[j].name() == table_name@);
            }
        }
        None
    }

    /// Registers a new, not yet loaded cache for `table_name`; fails if that
    /// table is already subscribed. Returns the index of the new cache.
    pub fn create_subscriber(&mut self, table_name: &str) -> (r: Result<usize, SubscriptionConflict>)
        requires
            old(self).wf(),
        ensures
            final(self).wf(),
            old(self).names().contains(table_name@) <==> r is Err,
            r matches Err(e) ==> e.table_name@ == table_name@ && final(self).readers() == old(self).readers(),
            r matches Ok(i) ==> i == old(self).readers().len() && final(self).readers().len() == i
                + 1 && final(self).readers().drop_last() == old(self).readers()
                && final(self).readers()[i as int].name() == table_name@
                && final(self).readers()[i as int].model() is None
                && !final(self).readers()[i as int].notifying(),
    {
        match self.get(table_name) {
            Some(i) => {
                proof {
                    assert(self.names()[i as int] == table_name@);
                }
                Err(SubscriptionConflict { table_name: table_name.to_owned() })
            },
            None => {
                let ghost old_rs = self.subscribers@;
                let i = self.subscribers.len();
                self.subscribers.push(MyNoSqlDataReaderData::new(table_name));
                proof {
                    assert(self.subscribers@.drop_last() =~= old_rs);
                    assert forall|a: int, b: int|
                        0 <= a < b < self.readers().len() implies #[trigger] self.readers()[a].name()
                        != #[trigger] self.readers()[b].name() by {
                        if b == i {
                            assert(old(self).names()[a] == old_rs[a].name());
                        }
                    }
                }
                Ok(i)
            },
        }
    }

    /// The names of all subscribed tables, in order of subscription.
    pub fn get_tables_to_subscribe(&self) -> (r: Vec<String>)
        ensures
            r@.len() == self.names().len(),
            forall|i: int| 0 <= i < r@.len() ==> #[trigger] r@[i]@ == self.names()[i],
    {
        let mut r: Vec<String> = Vec::new();
        let mut i: usize = 0;
        while i < self.subscribers.len()
            invariant
                i <= self.readers().len(),
                r@.len() == i,
                forall|j: int| 0 <= j < i ==> #[trigger] r@[j]@ == self.names()[j],
            decreases self.readers().len() - i,
        {
            r.push(self.subscribers[i].get_table_name().to_owned());
            i = i + 1;
        }
        r
    }

    /// The cache at `index`.
    pub fn reader(&self, index: usize) -> (r: &MyNoSqlDataReaderData<E>)
        requires
            index < self.readers().len(),
        ensures
            *r == self.readers()[index as int],
    {
        &self.subscribers[index]
    }

    /// Takes the cache at `index` out of the list.
    fn take_reader(&mut self, index: usize) -> (r: MyNoSqlDataReaderData<E>)
        requires
            index < old(self).readers().len(),
        ensures
            r == old(self).readers()[index as int],
            final(self).readers() == old(self).readers().remove(index as int),
    {
        self.subscribers.remove(index)
    }

    /// Puts a cache back at `index`.
    fn put_reader(&mut self, index: usize, reader: MyNoSqlDataReaderData<E>)
        requires
            index <= old(self).readers().len(),
        ensures
            final(self).readers() == old(self).readers().insert(index as int, reader),
    {
        self.subscribers.insert(index, reader);
    }

    /// Starts queuing change batches for the table at `index`, shaped for the
    /// observer given; a queue already there is kept as it is.
    pub fn assign_callback(&mut self, index: usize, shape: ObserverShape)
        requires
            old(self).wf(),
            index < old(self).readers().len(),
        ensures
            final(self).wf(),
            final(self).readers().len() == old(self).readers().len(),
            final(self).readers()[index as int].notifying(),
            final(self).readers()[index as int].model() == old(self).readers()[index as int].model(),
            final(self).readers()[index as int].pending() == old(self).readers()[index as int].pending(),
            !old(self).readers()[index as int].notifying() ==> final(self).readers()[index as int].merged()
                == (shape == ObserverShape::TwoWay),
            old(self).readers()[index as int].notifying() ==> final(self).readers()[index as int].merged()
                == old(self).readers()[index as int].merged(),
            forall|j: int|
                0 <= j < old(self).readers().len() && j != index ==> #[trigger] final(self).readers()[j] == old(self).readers()[j],
            final(self).names() == old(self).names(),
    {
        assert(old(self).readers()[index as int].wf());
        let mut r = self.take_reader(index);
        r.assign_callback(shape);
        self.put_reader(index, r);
        proof {
            self.lemma_replaced(*old(self), index as int);
        }
    }

    /// Takes the oldest waiting batch of the table at `index`.
    pub fn pop_event(&mut self, index: usize) -> (r: Option<ChangeBatch<E>>)
        requires
            old(self).wf(),
            index < old(self).readers().len(),
        ensures
            final(self).wf(),
            final(self).names() == old(self).names(),
            final(self).readers().len() == old(self).readers().len(),
            final(self).readers()[index as int].model() == old(self).readers()[index as int].model(),
            final(self).readers()[index as int].notifying() == old(self).readers()[index as int].notifying(),
            final(self).readers()[index as int].merged() == old(self).readers()[index as int].merged(),
            old(self).readers()[index as int].pending().len() > 0 ==> (r matches Some(b) && b@
                == old(self).readers()[index as int].pending()[0]
                && final(self).readers()[index as int].pending() == old(self).readers()[index as int].pending().drop_first()),
            old(self).readers()[index as int].pending().len() == 0 ==> r is None
                && final(self).readers()[index as int].pending() == old(self).readers()[index as int].pending(),
            forall|j: int|
                0 <= j < old(self).readers().len() && j != index ==> #[trigger] final(self).readers()[j] == old(self).readers()[j],
    {
        assert(old(self).readers()[index as int].wf());
        let mut rd = self.take_reader(index);
        let r = rd.pop_event();
        self.put_reader(index, rd);
        proof {
            self.lemma_replaced(*old(self), index as int);
        }
        r
    }

    proof fn lemma_replaced(&self, prev: Self, index: int)
        requires
            prev.wf(),
            0 <= index < prev.readers().len(),
            self.readers() == prev.readers().remove(index).insert(index, self.readers()[index]),
            self.readers()[index].name() == prev.readers()[index].name(),
            self.readers()[index].wf(),
        ensures
            self.wf(),
            self.readers().len() == prev.readers().len(),
            forall|j: int|
                0 <= j < prev.readers().len() && j != index ==> #[trigger] self.readers()[j]
                    == prev.readers()[j],
            self.names() == prev.names(),
    {
        assert forall|j: int| 0 <= j < prev.readers().len() && j != index implies #[trigger] self.readers()[j]
            == prev.readers()[j] by {
            if j < index {
                assert(self.readers()[j] == prev.readers().remove(index)[j]);
            } else {
                assert(self.readers()[j] == prev.readers().remove(index)[j - 1]);
            }
        }
        assert forall|a: int, b: int|
            0 <= a < b < self.readers().len() implies #[trigger] self.readers()[a].name()
            != #[trigger] self.readers()[b].name() by {
            assert(prev.readers()[a].name() != prev.readers()[b].name());
        }
        assert(self.names() =~= prev.names());
    }

    /// Hands an update to the cache of `table_name`; an update for a table
    /// nobody subscribed to is dropped. Returns whether a cache took it.
    pub fn route(&mut self, table_name: &str, update: TableUpdate<E>) -> (r: bool)
        requires
            old(self).wf(),
        ensures
            final(self).wf(),
            routed(old(self).readers(), final(self).readers(), table_name@, update),
            final(self).names() == old(self).names(),
            final(self).readers().len() == old(self).readers().len(),
            r == old(self).names().contains(table_name@),
            !r ==> final(self).readers() == old(self).readers(),
            r ==> exists|i: int|
                0 <= i < old(self).readers().len() && old(self).readers()[i].name() == table_name@
                    && #[trigger] final(self).readers()[i].model() == apply_update(
                    old(self).readers()[i].model(),
                    update,
                ) && final(self).readers()[i].notifying() == old(self).readers()[i].notifying()
                    && forall|j: int|
                    0 <= j < old(self).readers().len() && j != i ==> #[trigger] final(self).readers()[j] == old(self).readers()[j],
    {
        match self.get(table_name) {
            Some(i) => {
                assert(old(self).readers()[i as int].wf());
                let mut rd = self.take_reader(i);
                rd.apply(update);
                self.put_reader(i, rd);
                proof {
                    self.lemma_replaced(*old(self), i as int);
                    assert(old(self).names()[i as int] == table_name@);
                    assert(final(self).readers()[i as int].model() == apply_update(
                        old(self).readers()[i as int].model(),
                        update,
                    ));
                }
                true
            },
            None => false,
        }
    }
}

} // verus!
