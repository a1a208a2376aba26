//! The local replica of one table: mutations from the origin, reads for the
//! application, and the change batches each mutation queues for delivery.
use vstd::prelude::*;
use crate::diff::{
    batch_of, fresh_kind, partition_changes, rows_with_key_in, table_changes, trigger_partition_difference,
    trigger_table_difference,
};
use crate::dispatcher::{
    batch_views, BatchView, ChangeBatch, ChangeKind, MyNoSqlDataReaderCallBacksPusher, ObserverShape,
};
use crate::entity::{
    lookup, partition_or_empty, put_group, put_groups, put_in, remove_row, share_rows,
    DbPartition, DbRow, DbTable, TableModel,
};
use crate::sorted::{keyed_map, upsert_keyed};
use crate::builders::{filter_rows, partition_from_rows, select_by};

verus! {

/// A row to delete, named by its two keys.
pub struct DeleteRowTcpContract {
    pub partition_key: String,
    pub row_key: String,
}

/// A mutation of a table, as the origin sends it.
pub enum TableUpdate<E> {
    /// The whole table, grouped by partition.
    InitTable(Vec<DbPartition<E>>),
    /// One whole partition.
    InitPartition(String, Vec<DbRow<E>>),
    /// Rows to insert or replace, grouped by partition.
    UpdateRows(Vec<DbPartition<E>>),
    /// Rows to delete.
    DeleteRows(Vec<DeleteRowTcpContract>),
}

/// The contents after one update.
pub open spec fn apply_update<E>(m: Option<TableModel<E>>, u: TableUpdate<E>) -> Option<TableModel<E>> {
    match u {
        TableUpdate::InitTable(groups) => Some(put_groups(TableModel::<E>::empty(), groups@)),
        TableUpdate::InitPartition(partition_key, rows) => Some(
            model_or_empty(m).insert(partition_key@, put_in(Map::empty(), rows@)),
        ),
        TableUpdate::UpdateRows(groups) => Some(put_groups(model_or_empty(m), groups@)),
        TableUpdate::DeleteRows(dels) => Some(remove_rows(model_or_empty(m), dels@)),
    }
}

/// The contents after the updates in turn.
pub open spec fn apply_updates<E>(m: Option<TableModel<E>>, us: Seq<TableUpdate<E>>) -> Option<
    TableModel<E>,
>
    decreases us.len(),
{
    if us.len() == 0 {
        m
    } else {
        apply_update(apply_updates(m, us.drop_last()), us.last())
    }
}

/// The model of a table that may not be loaded yet.
pub open spec fn model_of<E>(t: Option<DbTable<E>>) -> Option<TableModel<E>> {
    match t {
        Some(t) => Some(t.model()),
        None => None,
    }
}

/// The batches that one update queues, given the table before and after it.
pub open spec fn update_batches_of<E>(
    merged: bool,
    before: Option<DbTable<E>>,
    after: Option<DbTable<E>>,
    u: TableUpdate<E>,
) -> Seq<BatchView<E>> {
    match u {
        TableUpdate::InitTable(_) => table_changes(merged, generation(before), after->0.partitions@),
        TableUpdate::InitPartition(partition_key, _) => match partition_in(before, partition_key@) {
            Some(b) => partition_changes(
                merged,
                partition_key@,
                b.rows@,
                partition_in(after, partition_key@)->0.rows@,
            ),
            None => batch_of(
                fresh_kind(merged),
                partition_key@,
                partition_in(after, partition_key@)->0.rows@,
            ),
        },
        TableUpdate::UpdateRows(groups) => update_batches(
            merged,
            model_or_empty(model_of(before)),
            groups@,
        ),
        TableUpdate::DeleteRows(dels) => delete_batches(model_or_empty(model_of(before)), dels@),
    }
}

/// The model of a table that may not be loaded yet, read as empty.
pub open spec fn model_or_empty<E>(m: Option<TableModel<E>>) -> TableModel<E> {
    match m {
        Some(t) => t,
        None => Map::empty(),
    }
}

/// The partitions of a table that may not be loaded yet.
pub open spec fn generation<E>(t: Option<DbTable<E>>) -> Option<Seq<DbPartition<E>>> {
    match t {
        Some(t) => Some(t.partitions@),
        None => None,
    }
}

/// The partition under `partition_key` of a loaded table.
pub open spec fn partition_in<E>(t: Option<DbTable<E>>, partition_key: Seq<char>) -> Option<
    DbPartition<E>,
> {
    match t {
        Some(t) => if keyed_map(t.partitions@).contains_key(partition_key) {
            Some(keyed_map(t.partitions@)[partition_key])
        } else {
            None
        },
        None => None,
    }
}

/// The batches of one upserted group: for a two-way observer one
/// inserted-or-replaced batch with all of the group's rows in input order;
/// else the rows whose key the partition lacked, as added, then the others,
/// as updated.
pub open spec fn group_update_batches<E>(merged: bool, t: TableModel<E>, g: DbPartition<E>) -> Seq<
    BatchView<E>,
> {
    let p = partition_or_empty(t, g.partition_key@);
    if merged {
        batch_of(ChangeKind::InsertedOrReplaced, g.partition_key@, g.rows@)
    } else {
        batch_of(ChangeKind::Added, g.partition_key@, rows_with_key_in(g.rows@, p, false))
            + batch_of(ChangeKind::Updated, g.partition_key@, rows_with_key_in(g.rows@, p, true))
    }
}

/// The batches of upserting the groups in turn.
pub open spec fn update_batches<E>(merged: bool, t: TableModel<E>, groups: Seq<DbPartition<E>>) -> Seq<
    BatchView<E>,
>
    decreases groups.len(),
{
    if groups.len() == 0 {
        Seq::empty()
    } else {
        update_batches(merged, t, groups.drop_last()) + group_update_batches(
            merged,
            put_groups(t, groups.drop_last()),
            groups.last(),
        )
    }
}

/// The rows deleted in turn.
pub open spec fn remove_rows<E>(t: TableModel<E>, dels: Seq<DeleteRowTcpContract>) -> TableModel<E>
    decreases dels.len(),
{
    if dels.len() == 0 {
        t
    } else {
        let d = dels.last();
        remove_row(remove_rows(t, dels.drop_last()), d.partition_key@, d.row_key@)
    }
}

/// The last index of a batch for `partition_key`, or -1.
pub open spec fn group_index<E>(g: Seq<BatchView<E>>, partition_key: Seq<char>) -> int
    decreases g.len(),
{
    if g.len() == 0 {
        -1
    } else if g.last().1 == partition_key {
        g.len() - 1
    } else {
        group_index(g.drop_last(), partition_key)
    }
}

/// `row` added to the deleted batch of its partition, or a new batch for it.
pub open spec fn add_deleted<E>(g: Seq<BatchView<E>>, partition_key: Seq<char>, row: DbRow<E>) -> Seq<
    BatchView<E>,
> {
    let i = group_index(g, partition_key);
    if i >= 0 {
        g.update(i, (ChangeKind::Deleted, partition_key, g[i].2.push(row)))
    } else {
        g.push((ChangeKind::Deleted, partition_key, seq![row]))
    }
}

/// One deleted batch per partition that lost rows, in the order in which
/// partitions first lost one; each holds the rows removed, in order.
pub open spec fn delete_batches<E>(t: TableModel<E>, dels: Seq<DeleteRowTcpContract>) -> Seq<
    BatchView<E>,
>
    decreases dels.len(),
{
    if dels.len() == 0 {
        Seq::empty()
    } else {
        let d = dels.last();
        let g = delete_batches(t, dels.drop_last());
        match lookup(remove_rows(t, dels.drop_last()), d.partition_key@, d.row_key@) {
            Some(row) => add_deleted(g, d.partition_key@, row),
            None => g,
        }
    }
}

/// The cache of one subscribed table.
pub struct MyNoSqlDataReaderData<E> {
    table_name: String,
    entities: Option<DbTable<E>>,
    callbacks: Option<MyNoSqlDataReaderCallBacksPusher<E>>,
}

impl<E> MyNoSqlDataReaderData<E> {
    pub closed spec fn table(&self) -> Option<DbTable<E>> {
        self.entities
    }

    pub closed spec fn name(&self) -> Seq<char> {
        self.table_name@
    }

    /// Whether mutations queue change batches.
    pub closed spec fn notifying(&self) -> bool {
        self.callbacks is Some
    }

    /// The batches that wait for delivery, oldest first.
    pub closed spec fn pending(&self) -> Seq<BatchView<E>> {
        match self.callbacks {
            Some(c) => c.pending(),
            None => Seq::empty(),
        }
    }

    /// Whether batches are shaped for a two-way observer.
    pub closed spec fn merged(&self) -> bool {
        match self.callbacks {
            Some(c) => c.merged(),
            None => false,
        }
    }

    pub open spec fn wf(&self) -> bool {
        self.table() matches Some(t) ==> t.wf()
    }

    /// The contents: `None` until the first load.
    pub open spec fn model(&self) -> Option<TableModel<E>> {
        match self.table() {
            Some(t) => Some(t.model()),
            None => None,
        }
    }

    pub fn new(table_name: &str) -> (r: Self)
        ensures
            r.wf(),
            r.model() is None,
            r.name() == table_name@,
            !r.notifying(),
            r.pending() == Seq::<BatchView<E>>::empty(),
    {
        MyNoSqlDataReaderData { table_name: table_name.to_owned(), entities: None, callbacks: None }
    }

    pub fn get_table_name(&self) -> (r: &str)
        ensures
            r@ == self.name(),
    {
        self.table_name.as_str()
    }

    /// From now on each mutation queues the batches that describe it, shaped
    /// for the observer given. A second call keeps the queue and its shape.
    pub fn assign_callback(&mut self, shape: ObserverShape)
        ensures
            final(self).notifying(),
            final(self).table() == old(self).table(),
            final(self).name() == old(self).name(),
            final(self).pending() == old(self).pending(),
            !old(self).notifying() ==> final(self).merged() == (shape == ObserverShape::TwoWay),
            old(self).notifying() ==> final(self).merged() == old(self).merged(),
    {
        if self.callbacks.is_none() {
            self.callbacks = Some(MyNoSqlDataReaderCallBacksPusher::new(shape));
        }
    }

    /// Takes the oldest waiting batch.
    pub fn pop_event(&mut self) -> (r: Option<ChangeBatch<E>>)
        ensures
            final(self).table() == old(self).table(),
            final(self).name() == old(self).name(),
            final(self).notifying() == old(self).notifying(),
            final(self).merged() == old(self).merged(),
            old(self).pending().len() == 0 ==> r is None && final(self).pending() == old(
                self,
            ).pending(),
            old(self).pending().len() > 0 ==> (r matches Some(b) && b@ == old(self).pending()[0]
                && final(self).pending() == old(self).pending().drop_first()),
    {
        match self.callbacks.take() {
            Some(mut c) => {
                let r = c.pop();
                self.callbacks = Some(c);
                r
            },
            None => None,
        }
    }

    /// Takes the queue out, leaving none, so that it can be filled beside the table.
    fn take_pusher(&mut self) -> (r: Option<MyNoSqlDataReaderCallBacksPusher<E>>)
        ensures
            final(self).table() == old(self).table(),
            final(self).name() == old(self).name(),
            final(self).callbacks is None,
            r == old(self).callbacks,
    {
        self.callbacks.take()
    }

    /// Replaces the whole table by the groups given (a full load).
    pub fn init_table(&mut self, data: Vec<DbPartition<E>>)
        requires
            old(self).wf(),
        ensures
            final(self).wf(),
            final(self).model() == Some(put_groups(TableModel::<E>::empty(), data@)),
            final(self).name() == old(self).name(),
            final(self).notifying() == old(self).notifying(),
            final(self).merged() == old(self).merged(),
            final(self).notifying() ==> final(self).pending() == old(self).pending()
                + table_changes(
                old(self).merged(),
                generation(old(self).table()),
                final(self).table()->0.partitions@,
            ),
            !final(self).notifying() ==> final(self).pending() == old(self).pending(),
    {
        let mut t = DbTable::new();
        let mut i: usize = 0;
        assert(data@.take(0) =~= Seq::<DbPartition<E>>::empty());
        while i < data.len()
            invariant
                i <= data@.len(),
                t.wf(),
                t.model() == put_groups(TableModel::<E>::empty(), data@.take(i as int)),
            decreases data@.len() - i,
        {
            let _ = t.put_group(data[i].partition_key.as_str(), &data[i].rows);
            assert(data@.take(i as int + 1).drop_last() =~= data@.take(i as int));
            assert(data@.take(i as int + 1).last() == data@[i as int]);
            i = i + 1;
        }
        assert(data@.take(i as int) =~= data@);
        let before = self.entities.take();
        match self.take_pusher() {
            Some(mut c) => {
                match &before {
                    Some(b) => trigger_table_difference(&mut c, Some(b), &t),
                    None => trigger_table_difference(&mut c, None, &t),
                }
                self.callbacks = Some(c);
            },
            None => {},
        }
        self.entities = Some(t);
    }

    /// Replaces one partition by the rows given (keyed by their row keys);
    /// loads an empty table first where none was loaded.
    pub fn init_partition(&mut self, partition_key: &str, rows: Vec<DbRow<E>>)
        requires
            old(self).wf(),
        ensures
            final(self).wf(),
            final(self).model() == Some(
                model_or_empty(old(self).model()).insert(
                    partition_key@,
                    put_in(Map::empty(), rows@),
                ),
            ),
            final(self).name() == old(self).name(),
            final(self).notifying() == old(self).notifying(),
            final(self).merged() == old(self).merged(),
            final(self).notifying() ==> final(self).pending() == old(self).pending() + match partition_in(
                old(self).table(),
                partition_key@,
            ) {
                Some(b) => partition_changes(
                    old(self).merged(),
                    partition_key@,
                    b.rows@,
                    partition_in(final(self).table(), partition_key@)->0.rows@,
                ),
                None => batch_of(
                    fresh_kind(old(self).merged()),
                    partition_key@,
                    partition_in(final(self).table(), partition_key@)->0.rows@,
                ),
            },
            !final(self).notifying() ==> final(self).pending() == old(self).pending(),
    {
        let mut t = match self.entities.take() {
            Some(t) => t,
            None => DbTable::new(),
        };
        let ghost t0 = t;
        let before = t.take_partition(partition_key);
        let mut part = DbPartition { partition_key: partition_key.to_owned(), rows: Vec::new() };
        assert(part.model() =~= Map::empty());
        let mut i: usize = 0;
        assert(rows@.take(0) =~= Seq::<DbRow<E>>::empty());
        while i < rows.len()
            invariant
                i <= rows@.len(),
                part.wf(),
                part.partition_key@ == partition_key@,
                part.model() == put_in(Map::empty(), rows@.take(i as int)),
            decreases rows@.len() - i,
        {
            let row = rows[i].share();
            let _ = upsert_keyed(&mut part.rows, row);
            assert(rows@.take(i as int + 1).drop_last() =~= rows@.take(i as int));
            assert(rows@.take(i as int + 1).last() == rows@[i as int]);
            i = i + 1;
        }
        assert(rows@.take(i as int) =~= rows@);
        let now = part.share();
        t.put_partition(part);
        proof {
            crate::sorted::lemma_keyed_map_all(t0.partitions@);
            assert(t.model() =~= model_or_empty(old(self).model()).insert(
                partition_key@,
                put_in(Map::empty(), rows@),
            ));
        }
        assert(keyed_map(t.partitions@).contains_key(partition_key@));
        match self.take_pusher() {
            Some(mut c) => {
                match &before {
                    Some(b) => trigger_partition_difference(&mut c, partition_key, Some(b), &now),
                    None => trigger_partition_difference(&mut c, partition_key, None, &now),
                }
                self.callbacks = Some(c);
            },
            None => {},
        }
        self.entities = Some(t);
    }

    /// Upserts each group into its partition, creating partitions as needed;
    /// an existing row is replaced whatever its time stamp.
    pub fn update_rows(&mut self, data: Vec<DbPartition<E>>)
        requires
            old(self).wf(),
        ensures
            final(self).wf(),
            final(self).model() == Some(put_groups(model_or_empty(old(self).model()), data@)),
            final(self).name() == old(self).name(),
            final(self).notifying() == old(self).notifying(),
            final(self).merged() == old(self).merged(),
            final(self).notifying() ==> final(self).pending() == old(self).pending()
                + update_batches(old(self).merged(), model_or_empty(old(self).model()), data@),
            !final(self).notifying() ==> final(self).pending() == old(self).pending(),
    {
        let mut t = match self.entities.take() {
            Some(t) => t,
            None => DbTable::new(),
        };
        let ghost m0 = t.model();
        assert(m0 == model_or_empty(old(self).model()));
        let mut pusher = self.take_pusher();
        let ghost q0 = old(self).pending();
        let mut i: usize = 0;
        assert(data@.take(0) =~= Seq::<DbPartition<E>>::empty());
        let ghost mg = old(self).merged();
        assert(q0 + update_batches(mg, m0, data@.take(0)) =~= q0);
        while i < data.len()
            invariant
                i <= data@.len(),
                t.wf(),
                t.model() == put_groups(m0, data@.take(i as int)),
                pusher is Some == old(self).callbacks is Some,
                q0 == old(self).pending(),
                old(self).callbacks matches Some(c0) ==> q0 == c0.pending(),
                mg == old(self).merged(),
                old(self).callbacks matches Some(c0) ==> mg == c0.merged(),
                pusher matches Some(c) ==> c.merged() == mg,
                pusher matches Some(c) ==> c.pending() == q0 + update_batches(
                    mg,
                    m0,
                    data@.take(i as int),
                ),
            decreases data@.len() - i,
        {
            let g = &data[i];
            let ghost tm = t.model();
            let prev = t.put_group(g.partition_key.as_str(), &g.rows);
            match pusher {
                Some(mut c) => {
                    let empty: Vec<DbRow<E>> = Vec::new();
                    let existing = match &prev {
                        Some(p) => &p.rows,
                        None => &empty,
                    };
                    proof {
                        assert(keyed_map(existing@) == partition_or_empty(tm, g.partition_key@));
                    }
                    let ghost c0 = c.pending();
                    if c.is_merged() {
                        let all = share_rows(&g.rows);
                        push_nonempty(&mut c, ChangeKind::InsertedOrReplaced, g.partition_key.as_str(), all);
                    } else {
                        let added = crate::diff::select_rows(&g.rows, existing, false);
                        let updated = crate::diff::select_rows(&g.rows, existing, true);
                        push_nonempty(&mut c, ChangeKind::Added, g.partition_key.as_str(), added);
                        push_nonempty(&mut c, ChangeKind::Updated, g.partition_key.as_str(), updated);
                    }
                    assert(c.pending() =~= c0 + group_update_batches(mg, tm, *g));
                    pusher = Some(c);
                },
                None => {},
            }
            proof {
                assert(data@.take(i as int + 1).drop_last() =~= data@.take(i as int));
                assert(data@.take(i as int + 1).last() == data@[i as int]);
                if pusher is Some {
                    assert(pusher->0.pending() =~= q0 + update_batches(mg, m0, data@.take(i as int + 1)));
                }
            }
            i = i + 1;
        }
        assert(data@.take(i as int) =~= data@);
        self.callbacks = pusher;
        self.entities = Some(t);
    }

    /// Deletes the rows named; a partition left without rows is removed.
    pub fn delete_rows(&mut self, rows_to_delete: Vec<DeleteRowTcpContract>)
        requires
            old(self).wf(),
        ensures
            final(self).wf(),
            final(self).model() == Some(
                remove_rows(model_or_empty(old(self).model()), rows_to_delete@),
            ),
            final(self).name() == old(self).name(),
            final(self).notifying() == old(self).notifying(),
            final(self).merged() == old(self).merged(),
            final(self).notifying() ==> final(self).pending() == old(self).pending()
                + delete_batches(model_or_empty(old(self).model()), rows_to_delete@),
            !final(self).notifying() ==> final(self).pending() == old(self).pending(),
    {
        let mut t = match self.entities.take() {
            Some(t) => t,
            None => DbTable::new(),
        };
        let ghost m0 = t.model();
        let ghost dels = rows_to_delete@;
        let mut groups: Vec<ChangeBatch<E>> = Vec::new();
        let mut i: usize = 0;
        assert(dels.take(0) =~= Seq::<DeleteRowTcpContract>::empty());
        while i < rows_to_delete.len()
            invariant
                i <= dels.len(),
                dels == rows_to_delete@,
                t.wf(),
                t.model() == remove_rows(m0, dels.take(i as int)),
                batch_views(groups@) == delete_batches(m0, dels.take(i as int)),
            decreases dels.len() - i,
        {
            let d = &rows_to_delete[i];
            let prev = t.delete_row(d.partition_key.as_str(), d.row_key.as_str());
            match prev {
                Some(row) => add_deleted_row(&mut groups, d.partition_key.as_str(), row),
                None => {},
            }
            assert(dels.take(i as int + 1).drop_last() =~= dels.take(i as int));
            assert(dels.take(i as int + 1).last() == dels[i as int]);
            i = i + 1;
        }
        assert(dels.take(i as int) =~= dels);
        match self.take_pusher() {
            Some(mut c) => {
                let ghost c0 = c.pending();
                let ghost cm = c.merged();
                let mut k: usize = 0;
                let n = groups.len();
                let ghost gs = groups@;
                assert(c0 + batch_views(gs.take(0)) =~= c0);
                while groups.len() > 0
                    invariant
                        k <= gs.len(),
                        k + groups@.len() == n,
                        c.merged() == cm,
                        gs.len() == n as int,
                        groups@ == gs.skip(k as int),
                        c.pending() == c0 + batch_views(gs.take(k as int)),
                    decreases groups@.len(),
                {
                    let b = groups.remove(0);
                    c.push(b);
                    assert(gs.take(k as int + 1) =~= gs.take(k as int).push(gs[k as int]));
                    assert(batch_views(gs.take(k as int + 1)) =~= batch_views(gs.take(k as int)).push(gs[k as int]@));
                    assert(groups@ =~= gs.skip(k as int + 1));
                    k = k + 1;
                }
                assert(gs.take(k as int) =~= gs);
                self.callbacks = Some(c);
            },
            None => {},
        }
        self.entities = Some(t);
    }

    /// Applies one update from the origin.
    pub fn apply(&mut self, update: TableUpdate<E>)
        requires
            old(self).wf(),
        ensures
            final(self).wf(),
            final(self).model() == apply_update(old(self).model(), update),
            final(self).name() == old(self).name(),
            final(self).notifying() == old(self).notifying(),
            final(self).merged() == old(self).merged(),
            final(self).notifying() ==> final(self).pending() == old(self).pending()
                + update_batches_of(old(self).merged(), old(self).table(), final(self).table(), update),
            !final(self).notifying() ==> final(self).pending() == old(self).pending(),
    {
        match update {
            TableUpdate::InitTable(groups) => self.init_table(groups),
            TableUpdate::InitPartition(partition_key, rows) => self.init_partition(
                partition_key.as_str(),
                rows,
            ),
            TableUpdate::UpdateRows(groups) => self.update_rows(groups),
            TableUpdate::DeleteRows(dels) => self.delete_rows(dels),
        }
    }

    /// A copy of the whole table, or `None` before the first load.
    pub fn get_table_snapshot(&self) -> (r: Option<DbTable<E>>)
        requires
            self.wf(),
        ensures
            r matches Some(t) ==> t.wf() && self.model() == Some(t.model()),
            r is None ==> self.model() is None,
    {
        match &self.entities {
            Some(t) => Some(t.share()),
            None => None,
        }
    }

    /// The row under the two keys.
    pub fn get_entity(&self, partition_key: &str, row_key: &str) -> (r: Option<DbRow<E>>)
        requires
            self.wf(),
        ensures
            r == lookup(model_or_empty(self.model()), partition_key@, row_key@),
    {
        match &self.entities {
            Some(t) => t.get_row(partition_key, row_key),
            None => None,
        }
    }

    /// A copy of one partition, rows sorted by row key.
    pub fn get_by_partition(&self, partition_key: &str) -> (r: Option<DbPartition<E>>)
        requires
            self.wf(),
        ensures
            r matches Some(p) ==> p.wf() && model_or_empty(self.model()).contains_key(partition_key@)
                && p.model() == model_or_empty(self.model())[partition_key@]
                && (partition_in(self.table(), partition_key@) matches Some(q) && p.rows@ == q.rows@),
            r is None ==> !model_or_empty(self.model()).contains_key(partition_key@),
    {
        match &self.entities {
            Some(t) => match t.get_partition(partition_key) {
                Some(p) => Some(p.share()),
                None => None,
            },
            None => None,
        }
    }

    /// The rows of one partition in row-key order; `None` where the partition
    /// is missing or empty.
    pub fn get_by_partition_as_vec(&self, partition_key: &str) -> (r: Option<Vec<DbRow<E>>>)
        requires
            self.wf(),
        ensures
            r matches Some(v) ==> partition_in(self.table(), partition_key@) matches Some(p)
                && v@ == p.rows@ && v@.len() > 0,
            r is None ==> (partition_in(self.table(), partition_key@) matches Some(p) ==> p.rows@.len() == 0),
    {
        match &self.entities {
            Some(t) => match t.get_partition(partition_key) {
                Some(p) => {
                    if p.rows.len() == 0 {
                        None
                    } else {
                        Some(share_rows(&p.rows))
                    }
                },
                None => None,
            },
            None => None,
        }
    }

    /// The rows of one partition whose entity the filter accepts, in row-key
    /// order; `None` where the partition is missing or empty.
    pub fn get_by_partition_as_vec_with_filter<F: Fn(&E) -> bool>(
        &self,
        partition_key: &str,
        filter: &F,
    ) -> (r: Option<Vec<DbRow<E>>>)
        requires
            self.wf(),
            forall|e: &E| #[trigger] filter.requires((e,)),
        ensures
            r matches Some(v) ==> (partition_in(self.table(), partition_key@) matches Some(p)
                && p.rows@.len() > 0 && exists|answers: Seq<bool>|
                answers.len() == p.rows@.len() && (forall|i: int|
                    0 <= i < p.rows@.len() ==> filter.ensures((&*p.rows@[i].entity,), #[trigger] answers[i]))
                    && v@ == select_by(p.rows@, answers)),
            r is None ==> (partition_in(self.table(), partition_key@) matches Some(p) ==> p.rows@.len() == 0),
    {
        match self.get_by_partition_as_vec(partition_key) {
            Some(rows) => Some(filter_rows(&rows, filter)),
            None => None,
        }
    }

    /// One partition reduced to the rows whose entity the filter accepts;
    /// `None` where the partition is missing.
    pub fn get_by_partition_with_filter<F: Fn(&E) -> bool>(
        &self,
        partition_key: &str,
        filter: &F,
    ) -> (r: Option<DbPartition<E>>)
        requires
            self.wf(),
            forall|e: &E| #[trigger] filter.requires((e,)),
        ensures
            r matches Some(q) ==> q.wf() && (partition_in(self.table(), partition_key@) matches Some(p)
                && exists|answers: Seq<bool>|
                answers.len() == p.rows@.len() && (forall|i: int|
                    0 <= i < p.rows@.len() ==> filter.ensures((&*p.rows@[i].entity,), #[trigger] answers[i]))
                    && q.model() == put_in(Map::empty(), select_by(p.rows@, answers))),
            r is None ==> partition_in(self.table(), partition_key@) is None,
    {
        match self.get_by_partition(partition_key) {
            Some(p) => {
                let kept = filter_rows(&p.rows, filter);
                Some(partition_from_rows(partition_key, &kept))
            },
            None => None,
        }
    }

    pub fn has_partition(&self, partition_key: &str) -> (r: bool)
        requires
            self.wf(),
        ensures
            r == model_or_empty(self.model()).contains_key(partition_key@),
    {
        match &self.entities {
            Some(t) => t.has_partition(partition_key),
            None => false,
        }
    }

    /// Whether the table has been loaded (by any mutation).
    pub fn has_entities_at_all(&self) -> (r: bool)
        ensures
            r == self.model() is Some,
    {
        self.entities.is_some()
    }
}

/// Queues the rows as one batch unless there are none.
fn push_nonempty<E>(
    out: &mut MyNoSqlDataReaderCallBacksPusher<E>,
    kind: ChangeKind,
    partition_key: &str,
    rows: Vec<DbRow<E>>,
)
    ensures
        final(out).merged() == old(out).merged(),
        final(out).pending() == old(out).pending() + batch_of(kind, partition_key@, rows@),
{
    if rows.len() == 0 {
        assert(old(out).pending() + batch_of(kind, partition_key@, rows@) =~= old(out).pending());
    } else {
        let ghost v = (kind, partition_key@, rows@);
        out.push(ChangeBatch { kind, partition_key: partition_key.to_owned(), rows });
        assert(old(out).pending().push(v) =~= old(out).pending() + batch_of(
            kind,
            partition_key@,
            rows@,
        ));
    }
}

/// Adds a deleted row to the batch of its partition (the last one for that
/// key), or starts a batch for it.
fn add_deleted_row<E>(groups: &mut Vec<ChangeBatch<E>>, partition_key: &str, row: DbRow<E>)
    ensures
        batch_views(final(groups)@) == add_deleted(batch_views(old(groups)@), partition_key@, row),
{
    let ghost g0 = batch_views(groups@);
    let mut i: usize = groups.len();
    assert(g0.take(i as int) =~= g0);
    while i > 0
        invariant
            i <= groups@.len(),
            groups@ == old(groups)@,
            g0 == batch_views(groups@),
            group_index(g0, partition_key@) == group_index(g0.take(i as int), partition_key@),
        decreases i,
    {
        assert(g0.take(i as int).drop_last() =~= g0.take(i as int - 1));
        let same = matches!(
            crate::keys::compare_keys(groups[i - 1].partition_key.as_str(), partition_key),
            crate::keys::KeyOrder::Equal
        );
        assert(g0.take(i as int).last() == g0[i as int - 1]);
        assert(g0[i as int - 1] == groups@[i as int - 1]@);
        if same {
            let ghost j = i - 1;
            assert(group_index(g0, partition_key@) == j);
            let mut b = groups.remove(i - 1);
            assert(b@ == g0[j as int]);
            b.kind = ChangeKind::Deleted;
            b.rows.push(row);
            groups.insert(i - 1, b);
            assert(batch_views(groups@) =~= g0.update(
                j as int,
                (ChangeKind::Deleted, partition_key@, g0[j as int].2.push(row)),
            ));
            return;
        }
        i = i - 1;
    }
    assert(g0.take(0) =~= Seq::<BatchView<E>>::empty());
    let ghost v = (ChangeKind::Deleted, partition_key@, seq![row]);
    let mut rows: Vec<DbRow<E>> = Vec::new();
    rows.push(row);
    groups.push(ChangeBatch { kind: ChangeKind::Deleted, partition_key: partition_key.to_owned(), rows });
    assert(batch_views(groups@) =~= g0.push(v));
}

} // verus!
