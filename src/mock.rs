//! A backend that answers reads from local state only, for tests of
//! application code; it never reports anything upstream.
use vstd::prelude::*;
use crate::builders::{filter_rows, select_by};
use crate::cache::{partition_in, remove_rows, DeleteRowTcpContract};
use crate::entity::{
    lookup, put_group, share_rows, DbPartition, DbRow, DbTable, TableModel,
};

verus! {

/// Each row put under its own keys, in turn.
pub open spec fn put_own_rows<E>(t: TableModel<E>, rows: Seq<DbRow<E>>) -> TableModel<E>
    decreases rows.len(),
{
    if rows.len() == 0 {
        t
    } else {
        let r = rows.last();
        put_group(put_own_rows(t, rows.drop_last()), r.partition_key@, seq![r])
    }
}

/// All rows of a generation, partition after partition.
pub open spec fn all_rows<E>(ps: Seq<DbPartition<E>>) -> Seq<DbRow<E>>
    decreases ps.len(),
{
    if ps.len() == 0 {
        Seq::empty()
    } else {
        all_rows(ps.drop_last()) + ps.last().rows@
    }
}

pub struct MyNoSqlDataReaderMock<E> {
    data: DbTable<E>,
}

impl<E> MyNoSqlDataReaderMock<E> {
    pub closed spec fn table(&self) -> DbTable<E> {
        self.data
    }

    pub open spec fn wf(&self) -> bool {
        self.table().wf()
    }

    pub open spec fn model(&self) -> TableModel<E> {
        self.table().model()
    }

    pub fn new() -> (r: Self)
        ensures
            r.wf(),
            r.model() == TableModel::<E>::empty(),
    {
        MyNoSqlDataReaderMock { data: DbTable::new() }
    }

    /// Puts each row under its own keys.
    pub fn update(&mut self, items: Vec<DbRow<E>>)
        requires
            old(self).wf(),
        ensures
            final(self).wf(),
            final(self).model() == put_own_rows(old(self).model(), items@),
    {
        let ghost m0 = self.data.model();
        let mut i: usize = 0;
        assert(items@.take(0) =~= Seq::<DbRow<E>>::empty());
        while i < items.len()
            invariant
                i <= items@.len(),
                self.data.wf(),
                self.data.model() == put_own_rows(m0, items@.take(i as int)),
            decreases items@.len() - i,
        {
            let mut one: Vec<DbRow<E>> = Vec::new();
            one.push(items[i].share());
            assert(one@ =~= seq![items@[i as int]]);
            let _ = self.data.put_group(items[i].get_partition_key(), &one);
            assert(items@.take(i as int + 1).drop_last() =~= items@.take(i as int));
            assert(items@.take(i as int + 1).last() == items@[i as int]);
            i = i + 1;
        }
        assert(items@.take(i as int) =~= items@);
    }

    /// Deletes the rows named; a partition left without rows is removed.
    pub fn delete(&mut self, to_delete: Vec<DeleteRowTcpContract>)
        requires
            old(self).wf(),
        ensures
            final(self).wf(),
            final(self).model() == remove_rows(old(self).model(), to_delete@),
    {
        let ghost m0 = self.data.model();
        let mut i: usize = 0;
        assert(to_delete@.take(0) =~= Seq::<DeleteRowTcpContract>::empty());
        while i < to_delete.len()
            invariant
                i <= to_delete@.len(),
                self.data.wf(),
                self.data.model() == remove_rows(m0, to_delete@.take(i as int)),
            decreases to_delete@.len() - i,
        {
            let d = &to_delete[i];
            let _ = self.data.delete_row(d.partition_key.as_str(), d.row_key.as_str());
            assert(to_delete@.take(i as int + 1).drop_last() =~= to_delete@.take(i as int));
            assert(to_delete@.take(i as int + 1).last() == to_delete@[i as int]);
            i = i + 1;
        }
        assert(to_delete@.take(i as int) =~= to_delete@);
    }

    /// Every row, partition after partition; `None` where there is none.
    pub fn get_table_snapshot_as_vec(&self) -> (r: Option<Vec<DbRow<E>>>)
        requires
            self.wf(),
        ensures
            r matches Some(v) ==> v@ == all_rows(self.table().partitions@) && v@.len() > 0,
            r is None ==> all_rows(self.table().partitions@).len() == 0,
    {
        let ps = &self.data.partitions;
        let mut out: Vec<DbRow<E>> = Vec::new();
        let mut i: usize = 0;
        assert(ps@.take(0) =~= Seq::<DbPartition<E>>::empty());
        while i < ps.len()
            invariant
                i <= ps@.len(),
                out@ == all_rows(ps@.take(i as int)),
            decreases ps@.len() - i,
        {
            let mut rows = share_rows(&ps[i].rows);
            out.append(&mut rows);
            assert(ps@.take(i as int + 1).drop_last() =~= ps@.take(i as int));
            assert(ps@.take(i as int + 1).last() == ps@[i as int]);
            i = i + 1;
        }
        assert(ps@.take(i as int) =~= ps@);
        if out.len() == 0 {
            None
        } else {
            Some(out)
        }
    }

    pub fn get_entity(&self, partition_key: &str, row_key: &str) -> (r: Option<DbRow<E>>)
        requires
            self.wf(),
        ensures
            r == lookup(self.model(), partition_key@, row_key@),
    {
        self.data.get_row(partition_key, row_key)
    }

    pub fn get_by_partition_key(&self, partition_key: &str) -> (r: Option<DbPartition<E>>)
        requires
            self.wf(),
        ensures
            r matches Some(p) ==> p.wf() && self.model().contains_key(partition_key@) && p.model()
                == self.model()[partition_key@],
            r is None ==> !self.model().contains_key(partition_key@),
    {
        match self.data.get_partition(partition_key) {
            Some(p) => Some(p.share()),
            None => None,
        }
    }

    /// The rows of one partition in row-key order; `None` where the partition
    /// is missing or empty.
    pub fn get_by_partition_key_as_vec(&self, partition_key: &str) -> (r: Option<Vec<DbRow<E>>>)
        requires
            self.wf(),
        ensures
            r matches Some(v) ==> (partition_in(Some(self.table()), partition_key@) matches Some(p)
                && v@ == p.rows@ && v@.len() > 0),
            r is None ==> (partition_in(Some(self.table()), partition_key@) matches Some(p)
                ==> p.rows@.len() == 0),
    {
        match self.data.get_partition(partition_key) {
            Some(p) => {
                if p.rows.len() == 0 {
                    assert(p.model() =~= crate::entity::PartitionModel::<E>::empty());
                    None
                } else {
                    Some(share_rows(&p.rows))
                }
            },
            None => None,
        }
    }

    /// Every row, partition after partition; the same as
    /// `get_table_snapshot_as_vec`.
    pub fn get_as_vec(&self) -> (r: Option<Vec<DbRow<E>>>)
        requires
            self.wf(),
        ensures
            r matches Some(v) ==> v@ == all_rows(self.table().partitions@) && v@.len() > 0,
            r is None ==> all_rows(self.table().partitions@).len() == 0,
    {
        self.get_table_snapshot_as_vec()
    }

    /// The rows of the table whose entity the filter accepts; `None` where
    /// none is accepted.
    pub fn get_as_vec_with_filter<F: Fn(&E) -> bool>(&self, filter: &F) -> (r: Option<Vec<DbRow<E>>>)
        requires
            self.wf(),
            forall|e: &E| #[trigger] filter.requires((e,)),
        ensures
            exists|answers: Seq<bool>|
                answers.len() == all_rows(self.table().partitions@).len() && (forall|i: int|
                    0 <= i < all_rows(self.table().partitions@).len() ==> filter.ensures(
                        (&*all_rows(self.table().partitions@)[i].entity,),
                        #[trigger] answers[i],
                    )) && match r {
                    Some(v) => v@ == select_by(all_rows(self.table().partitions@), answers) && v@.len() > 0,
                    None => select_by(all_rows(self.table().partitions@), answers).len() == 0,
                },
    {
        let all = match self.get_table_snapshot_as_vec() {
            Some(v) => v,
            None => Vec::new(),
        };
        let kept = filter_rows(&all, filter);
        if kept.len() == 0 {
            None
        } else {
            Some(kept)
        }
    }

    /// The rows of one partition whose entity the filter accepts, in row-key
    /// order; `None` where none is accepted.
    pub fn get_by_partition_key_as_vec_with_filter<F: Fn(&E) -> bool>(
        &self,
        partition_key: &str,
        filter: &F,
    ) -> (r: Option<Vec<DbRow<E>>>)
        requires
            self.wf(),
            forall|e: &E| #[trigger] filter.requires((e,)),
        ensures
            partition_in(Some(self.table()), partition_key@) is None ==> r is None,
            partition_in(Some(self.table()), partition_key@) matches Some(p) ==> exists|answers: Seq<bool>|
                answers.len() == p.rows@.len() && (forall|i: int|
                    0 <= i < p.rows@.len() ==> filter.ensures((&*p.rows@[i].entity,), #[trigger] answers[i]))
                    && match r {
                    Some(v) => v@ == select_by(p.rows@, answers) && v@.len() > 0,
                    None => select_by(p.rows@, answers).len() == 0,
                },
    {
        match self.data.get_partition(partition_key) {
            Some(p) => {
                let kept = filter_rows(&p.rows, filter);
                if kept.len() == 0 {
                    None
                } else {
                    Some(kept)
                }
            },
            None => None,
        }
    }

    pub fn has_partition(&self, partition_key: &str) -> (r: bool)
        requires
            self.wf(),
        ensures
            r == self.model().contains_key(partition_key@),
    {
        self.data.has_partition(partition_key)
    }
}

} // verus!
