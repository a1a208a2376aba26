//! Entities, the rows that hold them, and the partitions and tables that hold rows.
use std::sync::Arc;
use vstd::prelude::*;
use crate::sorted::{
    get_keyed, keyed_map, lemma_keyed_map_all, remove_keyed, sorted_keys, upsert_keyed, Keyed,
};

verus! {

/// What an application record tells about itself: the two parts of its
/// identity and its logical time stamp (microseconds).
pub trait MyNoSqlEntity {
    fn get_partition_key(&self) -> &str;

    fn get_row_key(&self) -> &str;

    fn get_time_stamp(&self) -> i64;
}

/// Relies on `Arc::clone`: the result points to the same allocation as `a`.
#[verifier::external_body]
fn share_arc<E>(a: &Arc<E>) -> (r: Arc<E>)
    ensures
        r == *a,
{
    a.clone()
}

/// A new handle on the entity of `row`.
pub fn share_arc_of<E>(row: &DbRow<E>) -> (r: Arc<E>)
    ensures
        r == row.entity,
{
    share_arc(&row.entity)
}

/// One entity of a table with the keys under which it is stored.
pub struct DbRow<E> {
    pub partition_key: String,
    pub row_key: String,
    pub time_stamp: i64,
    pub entity: Arc<E>,
}

impl<E> DbRow<E> {
    pub fn new(partition_key: String, row_key: String, time_stamp: i64, entity: E) -> (r: Self)
        ensures
            r.partition_key@ == partition_key@,
            r.row_key@ == row_key@,
            r.time_stamp == time_stamp,
            *r.entity == entity,
    {
        DbRow { partition_key, row_key, time_stamp, entity: Arc::new(entity) }
    }

    /// A row for `entity`, under the keys and the time stamp that it reports.
    pub fn from_entity(entity: E) -> (r: Self)
        where
            E: MyNoSqlEntity,
        ensures
            *r.entity == entity,
    {
        let partition_key = entity.get_partition_key().to_owned();
        let row_key = entity.get_row_key().to_owned();
        let time_stamp = entity.get_time_stamp();
        DbRow { partition_key, row_key, time_stamp, entity: Arc::new(entity) }
    }

    /// Another handle on the same row; the entity itself is shared, not copied.
    pub fn share(&self) -> (r: Self)
        ensures
            r == *self,
    {
        DbRow {
            partition_key: self.partition_key.clone(),
            row_key: self.row_key.clone(),
            time_stamp: self.time_stamp,
            entity: share_arc(&self.entity),
        }
    }

    pub fn get_partition_key(&self) -> (r: &str)
        ensures
            r@ == self.partition_key@,
    {
        self.partition_key.as_str()
    }

    pub fn get_row_key(&self) -> (r: &str)
        ensures
            r@ == self.row_key@,
    {
        self.row_key.as_str()
    }

    pub fn get_time_stamp(&self) -> (r: i64)
        ensures
            r == self.time_stamp,
    {
        self.time_stamp
    }
}

impl<E> Keyed for DbRow<E> {
    open spec fn key(&self) -> Seq<char> {
        self.row_key@
    }

    fn key_str(&self) -> (r: &str) {
        self.row_key.as_str()
    }
}

/// Copies a sequence of rows, sharing the entities.
pub fn share_rows<E>(rows: &Vec<DbRow<E>>) -> (r: Vec<DbRow<E>>)
    ensures
        r@ == rows@,
{
    let mut r: Vec<DbRow<E>> = Vec::new();
    let mut i: usize = 0;
    while i < rows.len()
        invariant
            i <= rows@.len(),
            r@ == rows@.take(i as int),
        decreases rows@.len() - i,
    {
        r.push(rows[i].share());
        assert(rows@.take(i as int + 1) =~= rows@.take(i as int).push(rows@[i as int]));
        i = i + 1;
    }
    assert(rows@.take(i as int) =~= rows@);
    r
}

/// The rows of one partition, sorted by row key.
pub struct DbPartition<E> {
    pub partition_key: String,
    pub rows: Vec<DbRow<E>>,
}

impl<E> Keyed for DbPartition<E> {
    open spec fn key(&self) -> Seq<char> {
        self.partition_key@
    }

    fn key_str(&self) -> (r: &str) {
        self.partition_key.as_str()
    }
}

/// Row key to row.
pub type PartitionModel<E> = Map<Seq<char>, DbRow<E>>;

/// Partition key to partition.
pub type TableModel<E> = Map<Seq<char>, PartitionModel<E>>;

impl<E> DbPartition<E> {
    pub open spec fn wf(&self) -> bool {
        sorted_keys(self.rows@)
    }

    pub open spec fn model(&self) -> PartitionModel<E> {
        keyed_map(self.rows@)
    }

    pub fn share(&self) -> (r: Self)
        ensures
            r.partition_key == self.partition_key,
            r.rows@ == self.rows@,
    {
        DbPartition { partition_key: self.partition_key.clone(), rows: share_rows(&self.rows) }
    }
}

/// The entry under `(partition_key, row_key)` of a table model, if any.
pub open spec fn lookup<E>(t: TableModel<E>, partition_key: Seq<char>, row_key: Seq<char>) -> Option<
    DbRow<E>,
> {
    if t.contains_key(partition_key) && t[partition_key].contains_key(row_key) {
        Some(t[partition_key][row_key])
    } else {
        None
    }
}

/// `rows` put into partition `p` one after the other, by row key; later rows win.
pub open spec fn put_in<E>(p: PartitionModel<E>, rows: Seq<DbRow<E>>) -> PartitionModel<E>
    decreases rows.len(),
{
    if rows.len() == 0 {
        p
    } else {
        put_in(p, rows.drop_last()).insert(rows.last().row_key@, rows.last())
    }
}

/// The partition under `partition_key`, or an empty one.
pub open spec fn partition_or_empty<E>(t: TableModel<E>, partition_key: Seq<char>) -> PartitionModel<E> {
    if t.contains_key(partition_key) {
        t[partition_key]
    } else {
        Map::empty()
    }
}

/// `rows` put into the partition under `partition_key`, which is created if missing.
pub open spec fn put_group<E>(t: TableModel<E>, partition_key: Seq<char>, rows: Seq<DbRow<E>>) -> TableModel<E> {
    t.insert(partition_key, put_in(partition_or_empty(t, partition_key), rows))
}

/// Each group put in turn.
pub open spec fn put_groups<E>(t: TableModel<E>, groups: Seq<DbPartition<E>>) -> TableModel<E>
    decreases groups.len(),
{
    if groups.len() == 0 {
        t
    } else {
        let g = groups.last();
        put_group(put_groups(t, groups.drop_last()), g.partition_key@, g.rows@)
    }
}

/// The row under `(partition_key, row_key)` removed; a partition left with
/// no row is removed too.
pub open spec fn remove_row<E>(t: TableModel<E>, partition_key: Seq<char>, row_key: Seq<char>) -> TableModel<E> {
    if t.contains_key(partition_key) {
        let p = t[partition_key].remove(row_key);
        if p == Map::<Seq<char>, DbRow<E>>::empty() {
            t.remove(partition_key)
        } else {
            t.insert(partition_key, p)
        }
    } else {
        t
    }
}

/// A whole table: its partitions sorted by partition key.
pub struct DbTable<E> {
    pub partitions: Vec<DbPartition<E>>,
}

impl<E> DbTable<E> {
    pub open spec fn wf(&self) -> bool {
        &&& sorted_keys(self.partitions@)
        &&& forall|k: Seq<char>| #[trigger]
            keyed_map(self.partitions@).contains_key(k) ==> keyed_map(self.partitions@)[k].wf()
    }

    pub open spec fn model(&self) -> TableModel<E> {
        keyed_map(self.partitions@).map_values(|p: DbPartition<E>| p.model())
    }

    pub fn new() -> (r: Self)
        ensures
            r.wf(),
            r.model() == TableModel::<E>::empty(),
    {
        let r = DbTable { partitions: Vec::new() };
        assert(r.model() =~= TableModel::<E>::empty());
        r
    }

    pub proof fn lemma_wf_partitions(&self)
        requires
            self.wf(),
        ensures
            forall|i: int|
                #![trigger self.partitions@[i]]
                0 <= i < self.partitions@.len() ==> self.partitions@[i].wf()
                    && self.model().contains_key(self.partitions@[i].partition_key@)
                    && self.model()[self.partitions@[i].partition_key@]
                    == self.partitions@[i].model(),
    {
        lemma_keyed_map_all(self.partitions@);
    }

    /// The partition under `partition_key`, if any.
    pub fn get_partition(&self, partition_key: &str) -> (r: Option<&DbPartition<E>>)
        requires
            self.wf(),
        ensures
            r matches Some(p) ==> p.wf() && self.model().contains_key(partition_key@)
                && p.model() == self.model()[partition_key@] && p.partition_key@ == partition_key@
                && *p == keyed_map(self.partitions@)[partition_key@],
            r is None ==> !self.model().contains_key(partition_key@),
    {
        proof {
            lemma_keyed_map_all(self.partitions@);
        }
        let r = get_keyed(&self.partitions, partition_key);
        proof {
            if r is Some {
                let j = crate::sorted::key_index(self.partitions@, partition_key@);
                assert(self.partitions@[j].partition_key@ == partition_key@);
            }
        }
        r
    }

    pub fn has_partition(&self, partition_key: &str) -> (r: bool)
        requires
            self.wf(),
        ensures
            r == self.model().contains_key(partition_key@),
    {
        self.get_partition(partition_key).is_some()
    }

    /// The row under the two keys, shared.
    pub fn get_row(&self, partition_key: &str, row_key: &str) -> (r: Option<DbRow<E>>)
        requires
            self.wf(),
        ensures
            r == lookup(self.model(), partition_key@, row_key@),
    {
        match self.get_partition(partition_key) {
            Some(p) => match get_keyed(&p.rows, row_key) {
                Some(row) => Some(row.share()),
                None => None,
            },
            None => None,
        }
    }

    /// Takes out the partition under `partition_key`.
    pub fn take_partition(&mut self, partition_key: &str) -> (r: Option<DbPartition<E>>)
        requires
            old(self).wf(),
        ensures
            final(self).wf(),
            final(self).model() == old(self).model().remove(partition_key@),
            keyed_map(final(self).partitions@) == keyed_map(old(self).partitions@).remove(partition_key@),
            r matches Some(p) ==> p == keyed_map(old(self).partitions@)[partition_key@],
            r matches Some(p) ==> p.wf() && old(self).model().contains_key(partition_key@)
                && p.model() == old(self).model()[partition_key@] && p.partition_key@ == partition_key@,
            r is None ==> !old(self).model().contains_key(partition_key@),
    {
        let ghost ps0 = self.partitions@;
        proof {
            lemma_keyed_map_all(ps0);
        }
        let r = remove_keyed(&mut self.partitions, partition_key);
        proof {
            if r is Some {
                let j = crate::sorted::key_index(ps0, partition_key@);
                assert(ps0[j].partition_key@ == partition_key@);
            }
            assert(self.model() =~= old(self).model().remove(partition_key@));
        }
        r
    }

    /// Puts a partition in, replacing the one under the same key.
    pub fn put_partition(&mut self, p: DbPartition<E>)
        requires
            old(self).wf(),
            p.wf(),
        ensures
            final(self).wf(),
            final(self).model() == old(self).model().insert(p.partition_key@, p.model()),
            keyed_map(final(self).partitions@) == keyed_map(old(self).partitions@).insert(p.partition_key@, p),
    {
        let ghost k = p.partition_key@;
        let ghost pm = p.model();
        let _ = upsert_keyed(&mut self.partitions, p);
        assert(self.model() =~= old(self).model().insert(k, pm));
    }

    /// Puts `rows` into the partition under `partition_key`, creating it if
    /// missing; returns the partition as it was.
    pub fn put_group(&mut self, partition_key: &str, rows: &Vec<DbRow<E>>) -> (prev: Option<DbPartition<E>>)
        requires
            old(self).wf(),
        ensures
            final(self).wf(),
            final(self).model() == put_group(old(self).model(), partition_key@, rows@),
            prev matches Some(p) ==> p.wf() && old(self).model().contains_key(partition_key@)
                && p.model() == old(self).model()[partition_key@],
            prev is None ==> !old(self).model().contains_key(partition_key@),
    {
        let prev = self.take_partition(partition_key);
        let mut part = match &prev {
            Some(p) => p.share(),
            None => DbPartition { partition_key: partition_key.to_owned(), rows: Vec::new() },
        };
        let ghost p0 = part.model();
        assert(p0 == partition_or_empty(old(self).model(), partition_key@));
        assert(rows@.take(0) =~= Seq::<DbRow<E>>::empty());
        let mut i: usize = 0;
        while i < rows.len()
            invariant
                i <= rows@.len(),
                part.wf(),
                part.partition_key@ == partition_key@,
                part.model() == put_in(p0, rows@.take(i as int)),
            decreases rows@.len() - i,
        {
            let row = rows[i].share();
            let _ = upsert_keyed(&mut part.rows, row);
            assert(rows@.take(i as int + 1).drop_last() =~= rows@.take(i as int));
            assert(rows@.take(i as int + 1).last() == rows@[i as int]);
            i = i + 1;
        }
        assert(rows@.take(i as int) =~= rows@);
        self.put_partition(part);
        prev
    }

    /// Removes the row under the two keys; drops its partition when that is left empty.
    pub fn delete_row(&mut self, partition_key: &str, row_key: &str) -> (prev: Option<DbRow<E>>)
        requires
            old(self).wf(),
        ensures
            final(self).wf(),
            final(self).model() == remove_row(old(self).model(), partition_key@, row_key@),
            prev == lookup(old(self).model(), partition_key@, row_key@),
    {
        match self.take_partition(partition_key) {
            Some(mut part) => {
                let prev = remove_keyed(&mut part.rows, row_key);
                if part.rows.len() == 0 {
                    assert(part.model() =~= Map::empty());
                    assert(self.model() =~= remove_row(old(self).model(), partition_key@, row_key@));
                } else {
                    proof {
                        lemma_keyed_map_all(part.rows@);
                        assert(part.model().contains_key(part.rows@[0].row_key@));
                    }
                    self.put_partition(part);
                    assert(self.model() =~= remove_row(old(self).model(), partition_key@, row_key@));
                }
                prev
            },
            None => {
                assert(self.model() =~= old(self).model());
                None
            },
        }
    }

    /// A copy of the table that shares the entities.
    pub fn share(&self) -> (r: Self)
        requires
            self.wf(),
        ensures
            r.wf(),
            r.model() == self.model(),
    {
        let mut r: Vec<DbPartition<E>> = Vec::new();
        let mut i: usize = 0;
        while i < self.partitions.len()
            invariant
                i <= self.partitions@.len(),
                r@.len() == i,
                forall|j: int|
                    #![trigger r@[j]]
                    0 <= j < i ==> r@[j].partition_key == self.partitions@[j].partition_key
                        && r@[j].rows@ == self.partitions@[j].rows@,
            decreases self.partitions@.len() - i,
        {
            r.push(self.partitions[i].share());
            i = i + 1;
        }
        let r = DbTable { partitions: r };
        proof {
            let a = self.partitions@;
            let b = r.partitions@;
            assert(sorted_keys(b)) by {
                assert forall|x: int, y: int| 0 <= x < y < b.len() implies crate::keys::key_lt(
                    #[trigger] b[x].key(),
                    #[trigger] b[y].key(),
                ) by {
                    assert(b[x].partition_key == a[x].partition_key);
                    assert(b[y].partition_key == a[y].partition_key);
                    assert(crate::keys::key_lt(a[x].key(), a[y].key()));
                }
            }
            lemma_keyed_map_all(a);
            lemma_keyed_map_all(b);
            assert forall|k: Seq<char>| keyed_map(b).contains_key(k) <==> keyed_map(a).contains_key(k) by {
                if crate::sorted::has_key(b, k) {
                    let j = crate::sorted::key_index(b, k);
                    assert(a[j].key() == k);
                }
                if crate::sorted::has_key(a, k) {
                    let j = crate::sorted::key_index(a, k);
                    assert(b[j].key() == k);
                }
            }
            assert forall|k: Seq<char>| #[trigger] keyed_map(b).contains_key(k) implies keyed_map(b)[k].model() == keyed_map(a)[k].model() && keyed_map(b)[k].wf() by {
                let j = crate::sorted::key_index(b, k);
                assert(b[j].rows@ == a[j].rows@);
                assert(a[j].key() == k);
            }
            assert(r.model() =~= self.model());
        }
        r
    }
}

} // verus!
