//! Read operations configured step by step, which on a read that finds data
//! also produce a request to update read and expiration statistics upstream.
use vstd::prelude::*;
use crate::cache::{model_or_empty, partition_in, MyNoSqlDataReaderData};
use crate::entity::{lookup, share_rows, DbPartition, DbRow, PartitionModel};
use crate::mock::MyNoSqlDataReaderMock;
use crate::sorted::{keyed_map, upsert_keyed};

verus! {

/// A moment in time, in microseconds since the Unix epoch.
#[derive(Clone, Copy, PartialEq, Eq, Structural, Debug)]
pub struct Timestamp {
    pub unix_microseconds: i64,
}

/// What a read asks the origin to record: read moments, and expiration
/// moments to set (`Some(Some(t))`) or to clear (`Some(None)`).
#[derive(Clone, Copy, PartialEq, Eq, Structural, Debug)]
pub struct UpdateEntityStatisticsData {
    pub partition_last_read_moment: bool,
    pub row_last_read_moment: bool,
    pub partition_expiration_moment: Option<Option<Timestamp>>,
    pub row_expiration_moment: Option<Option<Timestamp>>,
}

impl UpdateEntityStatisticsData {
    pub open spec fn is_empty(&self) -> bool {
        &&& !self.partition_last_read_moment
        &&& !self.row_last_read_moment
        &&& self.partition_expiration_moment is None
        &&& self.row_expiration_moment is None
    }

    /// No intent at all.
    pub fn new() -> (r: Self)
        ensures
            r.is_empty(),
    {
        UpdateEntityStatisticsData {
            partition_last_read_moment: false,
            row_last_read_moment: false,
            partition_expiration_moment: None,
            row_expiration_moment: None,
        }
    }
}

/// The statistics message that a read which found data sends upstream.
pub struct StatisticsUpdate {
    pub table_name: String,
    pub partition_key: String,
    pub row_keys: Vec<String>,
    pub data: UpdateEntityStatisticsData,
}

pub open spec fn string_views(s: Seq<String>) -> Seq<Seq<char>> {
    s.map_values(|x: String| x@)
}

pub open spec fn row_keys_of<E>(rows: Seq<DbRow<E>>) -> Seq<Seq<char>> {
    rows.map_values(|r: DbRow<E>| r.row_key@)
}

/// The row keys of the rows, in order.
pub fn collect_row_keys<E>(rows: &Vec<DbRow<E>>) -> (r: Vec<String>)
    ensures
        string_views(r@) == row_keys_of(rows@),
{
    let mut r: Vec<String> = Vec::new();
    let mut i: usize = 0;
    while i < rows.len()
        invariant
            i <= rows@.len(),
            string_views(r@) == row_keys_of(rows@.take(i as int)),
        decreases rows@.len() - i,
    {
        let ghost r0 = r@;
        let k = rows[i].row_key.clone();
        assert(k@ == rows@[i as int].row_key@);
        r.push(k);
        assert(r@ == r0.push(k));
        assert(rows@.take(i as int + 1) =~= rows@.take(i as int).push(rows@[i as int]));
        assert(string_views(r@) =~= row_keys_of(rows@.take(i as int + 1))) by {
            let a = string_views(r@);
            let b = row_keys_of(rows@.take(i as int + 1));
            assert(string_views(r0).len() == row_keys_of(rows@.take(i as int)).len());
            assert forall|j: int| 0 <= j < a.len() implies a[j] == b[j] by {
                if j < i {
                    assert(a[j] == string_views(r0)[j]);
                    assert(row_keys_of(rows@.take(i as int))[j] == b[j]);
                }
            }
        }
        i = i + 1;
    }
    assert(rows@.take(i as int) =~= rows@);
    r
}

/// The rows of `rows` at whose index `answers` holds true, in order.
pub open spec fn select_by<E>(rows: Seq<DbRow<E>>, answers: Seq<bool>) -> Seq<DbRow<E>>
    decreases rows.len(),
{
    if rows.len() == 0 {
        Seq::empty()
    } else {
        let init = select_by(rows.drop_last(), answers);
        if answers[rows.len() - 1] {
            init.push(rows.last())
        } else {
            init
        }
    }
}

/// The rows whose entity the filter accepts, in order; the filter is asked
/// once per row.
pub fn filter_rows<E, F: Fn(&E) -> bool>(rows: &Vec<DbRow<E>>, filter: &F) -> (r: Vec<DbRow<E>>)
    requires
        forall|e: &E| #[trigger] filter.requires((e,)),
    ensures
        exists|answers: Seq<bool>|
            answers.len() == rows@.len() && (forall|i: int|
                0 <= i < rows@.len() ==> filter.ensures((&*rows@[i].entity,), #[trigger] answers[i]))
                && r@ == select_by(rows@, answers),
{
    let mut r: Vec<DbRow<E>> = Vec::new();
    let ghost mut answers: Seq<bool> = Seq::empty();
    let mut i: usize = 0;
    while i < rows.len()
        invariant
            forall|e: &E| #[trigger] filter.requires((e,)),
            i <= rows@.len(),
            answers.len() == i,
            forall|j: int| 0 <= j < i ==> filter.ensures((&*rows@[j].entity,), #[trigger] answers[j]),
            r@ == select_by(rows@.take(i as int), answers),
        decreases rows@.len() - i,
    {
        let keep = filter(&*rows[i].entity);
        proof {
            let a2 = answers.push(keep);
            assert(rows@.take(i as int + 1).drop_last() =~= rows@.take(i as int));
            assert(select_by(rows@.take(i as int), a2) == select_by(rows@.take(i as int), answers)) by {
                lemma_select_by_prefix(rows@.take(i as int), answers, a2);
            }
            answers = a2;
        }
        if keep {
            r.push(rows[i].share());
        }
        i = i + 1;
    }
    assert(rows@.take(i as int) =~= rows@);
    r
}

/// Only the answers at the rows' own indices count.
pub proof fn lemma_select_by_prefix<E>(rows: Seq<DbRow<E>>, a: Seq<bool>, b: Seq<bool>)
    requires
        a.len() >= rows.len(),
        b.len() >= rows.len(),
        forall|i: int| 0 <= i < rows.len() ==> a[i] == b[i],
    ensures
        select_by(rows, a) == select_by(rows, b),
    decreases rows.len(),
{
    if rows.len() > 0 {
        lemma_select_by_prefix(rows.drop_last(), a, b);
    }
}

/// A partition made of the rows given, under the key given.
pub fn partition_from_rows<E>(partition_key: &str, rows: &Vec<DbRow<E>>) -> (r: DbPartition<E>)
    ensures
        r.wf(),
        r.partition_key@ == partition_key@,
        r.model() == crate::entity::put_in(PartitionModel::<E>::empty(), rows@),
{
    let mut part = DbPartition { partition_key: partition_key.to_owned(), rows: Vec::new() };
    assert(part.model() =~= PartitionModel::<E>::empty());
    let mut i: usize = 0;
    assert(rows@.take(0) =~= Seq::<DbRow<E>>::empty());
    while i < rows.len()
        invariant
            i <= rows@.len(),
            part.wf(),
            part.partition_key@ == partition_key@,
            part.model() == crate::entity::put_in(PartitionModel::<E>::empty(), rows@.take(i as int)),
        decreases rows@.len() - i,
    {
        let _ = upsert_keyed(&mut part.rows, rows[i].share());
        assert(rows@.take(i as int + 1).drop_last() =~= rows@.take(i as int));
        assert(rows@.take(i as int + 1).last() == rows@[i as int]);
        i = i + 1;
    }
    assert(rows@.take(i as int) =~= rows@);
    part
}

/// The statistics message for the rows read, where any were.
fn statistics_for<E>(
    table_name: &str,
    partition_key: &str,
    rows: &Vec<DbRow<E>>,
    data: UpdateEntityStatisticsData,
) -> (r: Option<StatisticsUpdate>)
    ensures
        rows@.len() == 0 <==> r is None,
        r matches Some(u) ==> u.table_name@ == table_name@ && u.partition_key@ == partition_key@
            && string_views(u.row_keys@) == row_keys_of(rows@) && u.data == data,
{
    if rows.len() == 0 {
        None
    } else {
        Some(
            StatisticsUpdate {
                table_name: table_name.to_owned(),
                partition_key: partition_key.to_owned(),
                row_keys: collect_row_keys(rows),
                data,
            },
        )
    }
}

/// A read of one entity.
pub struct GetEntityBuilder {
    partition_key: String,
    row_key: String,
    update_statistic_data: UpdateEntityStatisticsData,
}

impl GetEntityBuilder {
    pub closed spec fn keys(&self) -> (Seq<char>, Seq<char>) {
        (self.partition_key@, self.row_key@)
    }

    pub closed spec fn data(&self) -> UpdateEntityStatisticsData {
        self.update_statistic_data
    }

    pub fn new(partition_key: &str, row_key: &str) -> (r: Self)
        ensures
            r.keys() == (partition_key@, row_key@),
            r.data().is_empty(),
    {
        GetEntityBuilder {
            partition_key: partition_key.to_owned(),
            row_key: row_key.to_owned(),
            update_statistic_data: UpdateEntityStatisticsData::new(),
        }
    }

    pub fn set_partition_last_read_moment(self) -> (r: Self)
        ensures
            r.keys() == self.keys(),
            r.data() == (UpdateEntityStatisticsData { partition_last_read_moment: true, ..self.data() }),
    {
        let mut s = self;
        s.update_statistic_data.partition_last_read_moment = true;
        s
    }

    pub fn set_row_last_read_moment(self) -> (r: Self)
        ensures
            r.keys() == self.keys(),
            r.data() == (UpdateEntityStatisticsData { row_last_read_moment: true, ..self.data() }),
    {
        let mut s = self;
        s.update_statistic_data.row_last_read_moment = true;
        s
    }

    /// Sets (`Some`) or clears (`None`) the partition's expiration moment.
    pub fn set_partition_expiration_moment(self, value: Option<Timestamp>) -> (r: Self)
        ensures
            r.keys() == self.keys(),
            r.data() == (UpdateEntityStatisticsData {
                partition_expiration_moment: Some(value),
                ..self.data()
            }),
    {
        let mut s = self;
        s.update_statistic_data.partition_expiration_moment = Some(value);
        s
    }

    /// Sets (`Some`) or clears (`None`) the row's expiration moment.
    pub fn set_row_expiration_moment(self, value: Option<Timestamp>) -> (r: Self)
        ensures
            r.keys() == self.keys(),
            r.data() == (UpdateEntityStatisticsData { row_expiration_moment: Some(value), ..self.data() }),
    {
        let mut s = self;
        s.update_statistic_data.row_expiration_moment = Some(value);
        s
    }

    /// Reads the entity; where it exists, also the statistics message naming it.
    pub fn execute<E>(&self, reader: &MyNoSqlDataReaderData<E>) -> (r: (
        Option<DbRow<E>>,
        Option<StatisticsUpdate>,
    ))
        requires
            reader.wf(),
        ensures
            r.0 == lookup(model_or_empty(reader.model()), self.keys().0, self.keys().1),
            r.0 is Some <==> r.1 is Some,
            r.1 matches Some(u) ==> u.table_name@ == reader.name() && u.partition_key@
                == self.keys().0 && string_views(u.row_keys@) == seq![self.keys().1] && u.data
                == self.data(),
    {
        let found = reader.get_entity(self.partition_key.as_str(), self.row_key.as_str());
        match found {
            Some(row) => {
                let mut rows: Vec<DbRow<E>> = Vec::new();
                rows.push(row.share());
                let u = statistics_for(
                    reader.get_table_name(),
                    self.partition_key.as_str(),
                    &rows,
                    self.update_statistic_data,
                );
                assert(row_keys_of(rows@) =~= seq![self.keys().1]);
                (Some(row), u)
            },
            None => (None, None),
        }
    }

    /// Reads the entity from a local backend; nothing goes upstream.
    pub fn execute_mock<E>(&self, reader: &MyNoSqlDataReaderMock<E>) -> (r: Option<DbRow<E>>)
        requires
            reader.wf(),
        ensures
            r == lookup(reader.model(), self.keys().0, self.keys().1),
    {
        reader.get_entity(self.partition_key.as_str(), self.row_key.as_str())
    }
}

/// A read of the entities of one partition.
pub struct GetEntitiesBuilder {
    partition_key: String,
    update_statistic_data: UpdateEntityStatisticsData,
}

impl GetEntitiesBuilder {
    pub closed spec fn partition_key(&self) -> Seq<char> {
        self.partition_key@
    }

    pub closed spec fn data(&self) -> UpdateEntityStatisticsData {
        self.update_statistic_data
    }

    pub fn new(partition_key: &str) -> (r: Self)
        ensures
            r.partition_key() == partition_key@,
            r.data().is_empty(),
    {
        GetEntitiesBuilder {
            partition_key: partition_key.to_owned(),
            update_statistic_data: UpdateEntityStatisticsData::new(),
        }
    }

    pub fn set_partition_last_read_moment(self) -> (r: Self)
        ensures
            r.partition_key() == self.partition_key(),
            r.data() == (UpdateEntityStatisticsData { partition_last_read_moment: true, ..self.data() }),
    {
        let mut s = self;
        s.update_statistic_data.partition_last_read_moment = true;
        s
    }

    pub fn set_row_last_read_moment(self) -> (r: Self)
        ensures
            r.partition_key() == self.partition_key(),
            r.data() == (UpdateEntityStatisticsData { row_last_read_moment: true, ..self.data() }),
    {
        let mut s = self;
        s.update_statistic_data.row_last_read_moment = true;
        s
    }

    pub fn set_partition_expiration_moment(self, value: Option<Timestamp>) -> (r: Self)
        ensures
            r.partition_key() == self.partition_key(),
            r.data() == (UpdateEntityStatisticsData {
                partition_expiration_moment: Some(value),
                ..self.data()
            }),
    {
        let mut s = self;
        s.update_statistic_data.partition_expiration_moment = Some(value);
        s
    }

    pub fn set_row_expiration_moment(self, value: Option<Timestamp>) -> (r: Self)
        ensures
            r.partition_key() == self.partition_key(),
            r.data() == (UpdateEntityStatisticsData { row_expiration_moment: Some(value), ..self.data() }),
    {
        let mut s = self;
        s.update_statistic_data.row_expiration_moment = Some(value);
        s
    }

    /// The rows of the partition in row-key order (`None` where it is missing
    /// or empty), and the statistics message naming them.
    pub fn get_as_vec<E>(&self, reader: &MyNoSqlDataReaderData<E>) -> (r: (
        Option<Vec<DbRow<E>>>,
        Option<StatisticsUpdate>,
    ))
        requires
            reader.wf(),
        ensures
            r.0 matches Some(v) ==> partition_in(reader.table(), self.partition_key()) matches Some(p)
                && v@ == p.rows@ && v@.len() > 0,
            r.0 is None ==> (partition_in(reader.table(), self.partition_key()) matches Some(p)
                ==> p.rows@.len() == 0),
            r.0 is Some <==> r.1 is Some,
            r.1 matches Some(u) ==> u.table_name@ == reader.name() && u.partition_key@
                == self.partition_key() && string_views(u.row_keys@) == row_keys_of(r.0->0@)
                && u.data == self.data(),
    {
        match reader.get_by_partition_as_vec(self.partition_key.as_str()) {
            Some(rows) => {
                let u = statistics_for(
                    reader.get_table_name(),
                    self.partition_key.as_str(),
                    &rows,
                    self.update_statistic_data,
                );
                (Some(rows), u)
            },
            None => (None, None),
        }
    }

    /// As `get_as_vec`, keeping only the rows whose entity the filter accepts
    /// (`Some` of the kept rows whenever the partition has rows).
    pub fn get_as_vec_with_filter<E, F: Fn(&E) -> bool>(
        &self,
        reader: &MyNoSqlDataReaderData<E>,
        filter: &F,
    ) -> (r: (Option<Vec<DbRow<E>>>, Option<StatisticsUpdate>))
        requires
            reader.wf(),
            forall|e: &E| #[trigger] filter.requires((e,)),
        ensures
            r.0 matches Some(v) ==> partition_in(reader.table(), self.partition_key()) matches Some(p)
                && p.rows@.len() > 0 && exists|answers: Seq<bool>|
                answers.len() == p.rows@.len() && (forall|i: int|
                    0 <= i < p.rows@.len() ==> filter.ensures((&*p.rows@[i].entity,), #[trigger] answers[i]))
                    && v@ == select_by(p.rows@, answers),
            r.0 is None ==> (partition_in(reader.table(), self.partition_key()) matches Some(p)
                ==> p.rows@.len() == 0),
            r.1 is Some <==> (r.0 matches Some(v) && v@.len() > 0),
            r.1 matches Some(u) ==> u.table_name@ == reader.name() && u.partition_key@
                == self.partition_key() && string_views(u.row_keys@) == row_keys_of(r.0->0@)
                && u.data == self.data(),
    {
        match reader.get_by_partition_as_vec(self.partition_key.as_str()) {
            Some(rows) => {
                let kept = filter_rows(&rows, filter);
                let u = statistics_for(
                    reader.get_table_name(),
                    self.partition_key.as_str(),
                    &kept,
                    self.update_statistic_data,
                );
                (Some(kept), u)
            },
            None => (None, None),
        }
    }

    /// The partition as a map sorted by row key (`None` where it is missing),
    /// and, where it has rows, the statistics message naming them.
    pub fn get_as_btree_map<E>(&self, reader: &MyNoSqlDataReaderData<E>) -> (r: (
        Option<DbPartition<E>>,
        Option<StatisticsUpdate>,
    ))
        requires
            reader.wf(),
        ensures
            r.0 matches Some(p) ==> p.wf() && model_or_empty(reader.model()).contains_key(
                self.partition_key(),
            ) && p.model() == model_or_empty(reader.model())[self.partition_key()],
            r.0 is None ==> !model_or_empty(reader.model()).contains_key(self.partition_key()),
            r.1 is Some <==> (r.0 matches Some(p) && p.rows@.len() > 0),
            r.1 matches Some(u) ==> u.table_name@ == reader.name() && u.partition_key@
                == self.partition_key() && string_views(u.row_keys@) == row_keys_of(r.0->0.rows@)
                && u.data == self.data(),
    {
        match reader.get_by_partition(self.partition_key.as_str()) {
            Some(p) => {
                let u = statistics_for(
                    reader.get_table_name(),
                    self.partition_key.as_str(),
                    &p.rows,
                    self.update_statistic_data,
                );
                (Some(p), u)
            },
            None => (None, None),
        }
    }

    /// As `get_as_btree_map`, keeping only the rows whose entity the filter accepts.
    pub fn get_as_btree_map_with_filter<E, F: Fn(&E) -> bool>(
        &self,
        reader: &MyNoSqlDataReaderData<E>,
        filter: &F,
    ) -> (r: (Option<DbPartition<E>>, Option<StatisticsUpdate>))
        requires
            reader.wf(),
            forall|e: &E| #[trigger] filter.requires((e,)),
        ensures
            r.0 matches Some(q) ==> q.wf() && (partition_in(reader.table(), self.partition_key()) matches Some(p)
                && exists|answers: Seq<bool>|
                answers.len() == p.rows@.len() && (forall|i: int|
                    0 <= i < p.rows@.len() ==> filter.ensures((&*p.rows@[i].entity,), #[trigger] answers[i]))
                    && q.model() == crate::entity::put_in(PartitionModel::<E>::empty(), select_by(p.rows@, answers))),
            r.0 is None ==> partition_in(reader.table(), self.partition_key()) is None,
            r.1 is Some <==> (r.0 matches Some(q) && q.rows@.len() > 0),
            r.1 matches Some(u) ==> u.table_name@ == reader.name() && u.partition_key@
                == self.partition_key() && string_views(u.row_keys@) == row_keys_of(r.0->0.rows@)
                && u.data == self.data(),
    {
        match reader.get_by_partition(self.partition_key.as_str()) {
            Some(p) => {
                let kept = filter_rows(&p.rows, filter);
                let q = partition_from_rows(self.partition_key.as_str(), &kept);
                let u = statistics_for(
                    reader.get_table_name(),
                    self.partition_key.as_str(),
                    &q.rows,
                    self.update_statistic_data,
                );
                (Some(q), u)
            },
            None => (None, None),
        }
    }

    /// The rows of the partition from a local backend; nothing goes upstream.
    pub fn get_as_vec_mock<E>(&self, reader: &MyNoSqlDataReaderMock<E>) -> (r: Option<Vec<DbRow<E>>>)
        requires
            reader.wf(),
        ensures
            r matches Some(v) ==> (partition_in(Some(reader.table()), self.partition_key()) matches Some(p)
                && v@ == p.rows@ && v@.len() > 0),
            r is None ==> (partition_in(Some(reader.table()), self.partition_key()) matches Some(p)
                ==> p.rows@.len() == 0),
    {
        reader.get_by_partition_key_as_vec(self.partition_key.as_str())
    }

    /// The rows of the partition that the filter accepts, from a local
    /// backend; nothing goes upstream.
    pub fn get_as_vec_with_filter_mock<E, F: Fn(&E) -> bool>(
        &self,
        reader: &MyNoSqlDataReaderMock<E>,
        filter: &F,
    ) -> (r: Option<Vec<DbRow<E>>>)
        requires
            reader.wf(),
            forall|e: &E| #[trigger] filter.requires((e,)),
        ensures
            partition_in(Some(reader.table()), self.partition_key()) is None ==> r is None,
            partition_in(Some(reader.table()), self.partition_key()) matches Some(p) ==> exists|answers: Seq<bool>|
                answers.len() == p.rows@.len() && (forall|i: int|
                    0 <= i < p.rows@.len() ==> filter.ensures((&*p.rows@[i].entity,), #[trigger] answers[i]))
                    && match r {
                    Some(v) => v@ == select_by(p.rows@, answers) && v@.len() > 0,
                    None => select_by(p.rows@, answers).len() == 0,
                },
    {
        reader.get_by_partition_key_as_vec_with_filter(self.partition_key.as_str(), filter)
    }

    /// The partition reduced to the rows that the filter accepts, from a
    /// local backend; `None` where no row is accepted.
    pub fn get_as_btree_map_with_filter_mock<E, F: Fn(&E) -> bool>(
        &self,
        reader: &MyNoSqlDataReaderMock<E>,
        filter: &F,
    ) -> (r: Option<DbPartition<E>>)
        requires
            reader.wf(),
            forall|e: &E| #[trigger] filter.requires((e,)),
        ensures
            r matches Some(q) ==> q.wf() && q.partition_key@ == self.partition_key(),
            partition_in(Some(reader.table()), self.partition_key()) is None ==> r is None,
            partition_in(Some(reader.table()), self.partition_key()) matches Some(p) ==> exists|answers: Seq<bool>|
                answers.len() == p.rows@.len() && (forall|i: int|
                    0 <= i < p.rows@.len() ==> filter.ensures((&*p.rows@[i].entity,), #[trigger] answers[i]))
                    && match r {
                    Some(q) => q.model() == crate::entity::put_in(PartitionModel::<E>::empty(), select_by(p.rows@, answers))
                        && select_by(p.rows@, answers).len() > 0,
                    None => select_by(p.rows@, answers).len() == 0,
                },
    {
        match reader.get_by_partition_key_as_vec_with_filter(self.partition_key.as_str(), filter) {
            Some(rows) => Some(partition_from_rows(self.partition_key.as_str(), &rows)),
            None => None,
        }
    }

    /// The partition from a local backend; nothing goes upstream.
    pub fn get_as_btree_map_mock<E>(&self, reader: &MyNoSqlDataReaderMock<E>) -> (r: Option<
        DbPartition<E>,
    >)
        requires
            reader.wf(),
        ensures
            r matches Some(p) ==> p.wf() && reader.model().contains_key(self.partition_key())
                && p.model() == reader.model()[self.partition_key()],
            r is None ==> !reader.model().contains_key(self.partition_key()),
    {
        reader.get_by_partition_key(self.partition_key.as_str())
    }
}

} // verus!
