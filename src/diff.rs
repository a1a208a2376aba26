//! Comparison of two generations of a table into added, updated and deleted rows.
//!
//! Classification goes by presence of a key, not by content: a row that is in
//! both generations is reported as updated even where nothing in it changed.
use vstd::prelude::*;
use crate::dispatcher::{BatchView, ChangeBatch, ChangeKind, MyNoSqlDataReaderCallBacksPusher};
use crate::entity::{DbPartition, DbRow, DbTable, PartitionModel};
use crate::sorted::{get_keyed, keyed_map, lemma_keyed_map_all, sorted_keys};

verus! {

/// The rows of `rows`, in order, whose row key is (`present`) or is not in `m`.
pub open spec fn rows_with_key_in<E>(
    rows: Seq<DbRow<E>>,
    m: PartitionModel<E>,
    present: bool,
) -> Seq<DbRow<E>>
    decreases rows.len(),
{
    if rows.len() == 0 {
        Seq::empty()
    } else {
        let init = rows_with_key_in(rows.drop_last(), m, present);
        if m.contains_key(rows.last().row_key@) == present {
            init.push(rows.last())
        } else {
            init
        }
    }
}

/// One batch, or none where there are no rows.
pub open spec fn batch_of<E>(kind: ChangeKind, partition_key: Seq<char>, rows: Seq<DbRow<E>>) -> Seq<
    BatchView<E>,
> {
    if rows.len() == 0 {
        Seq::empty()
    } else {
        seq![(kind, partition_key, rows)]
    }
}

/// The kind of the batch for rows a partition did not hold before.
pub open spec fn fresh_kind(merged: bool) -> ChangeKind {
    if merged {
        ChangeKind::InsertedOrReplaced
    } else {
        ChangeKind::Added
    }
}

/// The batches for one partition present in both generations: for a
/// two-way observer one inserted-or-replaced batch with all rows now there,
/// in row-key order; else the added rows, then the updated ones. Then the
/// deleted rows.
pub open spec fn partition_changes<E>(
    merged: bool,
    partition_key: Seq<char>,
    before: Seq<DbRow<E>>,
    after: Seq<DbRow<E>>,
) -> Seq<BatchView<E>> {
    let deleted = batch_of(
        ChangeKind::Deleted,
        partition_key,
        rows_with_key_in(before, keyed_map(after), false),
    );
    if merged {
        batch_of(ChangeKind::InsertedOrReplaced, partition_key, after) + deleted
    } else {
        batch_of(ChangeKind::Added, partition_key, rows_with_key_in(after, keyed_map(before), false))
            + batch_of(
            ChangeKind::Updated,
            partition_key,
            rows_with_key_in(after, keyed_map(before), true),
        ) + deleted
    }
}

/// The batches for one partition of the newer generation.
pub open spec fn after_partition_changes<E>(
    merged: bool,
    before: Option<Seq<DbPartition<E>>>,
    p: DbPartition<E>,
) -> Seq<BatchView<E>> {
    match before {
        Some(b) => if keyed_map(b).contains_key(p.partition_key@) {
            partition_changes(merged, p.partition_key@, keyed_map(b)[p.partition_key@].rows@, p.rows@)
        } else {
            batch_of(fresh_kind(merged), p.partition_key@, p.rows@)
        },
        None => batch_of(fresh_kind(merged), p.partition_key@, p.rows@),
    }
}

/// The batches for the partitions of the newer generation, in order.
pub open spec fn after_changes<E>(
    merged: bool,
    before: Option<Seq<DbPartition<E>>>,
    after: Seq<DbPartition<E>>,
) -> Seq<BatchView<E>>
    decreases after.len(),
{
    if after.len() == 0 {
        Seq::empty()
    } else {
        after_changes(merged, before, after.drop_last()) + after_partition_changes(
            merged,
            before,
            after.last(),
        )
    }
}

/// The batches for the partitions that only the older generation has.
pub open spec fn dropped_changes<E>(
    before: Seq<DbPartition<E>>,
    after: Seq<DbPartition<E>>,
) -> Seq<BatchView<E>>
    decreases before.len(),
{
    if before.len() == 0 {
        Seq::empty()
    } else {
        let p = before.last();
        dropped_changes(before.drop_last(), after) + if keyed_map(after).contains_key(
            p.partition_key@,
        ) {
            Seq::empty()
        } else {
            batch_of(ChangeKind::Deleted, p.partition_key@, p.rows@)
        }
    }
}

/// All batches between two generations; `None` is a table never loaded.
pub open spec fn table_changes<E>(
    merged: bool,
    before: Option<Seq<DbPartition<E>>>,
    after: Seq<DbPartition<E>>,
) -> Seq<BatchView<E>> {
    after_changes(merged, before, after) + match before {
        Some(b) => dropped_changes(b, after),
        None => Seq::empty(),
    }
}

/// The rows of `rows` whose row key is (`present`) or is not among those of `other`.
pub fn select_rows<E>(rows: &Vec<DbRow<E>>, other: &Vec<DbRow<E>>, present: bool) -> (r: Vec<
    DbRow<E>,
>)
    requires
        sorted_keys(other@),
    ensures
        r@ == rows_with_key_in(rows@, keyed_map(other@), present),
{
    let mut r: Vec<DbRow<E>> = Vec::new();
    let mut i: usize = 0;
    assert(rows@.take(0) =~= Seq::<DbRow<E>>::empty());
    while i < rows.len()
        invariant
            sorted_keys(other@),
            i <= rows@.len(),
            r@ == rows_with_key_in(rows@.take(i as int), keyed_map(other@), present),
        decreases rows@.len() - i,
    {
        let found = get_keyed(other, rows[i].get_row_key()).is_some();
        assert(rows@.take(i as int + 1).drop_last() =~= rows@.take(i as int));
        if found == present {
            r.push(rows[i].share());
        }
        i = i + 1;
    }
    assert(rows@.take(i as int) =~= rows@);
    r
}

/// Puts the rows in the queue as one batch, unless there are none.
fn push_batch<E>(
    out: &mut MyNoSqlDataReaderCallBacksPusher<E>,
    kind: ChangeKind,
    partition_key: &str,
    rows: Vec<DbRow<E>>,
)
    ensures
        final(out).merged() == old(out).merged(),
        final(out).pending() == old(out).pending() + batch_of(kind, partition_key@, rows@),
{
    if rows.len() == 0 {
        assert(old(out).pending() + batch_of(kind, partition_key@, rows@) =~= old(out).pending());
    } else {
        let ghost v = (kind, partition_key@, rows@);
        out.push(ChangeBatch { kind, partition_key: partition_key.to_owned(), rows });
        assert(old(out).pending().push(v) =~= old(out).pending() + batch_of(
            kind,
            partition_key@,
            rows@,
        ));
    }
}

/// Every row of a partition that did not exist before is added (inserted,
/// for a two-way observer).
pub fn trigger_brand_new_partition<E>(
    out: &mut MyNoSqlDataReaderCallBacksPusher<E>,
    partition_key: &str,
    partition: &DbPartition<E>,
)
    ensures
        final(out).merged() == old(out).merged(),
        final(out).pending() == old(out).pending() + batch_of(
            fresh_kind(old(out).merged()),
            partition_key@,
            partition.rows@,
        ),
{
    let kind = if out.is_merged() {
        ChangeKind::InsertedOrReplaced
    } else {
        ChangeKind::Added
    };
    push_batch(out, kind, partition_key, crate::entity::share_rows(&partition.rows));
}

/// Rows of `now` whose key was in `before` are updated, the others added
/// (for a two-way observer, all rows of `now` form one inserted-or-replaced
/// batch); rows of `before` whose key is no longer there are deleted.
pub fn trigger_partition_difference<E>(
    out: &mut MyNoSqlDataReaderCallBacksPusher<E>,
    partition_key: &str,
    before: Option<&DbPartition<E>>,
    now: &DbPartition<E>,
)
    requires
        before matches Some(b) ==> b.wf(),
        now.wf(),
    ensures
        final(out).merged() == old(out).merged(),
        final(out).pending() == old(out).pending() + match before {
            Some(b) => partition_changes(old(out).merged(), partition_key@, b.rows@, now.rows@),
            None => batch_of(fresh_kind(old(out).merged()), partition_key@, now.rows@),
        },
{
    match before {
        Some(b) => {
            let deleted = select_rows(&b.rows, &now.rows, false);
            if out.is_merged() {
                let all = crate::entity::share_rows(&now.rows);
                push_batch(out, ChangeKind::InsertedOrReplaced, partition_key, all);
            } else {
                let added = select_rows(&now.rows, &b.rows, false);
                let updated = select_rows(&now.rows, &b.rows, true);
                push_batch(out, ChangeKind::Added, partition_key, added);
                push_batch(out, ChangeKind::Updated, partition_key, updated);
            }
            push_batch(out, ChangeKind::Deleted, partition_key, deleted);
            assert(final(out).pending() =~= old(out).pending() + partition_changes(
                old(out).merged(),
                partition_key@,
                b.rows@,
                now.rows@,
            ));
        },
        None => {
            trigger_brand_new_partition(out, partition_key, now);
        },
    }
}

/// The batches for every partition of `now`, against `before` where given.
fn trigger_after_partitions<E>(
    out: &mut MyNoSqlDataReaderCallBacksPusher<E>,
    before: Option<&DbTable<E>>,
    now: &DbTable<E>,
)
    requires
        before matches Some(b) ==> b.wf(),
        now.wf(),
    ensures
        final(out).merged() == old(out).merged(),
        final(out).pending() == old(out).pending() + after_changes(
            old(out).merged(),
            match before {
                Some(b) => Some(b.partitions@),
                None => None,
            },
            now.partitions@,
        ),
{
    let ghost bs = match before {
        Some(b) => Some(b.partitions@),
        None => None,
    };
    let ghost ps = now.partitions@;
    let ghost mg = out.merged();
    proof {
        now.lemma_wf_partitions();
        assert(ps.take(0) =~= Seq::<DbPartition<E>>::empty());
        assert(old(out).pending() + after_changes(mg, bs, ps.take(0)) =~= old(out).pending());
    }
    let mut i: usize = 0;
    while i < now.partitions.len()
        invariant
            before matches Some(b) ==> b.wf(),
            now.wf(),
            ps == now.partitions@,
            bs == match before {
                Some(b) => Some(b.partitions@),
                None => None::<Seq<DbPartition<E>>>,
            },
            forall|j: int| #![trigger ps[j]] 0 <= j < ps.len() ==> ps[j].wf(),
            i <= ps.len(),
            mg == old(out).merged(),
            out.merged() == mg,
            out.pending() == old(out).pending() + after_changes(mg, bs, ps.take(i as int)),
        decreases ps.len() - i,
    {
        let p = &now.partitions[i];
        match before {
            Some(b) => match b.get_partition(p.partition_key.as_str()) {
                Some(bp) => trigger_partition_difference(
                    out,
                    p.partition_key.as_str(),
                    Some(bp),
                    p,
                ),
                None => trigger_brand_new_partition(out, p.partition_key.as_str(), p),
            },
            None => trigger_brand_new_partition(out, p.partition_key.as_str(), p),
        }
        proof {
            if let Some(b) = before {
                b.lemma_wf_partitions();
                lemma_keyed_map_all(b.partitions@);
            }
            assert(ps.take(i as int + 1).drop_last() =~= ps.take(i as int));
            assert(ps.take(i as int + 1).last() == ps[i as int]);
            assert(out.pending() =~= old(out).pending() + after_changes(
                mg,
                bs,
                ps.take(i as int + 1),
            ));
        }
        i = i + 1;
    }
    assert(ps.take(i as int) =~= ps);
}

/// Every row of a table that was never loaded is added.
pub fn trigger_brand_new_table<E>(out: &mut MyNoSqlDataReaderCallBacksPusher<E>, now: &DbTable<E>)
    requires
        now.wf(),
    ensures
        final(out).merged() == old(out).merged(),
        final(out).pending() == old(out).pending() + table_changes(
            old(out).merged(),
            None,
            now.partitions@,
        ),
{
    trigger_after_partitions(out, None, now);
    assert(final(out).pending() =~= old(out).pending() + table_changes(
        old(out).merged(),
        None,
        now.partitions@,
    ));
}

/// The batches between two loaded generations.
pub fn trigger_old_and_new_table_difference<E>(
    out: &mut MyNoSqlDataReaderCallBacksPusher<E>,
    before: &DbTable<E>,
    now: &DbTable<E>,
)
    requires
        before.wf(),
        now.wf(),
    ensures
        final(out).merged() == old(out).merged(),
        final(out).pending() == old(out).pending() + table_changes(
            old(out).merged(),
            Some(before.partitions@),
            now.partitions@,
        ),
{
    trigger_after_partitions(out, Some(before), now);
    let ghost mid = out.pending();
    let ghost bs = before.partitions@;
    proof {
        assert(bs.take(0) =~= Seq::<DbPartition<E>>::empty());
        assert(mid + dropped_changes(bs.take(0), now.partitions@) =~= mid);
    }
    let mut i: usize = 0;
    while i < before.partitions.len()
        invariant
            before.wf(),
            now.wf(),
            bs == before.partitions@,
            i <= bs.len(),
            out.merged() == old(out).merged(),
            out.pending() == mid + dropped_changes(bs.take(i as int), now.partitions@),
        decreases bs.len() - i,
    {
        let p = &before.partitions[i];
        let found = now.has_partition(p.partition_key.as_str());
        proof {
            now.lemma_wf_partitions();
            lemma_keyed_map_all(now.partitions@);
            assert(bs.take(i as int + 1).drop_last() =~= bs.take(i as int));
            assert(bs.take(i as int + 1).last() == bs[i as int]);
        }
        if !found {
            push_batch(
                out,
                ChangeKind::Deleted,
                p.partition_key.as_str(),
                crate::entity::share_rows(&p.rows),
            );
        }
        assert(out.pending() =~= mid + dropped_changes(bs.take(i as int + 1), now.partitions@));
        i = i + 1;
    }
    assert(bs.take(i as int) =~= bs);
    assert(final(out).pending() =~= old(out).pending() + table_changes(
        old(out).merged(),
        Some(bs),
        now.partitions@,
    ));
}

/// The batches from `before` (absent for a table never loaded) to `now`.
pub fn trigger_table_difference<E>(
    out: &mut MyNoSqlDataReaderCallBacksPusher<E>,
    before: Option<&DbTable<E>>,
    now: &DbTable<E>,
)
    requires
        before matches Some(b) ==> b.wf(),
        now.wf(),
    ensures
        final(out).merged() == old(out).merged(),
        final(out).pending() == old(out).pending() + table_changes(
            old(out).merged(),
            match before {
                Some(b) => Some(b.partitions@),
                None => None,
            },
            now.partitions@,
        ),
{
    match before {
        Some(b) => trigger_old_and_new_table_difference(out, b, now),
        None => trigger_brand_new_table(out, now),
    }
}

/// One row's change, as a flat list reports it.
pub enum Changes<E> {
    Removed(DbRow<E>),
    Updated(DbRow<E>),
}

/// Flat row-level comparison of two generations.
pub struct ChangeDetector {}

/// For each row of `before`: updated (to its newer version) where `after`
/// keeps its key, else removed.
pub open spec fn before_row_changes<E>(before: Seq<DbRow<E>>, after: PartitionModel<E>) -> Seq<
    Changes<E>,
>
    decreases before.len(),
{
    if before.len() == 0 {
        Seq::empty()
    } else {
        let r = before.last();
        before_row_changes(before.drop_last(), after).push(
            if after.contains_key(r.row_key@) {
                Changes::Updated(after[r.row_key@])
            } else {
                Changes::Removed(r)
            },
        )
    }
}

pub open spec fn all_updated<E>(rows: Seq<DbRow<E>>) -> Seq<Changes<E>> {
    rows.map_values(|r: DbRow<E>| Changes::Updated(r))
}

pub open spec fn all_removed<E>(rows: Seq<DbRow<E>>) -> Seq<Changes<E>> {
    rows.map_values(|r: DbRow<E>| Changes::Removed(r))
}

/// The changes within one partition: those of the older rows in their order,
/// then the rows that only the newer generation has, as updated.
pub open spec fn row_changes<E>(before: Seq<DbRow<E>>, after: Seq<DbRow<E>>) -> Seq<Changes<E>> {
    before_row_changes(before, keyed_map(after)) + all_updated(
        rows_with_key_in(after, keyed_map(before), false),
    )
}

pub open spec fn before_partition_changes<E>(
    before: Seq<DbPartition<E>>,
    after: Seq<DbPartition<E>>,
) -> Seq<Changes<E>>
    decreases before.len(),
{
    if before.len() == 0 {
        Seq::empty()
    } else {
        let p = before.last();
        before_partition_changes(before.drop_last(), after) + if keyed_map(after).contains_key(
            p.partition_key@,
        ) {
            row_changes(p.rows@, keyed_map(after)[p.partition_key@].rows@)
        } else {
            all_removed(p.rows@)
        }
    }
}

pub open spec fn new_partition_changes<E>(
    before: Seq<DbPartition<E>>,
    after: Seq<DbPartition<E>>,
) -> Seq<Changes<E>>
    decreases after.len(),
{
    if after.len() == 0 {
        Seq::empty()
    } else {
        let p = after.last();
        new_partition_changes(before, after.drop_last()) + if keyed_map(before).contains_key(
            p.partition_key@,
        ) {
            Seq::empty()
        } else {
            all_updated(p.rows@)
        }
    }
}

/// Appends `rows` to `out`, each as updated (`updated`) or as removed.
fn push_all<E>(out: &mut Vec<Changes<E>>, rows: &Vec<DbRow<E>>, updated: bool)
    ensures
        final(out)@ == old(out)@ + if updated {
            all_updated(rows@)
        } else {
            all_removed(rows@)
        },
{
    let ghost o = out@;
    let mut i: usize = 0;
    while i < rows.len()
        invariant
            i <= rows@.len(),
            out@ == o + if updated {
                all_updated(rows@.take(i as int))
            } else {
                all_removed(rows@.take(i as int))
            },
        decreases rows@.len() - i,
    {
        let r = rows[i].share();
        if updated {
            out.push(Changes::Updated(r));
        } else {
            out.push(Changes::Removed(r));
        }
        assert(rows@.take(i as int + 1) =~= rows@.take(i as int).push(rows@[i as int]));
        assert(out@ =~= o + if updated {
            all_updated(rows@.take(i as int + 1))
        } else {
            all_removed(rows@.take(i as int + 1))
        });
        i = i + 1;
    }
    assert(rows@.take(i as int) =~= rows@);
}

impl ChangeDetector {
    /// Row changes between two generations of a table: first partition by
    /// partition of `before`, then the rows of partitions that only `after` has.
    pub fn detect_change_partition<E>(&self, before: &DbTable<E>, after: &DbTable<E>) -> (r: Vec<
        Changes<E>,
    >)
        requires
            before.wf(),
            after.wf(),
        ensures
            r@ == before_partition_changes(before.partitions@, after.partitions@)
                + new_partition_changes(before.partitions@, after.partitions@),
    {
        let mut out: Vec<Changes<E>> = Vec::new();
        let ghost bs = before.partitions@;
        let ghost as_ = after.partitions@;
        proof {
            before.lemma_wf_partitions();
            after.lemma_wf_partitions();
            lemma_keyed_map_all(bs);
            lemma_keyed_map_all(as_);
            assert(bs.take(0) =~= Seq::<DbPartition<E>>::empty());
            assert(as_.take(0) =~= Seq::<DbPartition<E>>::empty());
        }
        let mut i: usize = 0;
        while i < before.partitions.len()
            invariant
                before.wf(),
                after.wf(),
                bs == before.partitions@,
                as_ == after.partitions@,
                forall|j: int| #![trigger bs[j]] 0 <= j < bs.len() ==> bs[j].wf(),
                i <= bs.len(),
                out@ == before_partition_changes(bs.take(i as int), as_),
            decreases bs.len() - i,
        {
            let p = &before.partitions[i];
            match after.get_partition(p.partition_key.as_str()) {
                Some(ap) => {
                    let rows = self.detect_change_rows(p, ap);
                    let mut rows = rows;
                    out.append(&mut rows);
                },
                None => push_all(&mut out, &p.rows, false),
            }
            proof {
                assert(bs.take(i as int + 1).drop_last() =~= bs.take(i as int));
                assert(bs.take(i as int + 1).last() == bs[i as int]);
                assert(out@ =~= before_partition_changes(bs.take(i as int + 1), as_));
            }
            i = i + 1;
        }
        assert(bs.take(i as int) =~= bs);
        let ghost mid = out@;
        assert(mid + new_partition_changes(bs, as_.take(0)) =~= mid);
        let mut k: usize = 0;
        while k < after.partitions.len()
            invariant
                before.wf(),
                after.wf(),
                bs == before.partitions@,
                as_ == after.partitions@,
                k <= as_.len(),
                out@ == mid + new_partition_changes(bs, as_.take(k as int)),
            decreases as_.len() - k,
        {
            let p = &after.partitions[k];
            if !before.has_partition(p.partition_key.as_str()) {
                push_all(&mut out, &p.rows, true);
            }
            proof {
                lemma_keyed_map_all(bs);
                assert(as_.take(k as int + 1).drop_last() =~= as_.take(k as int));
                assert(as_.take(k as int + 1).last() == as_[k as int]);
                assert(out@ =~= mid + new_partition_changes(bs, as_.take(k as int + 1)));
            }
            k = k + 1;
        }
        assert(as_.take(k as int) =~= as_);
        out
    }

    /// Row changes within one partition: each older row updated or removed, in
    /// order, then the rows that are new, as updated.
    pub fn detect_change_rows<E>(&self, before: &DbPartition<E>, after: &DbPartition<E>) -> (r: Vec<
        Changes<E>,
    >)
        requires
            before.wf(),
            after.wf(),
        ensures
            r@ == row_changes(before.rows@, after.rows@),
    {
        let mut out: Vec<Changes<E>> = Vec::new();
        let ghost bs = before.rows@;
        assert(bs.take(0) =~= Seq::<DbRow<E>>::empty());
        let mut i: usize = 0;
        while i < before.rows.len()
            invariant
                before.wf(),
                after.wf(),
                bs == before.rows@,
                i <= bs.len(),
                out@ == before_row_changes(bs.take(i as int), keyed_map(after.rows@)),
            decreases bs.len() - i,
        {
            let row = &before.rows[i];
            match get_keyed(&after.rows, row.get_row_key()) {
                Some(a) => out.push(Changes::Updated(a.share())),
                None => out.push(Changes::Removed(row.share())),
            }
            assert(bs.take(i as int + 1).drop_last() =~= bs.take(i as int));
            assert(bs.take(i as int + 1).last() == bs[i as int]);
            i = i + 1;
        }
        assert(bs.take(i as int) =~= bs);
        let fresh = select_rows(&after.rows, &before.rows, false);
        push_all(&mut out, &fresh, true);
        out
    }
}

} // verus!
