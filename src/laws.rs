//! Properties that relate the operations of the cache and of the diff engine.
use vstd::prelude::*;
use crate::cache::{
    apply_update, apply_updates, model_or_empty, remove_rows, DeleteRowTcpContract, TableUpdate,
};
use crate::diff::{
    after_partition_changes as after_partition_changes_of, after_changes, batch_of, dropped_changes, partition_changes, rows_with_key_in, table_changes,
};
use crate::dispatcher::{BatchView, ChangeKind};
use crate::diff::{
    all_updated, before_partition_changes, before_row_changes, new_partition_changes, row_changes,
    Changes,
};
use crate::mock::all_rows;
use crate::entity::{
    lookup, partition_or_empty, put_group, put_groups, put_in, remove_row, DbPartition, DbRow,
    DbTable, PartitionModel, TableModel,
};
use crate::sorted::{keyed_map, lemma_keyed_map_all};

verus! {

/// Rows whose keys all lie in `m` are all kept by a "present" selection and
/// all dropped by an "absent" one.
pub proof fn lemma_rows_all_present<E>(rows: Seq<DbRow<E>>, m: PartitionModel<E>)
    requires
        forall|i: int| 0 <= i < rows.len() ==> m.contains_key(#[trigger] rows[i].row_key@),
    ensures
        rows_with_key_in(rows, m, true) == rows,
        rows_with_key_in(rows, m, false) == Seq::<DbRow<E>>::empty(),
    decreases rows.len(),
{
    if rows.len() > 0 {
        let init = rows.drop_last();
        assert forall|i: int| 0 <= i < init.len() implies m.contains_key(
            #[trigger] init[i].row_key@,
        ) by {
            assert(init[i] == rows[i]);
        }
        lemma_rows_all_present(init, m);
        assert(rows.last() == rows[rows.len() - 1]);
        assert(init.push(rows.last()) =~= rows);
    }
}

/// The kind under which a row present in both generations is reported.
pub open spec fn kept_kind(merged: bool) -> ChangeKind {
    if merged {
        ChangeKind::InsertedOrReplaced
    } else {
        ChangeKind::Updated
    }
}

/// Every row of the table, one batch per non-empty partition, each reported
/// as present in both generations.
pub open spec fn all_rows_updated<E>(merged: bool, ps: Seq<DbPartition<E>>) -> Seq<BatchView<E>>
    decreases ps.len(),
{
    if ps.len() == 0 {
        Seq::empty()
    } else {
        all_rows_updated(merged, ps.drop_last()) + batch_of(
            kept_kind(merged),
            ps.last().partition_key@,
            ps.last().rows@,
        )
    }
}

proof fn lemma_after_changes_same<E>(merged: bool, t: DbTable<E>, n: int)
    requires
        t.wf(),
        0 <= n <= t.partitions@.len(),
    ensures
        after_changes(merged, Some(t.partitions@), t.partitions@.take(n)) == all_rows_updated(
            merged,
            t.partitions@.take(n),
        ),
    decreases n,
{
    let ps = t.partitions@;
    if n == 0 {
        assert(ps.take(0) =~= Seq::<DbPartition<E>>::empty());
    } else {
        lemma_after_changes_same(merged, t, n - 1);
        assert(ps.take(n).drop_last() =~= ps.take(n - 1));
        let p = ps[n - 1];
        assert(ps.take(n).last() == p);
        lemma_keyed_map_all(ps);
        t.lemma_wf_partitions();
        assert(keyed_map(ps)[p.partition_key@] == p);
        lemma_keyed_map_all(p.rows@);
        assert forall|i: int| 0 <= i < p.rows@.len() implies keyed_map(p.rows@).contains_key(
            #[trigger] p.rows@[i].row_key@,
        ) by {
            assert(p.rows@[i].row_key@ == crate::sorted::Keyed::key(&p.rows@[i]));
        }
        lemma_rows_all_present(p.rows@, keyed_map(p.rows@));
        assert(partition_changes(merged, p.partition_key@, p.rows@, p.rows@) =~= batch_of(
            kept_kind(merged),
            p.partition_key@,
            p.rows@,
        ));
    }
}

proof fn lemma_dropped_changes_none<E>(before: Seq<DbPartition<E>>, after: Seq<DbPartition<E>>)
    requires
        forall|i: int|
            0 <= i < before.len() ==> keyed_map(after).contains_key(
                #[trigger] before[i].partition_key@,
            ),
    ensures
        dropped_changes(before, after) == Seq::<BatchView<E>>::empty(),
    decreases before.len(),
{
    if before.len() > 0 {
        let init = before.drop_last();
        assert forall|i: int| 0 <= i < init.len() implies keyed_map(after).contains_key(
            #[trigger] init[i].partition_key@,
        ) by {
            assert(init[i] == before[i]);
        }
        lemma_dropped_changes_none(init, after);
        assert(before.last() == before[before.len() - 1]);
    }
}

/// Diffing a generation against itself reports every row as updated (as
/// inserted-or-replaced, for a two-way observer), one batch per non-empty
/// partition, and nothing as added or deleted: classification goes by
/// presence of keys, not by content.
pub proof fn lemma_same_generation_all_updated<E>(merged: bool, t: DbTable<E>)
    requires
        t.wf(),
    ensures
        table_changes(merged, Some(t.partitions@), t.partitions@) == all_rows_updated(
            merged,
            t.partitions@,
        ),
{
    let ps = t.partitions@;
    lemma_after_changes_same(merged, t, ps.len() as int);
    assert(ps.take(ps.len() as int) =~= ps);
    lemma_keyed_map_all(ps);
    assert forall|i: int| 0 <= i < ps.len() implies keyed_map(ps).contains_key(
        #[trigger] ps[i].partition_key@,
    ) by {
        assert(ps[i].partition_key@ == crate::sorted::Keyed::key(&ps[i]));
    }
    lemma_dropped_changes_none(ps, ps);
    assert(table_changes(merged, Some(ps), ps) =~= all_rows_updated(merged, ps));
}

/// The entry under a row key of a partition model, if any.
pub open spec fn entry<E>(p: PartitionModel<E>, row_key: Seq<char>) -> Option<DbRow<E>> {
    if p.contains_key(row_key) {
        Some(p[row_key])
    } else {
        None
    }
}

pub open spec fn or_else<E>(a: Option<DbRow<E>>, b: Option<DbRow<E>>) -> Option<DbRow<E>> {
    match a {
        Some(r) => Some(r),
        None => b,
    }
}

/// The last row of `rows` with row key `row_key`.
pub open spec fn last_row_with<E>(rows: Seq<DbRow<E>>, row_key: Seq<char>) -> Option<DbRow<E>>
    decreases rows.len(),
{
    if rows.len() == 0 {
        None
    } else if rows.last().row_key@ == row_key {
        Some(rows.last())
    } else {
        last_row_with(rows.drop_last(), row_key)
    }
}

/// The last row under the two keys among groups of rows.
pub open spec fn last_in_groups<E>(
    groups: Seq<DbPartition<E>>,
    partition_key: Seq<char>,
    row_key: Seq<char>,
) -> Option<DbRow<E>>
    decreases groups.len(),
{
    if groups.len() == 0 {
        None
    } else {
        let g = groups.last();
        if g.partition_key@ == partition_key && last_row_with(g.rows@, row_key) is Some {
            last_row_with(g.rows@, row_key)
        } else {
            last_in_groups(groups.drop_last(), partition_key, row_key)
        }
    }
}

pub open spec fn deletes_key(
    dels: Seq<DeleteRowTcpContract>,
    partition_key: Seq<char>,
    row_key: Seq<char>,
) -> bool {
    exists|i: int|
        0 <= i < dels.len() && #[trigger] dels[i].partition_key@ == partition_key
            && dels[i].row_key@ == row_key
}

/// What an update leaves under the two keys, where it touches them at all:
/// a load sets them to what it holds (possibly nothing), an upsert to the
/// row it brings, a deletion to nothing.
pub open spec fn touch<E>(u: TableUpdate<E>, partition_key: Seq<char>, row_key: Seq<char>) -> Option<
    Option<DbRow<E>>,
> {
    match u {
        TableUpdate::InitTable(groups) => Some(last_in_groups(groups@, partition_key, row_key)),
        TableUpdate::InitPartition(p, rows) => if p@ == partition_key {
            Some(last_row_with(rows@, row_key))
        } else {
            None
        },
        TableUpdate::UpdateRows(groups) => match last_in_groups(groups@, partition_key, row_key) {
            Some(r) => Some(Some(r)),
            None => None,
        },
        TableUpdate::DeleteRows(dels) => if deletes_key(dels@, partition_key, row_key) {
            Some(None)
        } else {
            None
        },
    }
}

/// The row that the most recent update touching the two keys left there.
pub open spec fn latest<E>(us: Seq<TableUpdate<E>>, partition_key: Seq<char>, row_key: Seq<char>) -> Option<
    DbRow<E>,
>
    decreases us.len(),
{
    if us.len() == 0 {
        None
    } else {
        match touch(us.last(), partition_key, row_key) {
            Some(r) => r,
            None => latest(us.drop_last(), partition_key, row_key),
        }
    }
}

proof fn lemma_put_in_entry<E>(p: PartitionModel<E>, rows: Seq<DbRow<E>>, row_key: Seq<char>)
    ensures
        entry(put_in(p, rows), row_key) == or_else(last_row_with(rows, row_key), entry(p, row_key)),
    decreases rows.len(),
{
    if rows.len() > 0 {
        lemma_put_in_entry(p, rows.drop_last(), row_key);
    }
}

proof fn lemma_put_groups_lookup<E>(
    t: TableModel<E>,
    groups: Seq<DbPartition<E>>,
    partition_key: Seq<char>,
    row_key: Seq<char>,
)
    ensures
        lookup(put_groups(t, groups), partition_key, row_key) == or_else(
            last_in_groups(groups, partition_key, row_key),
            lookup(t, partition_key, row_key),
        ),
    decreases groups.len(),
{
    if groups.len() > 0 {
        let init = groups.drop_last();
        let g = groups.last();
        lemma_put_groups_lookup(t, init, partition_key, row_key);
        let t1 = put_groups(t, init);
        if g.partition_key@ == partition_key {
            lemma_put_in_entry(partition_or_empty(t1, partition_key), g.rows@, row_key);
        }
    }
}

proof fn lemma_remove_rows_lookup<E>(
    t: TableModel<E>,
    dels: Seq<DeleteRowTcpContract>,
    partition_key: Seq<char>,
    row_key: Seq<char>,
)
    ensures
        lookup(remove_rows(t, dels), partition_key, row_key) == if deletes_key(
            dels,
            partition_key,
            row_key,
        ) {
            None
        } else {
            lookup(t, partition_key, row_key)
        },
    decreases dels.len(),
{
    if dels.len() > 0 {
        let init = dels.drop_last();
        let d = dels.last();
        lemma_remove_rows_lookup(t, init, partition_key, row_key);
        let t1 = remove_rows(t, init);
        if deletes_key(init, partition_key, row_key) {
            let i = choose|i: int|
                0 <= i < init.len() && #[trigger] init[i].partition_key@ == partition_key
                    && init[i].row_key@ == row_key;
            assert(dels[i] == init[i]);
        }
        if d.partition_key@ == partition_key && d.row_key@ == row_key {
            assert(dels[dels.len() - 1] == d);
        }
        if deletes_key(dels, partition_key, row_key) && !(d.partition_key@ == partition_key
            && d.row_key@ == row_key) {
            let i = choose|i: int|
                0 <= i < dels.len() && #[trigger] dels[i].partition_key@ == partition_key
                    && dels[i].row_key@ == row_key;
            assert(i != dels.len() - 1);
            assert(init[i] == dels[i]);
        }
        if d.partition_key@ == partition_key && t1.contains_key(partition_key) {
            let p = t1[partition_key].remove(d.row_key@);
            if p == Map::<Seq<char>, DbRow<E>>::empty() && d.row_key@ != row_key {
                assert(!p.contains_key(row_key));
            }
        }
    }
}

proof fn lemma_apply_update_lookup<E>(
    m: Option<TableModel<E>>,
    u: TableUpdate<E>,
    partition_key: Seq<char>,
    row_key: Seq<char>,
)
    ensures
        lookup(model_or_empty(apply_update(m, u)), partition_key, row_key) == match touch(
            u,
            partition_key,
            row_key,
        ) {
            Some(r) => r,
            None => lookup(model_or_empty(m), partition_key, row_key),
        },
{
    match u {
        TableUpdate::InitTable(groups) => {
            lemma_put_groups_lookup(TableModel::<E>::empty(), groups@, partition_key, row_key);
        },
        TableUpdate::InitPartition(p, rows) => {
            lemma_put_in_entry(Map::empty(), rows@, row_key);
        },
        TableUpdate::UpdateRows(groups) => {
            lemma_put_groups_lookup(model_or_empty(m), groups@, partition_key, row_key);
        },
        TableUpdate::DeleteRows(dels) => {
            lemma_remove_rows_lookup(model_or_empty(m), dels@, partition_key, row_key);
        },
    }
}

/// Starting from a table never loaded, after any sequence of loads, upserts
/// and deletions the entry under two keys is the row that the most recent
/// update touching those keys left there, or nothing if none did (or the
/// most recent one removed it).
pub proof fn lemma_lookup_is_latest_update<E>(
    us: Seq<TableUpdate<E>>,
    partition_key: Seq<char>,
    row_key: Seq<char>,
)
    ensures
        lookup(model_or_empty(apply_updates(None, us)), partition_key, row_key) == latest(
            us,
            partition_key,
            row_key,
        ),
    decreases us.len(),
{
    if us.len() > 0 {
        lemma_lookup_is_latest_update(us.drop_last(), partition_key, row_key);
        lemma_apply_update_lookup(apply_updates(None, us.drop_last()), us.last(), partition_key, row_key);
    }
}

/// Some row of `rows` has row key `row_key`.
pub open spec fn has_row<E>(rows: Seq<DbRow<E>>, row_key: Seq<char>) -> bool {
    exists|j: int| 0 <= j < rows.len() && #[trigger] rows[j].row_key@ == row_key
}

/// Some batch of kind `kind` for `partition_key` holds a row with key `row_key`.
pub open spec fn in_batches<E>(
    bs: Seq<BatchView<E>>,
    kind: ChangeKind,
    partition_key: Seq<char>,
    row_key: Seq<char>,
) -> bool {
    exists|i: int|
        0 <= i < bs.len() && #[trigger] bs[i].0 == kind && bs[i].1 == partition_key && has_row(
            bs[i].2,
            row_key,
        )
}

/// The keys that batches of one kind report.
pub open spec fn batch_keys<E>(bs: Seq<BatchView<E>>, kind: ChangeKind) -> Set<(Seq<char>, Seq<char>)> {
    Set::new(|k: (Seq<char>, Seq<char>)| in_batches(bs, kind, k.0, k.1))
}

/// The keys of the rows of a table model.
pub open spec fn model_keys<E>(m: TableModel<E>) -> Set<(Seq<char>, Seq<char>)> {
    Set::new(|k: (Seq<char>, Seq<char>)| m.contains_key(k.0) && m[k.0].contains_key(k.1))
}

proof fn lemma_has_row_push<E>(s: Seq<DbRow<E>>, r: DbRow<E>, row_key: Seq<char>)
    ensures
        has_row(s.push(r), row_key) <==> has_row(s, row_key) || r.row_key@ == row_key,
{
    if has_row(s, row_key) {
        let j = choose|j: int| 0 <= j < s.len() && #[trigger] s[j].row_key@ == row_key;
        assert(s.push(r)[j] == s[j]);
    }
    if r.row_key@ == row_key {
        assert(s.push(r)[s.len() as int] == r);
    }
    if has_row(s.push(r), row_key) && r.row_key@ != row_key {
        let j = choose|j: int| 0 <= j < s.push(r).len() && #[trigger] s.push(r)[j].row_key@ == row_key;
        assert(j < s.len());
        assert(s[j] == s.push(r)[j]);
    }
}

proof fn lemma_has_row_is_key<E>(rows: Seq<DbRow<E>>, row_key: Seq<char>)
    ensures
        has_row(rows, row_key) <==> keyed_map(rows).contains_key(row_key),
{
    if has_row(rows, row_key) {
        let j = choose|j: int| 0 <= j < rows.len() && #[trigger] rows[j].row_key@ == row_key;
        assert(crate::sorted::Keyed::key(&rows[j]) == row_key);
    }
    if crate::sorted::has_key(rows, row_key) {
        let j = crate::sorted::key_index(rows, row_key);
        assert(rows[j].row_key@ == row_key);
    }
}

proof fn lemma_selected_has_row<E>(
    rows: Seq<DbRow<E>>,
    m: PartitionModel<E>,
    present: bool,
    row_key: Seq<char>,
)
    ensures
        has_row(rows_with_key_in(rows, m, present), row_key) <==> has_row(rows, row_key) && (
        m.contains_key(row_key) == present),
    decreases rows.len(),
{
    if rows.len() == 0 {
    } else {
        let init = rows.drop_last();
        let r = rows.last();
        lemma_selected_has_row(init, m, present, row_key);
        lemma_has_row_push(rows_with_key_in(init, m, present), r, row_key);
        lemma_has_row_push(init, r, row_key);
        assert(init.push(r) =~= rows);
    }
}

proof fn lemma_in_batches_concat<E>(
    a: Seq<BatchView<E>>,
    b: Seq<BatchView<E>>,
    kind: ChangeKind,
    partition_key: Seq<char>,
    row_key: Seq<char>,
)
    ensures
        in_batches(a + b, kind, partition_key, row_key) <==> in_batches(
            a,
            kind,
            partition_key,
            row_key,
        ) || in_batches(b, kind, partition_key, row_key),
{
    if in_batches(a, kind, partition_key, row_key) {
        let i = choose|i: int|
            0 <= i < a.len() && #[trigger] a[i].0 == kind && a[i].1 == partition_key && has_row(
                a[i].2,
                row_key,
            );
        assert((a + b)[i] == a[i]);
    }
    if in_batches(b, kind, partition_key, row_key) {
        let i = choose|i: int|
            0 <= i < b.len() && #[trigger] b[i].0 == kind && b[i].1 == partition_key && has_row(
                b[i].2,
                row_key,
            );
        assert((a + b)[a.len() + i] == b[i]);
    }
    if in_batches(a + b, kind, partition_key, row_key) {
        let i = choose|i: int|
            0 <= i < (a + b).len() && #[trigger] (a + b)[i].0 == kind && (a + b)[i].1
                == partition_key && has_row((a + b)[i].2, row_key);
        if i < a.len() {
            assert(a[i] == (a + b)[i]);
        } else {
            assert(b[i - a.len()] == (a + b)[i]);
        }
    }
}

proof fn lemma_in_batch_of<E>(
    k: ChangeKind,
    p: Seq<char>,
    rows: Seq<DbRow<E>>,
    kind: ChangeKind,
    partition_key: Seq<char>,
    row_key: Seq<char>,
)
    ensures
        in_batches(batch_of(k, p, rows), kind, partition_key, row_key) <==> k == kind && p
            == partition_key && has_row(rows, row_key),
{
    if rows.len() > 0 {
        let bs = batch_of(k, p, rows);
        assert(bs.len() == 1 && bs[0] == (k, p, rows));
        if k == kind && p == partition_key && has_row(rows, row_key) {
            assert(bs[0].0 == kind && bs[0].1 == partition_key && has_row(bs[0].2, row_key));
        }
        if in_batches(bs, kind, partition_key, row_key) {
            let i = choose|i: int|
                0 <= i < bs.len() && #[trigger] bs[i].0 == kind && bs[i].1 == partition_key
                    && has_row(bs[i].2, row_key);
            assert(i == 0);
        }
    } else {
        if has_row(rows, row_key) {
            let j = choose|j: int| 0 <= j < rows.len() && #[trigger] rows[j].row_key@ == row_key;
        }
    }
}

proof fn lemma_in_batches_concat_all<E>(
    a: Seq<BatchView<E>>,
    b: Seq<BatchView<E>>,
    partition_key: Seq<char>,
    row_key: Seq<char>,
)
    ensures
        forall|kind: ChangeKind|
            #[trigger] in_batches(a + b, kind, partition_key, row_key) <==> in_batches(
                a,
                kind,
                partition_key,
                row_key,
            ) || in_batches(b, kind, partition_key, row_key),
{
    assert forall|kind: ChangeKind|
        #[trigger] in_batches(a + b, kind, partition_key, row_key) <==> in_batches(
            a,
            kind,
            partition_key,
            row_key,
        ) || in_batches(b, kind, partition_key, row_key) by {
        lemma_in_batches_concat(a, b, kind, partition_key, row_key);
    }
}

proof fn lemma_in_batch_of_all<E>(
    k: ChangeKind,
    p: Seq<char>,
    rows: Seq<DbRow<E>>,
    partition_key: Seq<char>,
    row_key: Seq<char>,
)
    ensures
        forall|kind: ChangeKind|
            #[trigger] in_batches(batch_of(k, p, rows), kind, partition_key, row_key) <==> k == kind
                && p == partition_key && has_row(rows, row_key),
{
    assert forall|kind: ChangeKind|
        #[trigger] in_batches(batch_of(k, p, rows), kind, partition_key, row_key) <==> k == kind
            && p == partition_key && has_row(rows, row_key) by {
        lemma_in_batch_of(k, p, rows, kind, partition_key, row_key);
    }
}

/// What one partition of the newer generation contributes.
proof fn lemma_after_partition<E>(
    merged: bool,
    before: Option<Seq<DbPartition<E>>>,
    p: DbPartition<E>,
    partition_key: Seq<char>,
    row_key: Seq<char>,
)
    ensures
        added_or_updated(after_partition_changes_of(merged, before, p), partition_key, row_key)
            <==> p.partition_key@ == partition_key && has_row(p.rows@, row_key),
        in_batches(after_partition_changes_of(merged, before, p), ChangeKind::Deleted, partition_key, row_key)
            <==> p.partition_key@ == partition_key && before is Some && keyed_map(before->0).contains_key(partition_key)
            && has_row(keyed_map(before->0)[partition_key].rows@, row_key) && !has_row(p.rows@, row_key),
{
    let pk = p.partition_key@;
    let in_before = before is Some && keyed_map(before->0).contains_key(pk);
    if in_before {
        let b = keyed_map(before->0)[pk].rows@;
        let added = rows_with_key_in(p.rows@, keyed_map(b), false);
        let updated = rows_with_key_in(p.rows@, keyed_map(b), true);
        let deleted = rows_with_key_in(b, keyed_map(p.rows@), false);
        let z = batch_of(ChangeKind::Deleted, pk, deleted);
        lemma_in_batch_of_all(ChangeKind::Deleted, pk, deleted, partition_key, row_key);
        lemma_selected_has_row(b, keyed_map(p.rows@), false, row_key);
        lemma_has_row_is_key(p.rows@, row_key);
        if merged {
            let w = batch_of(ChangeKind::InsertedOrReplaced, pk, p.rows@);
            assert(after_partition_changes_of(merged, before, p) == w + z);
            lemma_in_batches_concat_all(w, z, partition_key, row_key);
            lemma_in_batch_of_all(ChangeKind::InsertedOrReplaced, pk, p.rows@, partition_key, row_key);
        } else {
            let x = batch_of(ChangeKind::Added, pk, added);
            let y = batch_of(ChangeKind::Updated, pk, updated);
            assert(after_partition_changes_of(merged, before, p) == x + y + z);
            lemma_in_batches_concat_all(x + y, z, partition_key, row_key);
            lemma_in_batches_concat_all(x, y, partition_key, row_key);
            lemma_in_batch_of_all(ChangeKind::Added, pk, added, partition_key, row_key);
            lemma_in_batch_of_all(ChangeKind::Updated, pk, updated, partition_key, row_key);
            lemma_selected_has_row(p.rows@, keyed_map(b), false, row_key);
            lemma_selected_has_row(p.rows@, keyed_map(b), true, row_key);
        }
    } else {
        assert(after_partition_changes_of(merged, before, p) == batch_of(
            crate::diff::fresh_kind(merged),
            pk,
            p.rows@,
        ));
        lemma_in_batch_of_all(crate::diff::fresh_kind(merged), pk, p.rows@, partition_key, row_key);
    }
}

/// Reported as added, as updated, or as inserted-or-replaced.
pub open spec fn added_or_updated<E>(bs: Seq<BatchView<E>>, partition_key: Seq<char>, row_key: Seq<char>) -> bool {
    in_batches(bs, ChangeKind::Added, partition_key, row_key) || in_batches(
        bs,
        ChangeKind::Updated,
        partition_key,
        row_key,
    ) || in_batches(bs, ChangeKind::InsertedOrReplaced, partition_key, row_key)
}

/// The older generation holds a row under the two keys.
pub open spec fn held_before<E>(
    before: Option<Seq<DbPartition<E>>>,
    partition_key: Seq<char>,
    row_key: Seq<char>,
) -> bool {
    before is Some && keyed_map(before->0).contains_key(partition_key) && has_row(
        keyed_map(before->0)[partition_key].rows@,
        row_key,
    )
}

proof fn lemma_after_changes_keys<E>(
    merged: bool,
    before: Option<Seq<DbPartition<E>>>,
    ps: Seq<DbPartition<E>>,
    partition_key: Seq<char>,
    row_key: Seq<char>,
)
    ensures
        added_or_updated(after_changes(merged, before, ps), partition_key, row_key) <==> exists|i: int|
            0 <= i < ps.len() && #[trigger] ps[i].partition_key@ == partition_key && has_row(
                ps[i].rows@,
                row_key,
            ),
        in_batches(after_changes(merged, before, ps), ChangeKind::Deleted, partition_key, row_key)
            <==> exists|i: int|
            0 <= i < ps.len() && #[trigger] ps[i].partition_key@ == partition_key && held_before(
                before,
                partition_key,
                row_key,
            ) && !has_row(ps[i].rows@, row_key),
    decreases ps.len(),
{
    if ps.len() == 0 {
    } else {
        let init = ps.drop_last();
        let p = ps.last();
        lemma_after_changes_keys(merged, before, init, partition_key, row_key);
        lemma_after_partition(merged, before, p, partition_key, row_key);
        let a = after_changes(merged, before, init);
        let b = after_partition_changes_of(merged, before, p);
        lemma_in_batches_concat_all(a, b, partition_key, row_key);
        let n = ps.len() - 1;
        assert(ps[n] == p);
        assert forall|i: int| 0 <= i < init.len() implies #[trigger] init[i] == ps[i] by {}
        if exists|i: int|
            0 <= i < ps.len() && #[trigger] ps[i].partition_key@ == partition_key && has_row(
                ps[i].rows@,
                row_key,
            ) {
            let i = choose|i: int|
                0 <= i < ps.len() && #[trigger] ps[i].partition_key@ == partition_key && has_row(
                    ps[i].rows@,
                    row_key,
                );
            if i < n {
                assert(init[i].partition_key@ == partition_key);
            }
        }
        if exists|i: int|
            0 <= i < ps.len() && #[trigger] ps[i].partition_key@ == partition_key && held_before(
                before,
                partition_key,
                row_key,
            ) && !has_row(ps[i].rows@, row_key) {
            let i = choose|i: int|
                0 <= i < ps.len() && #[trigger] ps[i].partition_key@ == partition_key
                    && held_before(before, partition_key, row_key) && !has_row(
                    ps[i].rows@,
                    row_key,
                );
            if i < n {
                assert(init[i].partition_key@ == partition_key);
            }
        }
        if exists|i: int|
            0 <= i < init.len() && #[trigger] init[i].partition_key@ == partition_key && has_row(
                init[i].rows@,
                row_key,
            ) {
            let i = choose|i: int|
                0 <= i < init.len() && #[trigger] init[i].partition_key@ == partition_key
                    && has_row(init[i].rows@, row_key);
            assert(ps[i].partition_key@ == partition_key);
        }
        if exists|i: int|
            0 <= i < init.len() && #[trigger] init[i].partition_key@ == partition_key
                && held_before(before, partition_key, row_key) && !has_row(init[i].rows@, row_key) {
            let i = choose|i: int|
                0 <= i < init.len() && #[trigger] init[i].partition_key@ == partition_key
                    && held_before(before, partition_key, row_key) && !has_row(
                    init[i].rows@,
                    row_key,
                );
            assert(ps[i].partition_key@ == partition_key);
        }
        if p.partition_key@ == partition_key {
            assert(ps[n].partition_key@ == partition_key);
        }
    }
}

proof fn lemma_dropped_changes_keys<E>(
    before: Seq<DbPartition<E>>,
    after: Seq<DbPartition<E>>,
    partition_key: Seq<char>,
    row_key: Seq<char>,
)
    ensures
        !added_or_updated(dropped_changes(before, after), partition_key, row_key),
        in_batches(dropped_changes(before, after), ChangeKind::Deleted, partition_key, row_key)
            <==> exists|i: int|
            0 <= i < before.len() && #[trigger] before[i].partition_key@ == partition_key
                && !keyed_map(after).contains_key(partition_key) && has_row(before[i].rows@, row_key),
    decreases before.len(),
{
    if before.len() == 0 {
    } else {
        let init = before.drop_last();
        let p = before.last();
        lemma_dropped_changes_keys(init, after, partition_key, row_key);
        let a = dropped_changes(init, after);
        let b = if keyed_map(after).contains_key(p.partition_key@) {
            Seq::<BatchView<E>>::empty()
        } else {
            batch_of(ChangeKind::Deleted, p.partition_key@, p.rows@)
        };
        assert(dropped_changes(before, after) == a + b);
        lemma_in_batches_concat_all(a, b, partition_key, row_key);
        lemma_in_batch_of_all(ChangeKind::Deleted, p.partition_key@, p.rows@, partition_key, row_key);
        let n = before.len() - 1;
        assert(before[n] == p);
        if exists|i: int|
            0 <= i < before.len() && #[trigger] before[i].partition_key@ == partition_key
                && !keyed_map(after).contains_key(partition_key) && has_row(before[i].rows@, row_key) {
            let i = choose|i: int|
                0 <= i < before.len() && #[trigger] before[i].partition_key@ == partition_key
                    && !keyed_map(after).contains_key(partition_key) && has_row(
                    before[i].rows@,
                    row_key,
                );
            if i < n {
                assert(init[i] == before[i]);
                assert(init[i].partition_key@ == partition_key);
            }
        }
        if exists|i: int|
            0 <= i < init.len() && #[trigger] init[i].partition_key@ == partition_key
                && !keyed_map(after).contains_key(partition_key) && has_row(init[i].rows@, row_key) {
            let i = choose|i: int|
                0 <= i < init.len() && #[trigger] init[i].partition_key@ == partition_key
                    && !keyed_map(after).contains_key(partition_key) && has_row(
                    init[i].rows@,
                    row_key,
                );
            assert(init[i] == before[i]);
            assert(before[i].partition_key@ == partition_key);
        }
        if p.partition_key@ == partition_key {
            assert(before[n].partition_key@ == partition_key);
        }
    }
}

/// A row key of a partition of a sorted generation, read through the model.
proof fn lemma_model_has<E>(t: DbTable<E>, partition_key: Seq<char>, row_key: Seq<char>)
    requires
        t.wf(),
    ensures
        (t.model().contains_key(partition_key) && t.model()[partition_key].contains_key(row_key))
            <==> exists|i: int|
            0 <= i < t.partitions@.len() && #[trigger] t.partitions@[i].partition_key@
                == partition_key && has_row(t.partitions@[i].rows@, row_key),
        t.model().contains_key(partition_key) <==> keyed_map(t.partitions@).contains_key(partition_key),
        keyed_map(t.partitions@).contains_key(partition_key) ==> (t.model()[partition_key].contains_key(row_key)
            <==> has_row(keyed_map(t.partitions@)[partition_key].rows@, row_key)),
{
    let ps = t.partitions@;
    lemma_keyed_map_all(ps);
    if keyed_map(ps).contains_key(partition_key) {
        lemma_has_row_is_key(keyed_map(ps)[partition_key].rows@, row_key);
        let i = crate::sorted::key_index(ps, partition_key);
        assert(ps[i].partition_key@ == partition_key);
        assert(keyed_map(ps)[partition_key] == ps[i]);
    }
    if exists|i: int|
        0 <= i < ps.len() && #[trigger] ps[i].partition_key@ == partition_key && has_row(
            ps[i].rows@,
            row_key,
        ) {
        let i = choose|i: int|
            0 <= i < ps.len() && #[trigger] ps[i].partition_key@ == partition_key && has_row(
                ps[i].rows@,
                row_key,
            );
        assert(crate::sorted::Keyed::key(&ps[i]) == partition_key);
        assert(keyed_map(ps)[partition_key] == ps[i]);
    }
}

/// The model of a table that may not be loaded, read as empty.
pub open spec fn table_model_or_empty<E>(t: Option<DbTable<E>>) -> TableModel<E> {
    match t {
        Some(t) => t.model(),
        None => TableModel::<E>::empty(),
    }
}

/// The keys reported as added, updated or inserted-or-replaced.
pub open spec fn present_keys<E>(bs: Seq<BatchView<E>>) -> Set<(Seq<char>, Seq<char>)> {
    batch_keys(bs, ChangeKind::Added).union(batch_keys(bs, ChangeKind::Updated)).union(
        batch_keys(bs, ChangeKind::InsertedOrReplaced),
    )
}

/// Diffing is complete, for either observer shape: the keys reported as
/// added, updated or inserted-or-replaced are exactly the keys of the newer
/// generation, and the keys reported as deleted are exactly those of the
/// older generation that the newer one lacks.
pub proof fn lemma_table_changes_complete<E>(merged: bool, before: Option<DbTable<E>>, after: DbTable<E>)
    requires
        before matches Some(b) ==> b.wf(),
        after.wf(),
    ensures
        present_keys(table_changes(merged, crate::cache::generation(before), after.partitions@))
            == model_keys(after.model()),
        batch_keys(table_changes(merged, crate::cache::generation(before), after.partitions@), ChangeKind::Deleted)
            == model_keys(table_model_or_empty(before)).difference(model_keys(after.model())),
{
    let g = crate::cache::generation(before);
    let ps = after.partitions@;
    let ch = table_changes(merged, g, ps);
    let a = after_changes(merged, g, ps);
    let d = match g {
        Some(b) => dropped_changes(b, ps),
        None => Seq::<BatchView<E>>::empty(),
    };
    assert(ch == a + d);
    assert forall|k: (Seq<char>, Seq<char>)|
        #![trigger batch_keys(ch, ChangeKind::Added).contains(k)]
        #![trigger batch_keys(ch, ChangeKind::Updated).contains(k)]
        #![trigger batch_keys(ch, ChangeKind::InsertedOrReplaced).contains(k)]
        #![trigger batch_keys(ch, ChangeKind::Deleted).contains(k)]
        #![trigger model_keys(after.model()).contains(k)]
        (batch_keys(ch, ChangeKind::Added).contains(k) || batch_keys(ch, ChangeKind::Updated).contains(k)
            || batch_keys(ch, ChangeKind::InsertedOrReplaced).contains(k)
            <==> model_keys(after.model()).contains(k))
        && (batch_keys(ch, ChangeKind::Deleted).contains(k) <==> model_keys(table_model_or_empty(before)).contains(k)
            && !model_keys(after.model()).contains(k)) by {
        let (pk, rk) = k;
        lemma_in_batches_concat_all(a, d, pk, rk);
        lemma_after_changes_keys(merged, g, ps, pk, rk);
        lemma_model_has(after, pk, rk);
        match before {
            Some(b) => {
                lemma_dropped_changes_keys(b.partitions@, ps, pk, rk);
                lemma_model_has(b, pk, rk);
                if exists|i: int|
                    0 <= i < ps.len() && #[trigger] ps[i].partition_key@ == pk && held_before(g, pk, rk)
                        && !has_row(ps[i].rows@, rk) {
                    let i = choose|i: int|
                        0 <= i < ps.len() && #[trigger] ps[i].partition_key@ == pk && held_before(g, pk, rk)
                            && !has_row(ps[i].rows@, rk);
                    lemma_keyed_map_all(ps);
                    assert(crate::sorted::Keyed::key(&ps[i]) == pk);
                    assert(keyed_map(ps)[pk] == ps[i]);
                }
                if after.model().contains_key(pk) && held_before(g, pk, rk) && !after.model()[pk].contains_key(rk) {
                    lemma_keyed_map_all(ps);
                    let i = crate::sorted::key_index(ps, pk);
                    assert(ps[i].partition_key@ == pk);
                    assert(keyed_map(ps)[pk] == ps[i]);
                }
            },
            None => {
                if in_batches(d, ChangeKind::Added, pk, rk) || in_batches(d, ChangeKind::Updated, pk, rk)
                    || in_batches(d, ChangeKind::InsertedOrReplaced, pk, rk)
                    || in_batches(d, ChangeKind::Deleted, pk, rk) {
                    assert(false);
                }
            },
        }
    }
    assert(present_keys(ch) =~= model_keys(after.model()));
    assert(batch_keys(ch, ChangeKind::Deleted) =~= model_keys(table_model_or_empty(before)).difference(model_keys(after.model())));
}

/// While deletions run, a partition that is still there holds exactly its
/// first rows that no deletion named, and at least one row.
proof fn lemma_remove_rows_partition<E>(
    t: TableModel<E>,
    dels: Seq<DeleteRowTcpContract>,
    partition_key: Seq<char>,
)
    requires
        t.contains_key(partition_key),
        exists|k: Seq<char>| t[partition_key].contains_key(k),
    ensures
        remove_rows(t, dels).contains_key(partition_key) ==> (forall|k: Seq<char>|
            #[trigger] remove_rows(t, dels)[partition_key].contains_key(k) <==> t[partition_key].contains_key(k)
                && !deletes_key(dels, partition_key, k)) && exists|k: Seq<char>|
            remove_rows(t, dels)[partition_key].contains_key(k),
    decreases dels.len(),
{
    if dels.len() == 0 {
        assert forall|k: Seq<char>| !deletes_key(dels, partition_key, k) by {}
    } else {
        let init = dels.drop_last();
        let d = dels.last();
        lemma_remove_rows_partition(t, init, partition_key);
        let m = remove_rows(t, init);
        let n = remove_rows(t, dels);
        assert forall|k: Seq<char>| deletes_key(dels, partition_key, k) <==> deletes_key(
            init,
            partition_key,
            k,
        ) || (d.partition_key@ == partition_key && d.row_key@ == k) by {
            if deletes_key(init, partition_key, k) {
                let i = choose|i: int|
                    0 <= i < init.len() && #[trigger] init[i].partition_key@ == partition_key
                        && init[i].row_key@ == k;
                assert(dels[i] == init[i]);
            }
            if d.partition_key@ == partition_key && d.row_key@ == k {
                assert(dels[dels.len() - 1] == d);
            }
            if deletes_key(dels, partition_key, k) {
                let i = choose|i: int|
                    0 <= i < dels.len() && #[trigger] dels[i].partition_key@ == partition_key
                        && dels[i].row_key@ == k;
                if i < dels.len() - 1 {
                    assert(init[i] == dels[i]);
                }
            }
        }
        if d.partition_key@ != partition_key {
            if m.contains_key(d.partition_key@) {
                let q = m[d.partition_key@].remove(d.row_key@);
                if q == Map::<Seq<char>, DbRow<E>>::empty() {
                    assert(n == m.remove(d.partition_key@));
                } else {
                    assert(n == m.insert(d.partition_key@, q));
                }
            }
            assert(n.contains_key(partition_key) == m.contains_key(partition_key));
            if n.contains_key(partition_key) {
                assert(n[partition_key] == m[partition_key]);
            }
        }
        if !m.contains_key(partition_key) {
            assert(!n.contains_key(partition_key));
        }
        if n.contains_key(partition_key) && d.partition_key@ == partition_key {
            let p = m[partition_key].remove(d.row_key@);
            if p == Map::<Seq<char>, DbRow<E>>::empty() {
                assert(!n.contains_key(partition_key));
            } else {
                assert(n[partition_key] == p);
                assert(exists|k: Seq<char>| p.contains_key(k)) by {
                    if forall|k: Seq<char>| !p.contains_key(k) {
                        assert(p =~= Map::<Seq<char>, DbRow<E>>::empty());
                    }
                }
            }
        }
    }
}

/// Deleting every row of a non-empty partition, in any order and among any
/// other deletions, removes the partition.
pub proof fn lemma_delete_all_rows_removes_partition<E>(
    t: TableModel<E>,
    dels: Seq<DeleteRowTcpContract>,
    partition_key: Seq<char>,
)
    requires
        t.contains_key(partition_key),
        exists|k: Seq<char>| t[partition_key].contains_key(k),
        forall|k: Seq<char>|
            t[partition_key].contains_key(k) ==> #[trigger] deletes_key(dels, partition_key, k),
    ensures
        !remove_rows(t, dels).contains_key(partition_key),
{
    lemma_remove_rows_partition(t, dels, partition_key);
    if remove_rows(t, dels).contains_key(partition_key) {
        let k = choose|k: Seq<char>| remove_rows(t, dels)[partition_key].contains_key(k);
        assert(t[partition_key].contains_key(k) && !deletes_key(dels, partition_key, k));
    }
}

proof fn lemma_before_rows_all_kept<E>(s: Seq<DbRow<E>>, m: PartitionModel<E>)
    requires
        forall|i: int|
            0 <= i < s.len() ==> m.contains_key(#[trigger] s[i].row_key@) && m[s[i].row_key@] == s[i],
    ensures
        before_row_changes(s, m) == all_updated(s),
    decreases s.len(),
{
    if s.len() > 0 {
        let init = s.drop_last();
        assert forall|i: int| 0 <= i < init.len() implies m.contains_key(#[trigger] init[i].row_key@)
            && m[init[i].row_key@] == init[i] by {
            assert(init[i] == s[i]);
        }
        lemma_before_rows_all_kept(init, m);
        assert(s[s.len() - 1] == s.last());
        assert(all_updated(s) =~= all_updated(init).push(Changes::Updated(s.last())));
    }
}

proof fn lemma_row_changes_same<E>(rows: Seq<DbRow<E>>)
    requires
        crate::sorted::sorted_keys(rows),
    ensures
        row_changes(rows, rows) == all_updated(rows),
{
    lemma_keyed_map_all(rows);
    assert forall|i: int| 0 <= i < rows.len() implies keyed_map(rows).contains_key(
        #[trigger] rows[i].row_key@,
    ) && keyed_map(rows)[rows[i].row_key@] == rows[i] by {
        assert(rows[i].row_key@ == crate::sorted::Keyed::key(&rows[i]));
    }
    lemma_before_rows_all_kept(rows, keyed_map(rows));
    lemma_rows_all_present(rows, keyed_map(rows));
    assert(all_updated(Seq::<DbRow<E>>::empty()) =~= Seq::<Changes<E>>::empty());
    assert(row_changes(rows, rows) =~= all_updated(rows));
}

proof fn lemma_before_partitions_same<E>(t: DbTable<E>, n: int)
    requires
        t.wf(),
        0 <= n <= t.partitions@.len(),
    ensures
        before_partition_changes(t.partitions@.take(n), t.partitions@) == all_updated(
            all_rows(t.partitions@.take(n)),
        ),
    decreases n,
{
    let ps = t.partitions@;
    if n == 0 {
        assert(ps.take(0) =~= Seq::<DbPartition<E>>::empty());
        assert(all_updated(Seq::<DbRow<E>>::empty()) =~= Seq::<Changes<E>>::empty());
    } else {
        lemma_before_partitions_same(t, n - 1);
        assert(ps.take(n).drop_last() =~= ps.take(n - 1));
        let p = ps[n - 1];
        assert(ps.take(n).last() == p);
        lemma_keyed_map_all(ps);
        t.lemma_wf_partitions();
        assert(keyed_map(ps)[p.partition_key@] == p);
        lemma_row_changes_same(p.rows@);
        let a = all_rows(ps.take(n - 1));
        assert(all_updated(a + p.rows@) =~= all_updated(a) + all_updated(p.rows@));
    }
}

proof fn lemma_new_partitions_none<E>(before: Seq<DbPartition<E>>, after: Seq<DbPartition<E>>)
    requires
        forall|i: int|
            0 <= i < after.len() ==> keyed_map(before).contains_key(
                #[trigger] after[i].partition_key@,
            ),
    ensures
        new_partition_changes(before, after) == Seq::<Changes<E>>::empty(),
    decreases after.len(),
{
    if after.len() > 0 {
        let init = after.drop_last();
        assert forall|i: int| 0 <= i < init.len() implies keyed_map(before).contains_key(
            #[trigger] init[i].partition_key@,
        ) by {
            assert(init[i] == after[i]);
        }
        lemma_new_partitions_none(before, init);
        assert(after[after.len() - 1] == after.last());
    }
}

/// The flat comparison of a generation with itself reports every row, in
/// order, as updated, and nothing as removed.
pub proof fn lemma_detect_same_generation_all_updated<E>(t: DbTable<E>)
    requires
        t.wf(),
    ensures
        before_partition_changes(t.partitions@, t.partitions@) + new_partition_changes(
            t.partitions@,
            t.partitions@,
        ) == all_updated(all_rows(t.partitions@)),
{
    let ps = t.partitions@;
    lemma_before_partitions_same(t, ps.len() as int);
    assert(ps.take(ps.len() as int) =~= ps);
    lemma_keyed_map_all(ps);
    assert forall|i: int| 0 <= i < ps.len() implies keyed_map(ps).contains_key(
        #[trigger] ps[i].partition_key@,
    ) by {
        assert(ps[i].partition_key@ == crate::sorted::Keyed::key(&ps[i]));
    }
    lemma_new_partitions_none(ps, ps);
    assert(all_updated(all_rows(ps)) + Seq::<Changes<E>>::empty() =~= all_updated(all_rows(ps)));
}

pub open spec fn is_updated_with<E>(c: Changes<E>, row_key: Seq<char>) -> bool {
    c matches Changes::Updated(r) && r.row_key@ == row_key
}

pub open spec fn is_removed_with<E>(c: Changes<E>, row_key: Seq<char>) -> bool {
    c matches Changes::Removed(r) && r.row_key@ == row_key
}

pub open spec fn updated_in<E>(cs: Seq<Changes<E>>, row_key: Seq<char>) -> bool {
    exists|i: int| 0 <= i < cs.len() && #[trigger] is_updated_with(cs[i], row_key)
}

pub open spec fn removed_in<E>(cs: Seq<Changes<E>>, row_key: Seq<char>) -> bool {
    exists|i: int| 0 <= i < cs.len() && #[trigger] is_removed_with(cs[i], row_key)
}

/// The row keys reported updated.
pub open spec fn updated_row_keys<E>(cs: Seq<Changes<E>>) -> Set<Seq<char>> {
    Set::new(|k: Seq<char>| updated_in(cs, k))
}

/// The row keys reported removed.
pub open spec fn removed_row_keys<E>(cs: Seq<Changes<E>>) -> Set<Seq<char>> {
    Set::new(|k: Seq<char>| removed_in(cs, k))
}

proof fn lemma_changes_concat<E>(a: Seq<Changes<E>>, b: Seq<Changes<E>>, k: Seq<char>)
    ensures
        updated_in(a + b, k) <==> updated_in(a, k) || updated_in(b, k),
        removed_in(a + b, k) <==> removed_in(a, k) || removed_in(b, k),
{
    if updated_in(a, k) {
        let i = choose|i: int| 0 <= i < a.len() && #[trigger] is_updated_with(a[i], k);
        assert((a + b)[i] == a[i]);
    }
    if updated_in(b, k) {
        let i = choose|i: int| 0 <= i < b.len() && #[trigger] is_updated_with(b[i], k);
        assert((a + b)[a.len() + i] == b[i]);
    }
    if updated_in(a + b, k) {
        let i = choose|i: int| 0 <= i < (a + b).len() && #[trigger] is_updated_with((a + b)[i], k);
        if i < a.len() {
            assert(a[i] == (a + b)[i]);
        } else {
            assert(b[i - a.len()] == (a + b)[i]);
        }
    }
    if removed_in(a, k) {
        let i = choose|i: int| 0 <= i < a.len() && #[trigger] is_removed_with(a[i], k);
        assert((a + b)[i] == a[i]);
    }
    if removed_in(b, k) {
        let i = choose|i: int| 0 <= i < b.len() && #[trigger] is_removed_with(b[i], k);
        assert((a + b)[a.len() + i] == b[i]);
    }
    if removed_in(a + b, k) {
        let i = choose|i: int| 0 <= i < (a + b).len() && #[trigger] is_removed_with((a + b)[i], k);
        if i < a.len() {
            assert(a[i] == (a + b)[i]);
        } else {
            assert(b[i - a.len()] == (a + b)[i]);
        }
    }
}

proof fn lemma_all_updated_keys<E>(s: Seq<DbRow<E>>, k: Seq<char>)
    ensures
        updated_in(all_updated(s), k) <==> has_row(s, k),
        !removed_in(all_updated(s), k),
{
    let u = all_updated(s);
    if has_row(s, k) {
        let j = choose|j: int| 0 <= j < s.len() && #[trigger] s[j].row_key@ == k;
        assert(is_updated_with(u[j], k));
    }
    if updated_in(u, k) {
        let i = choose|i: int| 0 <= i < u.len() && #[trigger] is_updated_with(u[i], k);
        assert(s[i].row_key@ == k);
    }
    if removed_in(u, k) {
        let i = choose|i: int| 0 <= i < u.len() && #[trigger] is_removed_with(u[i], k);
        assert(u[i] == Changes::Updated(s[i]));
    }
}

proof fn lemma_before_row_keys<E>(s: Seq<DbRow<E>>, after: Seq<DbRow<E>>, k: Seq<char>)
    ensures
        updated_in(before_row_changes(s, keyed_map(after)), k) <==> has_row(s, k) && keyed_map(
            after,
        ).contains_key(k),
        removed_in(before_row_changes(s, keyed_map(after)), k) <==> has_row(s, k) && !keyed_map(
            after,
        ).contains_key(k),
    decreases s.len(),
{
    let m = keyed_map(after);
    if s.len() == 0 {
    } else {
        let init = s.drop_last();
        let r = s.last();
        lemma_before_row_changes_step(init, r, m, k);
        lemma_before_row_keys(init, after, k);
        let c = if m.contains_key(r.row_key@) {
            Changes::Updated(m[r.row_key@])
        } else {
            Changes::Removed(r)
        };
        if m.contains_key(r.row_key@) {
            let j = crate::sorted::key_index(after, r.row_key@);
            assert(after[j].row_key@ == r.row_key@);
        }
        lemma_has_row_push(init, r, k);
        assert(init.push(r) =~= s);
    }
}

proof fn lemma_before_row_changes_step<E>(
    init: Seq<DbRow<E>>,
    r: DbRow<E>,
    m: PartitionModel<E>,
    k: Seq<char>,
)
    ensures
        ({
            let cs = before_row_changes(init, m);
            let c = if m.contains_key(r.row_key@) {
                Changes::Updated(m[r.row_key@])
            } else {
                Changes::Removed(r)
            };
            &&& before_row_changes(init.push(r), m) == cs.push(c)
            &&& updated_in(cs.push(c), k) <==> updated_in(cs, k) || is_updated_with(c, k)
            &&& removed_in(cs.push(c), k) <==> removed_in(cs, k) || is_removed_with(c, k)
        }),
{
    let cs = before_row_changes(init, m);
    let c = if m.contains_key(r.row_key@) {
        Changes::Updated(m[r.row_key@])
    } else {
        Changes::Removed(r)
    };
    assert(init.push(r).drop_last() =~= init);
    assert(cs.push(c) =~= cs + seq![c]);
    lemma_changes_concat(cs, seq![c], k);
    if is_updated_with(c, k) {
        assert(is_updated_with(seq![c][0], k));
    }
    if is_removed_with(c, k) {
        assert(is_removed_with(seq![c][0], k));
    }
    if updated_in(seq![c], k) {
        let i = choose|i: int| 0 <= i < seq![c].len() && #[trigger] is_updated_with(seq![c][i], k);
    }
    if removed_in(seq![c], k) {
        let i = choose|i: int| 0 <= i < seq![c].len() && #[trigger] is_removed_with(seq![c][i], k);
    }
}

/// The flat comparison of one partition is complete: the row keys reported
/// updated are exactly those of the newer rows, and the row keys reported
/// removed are exactly the older ones that the newer rows lack.
pub proof fn lemma_row_changes_complete<E>(before: Seq<DbRow<E>>, after: Seq<DbRow<E>>)
    ensures
        updated_row_keys(row_changes(before, after)) == keyed_map(after).dom(),
        removed_row_keys(row_changes(before, after)) == keyed_map(before).dom().difference(
            keyed_map(after).dom(),
        ),
{
    let cs = row_changes(before, after);
    let a = before_row_changes(before, keyed_map(after));
    let fresh = rows_with_key_in(after, keyed_map(before), false);
    assert forall|k: Seq<char>|
        #![trigger updated_row_keys(cs).contains(k)]
        #![trigger removed_row_keys(cs).contains(k)]
        (updated_row_keys(cs).contains(k) <==> keyed_map(after).dom().contains(k)) && (
        removed_row_keys(cs).contains(k) <==> keyed_map(before).dom().contains(k)
            && !keyed_map(after).dom().contains(k)) by {
        lemma_changes_concat(a, all_updated(fresh), k);
        lemma_before_row_keys(before, after, k);
        lemma_all_updated_keys(fresh, k);
        lemma_selected_has_row(after, keyed_map(before), false, k);
        lemma_has_row_is_key(before, k);
        lemma_has_row_is_key(after, k);
    }
    assert(updated_row_keys(cs) =~= keyed_map(after).dom());
    assert(removed_row_keys(cs) =~= keyed_map(before).dom().difference(keyed_map(after).dom()));
}

} // verus!
