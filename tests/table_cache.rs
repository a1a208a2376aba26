use std::sync::Arc;

use my_no_sql_tcp_reader::diff::trigger_table_difference;
use my_no_sql_tcp_reader::keys::{compare_keys, KeyOrder};
use my_no_sql_tcp_reader::{
    ChangeBatch, ChangeKind, DbPartition, DbRow, DbTable, DeleteRowTcpContract,
    MyNoSqlDataReaderCallBacksPusher, MyNoSqlDataReaderData, ObserverShape, TableUpdate,
};

#[derive(Debug, PartialEq)]
struct Item {
    name: String,
}

fn row(partition_key: &str, row_key: &str, time_stamp: i64) -> DbRow<Item> {
    DbRow::new(
        partition_key.to_string(),
        row_key.to_string(),
        time_stamp,
        Item { name: format!("{}/{}@{}", partition_key, row_key, time_stamp) },
    )
}

fn group(partition_key: &str, rows: Vec<DbRow<Item>>) -> DbPartition<Item> {
    DbPartition { partition_key: partition_key.to_string(), rows }
}

fn del(partition_key: &str, row_key: &str) -> DeleteRowTcpContract {
    DeleteRowTcpContract { partition_key: partition_key.to_string(), row_key: row_key.to_string() }
}

fn drain(cache: &mut MyNoSqlDataReaderData<Item>) -> Vec<ChangeBatch<Item>> {
    let mut out = Vec::new();
    while let Some(b) = cache.pop_event() {
        out.push(b);
    }
    out
}

fn keys_of(b: &ChangeBatch<Item>) -> Vec<String> {
    b.rows.iter().map(|r| r.row_key.clone()).collect()
}

#[test]
fn upsert_replaces_and_reports_one_updated_batch() {
    let mut cache: MyNoSqlDataReaderData<Item> = MyNoSqlDataReaderData::new("T");
    cache.assign_callback(ObserverShape::ThreeWay);
    cache.init_partition("P1", vec![row("P1", "R1", 100), row("P1", "R2", 100)]);
    let first = drain(&mut cache);
    assert_eq!(first.len(), 1);
    assert_eq!(first[0].kind, ChangeKind::Added);

    cache.update_rows(vec![group("P1", vec![row("P1", "R2", 200)])]);
    assert_eq!(cache.get_entity("P1", "R2").unwrap().time_stamp, 200);
    assert_eq!(cache.get_entity("P1", "R1").unwrap().time_stamp, 100);

    let batches = drain(&mut cache);
    let updated: Vec<&ChangeBatch<Item>> =
        batches.iter().filter(|b| b.kind == ChangeKind::Updated).collect();
    assert_eq!(batches.len(), 1);
    assert_eq!(updated.len(), 1);
    assert_eq!(updated[0].partition_key, "P1");
    assert_eq!(keys_of(updated[0]), vec!["R2".to_string()]);
}

#[test]
fn deleting_all_rows_drops_partition_with_one_batch() {
    let mut cache: MyNoSqlDataReaderData<Item> = MyNoSqlDataReaderData::new("T");
    cache.assign_callback(ObserverShape::ThreeWay);
    cache.init_table(vec![group("P1", vec![row("P1", "R1", 1), row("P1", "R2", 1)])]);
    drain(&mut cache);
    assert!(cache.has_partition("P1"));

    cache.delete_rows(vec![del("P1", "R1"), del("P1", "R2")]);
    assert!(!cache.has_partition("P1"));

    let batches = drain(&mut cache);
    assert_eq!(batches.len(), 1);
    assert_eq!(batches[0].kind, ChangeKind::Deleted);
    assert_eq!(batches[0].partition_key, "P1");
    assert_eq!(batches[0].rows.len(), 2);
}

#[test]
fn deleting_one_of_two_rows_keeps_partition() {
    let mut cache: MyNoSqlDataReaderData<Item> = MyNoSqlDataReaderData::new("T");
    cache.init_table(vec![group("P1", vec![row("P1", "R1", 1), row("P1", "R2", 1)])]);
    cache.delete_rows(vec![del("P1", "R1"), del("P9", "R1"), del("P1", "R7")]);
    assert!(cache.has_partition("P1"));
    assert!(cache.get_entity("P1", "R1").is_none());
    assert!(cache.get_entity("P1", "R2").is_some());
}

#[test]
fn delete_batches_group_by_partition_in_first_seen_order() {
    let mut cache: MyNoSqlDataReaderData<Item> = MyNoSqlDataReaderData::new("T");
    cache.assign_callback(ObserverShape::ThreeWay);
    cache.init_table(vec![
        group("A", vec![row("A", "1", 1), row("A", "2", 1)]),
        group("B", vec![row("B", "1", 1)]),
    ]);
    drain(&mut cache);
    cache.delete_rows(vec![del("B", "1"), del("A", "2"), del("A", "1"), del("A", "1")]);
    let batches = drain(&mut cache);
    assert_eq!(batches.len(), 2);
    assert_eq!(batches[0].partition_key, "B");
    assert_eq!(keys_of(&batches[0]), vec!["1".to_string()]);
    assert_eq!(batches[1].partition_key, "A");
    assert_eq!(keys_of(&batches[1]), vec!["2".to_string(), "1".to_string()]);
    assert!(!cache.has_partition("A"));
    assert!(!cache.has_partition("B"));
}

#[test]
fn no_batches_without_a_callback() {
    let mut cache: MyNoSqlDataReaderData<Item> = MyNoSqlDataReaderData::new("T");
    cache.init_table(vec![group("P1", vec![row("P1", "R1", 1)])]);
    assert!(cache.pop_event().is_none());
}

#[test]
fn fresh_cache_is_uninitialized_until_a_load() {
    let mut cache: MyNoSqlDataReaderData<Item> = MyNoSqlDataReaderData::new("T");
    assert!(!cache.has_entities_at_all());
    assert!(cache.get_table_snapshot().is_none());
    assert!(cache.get_entity("P", "R").is_none());
    assert!(!cache.has_partition("P"));
    cache.init_table(vec![]);
    assert!(cache.has_entities_at_all());
    assert_eq!(cache.get_table_snapshot().unwrap().partitions.len(), 0);
}

#[test]
fn init_table_is_a_full_replace() {
    let mut cache: MyNoSqlDataReaderData<Item> = MyNoSqlDataReaderData::new("T");
    cache.assign_callback(ObserverShape::ThreeWay);
    cache.init_table(vec![group("A", vec![row("A", "1", 1)]), group("B", vec![row("B", "1", 1)])]);
    let first = drain(&mut cache);
    assert_eq!(first.len(), 2);
    assert!(first.iter().all(|b| b.kind == ChangeKind::Added));

    cache.init_table(vec![group("B", vec![row("B", "1", 2), row("B", "2", 2)])]);
    assert!(!cache.has_partition("A"));
    assert_eq!(cache.get_entity("B", "1").unwrap().time_stamp, 2);
    let batches = drain(&mut cache);
    let described: Vec<(ChangeKind, String, Vec<String>)> = batches
        .iter()
        .map(|b| (b.kind, b.partition_key.clone(), keys_of(b)))
        .collect();
    assert_eq!(
        described,
        vec![
            (ChangeKind::Added, "B".to_string(), vec!["2".to_string()]),
            (ChangeKind::Updated, "B".to_string(), vec!["1".to_string()]),
            (ChangeKind::Deleted, "A".to_string(), vec!["1".to_string()]),
        ]
    );
}

#[test]
fn same_snapshot_twice_reports_every_row_updated() {
    let mut t = DbTable::new();
    t.put_group("P1", &vec![row("P1", "R1", 1), row("P1", "R2", 1)]);
    t.put_group("P2", &vec![row("P2", "R3", 1)]);
    let mut pusher = MyNoSqlDataReaderCallBacksPusher::new(ObserverShape::ThreeWay);
    trigger_table_difference(&mut pusher, Some(&t), &t);
    let mut batches = Vec::new();
    while let Some(b) = pusher.pop() {
        batches.push(b);
    }
    assert_eq!(batches.len(), 2);
    assert!(batches.iter().all(|b| b.kind == ChangeKind::Updated));
    assert_eq!(batches[0].rows.len() + batches[1].rows.len(), 3);
}

#[test]
fn diff_keys_cover_after_and_deleted_cover_before_minus_after() {
    let mut before = DbTable::new();
    before.put_group("P1", &vec![row("P1", "a", 1), row("P1", "b", 1)]);
    before.put_group("P2", &vec![row("P2", "x", 1)]);
    let mut after = DbTable::new();
    after.put_group("P1", &vec![row("P1", "b", 2), row("P1", "c", 2)]);
    after.put_group("P3", &vec![row("P3", "y", 2)]);

    let mut pusher = MyNoSqlDataReaderCallBacksPusher::new(ObserverShape::ThreeWay);
    trigger_table_difference(&mut pusher, Some(&before), &after);
    let mut added_or_updated: Vec<(String, String)> = Vec::new();
    let mut deleted: Vec<(String, String)> = Vec::new();
    while let Some(b) = pusher.pop() {
        for r in &b.rows {
            let k = (b.partition_key.clone(), r.row_key.clone());
            match b.kind {
                ChangeKind::Deleted => deleted.push(k),
                _ => added_or_updated.push(k),
            }
        }
    }
    added_or_updated.sort();
    deleted.sort();
    let pair = |p: &str, r: &str| (p.to_string(), r.to_string());
    assert_eq!(added_or_updated, vec![pair("P1", "b"), pair("P1", "c"), pair("P3", "y")]);
    assert_eq!(deleted, vec![pair("P1", "a"), pair("P2", "x")]);
}

#[test]
fn lookup_follows_the_latest_update() {
    let mut cache: MyNoSqlDataReaderData<Item> = MyNoSqlDataReaderData::new("T");
    cache.apply(TableUpdate::UpdateRows(vec![group("P", vec![row("P", "r", 1)])]));
    assert_eq!(cache.get_entity("P", "r").unwrap().time_stamp, 1);
    cache.apply(TableUpdate::InitPartition("Q".to_string(), vec![row("Q", "s", 2)]));
    assert_eq!(cache.get_entity("P", "r").unwrap().time_stamp, 1);
    cache.apply(TableUpdate::UpdateRows(vec![group("P", vec![row("P", "r", 3), row("P", "r", 4)])]));
    assert_eq!(cache.get_entity("P", "r").unwrap().time_stamp, 4);
    cache.apply(TableUpdate::DeleteRows(vec![del("P", "r")]));
    assert!(cache.get_entity("P", "r").is_none());
    cache.apply(TableUpdate::UpdateRows(vec![group("P", vec![row("P", "r", 5)])]));
    assert_eq!(cache.get_entity("P", "r").unwrap().time_stamp, 5);
    cache.apply(TableUpdate::InitTable(vec![group("Q", vec![row("Q", "s", 6)])]));
    assert!(cache.get_entity("P", "r").is_none());
    assert_eq!(cache.get_entity("Q", "s").unwrap().time_stamp, 6);
    cache.apply(TableUpdate::InitPartition("Q".to_string(), vec![]));
    assert!(cache.get_entity("Q", "s").is_none());
    assert!(cache.has_partition("Q"));
}

#[test]
fn last_write_wins_regardless_of_time_stamp() {
    let mut cache: MyNoSqlDataReaderData<Item> = MyNoSqlDataReaderData::new("T");
    cache.update_rows(vec![group("P", vec![row("P", "r", 500)])]);
    cache.update_rows(vec![group("P", vec![row("P", "r", 100)])]);
    let found = cache.get_entity("P", "r").unwrap();
    assert_eq!(found.time_stamp, 100);
    assert_eq!(found.entity.name, "P/r@100");
}

#[test]
fn partition_reads_in_row_key_order() {
    let mut cache: MyNoSqlDataReaderData<Item> = MyNoSqlDataReaderData::new("T");
    cache.init_partition("P", vec![row("P", "b", 1), row("P", "a", 1), row("P", "c", 1)]);
    let v = cache.get_by_partition_as_vec("P").unwrap();
    let keys: Vec<&str> = v.iter().map(|r| r.row_key.as_str()).collect();
    assert_eq!(keys, vec!["a", "b", "c"]);
    let p = cache.get_by_partition("P").unwrap();
    assert_eq!(p.rows.len(), 3);
    assert!(cache.get_by_partition_as_vec("missing").is_none());

    cache.init_partition("E", vec![]);
    assert!(cache.has_partition("E"));
    assert!(cache.get_by_partition_as_vec("E").is_none());
    assert_eq!(cache.get_by_partition("E").unwrap().rows.len(), 0);
}

#[test]
fn filtered_partition_reads() {
    let mut cache: MyNoSqlDataReaderData<Item> = MyNoSqlDataReaderData::new("T");
    cache.init_partition("P", vec![row("P", "a", 1), row("P", "b", 2), row("P", "c", 3)]);
    let odd = |e: &Item| e.name.ends_with('1') || e.name.ends_with('3');
    let v = cache.get_by_partition_as_vec_with_filter("P", &odd).unwrap();
    let keys: Vec<&str> = v.iter().map(|r| r.row_key.as_str()).collect();
    assert_eq!(keys, vec!["a", "c"]);
    let m = cache.get_by_partition_with_filter("P", &odd).unwrap();
    assert_eq!(m.rows.len(), 2);
    let none = |_e: &Item| false;
    assert_eq!(cache.get_by_partition_as_vec_with_filter("P", &none).unwrap().len(), 0);
    assert!(cache.get_by_partition_with_filter("missing", &none).is_none());
}

#[test]
fn snapshot_shares_entities() {
    let mut cache: MyNoSqlDataReaderData<Item> = MyNoSqlDataReaderData::new("T");
    cache.init_table(vec![group("P", vec![row("P", "r", 1)])]);
    let snap = cache.get_table_snapshot().unwrap();
    let got = cache.get_entity("P", "r").unwrap();
    assert!(Arc::ptr_eq(&snap.partitions[0].rows[0].entity, &got.entity));
}

#[test]
fn keys_compare_as_strings_do() {
    let pairs = [("a", "b"), ("", "a"), ("ab", "abc"), ("Z", "a"), ("é", "z"), ("x", "x")];
    for (a, b) in pairs {
        let expected = a.cmp(b);
        let got = match compare_keys(a, b) {
            KeyOrder::Less => std::cmp::Ordering::Less,
            KeyOrder::Equal => std::cmp::Ordering::Equal,
            KeyOrder::Greater => std::cmp::Ordering::Greater,
        };
        assert_eq!(got, expected, "{} vs {}", a, b);
    }
}

#[test]
fn two_way_upsert_is_one_merged_batch_in_input_order() {
    let mut cache: MyNoSqlDataReaderData<Item> = MyNoSqlDataReaderData::new("T");
    cache.assign_callback(ObserverShape::TwoWay);
    cache.init_partition("P1", vec![row("P1", "R1", 1)]);
    let first = drain(&mut cache);
    assert_eq!(first.len(), 1);
    assert_eq!(first[0].kind, ChangeKind::InsertedOrReplaced);

    cache.update_rows(vec![group("P1", vec![row("P1", "R9", 2), row("P1", "R1", 2)])]);
    let batches = drain(&mut cache);
    assert_eq!(batches.len(), 1);
    assert_eq!(batches[0].kind, ChangeKind::InsertedOrReplaced);
    assert_eq!(keys_of(&batches[0]), vec!["R9".to_string(), "R1".to_string()]);
}

#[test]
fn two_way_diff_is_one_merged_batch_per_partition() {
    let mut before = DbTable::new();
    before.put_group("P", &vec![row("P", "a", 1), row("P", "b", 1)]);
    let mut after = DbTable::new();
    after.put_group("P", &vec![row("P", "c", 2), row("P", "b", 2)]);
    let mut pusher = MyNoSqlDataReaderCallBacksPusher::new(ObserverShape::TwoWay);
    trigger_table_difference(&mut pusher, Some(&before), &after);
    let mut described = Vec::new();
    while let Some(b) = pusher.pop() {
        described.push((b.kind, keys_of(&b)));
    }
    assert_eq!(
        described,
        vec![
            (ChangeKind::InsertedOrReplaced, vec!["b".to_string(), "c".to_string()]),
            (ChangeKind::Deleted, vec!["a".to_string()]),
        ]
    );
}

#[test]
fn routed_frame_queues_its_batches_in_order() {
    let mut cache: MyNoSqlDataReaderData<Item> = MyNoSqlDataReaderData::new("T");
    cache.assign_callback(ObserverShape::TwoWay);
    cache.apply(TableUpdate::InitTable(vec![group("P", vec![row("P", "a", 1)])]));
    cache.apply(TableUpdate::DeleteRows(vec![del("P", "a")]));
    let batches = drain(&mut cache);
    let kinds: Vec<ChangeKind> = batches.iter().map(|b| b.kind).collect();
    assert_eq!(kinds, vec![ChangeKind::InsertedOrReplaced, ChangeKind::Deleted]);
}
