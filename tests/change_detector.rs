use std::time::{SystemTime, UNIX_EPOCH};

use my_no_sql_tcp_reader::{ChangeDetector, Changes, DbPartition, DbRow, DbTable, MyNoSqlEntity};

#[derive(Debug, Clone)]
struct SomeNoSql {
    len: i32,
    partition_key: String,
    row_key: String,
    time_stamp: i64,
}

impl SomeNoSql {
    fn new(len: i32, partition_key: String, row_key: String, time_stamp: i64) -> Self {
        SomeNoSql { len, partition_key, row_key, time_stamp }
    }
}

impl MyNoSqlEntity for SomeNoSql {
    fn get_partition_key(&self) -> &str {
        &self.partition_key[..]
    }
    fn get_row_key(&self) -> &str {
        &self.row_key[..]
    }
    fn get_time_stamp(&self) -> i64 {
        self.time_stamp
    }
}

fn now_micros() -> i64 {
    SystemTime::now().duration_since(UNIX_EPOCH).unwrap().as_micros() as i64
}

fn table_of(groups: Vec<(&str, Vec<SomeNoSql>)>) -> DbTable<SomeNoSql> {
    let mut data: Vec<DbPartition<SomeNoSql>> = Vec::new();
    for (partition_key, entities) in groups {
        let rows: Vec<DbRow<SomeNoSql>> = entities.into_iter().map(DbRow::from_entity).collect();
        data.push(DbPartition { partition_key: partition_key.to_string(), rows });
    }
    let mut table = DbTable::new();
    for group in &data {
        table.put_group(group.partition_key.as_str(), &group.rows);
    }
    table
}

#[test]
fn updated_entities() {
    let change_detector = ChangeDetector {};
    let now_before = now_micros();
    let before = table_of(vec![(
        "PartitionKey1",
        vec![
            SomeNoSql::new(1, "PartitionKey1".to_string(), "row_key_1".to_string(), now_before),
            SomeNoSql::new(2, "PartitionKey1".to_string(), "row_key_2".to_string(), now_before),
        ],
    )]);

    let now_after = now_micros();
    let after = table_of(vec![
        (
            "PartitionKey1",
            vec![
                SomeNoSql::new(1, "PartitionKey1".to_string(), "row_key_1".to_string(), now_after),
                SomeNoSql::new(2, "PartitionKey1".to_string(), "row_key_2".to_string(), now_after),
            ],
        ),
        (
            "PartitionKey2",
            vec![
                SomeNoSql::new(3, "PartitionKey2".to_string(), "row_key_3".to_string(), now_after),
                SomeNoSql::new(4, "PartitionKey2".to_string(), "row_key_4".to_string(), now_after),
            ],
        ),
    ]);

    let changes = change_detector.detect_change_partition(&before, &after);

    assert!(changes.len() == 4);

    for change in changes {
        match change {
            Changes::Updated(upd) => {
                assert_eq!(upd.entity.get_time_stamp(), now_after);
            }
            Changes::Removed(_rmd) => {
                assert!(false);
            }
        };
    }
}

#[test]
fn removed_entities() {
    let change_detector = ChangeDetector {};
    let now_before = now_micros();
    let before = table_of(vec![(
        "PartitionKey1",
        vec![
            SomeNoSql::new(1, "PartitionKey1".to_string(), "row_key_1".to_string(), now_before),
            SomeNoSql::new(2, "PartitionKey1".to_string(), "row_key_2".to_string(), now_before),
        ],
    )]);

    let after = table_of(vec![("PartitionKey1", vec![])]);

    let changes = change_detector.detect_change_partition(&before, &after);

    assert!(changes.len() == 2);

    for change in changes {
        match change {
            Changes::Updated(_upd) => {
                assert!(false);
            }
            Changes::Removed(rmd) => {
                assert_eq!(rmd.entity.get_time_stamp(), now_before);
            }
        };
    }
}

#[test]
fn detect_change_rows_reports_new_versions_then_new_rows() {
    let change_detector = ChangeDetector {};
    let before = table_of(vec![(
        "P",
        vec![
            SomeNoSql::new(1, "P".to_string(), "a".to_string(), 1),
            SomeNoSql::new(2, "P".to_string(), "b".to_string(), 1),
        ],
    )]);
    let after = table_of(vec![(
        "P",
        vec![
            SomeNoSql::new(5, "P".to_string(), "b".to_string(), 2),
            SomeNoSql::new(6, "P".to_string(), "c".to_string(), 2),
        ],
    )]);
    let changes = change_detector.detect_change_rows(&before.partitions[0], &after.partitions[0]);
    let described: Vec<(bool, String, i32)> = changes
        .iter()
        .map(|c| match c {
            Changes::Updated(r) => (true, r.row_key.clone(), r.entity.len),
            Changes::Removed(r) => (false, r.row_key.clone(), r.entity.len),
        })
        .collect();
    assert_eq!(
        described,
        vec![
            (false, "a".to_string(), 1),
            (true, "b".to_string(), 5),
            (true, "c".to_string(), 6)
        ]
    );
}

#[test]
fn same_generation_reports_every_row_updated() {
    let change_detector = ChangeDetector {};
    let make = || {
        table_of(vec![
            ("P1", vec![SomeNoSql::new(1, "P1".to_string(), "r1".to_string(), 1)]),
            (
                "P2",
                vec![
                    SomeNoSql::new(2, "P2".to_string(), "r2".to_string(), 1),
                    SomeNoSql::new(3, "P2".to_string(), "r3".to_string(), 1),
                ],
            ),
        ])
    };
    let before = make();
    let after = make();
    let changes = change_detector.detect_change_partition(&before, &after);
    let lens: Vec<i32> = changes
        .iter()
        .map(|c| match c {
            Changes::Updated(r) => r.entity.len,
            Changes::Removed(_) => -1,
        })
        .collect();
    assert_eq!(lens, vec![1, 2, 3]);
}
