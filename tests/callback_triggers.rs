use std::collections::HashMap;
use std::sync::{Arc, Mutex};

use my_no_sql_tcp_reader::diff::trigger_table_difference;
use my_no_sql_tcp_reader::dispatcher::deliver_all;
use my_no_sql_tcp_reader::{
    DbRow, DbTable, MyNoSqlDataReaderCallBacks, MyNoSqlDataReaderCallBacksPusher, MyNoSqlEntity,
    ObserverShape,
};

struct TestCallbacksInner {
    inserted_or_replaced_entities: HashMap<String, Vec<Arc<TestRow>>>,
    deleted: HashMap<String, Vec<Arc<TestRow>>>,
}

pub struct TestCallbacks {
    data: Mutex<TestCallbacksInner>,
}

impl TestCallbacks {
    pub fn new() -> Self {
        Self {
            data: Mutex::new(TestCallbacksInner {
                inserted_or_replaced_entities: HashMap::new(),
                deleted: HashMap::new(),
            }),
        }
    }
}

impl MyNoSqlDataReaderCallBacks<TestRow> for TestCallbacks {
    fn inserted_or_replaced(&self, partition_key: &str, entities: Vec<Arc<TestRow>>) {
        let mut write_access = self.data.lock().unwrap();
        write_access
            .inserted_or_replaced_entities
            .entry(partition_key.to_string())
            .or_insert_with(Vec::new)
            .extend(entities);
    }

    fn deleted(&self, partition_key: &str, entities: Vec<Arc<TestRow>>) {
        let mut write_access = self.data.lock().unwrap();
        write_access
            .deleted
            .entry(partition_key.to_string())
            .or_insert_with(Vec::new)
            .extend(entities);
    }
}

pub struct TestRow {
    partition_key: String,
    row_key: String,
    timestamp: i64,
}

impl TestRow {
    pub fn new(partition_key: String, row_key: String, timestamp: i64) -> Self {
        TestRow { partition_key, row_key, timestamp }
    }
}

impl MyNoSqlEntity for TestRow {
    fn get_partition_key(&self) -> &str {
        self.partition_key.as_str()
    }
    fn get_row_key(&self) -> &str {
        self.row_key.as_str()
    }
    fn get_time_stamp(&self) -> i64 {
        self.timestamp
    }
}

fn row(partition_key: &str, row_key: &str, timestamp: i64) -> DbRow<TestRow> {
    DbRow::from_entity(TestRow::new(partition_key.to_string(), row_key.to_string(), timestamp))
}

fn run(before: Option<&DbTable<TestRow>>, after: &DbTable<TestRow>) -> TestCallbacks {
    let test_callback = TestCallbacks::new();
    let mut pusher = MyNoSqlDataReaderCallBacksPusher::new(ObserverShape::TwoWay);
    trigger_table_difference(&mut pusher, before, after);
    deliver_all(&mut pusher, &test_callback);
    test_callback
}

#[test]
pub fn test_we_had_data_in_table_and_new_table_is_empty() {
    let mut before = DbTable::new();
    before.put_group("PK1", &vec![row("PK1", "RK1", 1), row("PK1", "RK2", 1)]);

    let after = DbTable::new();

    let test_callback = run(Some(&before), &after);

    let read_access = test_callback.data.lock().unwrap();
    assert_eq!(2, read_access.deleted.get("PK1").unwrap().len());
}

#[test]
pub fn test_brand_new_table() {
    let mut after = DbTable::new();
    after.put_group("PK1", &vec![row("PK1", "RK1", 1), row("PK1", "RK2", 1)]);

    let test_callback = run(None, &after);

    let read_access = test_callback.data.lock().unwrap();
    assert_eq!(2, read_access.inserted_or_replaced_entities.get("PK1").unwrap().len());
}

#[test]
pub fn test_we_have_updates_in_table() {
    let mut before = DbTable::new();
    before.put_group("PK1", &vec![row("PK1", "RK1", 1), row("PK1", "RK2", 1)]);

    let mut after = DbTable::new();
    after.put_group("PK1", &vec![row("PK1", "RK2", 2)]);

    let test_callback = run(Some(&before), &after);

    let read_access = test_callback.data.lock().unwrap();
    assert_eq!(1, read_access.inserted_or_replaced_entities.get("PK1").unwrap().len());
    assert_eq!(1, read_access.deleted.get("PK1").unwrap().len());
}

#[test]
fn brand_new_table_delivers_rows_in_row_key_order() {
    let mut after = DbTable::new();
    after.put_group("PK1", &vec![row("PK1", "b", 1), row("PK1", "a", 1), row("PK1", "c", 1)]);

    let test_callback = run(None, &after);

    let read_access = test_callback.data.lock().unwrap();
    let keys: Vec<&str> = read_access.inserted_or_replaced_entities["PK1"]
        .iter()
        .map(|e| e.row_key.as_str())
        .collect();
    assert_eq!(keys, vec!["a", "b", "c"]);
}

#[test]
fn row_share_keeps_the_same_entity_allocation() {
    let r = row("PK1", "RK1", 5);
    let copy = r.share();
    assert!(Arc::ptr_eq(&r.entity, &copy.entity));
    assert_eq!(Arc::strong_count(&r.entity), 2);
    assert_eq!(copy.get_row_key(), "RK1");
    assert_eq!(copy.get_partition_key(), "PK1");
    assert_eq!(copy.get_time_stamp(), 5);
}
