use my_no_sql_tcp_reader::{
    DbPartition, DbRow, DeleteRowTcpContract, GetEntitiesBuilder, GetEntityBuilder,
    MyNoSqlDataReaderData, MyNoSqlDataReaderMock, Timestamp,
};

fn row(partition_key: &str, row_key: &str, v: u32) -> DbRow<u32> {
    DbRow::new(partition_key.to_string(), row_key.to_string(), v as i64, v)
}

fn loaded() -> MyNoSqlDataReaderData<u32> {
    let mut cache = MyNoSqlDataReaderData::new("Table");
    cache.init_table(vec![DbPartition {
        partition_key: "P".to_string(),
        rows: vec![row("P", "b", 2), row("P", "a", 1), row("P", "c", 3)],
    }]);
    cache
}

#[test]
fn entity_read_reports_statistics_only_when_found() {
    let cache = loaded();
    let builder = GetEntityBuilder::new("P", "a")
        .set_partition_last_read_moment()
        .set_row_expiration_moment(Some(Timestamp { unix_microseconds: 42 }));
    let (found, stats) = builder.execute(&cache);
    assert_eq!(*found.unwrap().entity, 1);
    let stats = stats.unwrap();
    assert_eq!(stats.table_name, "Table");
    assert_eq!(stats.partition_key, "P");
    assert_eq!(stats.row_keys, vec!["a".to_string()]);
    assert!(stats.data.partition_last_read_moment);
    assert!(!stats.data.row_last_read_moment);
    assert_eq!(stats.data.row_expiration_moment, Some(Some(Timestamp { unix_microseconds: 42 })));
    assert_eq!(stats.data.partition_expiration_moment, None);

    let (missing, none) = GetEntityBuilder::new("P", "zz").set_row_last_read_moment().execute(&cache);
    assert!(missing.is_none());
    assert!(none.is_none());
}

#[test]
fn clearing_an_expiration_is_distinct_from_leaving_it() {
    let cache = loaded();
    let (_, stats) = GetEntityBuilder::new("P", "a").set_partition_expiration_moment(None).execute(&cache);
    assert_eq!(stats.unwrap().data.partition_expiration_moment, Some(None));
}

#[test]
fn partition_reads_name_the_rows_read() {
    let cache = loaded();
    let builder = GetEntitiesBuilder::new("P").set_row_last_read_moment();
    let (rows, stats) = builder.get_as_vec(&cache);
    let keys: Vec<String> = rows.unwrap().iter().map(|r| r.row_key.clone()).collect();
    assert_eq!(keys, vec!["a", "b", "c"]);
    let stats = stats.unwrap();
    assert_eq!(stats.row_keys, vec!["a", "b", "c"]);
    assert!(stats.data.row_last_read_moment);

    let (filtered, stats) = builder.get_as_vec_with_filter(&cache, &|v: &u32| *v >= 2);
    assert_eq!(filtered.unwrap().len(), 2);
    assert_eq!(stats.unwrap().row_keys, vec!["b", "c"]);

    let (map, stats) = builder.get_as_btree_map(&cache);
    assert_eq!(map.unwrap().rows.len(), 3);
    assert_eq!(stats.unwrap().row_keys.len(), 3);

    let (map, stats) = builder.get_as_btree_map_with_filter(&cache, &|v: &u32| *v == 9);
    assert_eq!(map.unwrap().rows.len(), 0);
    assert!(stats.is_none());

    let (nothing, stats) = GetEntitiesBuilder::new("Q").get_as_vec(&cache);
    assert!(nothing.is_none());
    assert!(stats.is_none());
}

#[test]
fn mock_backend_reads_without_statistics() {
    let mut mock: MyNoSqlDataReaderMock<u32> = MyNoSqlDataReaderMock::new();
    assert!(mock.get_table_snapshot_as_vec().is_none());
    mock.update(vec![row("P", "b", 2), row("P", "a", 1), row("Q", "x", 5)]);
    assert_eq!(*GetEntityBuilder::new("P", "b").execute_mock(&mock).unwrap().entity, 2);
    let rows = GetEntitiesBuilder::new("P").get_as_vec_mock(&mock).unwrap();
    let keys: Vec<&str> = rows.iter().map(|r| r.row_key.as_str()).collect();
    assert_eq!(keys, vec!["a", "b"]);
    assert_eq!(GetEntitiesBuilder::new("Q").get_as_btree_map_mock(&mock).unwrap().rows.len(), 1);
    assert_eq!(mock.get_table_snapshot_as_vec().unwrap().len(), 3);
    mock.delete(vec![DeleteRowTcpContract { partition_key: "Q".to_string(), row_key: "x".to_string() }]);
    assert!(!mock.has_partition("Q"));
    assert!(mock.get_entity("Q", "x").is_none());
    assert!(mock.get_by_partition_key("P").is_some());
    assert!(mock.get_by_partition_key_as_vec("Q").is_none());
}

#[test]
fn mock_filters() {
    let mut mock: MyNoSqlDataReaderMock<u32> = MyNoSqlDataReaderMock::new();
    mock.update(vec![row("P", "b", 2), row("P", "a", 1), row("Q", "x", 5)]);
    let big = |v: &u32| *v >= 2;
    let rows = mock.get_as_vec_with_filter(&big).unwrap();
    let keys: Vec<&str> = rows.iter().map(|r| r.row_key.as_str()).collect();
    assert_eq!(keys, vec!["b", "x"]);
    assert_eq!(mock.get_as_vec().unwrap().len(), 3);
    let p = GetEntitiesBuilder::new("P").get_as_vec_with_filter_mock(&mock, &big).unwrap();
    assert_eq!(p.len(), 1);
    assert_eq!(p[0].row_key, "b");
    let m = GetEntitiesBuilder::new("P").get_as_btree_map_with_filter_mock(&mock, &big).unwrap();
    assert_eq!(m.rows.len(), 1);
    let never = |_v: &u32| false;
    assert!(mock.get_by_partition_key_as_vec_with_filter("P", &never).is_none());
    assert!(mock.get_as_vec_with_filter(&never).is_none());
    assert!(GetEntitiesBuilder::new("Z").get_as_btree_map_with_filter_mock(&mock, &big).is_none());
}
