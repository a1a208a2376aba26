use my_no_sql_tcp_reader::connection::next_step;
use my_no_sql_tcp_reader::ChangeKind::{Added, Deleted};
use my_no_sql_tcp_reader::ConnectionAction as A;
use my_no_sql_tcp_reader::ConnectionEvent as E;
use my_no_sql_tcp_reader::ConnectionState as S;
use my_no_sql_tcp_reader::{
    ClientFrame, ConnectionAction, ConnectionEvent, ConnectionState, DbPartition, DbRow,
    DeleteRowTcpContract, ObserverShape, PacketOutcome, StatisticsUpdate, Subscribers, TcpConnectionSettings,
    TcpContract, TcpEvents, UpdateEntityStatisticsData,
};

fn row(partition_key: &str, row_key: &str) -> DbRow<u32> {
    DbRow::new(partition_key.to_string(), row_key.to_string(), 1, 7)
}

fn init_table_frame(table_name: &str) -> TcpContract<u32> {
    TcpContract::InitTable {
        table_name: table_name.to_string(),
        data: vec![DbPartition { partition_key: "P".to_string(), rows: vec![row("P", "R")] }],
    }
}

fn stats(table_name: &str) -> StatisticsUpdate {
    StatisticsUpdate {
        table_name: table_name.to_string(),
        partition_key: "P".to_string(),
        row_keys: vec!["R".to_string()],
        data: UpdateEntityStatisticsData::new(),
    }
}

#[test]
fn subscribing_twice_is_a_conflict() {
    let mut subscribers: Subscribers<u32> = Subscribers::new();
    assert_eq!(subscribers.create_subscriber("Orders").ok(), Some(0));
    let second = subscribers.create_subscriber("Orders");
    match second {
        Err(e) => {
            assert_eq!(e.table_name, "Orders");
            assert!(e.to_message().contains("Orders"));
        }
        Ok(_) => panic!("second subscription accepted"),
    }
    assert_eq!(subscribers.len(), 1);
    assert_eq!(subscribers.create_subscriber("Clients").ok(), Some(1));
    assert_eq!(subscribers.get_tables_to_subscribe(), vec!["Orders".to_string(), "Clients".to_string()]);
    assert_eq!(subscribers.get("Clients"), Some(1));
    assert_eq!(subscribers.get("Nobody"), None);
}

#[test]
fn first_load_frame_initializes_a_fresh_subscription() {
    let mut events: TcpEvents<u32> = TcpEvents::new("app");
    let index = events.subscribers.create_subscriber("T").ok().unwrap();
    assert!(!events.subscribers.reader(index).has_entities_at_all());

    assert_eq!(events.handle_incoming_packet(TcpContract::Ping), PacketOutcome::Continue);
    assert!(!events.subscribers.reader(index).has_entities_at_all());

    assert_eq!(events.handle_incoming_packet(init_table_frame("T")), PacketOutcome::Continue);
    assert!(events.subscribers.reader(index).has_entities_at_all());
    assert_eq!(events.subscribers.reader(index).get_entity("P", "R").unwrap().time_stamp, 1);
}

#[test]
fn frames_for_unknown_tables_are_dropped() {
    let mut events: TcpEvents<u32> = TcpEvents::new("app");
    let index = events.subscribers.create_subscriber("T").ok().unwrap();
    assert_eq!(events.handle_incoming_packet(init_table_frame("Other")), PacketOutcome::Continue);
    assert!(!events.subscribers.reader(index).has_entities_at_all());
}

#[test]
fn table_frames_reach_their_cache() {
    let mut events: TcpEvents<u32> = TcpEvents::new("app");
    let index = events.subscribers.create_subscriber("T").ok().unwrap();
    events.subscribers.assign_callback(index, ObserverShape::ThreeWay);
    events.handle_incoming_packet(init_table_frame("T"));
    events.handle_incoming_packet(TcpContract::InitPartition {
        table_name: "T".to_string(),
        partition_key: "Q".to_string(),
        data: vec![row("Q", "S")],
    });
    events.handle_incoming_packet(TcpContract::UpdateRows {
        table_name: "T".to_string(),
        data: vec![DbPartition { partition_key: "P".to_string(), rows: vec![row("P", "R2")] }],
    });
    events.handle_incoming_packet(TcpContract::DeleteRows {
        table_name: "T".to_string(),
        rows: vec![DeleteRowTcpContract { partition_key: "Q".to_string(), row_key: "S".to_string() }],
    });
    let reader = events.subscribers.reader(index);
    assert!(reader.get_entity("P", "R").is_some());
    assert!(reader.get_entity("P", "R2").is_some());
    assert!(!reader.has_partition("Q"));
    let mut kinds = Vec::new();
    while let Some(b) = events.subscribers.pop_event(index) {
        kinds.push((b.kind, b.partition_key.clone(), b.rows.len()));
    }
    assert_eq!(
        kinds,
        vec![
            (Added, "P".to_string(), 1),
            (Added, "Q".to_string(), 1),
            (Added, "P".to_string(), 1),
            (Deleted, "Q".to_string(), 1)
        ]
    );
}

#[test]
fn error_frame_ends_the_connection() {
    let mut events: TcpEvents<u32> = TcpEvents::new("app");
    let outcome = events.handle_incoming_packet(TcpContract::Error { message: "boom".to_string() });
    assert_eq!(outcome, PacketOutcome::Disconnect);
    assert_eq!(
        my_no_sql_tcp_reader::connection::event_of_outcome(outcome),
        Some(ConnectionEvent::ServerError)
    );
    assert_eq!(events.handle_incoming_packet(TcpContract::Unknown), PacketOutcome::Continue);
}

#[test]
fn handshake_greets_then_replays_subscriptions_and_pending_statistics() {
    let mut events: TcpEvents<u32> = TcpEvents::new("my-app");
    events.subscribers.create_subscriber("A").ok().unwrap();
    events.subscribers.create_subscriber("B").ok().unwrap();
    let pushed = events.outbox.push(stats("A")).unwrap();
    match pushed {
        ClientFrame::UpdateStatistics { confirmation_id, update } => {
            assert_eq!(confirmation_id, 0);
            assert_eq!(update.table_name, "A");
        }
        _ => panic!("not a statistics frame"),
    }
    events.outbox.push(stats("B")).unwrap();
    events.handle_incoming_packet(TcpContract::Confirmation { confirmation_id: 0 });

    let frames = events.on_connected();
    assert_eq!(frames.len(), 4);
    assert!(matches!(&frames[0], ClientFrame::Greeting { name } if name == "my-app"));
    assert!(matches!(&frames[1], ClientFrame::Subscribe { table_name } if table_name == "A"));
    assert!(matches!(&frames[2], ClientFrame::Subscribe { table_name } if table_name == "B"));
    assert!(matches!(&frames[3], ClientFrame::UpdateStatistics { confirmation_id: 1, .. }));
}

#[test]
fn reconnect_loop_rules() {
    assert_eq!(next_step(S::Disconnected, E::LoopTick, false), (S::Connecting, A::Connect));
    assert_eq!(next_step(S::Disconnected, E::LoopTick, true), (S::Disconnected, A::Stop));
    assert_eq!(next_step(S::Connecting, E::ConnectFailed, false), (S::Disconnected, A::WaitReconnectDelay));
    assert_eq!(next_step(S::Connecting, E::Connected, false), (S::Handshaking, A::SendHandshake));
    assert_eq!(next_step(S::Handshaking, E::HandshakeSent, false), (S::Streaming, A::StartStreaming));
    assert_eq!(next_step(S::Streaming, E::HeartbeatDue, false), (S::Streaming, A::SendPing));
    assert_eq!(next_step(S::Streaming, E::ServerError, false), (S::Disconnected, A::WaitReconnectDelay));
    assert_eq!(next_step(S::Streaming, E::TransportFailed, true), (S::Disconnected, A::WaitReconnectDelay));
    assert_eq!(next_step(S::Streaming, E::LoopTick, false), (S::Streaming, A::Nothing));
}

#[test]
fn settings_defaults() {
    let s = TcpConnectionSettings::new("127.0.0.1:5125", "app");
    assert_eq!(s.get_host_port(), "127.0.0.1:5125");
    assert_eq!(s.reconnect_delay_ms, 3000);
    assert_eq!(s.ping_interval_ms, 3000);
}
