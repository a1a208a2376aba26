//! A client-side replica of remote NoSQL tables, kept current by updates that
//! the origin pushes over a persistent connection.
//!
//! Each subscribed table has a cache (`MyNoSqlDataReaderData`) that applies
//! full loads, partition loads, upserts and deletions; every mutation is
//! compared with the state before it (`diff`) and the resulting change
//! batches wait, in order, in a queue for the application's callbacks
//! (`dispatcher`). Reads go through builders that can also ask the origin to
//! record read and expiration moments (`builders`). `subscribers` routes
//! updates by table name, and `connection` holds what the connection loop
//! decides: the handshake, the handling of each inbound frame, statistics
//! confirmations, and the reconnect rules.
use vstd::prelude::*;

pub mod keys;
pub mod sorted;
pub mod entity;
pub mod dispatcher;
pub mod diff;
pub mod cache;
pub mod laws;
pub mod subscribers;
pub mod mock;
pub mod builders;
pub mod connection;

pub use builders::{
    GetEntitiesBuilder, GetEntityBuilder, StatisticsUpdate, Timestamp, UpdateEntityStatisticsData,
};
pub use cache::{DeleteRowTcpContract, MyNoSqlDataReaderData, TableUpdate};
pub use connection::{
    ClientFrame, ConnectionAction, ConnectionEvent, ConnectionState, PacketOutcome, TcpConnectionSettings,
    TcpContract, TcpEvents,
};
pub use diff::{ChangeDetector, Changes};
pub use dispatcher::{
    ChangeBatch, ChangeKind, MyNoSqlDataReaderCallBacks, MyNoSqlDataReaderCallBacksPusher, ObserverShape,
    MyNoSqlDataReaderChangeCallBacks,
};
pub use entity::{DbPartition, DbRow, DbTable, MyNoSqlEntity};
pub use mock::MyNoSqlDataReaderMock;
pub use subscribers::{SubscriptionConflict, Subscribers};

verus! {

} // verus!
