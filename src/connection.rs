//! The client side of the connection: what to send on connecting, what to do
//! with each inbound frame, which statistics pushes still wait for a
//! confirmation, and when to connect, stream or wait.
use vstd::prelude::*;
use crate::builders::StatisticsUpdate;
use crate::cache::{DeleteRowTcpContract, TableUpdate};
use crate::entity::{DbPartition, DbRow};
use crate::subscribers::{routed, Subscribers};

verus! {

/// Where and as whom to connect, and the fixed delays of the connection loop.
pub struct TcpConnectionSettings {
    pub host_port: String,
    pub app_name: String,
    pub reconnect_delay_ms: u64,
    pub ping_interval_ms: u64,
}

impl TcpConnectionSettings {
    pub fn new(host_port: &str, app_name: &str) -> (r: Self)
        ensures
            r.host_port@ == host_port@,
            r.app_name@ == app_name@,
            r.reconnect_delay_ms == 3000,
            r.ping_interval_ms == 3000,
    {
        TcpConnectionSettings {
            host_port: host_port.to_owned(),
            app_name: app_name.to_owned(),
            reconnect_delay_ms: 3000,
            ping_interval_ms: 3000,
        }
    }

    pub fn get_host_port(&self) -> (r: &str)
        ensures
            r@ == self.host_port@,
    {
        self.host_port.as_str()
    }
}

/// A frame from the origin, its entity payloads already decoded.
#[allow(inconsistent_fields)]
pub enum TcpContract<E> {
    Ping,
    Pong,
    Greeting { name: String },
    Subscribe { table_name: String },
    InitTable { table_name: String, data: Vec<DbPartition<E>> },
    InitPartition { table_name: String, partition_key: String, data: Vec<DbRow<E>> },
    UpdateRows { table_name: String, data: Vec<DbPartition<E>> },
    DeleteRows { table_name: String, rows: Vec<DeleteRowTcpContract> },
    Error { message: String },
    Confirmation { confirmation_id: i64 },
    /// A kind of frame this client does not act on.
    Unknown,
}

/// A frame to the origin.
pub enum ClientFrame {
    Ping,
    Greeting { name: String },
    Subscribe { table_name: String },
    UpdateStatistics { confirmation_id: i64, update: StatisticsUpdate },
}

/// What the read loop does after a frame.
#[derive(Clone, Copy, PartialEq, Eq, Structural, Debug)]
pub enum PacketOutcome {
    Continue,
    /// The origin reported an error: drop this connection and reconnect.
    Disconnect,
}

/// Statistics pushes sent and not yet confirmed, by confirmation id.
pub struct StatisticsOutbox {
    next_confirmation_id: i64,
    awaiting: Vec<(i64, StatisticsUpdate)>,
}

/// Two statistics messages say the same thing.
pub open spec fn same_update(a: StatisticsUpdate, b: StatisticsUpdate) -> bool {
    &&& a.table_name@ == b.table_name@
    &&& a.partition_key@ == b.partition_key@
    &&& a.row_keys@ == b.row_keys@
    &&& a.data == b.data
}

/// A frame that resends the waiting push `e`.
pub open spec fn resends(f: ClientFrame, e: (i64, StatisticsUpdate)) -> bool {
    f matches ClientFrame::UpdateStatistics { confirmation_id, update } && confirmation_id == e.0
        && same_update(update, e.1)
}

pub open spec fn ids_of(s: Seq<(i64, StatisticsUpdate)>) -> Seq<i64> {
    s.map_values(|e: (i64, StatisticsUpdate)| e.0)
}

impl StatisticsOutbox {
    /// The pushes not yet confirmed, oldest first, with their ids.
    pub closed spec fn awaiting(&self) -> Seq<(i64, StatisticsUpdate)> {
        self.awaiting@
    }

    pub open spec fn awaiting_ids(&self) -> Seq<i64> {
        ids_of(self.awaiting())
    }

    pub closed spec fn next_id(&self) -> i64 {
        self.next_confirmation_id
    }

    /// Ids are below the next one to hand out, and increase.
    pub closed spec fn wf(&self) -> bool {
        &&& self.next_confirmation_id >= 0
        &&& forall|i: int| 0 <= i < self.awaiting@.len() ==> #[trigger] self.awaiting@[i].0 < self.next_confirmation_id
        &&& forall|i: int, j: int| 0 <= i < j < self.awaiting@.len() ==> #[trigger] self.awaiting@[i].0 < #[trigger] self.awaiting@[j].0
    }

    pub fn new() -> (r: Self)
        ensures
            r.wf(),
            r.awaiting_ids() == Seq::<i64>::empty(),
            r.next_id() == 0,
    {
        let r = StatisticsOutbox { next_confirmation_id: 0, awaiting: Vec::new() };
        assert(r.awaiting_ids() =~= Seq::<i64>::empty());
        r
    }

    /// Gives the push a fresh confirmation id, keeps it until confirmed, and
    /// returns the frame to send; `None` once ids are exhausted.
    pub fn push(&mut self, update: StatisticsUpdate) -> (r: Option<ClientFrame>)
        requires
            old(self).wf(),
        ensures
            final(self).wf(),
            old(self).next_id() < i64::MAX ==> (r matches Some(f) && resends(f, (old(self).next_id(), update))
                && final(self).awaiting() == old(self).awaiting().push((old(self).next_id(), update))
                && final(self).next_id() == old(self).next_id() + 1),
            old(self).next_id() == i64::MAX ==> r is None && final(self).awaiting() == old(self).awaiting(),
    {
        if self.next_confirmation_id == i64::MAX {
            return None;
        }
        let id = self.next_confirmation_id;
        let frame_update = StatisticsUpdate {
            table_name: update.table_name.clone(),
            partition_key: update.partition_key.clone(),
            row_keys: clone_strings(&update.row_keys),
            data: update.data,
        };
        self.awaiting.push((id, update));
        self.next_confirmation_id = id + 1;
        Some(ClientFrame::UpdateStatistics { confirmation_id: id, update: frame_update })
    }

    /// Forgets the push that the origin confirmed.
    pub fn confirm(&mut self, confirmation_id: i64)
        requires
            old(self).wf(),
        ensures
            final(self).wf(),
            final(self).next_id() == old(self).next_id(),
            !final(self).awaiting_ids().contains(confirmation_id),
            old(self).awaiting_ids().contains(confirmation_id) ==> exists|i: int|
                0 <= i < old(self).awaiting_ids().len() && old(self).awaiting_ids()[i] == confirmation_id
                    && final(self).awaiting_ids() == #[trigger] old(self).awaiting_ids().remove(i),
            !old(self).awaiting_ids().contains(confirmation_id) ==> final(self).awaiting_ids() == old(self).awaiting_ids(),
    {
        let mut i: usize = 0;
        while i < self.awaiting.len()
            invariant
                self.awaiting@ == old(self).awaiting@,
                self.next_confirmation_id == old(self).next_confirmation_id,
                old(self).wf(),
                i <= self.awaiting@.len(),
                forall|j: int| 0 <= j < i ==> #[trigger] self.awaiting@[j].0 != confirmation_id,
            decreases self.awaiting@.len() - i,
        {
            if self.awaiting[i].0 == confirmation_id {
                let ghost a0 = self.awaiting@;
                let _ = self.awaiting.remove(i);
                proof {
                    assert(self.awaiting_ids() =~= ids_of(a0).remove(i as int));
                    assert forall|j: int| 0 <= j < self.awaiting@.len() implies #[trigger] self.awaiting@[j].0
                        != confirmation_id by {
                        if j < i {
                            assert(self.awaiting@[j] == a0[j]);
                        } else {
                            assert(self.awaiting@[j] == a0[j + 1]);
                            assert(a0[i as int].0 < a0[j + 1].0);
                        }
                    }
                    assert forall|j: int| 0 <= j < self.awaiting@.len() implies #[trigger] self.awaiting@[j].0
                        < self.next_confirmation_id by {
                        if j < i {
                            assert(self.awaiting@[j] == a0[j]);
                        } else {
                            assert(self.awaiting@[j] == a0[j + 1]);
                        }
                    }
                    assert forall|x: int, y: int| 0 <= x < y < self.awaiting@.len() implies #[trigger] self.awaiting@[x].0
                        < #[trigger] self.awaiting@[y].0 by {
                        let x0 = if x < i { x } else { x + 1 };
                        let y0 = if y < i { y } else { y + 1 };
                        assert(self.awaiting@[x] == a0[x0]);
                        assert(self.awaiting@[y] == a0[y0]);
                        assert(a0[x0].0 < a0[y0].0);
                    }
                    if self.awaiting_ids().contains(confirmation_id) {
                        let j = choose|j: int| 0 <= j < self.awaiting_ids().len() && self.awaiting_ids()[j] == confirmation_id;
                        assert(self.awaiting@[j].0 == confirmation_id);
                    }
                    assert(old(self).awaiting_ids()[i as int] == confirmation_id);
                }
                return;
            }
            i = i + 1;
        }
        proof {
            if old(self).awaiting_ids().contains(confirmation_id) {
                let j = choose|j: int| 0 <= j < old(self).awaiting_ids().len() && old(self).awaiting_ids()[j] == confirmation_id;
                assert(self.awaiting@[j].0 == confirmation_id);
            }
        }
    }

    /// The frames of every push still waiting, oldest first, to send again
    /// after a reconnect.
    pub fn frames_to_resend(&self) -> (r: Vec<ClientFrame>)
        ensures
            r@.len() == self.awaiting_ids().len(),
            forall|i: int| 0 <= i < r@.len() ==> resends(#[trigger] r@[i], self.awaiting()[i]),
    {
        let mut r: Vec<ClientFrame> = Vec::new();
        let mut i: usize = 0;
        while i < self.awaiting.len()
            invariant
                i <= self.awaiting@.len(),
                r@.len() == i,
                forall|j: int| 0 <= j < i ==> resends(#[trigger] r@[j], self.awaiting@[j]),
            decreases self.awaiting@.len() - i,
        {
            let (id, u) = (&self.awaiting[i].0, &self.awaiting[i].1);
            let frame_update = StatisticsUpdate {
                table_name: u.table_name.clone(),
                partition_key: u.partition_key.clone(),
                row_keys: clone_strings(&u.row_keys),
                data: u.data,
            };
            r.push(ClientFrame::UpdateStatistics { confirmation_id: *id, update: frame_update });
            i = i + 1;
        }
        r
    }
}

fn clone_strings(v: &Vec<String>) -> (r: Vec<String>)
    ensures
        r@ == v@,
{
    let mut r: Vec<String> = Vec::new();
    let mut i: usize = 0;
    while i < v.len()
        invariant
            i <= v@.len(),
            r@ == v@.take(i as int),
        decreases v@.len() - i,
    {
        r.push(v[i].clone());
        assert(v@.take(i as int + 1) =~= v@.take(i as int).push(v@[i as int]));
        i = i + 1;
    }
    assert(v@.take(i as int) =~= v@);
    r
}

/// What a frame asks of the cache of its table, if anything.
pub open spec fn update_of<E>(contract: TcpContract<E>) -> Option<(Seq<char>, TableUpdate<E>)> {
    match contract {
        TcpContract::InitTable { table_name, data } => Some((table_name@, TableUpdate::InitTable(data))),
        TcpContract::InitPartition { table_name, partition_key, data } => Some(
            (table_name@, TableUpdate::InitPartition(partition_key, data)),
        ),
        TcpContract::UpdateRows { table_name, data } => Some((table_name@, TableUpdate::UpdateRows(data))),
        TcpContract::DeleteRows { table_name, rows } => Some((table_name@, TableUpdate::DeleteRows(rows))),
        _ => None,
    }
}

/// The handler of one connection's traffic: the subscribed tables and the
/// statistics pushes that wait for confirmation.
pub struct TcpEvents<E> {
    pub app_name: String,
    pub subscribers: Subscribers<E>,
    pub outbox: StatisticsOutbox,
}

impl<E> TcpEvents<E> {
    pub open spec fn wf(&self) -> bool {
        self.subscribers.wf() && self.outbox.wf()
    }

    pub fn new(app_name: &str) -> (r: Self)
        ensures
            r.wf(),
            r.app_name@ == app_name@,
            r.subscribers.readers().len() == 0,
            r.outbox.awaiting_ids().len() == 0,
    {
        TcpEvents {
            app_name: app_name.to_owned(),
            subscribers: Subscribers::new(),
            outbox: StatisticsOutbox::new(),
        }
    }

    /// What to send on a new connection, before reading anything: the
    /// greeting, then a subscription for every registered table in order,
    /// then the statistics pushes still waiting.
    pub fn on_connected(&self) -> (r: Vec<ClientFrame>)
        requires
            self.wf(),
        ensures
            r@.len() == 1 + self.subscribers.names().len() + self.outbox.awaiting_ids().len(),
            r@[0] matches ClientFrame::Greeting { name } && name@ == self.app_name@,
            forall|i: int| 0 <= i < self.subscribers.names().len() ==> (#[trigger] r@[i + 1] matches ClientFrame::Subscribe { table_name }
                && table_name@ == self.subscribers.names()[i]),
            forall|i: int| 0 <= i < self.outbox.awaiting_ids().len() ==> resends(
                #[trigger] r@[i + 1 + self.subscribers.names().len()],
                self.outbox.awaiting()[i],
            ),
    {
        let mut r: Vec<ClientFrame> = Vec::new();
        r.push(ClientFrame::Greeting { name: self.app_name.clone() });
        let tables = self.subscribers.get_tables_to_subscribe();
        let mut i: usize = 0;
        while i < tables.len()
            invariant
                i <= tables@.len(),
                tables@.len() == self.subscribers.names().len(),
                forall|j: int| 0 <= j < tables@.len() ==> #[trigger] tables@[j]@ == self.subscribers.names()[j],
                r@.len() == 1 + i,
                r@[0] matches ClientFrame::Greeting { name } && name@ == self.app_name@,
                forall|j: int| 0 <= j < i ==> (#[trigger] r@[j + 1] matches ClientFrame::Subscribe { table_name }
                    && table_name@ == self.subscribers.names()[j]),
            decreases tables@.len() - i,
        {
            r.push(ClientFrame::Subscribe { table_name: tables[i].clone() });
            i = i + 1;
        }
        let resend = self.outbox.frames_to_resend();
        let n = r.len();
        let mut k: usize = 0;
        while k < resend.len()
            invariant
                k <= resend@.len(),
                n == 1 + self.subscribers.names().len(),
                resend@.len() == self.outbox.awaiting_ids().len(),
                forall|j: int| 0 <= j < resend@.len() ==> resends(#[trigger] resend@[j], self.outbox.awaiting()[j]),
                r@.len() == n + k,
                r@[0] matches ClientFrame::Greeting { name } && name@ == self.app_name@,
                forall|j: int| 0 <= j < self.subscribers.names().len() ==> (#[trigger] r@[j + 1] matches ClientFrame::Subscribe { table_name }
                    && table_name@ == self.subscribers.names()[j]),
                forall|j: int| 0 <= j < k ==> resends(#[trigger] r@[j + n], self.outbox.awaiting()[j]),
            decreases resend@.len() - k,
        {
            let f = match &resend[k] {
                ClientFrame::UpdateStatistics { confirmation_id, update } => ClientFrame::UpdateStatistics {
                    confirmation_id: *confirmation_id,
                    update: StatisticsUpdate {
                        table_name: update.table_name.clone(),
                        partition_key: update.partition_key.clone(),
                        row_keys: clone_strings(&update.row_keys),
                        data: update.data,
                    },
                },
                ClientFrame::Ping => ClientFrame::Ping,
                ClientFrame::Greeting { name } => ClientFrame::Greeting { name: name.clone() },
                ClientFrame::Subscribe { table_name } => ClientFrame::Subscribe { table_name: table_name.clone() },
            };
            r.push(f);
            k = k + 1;
        }
        assert forall|i: int| 0 <= i < self.outbox.awaiting_ids().len() implies resends(
            #[trigger] r@[i + 1 + self.subscribers.names().len()],
            self.outbox.awaiting()[i],
        ) by {
            assert(i + 1 + self.subscribers.names().len() == i + n);
            assert(resends(r@[i + n], self.outbox.awaiting()[i]));
        }
        r
    }

    /// Acts on one inbound frame. Lifecycle frames and unknown kinds change
    /// nothing; table frames go to the cache of their table (and are dropped
    /// where nobody subscribed); a confirmation settles a statistics push; an
    /// error from the origin ends the connection.
    pub fn handle_incoming_packet(&mut self, contract: TcpContract<E>) -> (r: PacketOutcome)
        requires
            old(self).wf(),
        ensures
            final(self).wf(),
            final(self).app_name == old(self).app_name,
            r == (if contract is Error { PacketOutcome::Disconnect } else { PacketOutcome::Continue }),
            update_of(contract) matches Some((table_name, update)) ==> routed(
                old(self).subscribers.readers(),
                final(self).subscribers.readers(),
                table_name,
                update,
            ),
            update_of(contract) is None ==> final(self).subscribers == old(self).subscribers,
            !(contract is Confirmation) ==> final(self).outbox == old(self).outbox,
            contract matches TcpContract::Confirmation { confirmation_id } ==> !final(self).outbox.awaiting_ids().contains(confirmation_id)
                && (!old(self).outbox.awaiting_ids().contains(confirmation_id) ==> final(self).outbox.awaiting_ids() == old(self).outbox.awaiting_ids()),
    {
        match contract {
            TcpContract::InitTable { table_name, data } => {
                let _ = self.subscribers.route(table_name.as_str(), TableUpdate::InitTable(data));
                PacketOutcome::Continue
            },
            TcpContract::InitPartition { table_name, partition_key, data } => {
                let _ = self.subscribers.route(
                    table_name.as_str(),
                    TableUpdate::InitPartition(partition_key, data),
                );
                PacketOutcome::Continue
            },
            TcpContract::UpdateRows { table_name, data } => {
                let _ = self.subscribers.route(table_name.as_str(), TableUpdate::UpdateRows(data));
                PacketOutcome::Continue
            },
            TcpContract::DeleteRows { table_name, rows } => {
                let _ = self.subscribers.route(table_name.as_str(), TableUpdate::DeleteRows(rows));
                PacketOutcome::Continue
            },
            TcpContract::Error { message: _ } => PacketOutcome::Disconnect,
            TcpContract::Confirmation { confirmation_id } => {
                self.outbox.confirm(confirmation_id);
                PacketOutcome::Continue
            },
            _ => PacketOutcome::Continue,
        }
    }
}

/// Where the connection stands.
#[derive(Clone, Copy, PartialEq, Eq, Structural, Debug)]
pub enum ConnectionState {
    Disconnected,
    Connecting,
    Handshaking,
    Streaming,
}

/// What happened since the last step.
#[derive(Clone, Copy, PartialEq, Eq, Structural, Debug)]
pub enum ConnectionEvent {
    /// A new iteration of the connection loop begins.
    LoopTick,
    Connected,
    ConnectFailed,
    /// The greeting and the subscriptions went out.
    HandshakeSent,
    /// The heartbeat interval elapsed.
    HeartbeatDue,
    /// Reading or writing failed, or a frame could not be decoded.
    TransportFailed,
    /// The origin sent an error frame.
    ServerError,
}

/// What the loop must do next.
#[derive(Clone, Copy, PartialEq, Eq, Structural, Debug)]
pub enum ConnectionAction {
    Connect,
    SendHandshake,
    /// Start the read loop and the heartbeat.
    StartStreaming,
    SendPing,
    /// Wait the fixed delay, then tick again.
    WaitReconnectDelay,
    Stop,
    Nothing,
}

/// The connection loop's rules: connect at each tick unless shutting down;
/// handshake before any frame is read; ping while streaming; after any
/// failure, wait the fixed delay and start over.
pub open spec fn transition(
    state: ConnectionState,
    event: ConnectionEvent,
    shutting_down: bool,
) -> (ConnectionState, ConnectionAction) {
    match (state, event) {
        (ConnectionState::Disconnected, ConnectionEvent::LoopTick) => if shutting_down {
            (ConnectionState::Disconnected, ConnectionAction::Stop)
        } else {
            (ConnectionState::Connecting, ConnectionAction::Connect)
        },
        (ConnectionState::Connecting, ConnectionEvent::Connected) => (
            ConnectionState::Handshaking,
            ConnectionAction::SendHandshake,
        ),
        (ConnectionState::Connecting, ConnectionEvent::ConnectFailed) => (
            ConnectionState::Disconnected,
            ConnectionAction::WaitReconnectDelay,
        ),
        (ConnectionState::Handshaking, ConnectionEvent::HandshakeSent) => (
            ConnectionState::Streaming,
            ConnectionAction::StartStreaming,
        ),
        (ConnectionState::Streaming, ConnectionEvent::HeartbeatDue) => (
            ConnectionState::Streaming,
            ConnectionAction::SendPing,
        ),
        (ConnectionState::Handshaking, ConnectionEvent::TransportFailed)
        | (ConnectionState::Streaming, ConnectionEvent::TransportFailed)
        | (ConnectionState::Streaming, ConnectionEvent::ServerError) => (
            ConnectionState::Disconnected,
            ConnectionAction::WaitReconnectDelay,
        ),
        _ => (state, ConnectionAction::Nothing),
    }
}

/// One step of the connection loop.
pub fn next_step(state: ConnectionState, event: ConnectionEvent, shutting_down: bool) -> (r: (
    ConnectionState,
    ConnectionAction,
))
    ensures
        r == transition(state, event, shutting_down),
{
    match (state, event) {
        (ConnectionState::Disconnected, ConnectionEvent::LoopTick) => if shutting_down {
            (ConnectionState::Disconnected, ConnectionAction::Stop)
        } else {
            (ConnectionState::Connecting, ConnectionAction::Connect)
        },
        (ConnectionState::Connecting, ConnectionEvent::Connected) => (
            ConnectionState::Handshaking,
            ConnectionAction::SendHandshake,
        ),
        (ConnectionState::Connecting, ConnectionEvent::ConnectFailed) => (
            ConnectionState::Disconnected,
            ConnectionAction::WaitReconnectDelay,
        ),
        (ConnectionState::Handshaking, ConnectionEvent::HandshakeSent) => (
            ConnectionState::Streaming,
            ConnectionAction::StartStreaming,
        ),
        (ConnectionState::Streaming, ConnectionEvent::HeartbeatDue) => (
            ConnectionState::Streaming,
            ConnectionAction::SendPing,
        ),
        (ConnectionState::Handshaking, ConnectionEvent::TransportFailed)
        | (ConnectionState::Streaming, ConnectionEvent::TransportFailed)
        | (ConnectionState::Streaming, ConnectionEvent::ServerError) => (
            ConnectionState::Disconnected,
            ConnectionAction::WaitReconnectDelay,
        ),
        _ => (state, ConnectionAction::Nothing),
    }
}

/// The event that a frame's outcome stands for.
pub fn event_of_outcome(outcome: PacketOutcome) -> (r: Option<ConnectionEvent>)
    ensures
        r == (if outcome == PacketOutcome::Disconnect { Some(ConnectionEvent::ServerError) } else { None::<ConnectionEvent> }),
{
    match outcome {
        PacketOutcome::Disconnect => Some(ConnectionEvent::ServerError),
        PacketOutcome::Continue => None,
    }
}

} // verus!
