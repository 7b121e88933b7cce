//! The websocket side of the scoreboard: the messages exchanged with clients, and
//! the registry of connected clients with the paths each one registered for.
use vstd::prelude::*;
use std::collections::HashMap;
use crossbeam::channel::Sender;
use crate::manager::JSONStateListener;
use crate::state_trie;
use crate::state_trie::entries_view;

verus! {

broadcast use vstd::std_specs::hash::group_hash_axioms;

#[verifier::external_type_specification]
#[verifier::external_body]
#[verifier::reject_recursive_types(T)]
pub struct ExSender<T>(Sender<T>);

/// The parameters of a new game.
#[allow(non_snake_case)]
pub struct GameData {
    pub Team1: u64,
    pub Team2: u64,
    pub Ruleset: u64,
    pub IntermissionClock: i64,
    pub Advance: bool,
    pub TO1: u8,
    pub TO2: u8,
    pub OR1: u8,
    pub OR2: u8,
    pub Points1: u32,
    pub Points2: u32,
    pub Period: u8,
    pub Jam: u8,
    pub PeriodClock: i64,
}

/// A message from a client.  Values are carried as JSON text.
pub enum SocketMessageRecv {
    Ping {},
    Register { paths: Vec<String> },
    SetValue { key: String, value: String, flag: String },
    StartNewGame { data: GameData },
}

/// A message to a client: state updates (path and JSON text of the value), or a pong.
pub enum SocketMessageSend {
    Updates(Vec<(String, String)>),
    Pong,
}

/// `uuid::Uuid::new_v4`, as its 128-bit value: a random identifier; nothing is stated
/// of it.
#[verifier::external_body]
fn new_connection_id() -> u128 {
    uuid::Uuid::new_v4().as_u128()
}

/// A connected client: where its messages go, the paths it registered for, and the
/// messages queued for it that are yet to be handed to its sender, oldest first.
pub struct Connection {
    pub sender: Sender<SocketMessageSend>,
    pub registered_for: Vec<String>,
    pub outbox: Vec<SocketMessageSend>,
}

/// `m` carries `changes` to a client: an `Updates` message holding every (path, value)
/// pair of the changes, with `null` for a deleted key, those whose path ends in
/// `Secret` left out (see [`state_trie::StateView::change_entries`]).
pub open spec fn is_updates_of(m: SocketMessageSend, changes: state_trie::StateView) -> bool {
    m matches SocketMessageSend::Updates(v) && entries_view(v@) == changes.change_entries(
        Seq::empty(),
        true,
    )
}

/// `after` is `before` with one more message queued, `m`, and nothing else changed.
pub open spec fn queued(before: Connection, after: Connection, m: SocketMessageSend) -> bool {
    &&& after.sender == before.sender
    &&& after.registered_for@ == before.registered_for@
    &&& after.outbox@ == before.outbox@.push(m)
}

/// `after` is `before` with the message that carries `changes` queued.
pub open spec fn queued_updates(before: Connection, after: Connection, changes: state_trie::StateView) -> bool {
    &&& after.sender == before.sender
    &&& after.registered_for@ == before.registered_for@
    &&& after.outbox@.len() == before.outbox@.len() + 1
    &&& after.outbox@.drop_last() == before.outbox@
    &&& is_updates_of(after.outbox@.last(), changes)
}

/// The message that carries `changes` to a client (see [`is_updates_of`]).
pub fn updates_message(changes: &state_trie::StateTrie) -> (r: SocketMessageSend)
    ensures
        is_updates_of(r, changes@),
{
    SocketMessageSend::Updates(changes.get_changes(true))
}

impl Connection {
    /// Queues the message that carries `changes` for the client.
    pub fn queue_changes(&mut self, changes: &state_trie::StateTrie)
        ensures
            queued_updates(*old(self), *final(self), changes@),
    {
        let m = updates_message(changes);
        self.outbox.push(m);
        assert(self.outbox@.drop_last() == old(self).outbox@);
    }

    /// The queued messages, oldest first, to be handed to the client's sender; the
    /// queue is left empty.
    pub fn take_outbox(&mut self) -> (r: Vec<SocketMessageSend>)
        ensures
            r@ == old(self).outbox@,
            final(self).outbox@.len() == 0,
            final(self).sender == old(self).sender,
            final(self).registered_for@ == old(self).registered_for@,
    {
        let mut r: Vec<SocketMessageSend> = Vec::new();
        std::mem::swap(&mut r, &mut self.outbox);
        r
    }
}

impl JSONStateListener for Connection {
    /// A connection queues the message that carries `changes` (see
    /// [`queued_updates`]) and reports `true`.
    open spec fn takes_updates(
        &self,
        state: state_trie::StateView,
        changes: state_trie::StateView,
        report: bool,
        after: Self,
    ) -> bool {
        report && queued_updates(*self, after, changes)
    }

    /// Queues the message that carries `changes` for the client (see
    /// [`Connection::queue_changes`]).
    fn send_updates(&mut self, state: &state_trie::StateTrie, changes: &state_trie::StateTrie) -> (r: bool) {
        self.queue_changes(changes);
        true
    }
}

/// The paths held in a list of strings.
pub open spec fn path_set(v: Seq<String>) -> Set<Seq<char>> {
    Set::new(|p: Seq<char>| exists|i: int| 0 <= i < v.len() && (#[trigger] v[i])@ == p)
}

/// No path occurs twice in the list.
pub open spec fn no_repeated_path(v: Seq<String>) -> bool {
    forall|i: int, j: int| 0 <= i < v.len() && 0 <= j < v.len() && i != j ==> v[i]@ != v[j]@
}

impl Connection {
    /// A connection that registered for nothing yet.
    pub fn new(sender: Sender<SocketMessageSend>) -> (r: Connection)
        ensures
            r.sender == sender,
            r.registered_for@.len() == 0,
            r.outbox@.len() == 0,
    {
        Connection { registered_for: Vec::new(), sender, outbox: Vec::new() }
    }

    /// The paths the client registered for.
    pub open spec fn registered(&self) -> Set<Seq<char>> {
        path_set(self.registered_for@)
    }

    /// Adds `path` to the paths the client registered for (a path is held once).
    pub fn register_path(&mut self, path: String)
        requires
            no_repeated_path(old(self).registered_for@),
        ensures
            no_repeated_path(final(self).registered_for@),
            final(self).registered() == old(self).registered().insert(path@),
            final(self).sender == old(self).sender,
            final(self).outbox@ == old(self).outbox@,
    {
        let mut i: usize = 0;
        while i < self.registered_for.len()
            invariant
                i <= self.registered_for@.len(),
                *self == *old(self),
                no_repeated_path(self.registered_for@),
                forall|j: int| 0 <= j < i ==> (#[trigger] self.registered_for@[j])@ != path@,
            decreases self.registered_for@.len() - i,
        {
            if self.registered_for[i] == path {
                assert(self.registered() =~= old(self).registered().insert(path@));
                return;
            }
            i = i + 1;
        }
        let ghost pre = self.registered_for@;
        self.registered_for.push(path);
        proof {
            let v = self.registered_for@;
            assert(v == pre.push(path));
            assert forall|a: int, b: int| 0 <= a < v.len() && 0 <= b < v.len() && a != b implies v[a]@
                != v[b]@ by {
                if a < pre.len() && b < pre.len() {
                    assert(v[a] == pre[a] && v[b] == pre[b]);
                } else if a < pre.len() {
                    assert(v[a] == pre[a]);
                } else {
                    assert(v[b] == pre[b]);
                }
            }
            assert forall|p: Seq<char>| self.registered().contains(p) == old(self).registered().insert(
                path@,
            ).contains(p) by {
                if self.registered().contains(p) {
                    let j = choose|j: int| 0 <= j < v.len() && (#[trigger] v[j])@ == p;
                    if j < pre.len() {
                        assert(pre[j] == v[j]);
                    }
                }
                if old(self).registered().contains(p) {
                    let j = choose|j: int| 0 <= j < pre.len() && (#[trigger] pre[j])@ == p;
                    assert(v[j] == pre[j]);
                }
                if p == path@ {
                    assert(v[pre.len() as int] == path);
                }
            }
            assert(self.registered() =~= old(self).registered().insert(path@));
        }
    }
}

/// The connected clients, by identifier.
pub type Connections = HashMap<u128, Connection>;

/// Changed values by path, as the clients are to be told of them.
pub struct StateTrie {
    changes: Vec<(String, String)>,
}

/// Something that handles a set of changes.
pub trait JSONStateUpdate {
    fn handle_updates(&self, state: StateTrie);
}

impl JSONStateUpdate for Connections {
    /// The connections take no action on a set of changes.
    fn handle_updates(&self, state: StateTrie) {
    }
}

/// The registry is well formed: no connection holds a path twice.
pub open spec fn connections_wf(c: Map<u128, Connection>) -> bool {
    forall|id: u128| #[trigger] c.contains_key(id) ==> no_repeated_path(c[id].registered_for@)
}

/// A new client: it gets a fresh random identifier, under which its connection (with
/// no registered path) is stored; the identifier is returned.
pub fn connect(connections: &mut Connections, sender: Sender<SocketMessageSend>) -> (id: u128)
    requires
        connections_wf(old(connections)@),
    ensures
        connections_wf(final(connections)@),
        final(connections)@.contains_key(id),
        final(connections)@[id].sender == sender,
        final(connections)@[id].registered_for@.len() == 0,
        final(connections)@.remove(id) == old(connections)@.remove(id),
{
    let id = new_connection_id();
    connections.insert(id, Connection::new(sender));
    proof {
        assert(final(connections)@.remove(id) =~= old(connections)@.remove(id));
    }
    id
}

/// The client `id` registers for `paths`: each one is added to its registered paths.
pub fn register_paths(connections: &mut Connections, id: u128, paths: Vec<String>)
    requires
        connections_wf(old(connections)@),
        old(connections)@.contains_key(id),
    ensures
        connections_wf(final(connections)@),
        final(connections)@.contains_key(id),
        final(connections)@[id].registered() == old(connections)@[id].registered().union(
            path_set(paths@),
        ),
        final(connections)@[id].sender == old(connections)@[id].sender,
        final(connections)@[id].outbox@ == old(connections)@[id].outbox@,
        final(connections)@.remove(id) == old(connections)@.remove(id),
{
    let mut connection = connections.remove(&id).unwrap();
    let ghost start = connection.registered();
    let mut i: usize = 0;
    while i < paths.len()
        invariant
            i <= paths@.len(),
            no_repeated_path(connection.registered_for@),
            connection.sender == old(connections)@[id].sender,
            connection.outbox@ == old(connections)@[id].outbox@,
            connection.registered() == start.union(
                Set::new(|p: Seq<char>| exists|j: int| 0 <= j < i && (#[trigger] paths@[j])@ == p),
            ),
        decreases paths@.len() - i,
    {
        connection.register_path(paths[i].clone());
        assert(connection.registered() =~= start.union(
            Set::new(|p: Seq<char>| exists|j: int| 0 <= j < i + 1 && (#[trigger] paths@[j])@ == p),
        ));
        i = i + 1;
    }
    assert(connection.registered() =~= start.union(path_set(paths@)));
    connections.insert(id, connection);
    proof {
        assert(final(connections)@.remove(id) =~= old(connections)@.remove(id));
    }
}

/// What a message of the client `id` does to the registry: `Register` adds its paths
/// to those the client registered for (see [`register_paths`]); the other messages
/// leave the registry as it is.
pub fn handle_client_message(connections: &mut Connections, id: u128, msg: SocketMessageRecv)
    requires
        connections_wf(old(connections)@),
        old(connections)@.contains_key(id),
    ensures
        connections_wf(final(connections)@),
        match msg {
            SocketMessageRecv::Register { paths } => {
                &&& final(connections)@.contains_key(id)
                &&& final(connections)@[id].registered() == old(connections)@[id].registered().union(
                    path_set(paths@),
                )
                &&& final(connections)@[id].sender == old(connections)@[id].sender
                &&& final(connections)@[id].outbox@ == old(connections)@[id].outbox@
                &&& final(connections)@.remove(id) == old(connections)@.remove(id)
            },
            _ => final(connections)@ == old(connections)@,
        },
{
    match msg {
        SocketMessageRecv::Register { paths } => register_paths(connections, id, paths),
        SocketMessageRecv::SetValue { .. } => {},
        SocketMessageRecv::Ping {  } => {},
        SocketMessageRecv::StartNewGame { .. } => {},
    }
}

/// The client `id` pinged: a pong is queued for it; nothing else changes.
pub fn answer_ping(connections: &mut Connections, id: u128)
    requires
        connections_wf(old(connections)@),
        old(connections)@.contains_key(id),
    ensures
        connections_wf(final(connections)@),
        final(connections)@.contains_key(id),
        queued(old(connections)@[id], final(connections)@[id], SocketMessageSend::Pong),
        final(connections)@.remove(id) == old(connections)@.remove(id),
{
    let mut connection = connections.remove(&id).unwrap();
    connection.outbox.push(SocketMessageSend::Pong);
    connections.insert(id, connection);
    proof {
        assert(final(connections)@.remove(id) =~= old(connections)@.remove(id));
    }
}

/// The clients that are to be sent `updates`: none when the update is empty (see
/// [`state_trie::StateView::is_empty`]), else every connected client, each once.
pub fn update_recipients(connections: &Connections, updates: &state_trie::StateTrie) -> (r: Vec<u128>)
    ensures
        updates@.is_empty() ==> r@.len() == 0,
        !updates@.is_empty() ==> r@.to_set() == connections@.dom() && r@.no_duplicates() && r@.len()
            == connections@.len(),
{
    let mut r: Vec<u128> = Vec::new();
    if updates.is_empty() {
        return r;
    }
    for id in it: connections.keys()
        invariant
            it.seq().unref().to_set() == connections@.dom(),
            it.seq().unref().no_duplicates(),
            it.seq().len() == connections@.len(),
            r@ == it.seq().unref().take(it.index() as int),
            it.index() == it.seq().len() ==> r@ == it.seq().unref(),
    {
        r.push(*id);
    }
    r
}

/// The client `id` closed the connection: it leaves the registry.
pub fn close_connection(connections: &mut Connections, id: u128)
    requires
        old(connections)@.contains_key(id),
        connections_wf(old(connections)@),
    ensures
        connections_wf(final(connections)@),
        final(connections)@ == old(connections)@.remove(id),
{
    connections.remove(&id);
}

} // verus!
