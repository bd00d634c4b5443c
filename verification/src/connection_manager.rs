//! Connection bookkeeping: the peers a node talks to, each with its role and
//! lifecycle status, held in a concurrent `DashMap`.
use vstd::prelude::*;
use dashmap::DashMap;

verus! {

/// Identifier of a node or of a remote peer.
pub type ConnectionId = u64;

/// Lifecycle of one connection.
#[derive(Debug, Clone, Copy, PartialEq, Eq, Structural)]
pub enum ConnectionStatus {
    /// Connection is being established.
    Connecting,
    /// Connection is active.
    Connected,
    /// Connection is closed.
    Closed,
}

/// State of a single connection.
#[derive(Debug, Clone, Copy, PartialEq, Eq, Structural)]
pub struct ConnectionState {
    /// Remote connection id.
    pub remote_id: ConnectionId,
    /// Whether this is the main control connection.
    pub is_control: bool,
    /// Connection status.
    pub status: ConnectionStatus,
}

/// `dashmap::DashMap`, declared so that a connection table can be a field;
/// what it holds is seen only through `connection_table`.
#[verifier::external_type_specification]
#[verifier::external_body]
#[verifier::reject_recursive_types(K)]
#[verifier::reject_recursive_types(V)]
#[verifier::reject_recursive_types(S)]
pub struct ExDashMap<K, V, S>(DashMap<K, V, S>);

/// The concurrent map that holds a node's connections.
pub type ConnectionTable = DashMap<u64, ConnectionState>;

/// The entries of a connection table, by remote id.
pub uninterp spec fn connection_table(m: ConnectionTable) -> Map<u64, ConnectionState>;

/// `DashMap::new`: an empty map (a finite key set of size zero).
#[verifier::external_body]
fn table_new() -> (r: ConnectionTable)
    ensures
        connection_table(r).dom().len() == 0,
        connection_table(r).dom().finite(),
{
    DashMap::new()
}

/// `DashMap::insert`: afterwards the key maps to the value; other keys keep
/// their entries.
#[verifier::external_body]
fn table_insert(m: &mut ConnectionTable, key: u64, value: ConnectionState)
    ensures
        connection_table(*final(m)) == connection_table(*old(m)).insert(key, value),
{
    m.insert(key, value);
}

/// `DashMap::remove`: afterwards the key has no entry; other keys keep theirs.
#[verifier::external_body]
fn table_remove(m: &mut ConnectionTable, key: u64)
    ensures
        connection_table(*final(m)) == connection_table(*old(m)).remove(key),
{
    m.remove(&key);
}

/// `DashMap::alter`: where the key has an entry, it is replaced by `f` of it,
/// here the entry with its status set; where it has none, nothing changes.
#[verifier::external_body]
fn table_set_status(m: &mut ConnectionTable, key: u64, status: ConnectionStatus)
    ensures
        connection_table(*final(m)) == (if connection_table(*old(m)).dom().contains(key) {
            connection_table(*old(m)).insert(key, with_status_spec(connection_table(*old(m))[key], status))
        } else {
            connection_table(*old(m))
        }),
{
    m.alter(&key, |_k, s| with_status(s, status));
}

/// `DashMap::contains_key`.
#[verifier::external_body]
fn table_contains(m: &ConnectionTable, key: u64) -> (r: bool)
    ensures
        r == connection_table(*m).dom().contains(key),
{
    m.contains_key(&key)
}

/// `DashMap::get`, the entry copied out.
#[verifier::external_body]
fn table_get(m: &ConnectionTable, key: u64) -> (r: Option<ConnectionState>)
    ensures
        r == (if connection_table(*m).dom().contains(key) {
            Some(connection_table(*m)[key])
        } else {
            None
        }),
{
    m.get(&key).map(|entry| *entry.value())
}

/// `DashMap::iter`, each entry copied out as a (key, value) pair. The map
/// yields every entry exactly once, in an order that depends on the hashes
/// of a hasher seeded per process: the contract fixes which pairs come out,
/// not their order.
#[verifier::external_body]
fn table_entries(m: &ConnectionTable) -> (r: Vec<(u64, ConnectionState)>)
    ensures
        forall|i: int|
            0 <= i < r@.len() ==> connection_table(*m).dom().contains(#[trigger] r@[i].0)
                && connection_table(*m)[r@[i].0] == r@[i].1,
        forall|i: int, j: int| 0 <= i < j < r@.len() ==> r@[i].0 != r@[j].0,
        forall|k: u64|
            connection_table(*m).dom().contains(k) ==> exists|i: int| 0 <= i < r@.len() && #[trigger] r@[i].0 == k,
{
    m.iter().map(|entry| (*entry.key(), *entry.value())).collect()
}

/// The entry with its status replaced.
pub open spec fn with_status_spec(s: ConnectionState, status: ConnectionStatus) -> ConnectionState {
    ConnectionState { remote_id: s.remote_id, is_control: s.is_control, status: status }
}

/// Replacing the status of an entry keeps its remote id and its role, and
/// the entry then has exactly the new status.
pub proof fn lemma_with_status_fields(s: ConnectionState, status: ConnectionStatus)
    ensures
        with_status_spec(s, status).remote_id == s.remote_id,
        with_status_spec(s, status).is_control == s.is_control,
        with_status_spec(s, status).status == status,
{
}

/// The entry with its status replaced.
pub fn with_status(s: ConnectionState, status: ConnectionStatus) -> (r: ConnectionState)
    ensures
        r == with_status_spec(s, status),
        r.remote_id == s.remote_id,
        r.is_control == s.is_control,
        r.status == status,
{
    ConnectionState { remote_id: s.remote_id, is_control: s.is_control, status }
}

/// Manages the connections of one node.
pub struct ConnectionManager {
    /// Our own connection id.
    pub connection_id: ConnectionId,
    /// Whether this is running on the server.
    pub is_server: bool,
    /// Active connections by their remote ids.
    connections: ConnectionTable,
}

impl ConnectionManager {
    /// The connections, by remote id.
    pub closed spec fn conns(&self) -> Map<ConnectionId, ConnectionState> {
        connection_table(self.connections)
    }

    /// Our own connection id.
    pub closed spec fn own_id(&self) -> ConnectionId {
        self.connection_id
    }

    /// Whether this manager runs on the server.
    pub closed spec fn on_server(&self) -> bool {
        self.is_server
    }

    /// Every entry is filed under its own remote id.
    pub open spec fn wf(&self) -> bool {
        forall|k: ConnectionId| #[trigger] self.conns().dom().contains(k) ==> self.conns()[k].remote_id == k
    }

    /// The remote ids whose connection is `Connected`.
    pub open spec fn active_ids(&self) -> Set<ConnectionId> {
        Set::new(|k: ConnectionId| self.conns().dom().contains(k) && self.conns()[k].status == ConnectionStatus::Connected)
    }

    /// A manager with no connections.
    pub fn new(connection_id: ConnectionId, is_server: bool) -> (r: Self)
        ensures
            r.wf(),
            r.own_id() == connection_id,
            r.on_server() == is_server,
            r.conns() == Map::<ConnectionId, ConnectionState>::empty(),
    {
        let connections = table_new();
        proof {
            assert(connection_table(connections) =~= Map::<ConnectionId, ConnectionState>::empty()) by {
                connection_table(connections).dom().lemma_len0_is_empty();
            }
        }
        ConnectionManager { connection_id, is_server, connections }
    }

    /// Register a connection as `Connecting`, replacing any earlier entry for
    /// the same remote id.
    pub fn add_connection(&mut self, remote_id: ConnectionId, is_control: bool)
        requires
            old(self).wf(),
        ensures
            final(self).wf(),
            final(self).own_id() == old(self).own_id(),
            final(self).on_server() == old(self).on_server(),
            final(self).conns() == old(self).conns().insert(
                remote_id,
                ConnectionState { remote_id: remote_id, is_control: is_control, status: ConnectionStatus::Connecting },
            ),
    {
        let state = ConnectionState { remote_id, is_control, status: ConnectionStatus::Connecting };
        table_insert(&mut self.connections, remote_id, state);
    }

    /// Set the status of a known connection; an unknown id changes nothing.
    pub fn update_status(&mut self, remote_id: &ConnectionId, status: ConnectionStatus)
        requires
            old(self).wf(),
        ensures
            final(self).wf(),
            final(self).own_id() == old(self).own_id(),
            final(self).on_server() == old(self).on_server(),
            final(self).conns() == (if old(self).conns().dom().contains(*remote_id) {
                old(self).conns().insert(*remote_id, with_status_spec(old(self).conns()[*remote_id], status))
            } else {
                old(self).conns()
            }),
            final(self).conns().dom() == old(self).conns().dom(),
            old(self).conns().dom().contains(*remote_id) ==> {
                &&& final(self).conns()[*remote_id].remote_id == old(self).conns()[*remote_id].remote_id
                &&& final(self).conns()[*remote_id].is_control == old(self).conns()[*remote_id].is_control
                &&& final(self).conns()[*remote_id].status == status
            },
            forall|k: ConnectionId| k != *remote_id ==> #[trigger] final(self).conns().get(k) == old(self).conns().get(k),
    {
        table_set_status(&mut self.connections, *remote_id, status);
        proof {
            assert(self.conns().dom() =~= old(self).conns().dom());
        }
    }

    /// Forget a connection.
    pub fn remove_connection(&mut self, remote_id: &ConnectionId)
        requires
            old(self).wf(),
        ensures
            final(self).wf(),
            final(self).own_id() == old(self).own_id(),
            final(self).on_server() == old(self).on_server(),
            final(self).conns() == old(self).conns().remove(*remote_id),
    {
        table_remove(&mut self.connections, *remote_id);
    }

    /// The remote ids of all `Connected` connections, each once, in the
    /// map's iteration order.
    pub fn get_active_connections(&self) -> (r: Vec<ConnectionId>)
        requires
            self.wf(),
        ensures
            r@.no_duplicates(),
            r@.to_set() == self.active_ids(),
            forall|x: ConnectionId| #[trigger] r@.contains(x) <==> (self.conns().dom().contains(x)
                && self.conns()[x].status == ConnectionStatus::Connected),
    {
        let entries = table_entries(&self.connections);
        let mut out: Vec<ConnectionId> = Vec::new();
        let mut i: usize = 0;
        while i < entries.len()
            invariant
                self.wf(),
                0 <= i <= entries@.len(),
                forall|a: int|
                    0 <= a < entries@.len() ==> self.conns().dom().contains(#[trigger] entries@[a].0)
                        && self.conns()[entries@[a].0] == entries@[a].1,
                forall|a: int, b: int| 0 <= a < b < entries@.len() ==> entries@[a].0 != entries@[b].0,
                out@.no_duplicates(),
                forall|x: ConnectionId| #[trigger] out@.contains(x) ==> exists|a: int| 0 <= a < i && entries@[a].0 == x,
                forall|a: int|
                    0 <= a < i ==> (out@.contains(#[trigger] entries@[a].0) <==> self.active_ids().contains(entries@[a].0)),
            decreases entries@.len() - i,
        {
            let (k, s) = entries[i];
            let ghost prev = out@;
            proof {
                assert(self.conns()[k] == s);
                assert(self.active_ids().contains(k) <==> s.status == ConnectionStatus::Connected);
                assert(!prev.contains(k)) by {
                    if prev.contains(k) {
                        let a = choose|a: int| 0 <= a < i && entries@[a].0 == k;
                        assert(entries@[a].0 != entries@[i as int].0);
                    }
                }
            }
            if s.status == ConnectionStatus::Connected {
                out.push(k);
            }
            proof {
                broadcast use vstd::seq_lib::lemma_seq_contains_after_push;
                assert forall|y: ConnectionId| #[trigger] out@.contains(y) <==> (prev.contains(y) || (y == k && self.active_ids().contains(k))) by {
                    if s.status == ConnectionStatus::Connected {
                        assert(out@ == prev.push(k));
                    } else {
                        assert(out@ == prev);
                    }
                }
                assert forall|x: ConnectionId| #[trigger] out@.contains(x) implies exists|a: int| 0 <= a < i + 1 && entries@[a].0 == x by {
                    if x == k {
                        assert(entries@[i as int].0 == x);
                    } else {
                        assert(prev.contains(x));
                        let a = choose|a: int| 0 <= a < i && entries@[a].0 == x;
                        assert(entries@[a].0 == x);
                    }
                }
                assert forall|a: int| 0 <= a < i + 1 implies (out@.contains(#[trigger] entries@[a].0) <==> self.active_ids().contains(entries@[a].0)) by {
                    if a < i {
                        assert(entries@[a].0 != k);
                        assert(out@.contains(entries@[a].0) == prev.contains(entries@[a].0));
                    }
                }
            }
            i = i + 1;
        }
        proof {
            assert forall|x: ConnectionId| out@.to_set().contains(x) <==> self.active_ids().contains(x) by {
                if self.active_ids().contains(x) {
                    let a = choose|a: int| 0 <= a < entries@.len() && #[trigger] entries@[a].0 == x;
                    assert(entries@[a].0 == x);
                }
                if out@.contains(x) {
                    let a = choose|a: int| 0 <= a < i && entries@[a].0 == x;
                    assert(entries@[a].0 == x);
                }
            }
            assert(out@.to_set() =~= self.active_ids());
            assert forall|x: ConnectionId| #[trigger] out@.contains(x) <==> (self.conns().dom().contains(x)
                && self.conns()[x].status == ConnectionStatus::Connected) by {
                assert(out@.contains(x) == out@.to_set().contains(x));
                assert(self.active_ids().contains(x) == (self.conns().dom().contains(x)
                    && self.conns()[x].status == ConnectionStatus::Connected));
            }
        }
        out
    }

    /// Whether a connection is registered.
    pub fn has_connection(&self, remote_id: &ConnectionId) -> (r: bool)
        ensures
            r == self.conns().dom().contains(*remote_id),
    {
        table_contains(&self.connections, *remote_id)
    }

    /// The state of a connection, if registered.
    pub fn get_connection(&self, remote_id: &ConnectionId) -> (r: Option<ConnectionState>)
        ensures
            r == (if self.conns().dom().contains(*remote_id) {
                Some(self.conns()[*remote_id])
            } else {
                None
            }),
    {
        table_get(&self.connections, *remote_id)
    }
}

} // verus!
