//! The shared state aggregate: the peer table, the connection
//! registry, and the transfer engine. One instance is built by the
//! process entry point and handed by shared reference to every task;
//! nothing here is a process-wide singleton.

use vstd::prelude::*;

use crate::chunk::ChunkManager;
use crate::protocol::Beacon;
use crate::util::str_eq;

verus! {

/// The capability notified exactly once per newly discovered peer.
/// Any adapter (a desktop event emitter, a console logger, a polled
/// buffer) can implement it; the core depends on nothing else.
pub trait PeerEmitter: Send + Sync + 'static {
    fn emit(&self, peer: Beacon);
}

/// Some beacon in `s` carries the device id.
pub open spec fn has_peer(s: Seq<Beacon>, id: Seq<char>) -> bool {
    exists|i: int| 0 <= i < s.len() && s[i].device_id@ == id
}

/// The position of the beacon with the device id; meaningful only when
/// `has_peer(s, id)` and the ids in `s` are unique.
pub open spec fn peer_index(s: Seq<Beacon>, id: Seq<char>) -> int {
    choose|i: int| 0 <= i < s.len() && s[i].device_id@ == id
}

/// The stored beacon for the device id; meaningful only when
/// `has_peer(s, id)` and the ids in `s` are unique.
pub open spec fn lookup_peer(s: Seq<Beacon>, id: Seq<char>) -> Beacon {
    s[peer_index(s, id)]
}

/// No two stored beacons share a device id.
pub open spec fn unique_peer_ids(s: Seq<Beacon>) -> bool {
    forall|i: int, j: int| 0 <= i < j < s.len() ==> s[i].device_id@ != s[j].device_id@
}

/// The peer table after a beacon is stored: the entry for its device
/// id is replaced when one exists, appended otherwise.
pub open spec fn spec_upsert_peer(s: Seq<Beacon>, b: Beacon) -> Seq<Beacon> {
    if has_peer(s, b.device_id@) {
        s.update(peer_index(s, b.device_id@), b)
    } else {
        s.push(b)
    }
}

/// When ids are unique, any position holding the id is the position
/// `peer_index` denotes.
pub proof fn lemma_peer_index(s: Seq<Beacon>, id: Seq<char>, i: int)
    requires
        unique_peer_ids(s),
        0 <= i < s.len(),
        s[i].device_id@ == id,
    ensures
        has_peer(s, id),
        peer_index(s, id) == i,
        lookup_peer(s, id) == s[i],
{
    assert(has_peer(s, id));
    let j = peer_index(s, id);
    if i < j {
        assert(s[i].device_id@ != s[j].device_id@);
    } else if j < i {
        assert(s[j].device_id@ != s[i].device_id@);
    }
}

/// Storing a beacon keeps the ids unique.
pub proof fn lemma_upsert_peer_unique(s: Seq<Beacon>, b: Beacon)
    requires
        unique_peer_ids(s),
    ensures
        unique_peer_ids(spec_upsert_peer(s, b)),
        has_peer(spec_upsert_peer(s, b), b.device_id@),
        lookup_peer(spec_upsert_peer(s, b), b.device_id@) == b,
{
    let s2 = spec_upsert_peer(s, b);
    if has_peer(s, b.device_id@) {
        let k = peer_index(s, b.device_id@);
        lemma_peer_index(s, b.device_id@, k);
        assert forall|i: int, j: int| 0 <= i < j < s2.len() implies s2[i].device_id@
            != s2[j].device_id@ by {
            if i != k && j != k {
                assert(s2[i] == s[i] && s2[j] == s[j]);
            } else if i == k {
                assert(s2[j] == s[j]);
                assert(s[k].device_id@ == b.device_id@);
            } else {
                assert(s2[i] == s[i]);
                assert(s[k].device_id@ == b.device_id@);
            }
        }
        lemma_peer_index(s2, b.device_id@, k);
    } else {
        assert forall|i: int, j: int| 0 <= i < j < s2.len() implies s2[i].device_id@
            != s2[j].device_id@ by {
            if j < s.len() {
                assert(s2[i] == s[i] && s2[j] == s[j]);
            } else {
                assert(s2[i] == s[i]);
                assert(!(s[i].device_id@ == b.device_id@));
            }
        }
        lemma_peer_index(s2, b.device_id@, s.len() as int);
    }
}

/// The peer table: the latest beacon seen from each device id.
pub struct PeerTable {
    peers: Vec<Beacon>,
}

impl View for PeerTable {
    type V = Seq<Beacon>;

    closed spec fn view(&self) -> Seq<Beacon> {
        self.peers@
    }
}

impl PeerTable {
    pub open spec fn wf(&self) -> bool {
        unique_peer_ids(self@)
    }

    pub fn new() -> (r: Self)
        ensures
            r@ == Seq::<Beacon>::empty(),
            r.wf(),
    {
        PeerTable { peers: Vec::new() }
    }

    fn find(&self, id: &str) -> (r: Option<usize>)
        ensures
            match r {
                Some(i) => i < self@.len() && self@[i as int].device_id@ == id@,
                None => !has_peer(self@, id@),
            },
    {
        let n = self.peers.len();
        let mut i: usize = 0;
        while i < n
            invariant
                i <= n,
                n == self@.len(),
                forall|j: int| 0 <= j < i ==> self@[j].device_id@ != id@,
            decreases n - i,
        {
            if str_eq(self.peers[i].device_id.as_str(), id) {
                return Some(i);
            }
            i = i + 1;
        }
        None
    }

    /// Whether a beacon from this device id has been stored.
    pub fn contains(&self, id: &str) -> (r: bool)
        requires
            self.wf(),
        ensures
            r == has_peer(self@, id@),
    {
        match self.find(id) {
            Some(i) => {
                proof {
                    assert(has_peer(self@, id@));
                }
                true
            },
            None => false,
        }
    }

    /// Stores the beacon, overwriting any earlier one from the same
    /// device id. Returns true exactly when the id was unseen.
    pub fn upsert(&mut self, b: Beacon) -> (was_new: bool)
        requires
            old(self).wf(),
        ensures
            final(self).wf(),
            was_new == !has_peer(old(self)@, b.device_id@),
            final(self)@ == spec_upsert_peer(old(self)@, b),
    {
        let ghost prev = self@;
        let pos = self.find(b.device_id.as_str());
        proof {
            lemma_upsert_peer_unique(prev, b);
        }
        match pos {
            Some(i) => {
                proof {
                    lemma_peer_index(prev, b.device_id@, i as int);
                }
                self.peers[i] = b;
                false
            },
            None => {
                self.peers.push(b);
                true
            },
        }
    }

    /// Every stored beacon, in insertion order.
    pub fn list(&self) -> (r: Vec<Beacon>)
        ensures
            r@.len() == self@.len(),
            forall|i: int| 0 <= i < r@.len() ==> r@[i] == self@[i],
    {
        let n = self.peers.len();
        let mut out: Vec<Beacon> = Vec::new();
        let mut i: usize = 0;
        while i < n
            invariant
                i <= n,
                n == self@.len(),
                out@.len() == i,
                forall|j: int| 0 <= j < i ==> out@[j] == self@[j],
            decreases n - i,
        {
            out.push(self.peers[i].clone());
            i = i + 1;
        }
        out
    }
}

/// Some stored id equals `id`.
pub open spec fn has_conn(s: Seq<String>, id: Seq<char>) -> bool {
    exists|i: int| 0 <= i < s.len() && s[i]@ == id
}

/// No stored id repeats.
pub open spec fn unique_conn_ids(s: Seq<String>) -> bool {
    forall|i: int, j: int| 0 <= i < j < s.len() ==> s[i]@ != s[j]@
}

/// The connection registry: the device ids with an active session.
/// At most one entry per id, so at most one concurrent outbound
/// attempt per peer.
pub struct ConnectionRegistry {
    connected: Vec<String>,
}

impl View for ConnectionRegistry {
    type V = Seq<String>;

    closed spec fn view(&self) -> Seq<String> {
        self.connected@
    }
}

impl ConnectionRegistry {
    pub open spec fn wf(&self) -> bool {
        unique_conn_ids(self@)
    }

    pub fn new() -> (r: Self)
        ensures
            r@ == Seq::<String>::empty(),
            r.wf(),
    {
        ConnectionRegistry { connected: Vec::new() }
    }

    fn find(&self, id: &str) -> (r: Option<usize>)
        ensures
            match r {
                Some(i) => i < self@.len() && self@[i as int]@ == id@,
                None => !has_conn(self@, id@),
            },
    {
        let n = self.connected.len();
        let mut i: usize = 0;
        while i < n
            invariant
                i <= n,
                n == self@.len(),
                forall|j: int| 0 <= j < i ==> self@[j]@ != id@,
            decreases n - i,
        {
            if str_eq(self.connected[i].as_str(), id) {
                return Some(i);
            }
            i = i + 1;
        }
        None
    }

    /// Whether an active session is recorded for the id.
    pub fn contains(&self, id: &str) -> (r: bool)
        ensures
            r == has_conn(self@, id@),
    {
        match self.find(id) {
            Some(i) => {
                proof {
                    assert(has_conn(self@, id@));
                }
                true
            },
            None => false,
        }
    }

    /// Records a session for the id unless one is already recorded.
    /// Returns true exactly when the entry was added.
    pub fn mark(&mut self, id: String) -> (r: bool)
        requires
            old(self).wf(),
        ensures
            final(self).wf(),
            r == !has_conn(old(self)@, id@),
            has_conn(final(self)@, id@),
            final(self)@ == if has_conn(old(self)@, id@) {
                old(self)@
            } else {
                old(self)@.push(id)
            },
    {
        let ghost prev = self@;
        match self.find(id.as_str()) {
            Some(i) => {
                proof {
                    assert(has_conn(prev, id@));
                }
                false
            },
            None => {
                self.connected.push(id);
                proof {
                    assert(self@[prev.len() as int]@ == id@);
                    assert(has_conn(self@, id@));
                    assert forall|a: int, b: int| 0 <= a < b < self@.len() implies self@[a]@
                        != self@[b]@ by {
                        if b < prev.len() {
                            assert(self@[a] == prev[a] && self@[b] == prev[b]);
                        } else {
                            assert(self@[a] == prev[a]);
                            assert(!(prev[a]@ == id@));
                        }
                    }
                }
                true
            },
        }
    }

    /// Removes the id's entry; the registry entry's lifetime equals
    /// the connection's. Returns true exactly when an entry existed.
    pub fn remove(&mut self, id: &str) -> (r: bool)
        requires
            old(self).wf(),
        ensures
            final(self).wf(),
            r == has_conn(old(self)@, id@),
            !has_conn(final(self)@, id@),
            forall|other: Seq<char>|
                other != id@ ==> (has_conn(final(self)@, other) <==> has_conn(old(self)@, other)),
    {
        let ghost prev = self@;
        match self.find(id) {
            Some(i) => {
                self.connected.remove(i);
                proof {
                    assert(prev[i as int]@ == id@);
                    assert forall|a: int, b: int| 0 <= a < b < self@.len() implies self@[a]@
                        != self@[b]@ by {
                        let a0 = if a < i as int {
                            a
                        } else {
                            a + 1
                        };
                        let b0 = if b < i as int {
                            b
                        } else {
                            b + 1
                        };
                        assert(self@[a] == prev[a0] && self@[b] == prev[b0]);
                    }
                    assert forall|j: int| 0 <= j < self@.len() implies self@[j]@ != id@ by {
                        let j0 = if j < i as int {
                            j
                        } else {
                            j + 1
                        };
                        assert(self@[j] == prev[j0]);
                        if j0 != i as int {
                            assert(prev[j0]@ != prev[i as int]@);
                        }
                    }
                    assert forall|other: Seq<char>| other != id@ implies (has_conn(self@, other)
                        <==> has_conn(prev, other)) by {
                        if has_conn(self@, other) {
                            let j = choose|j: int| 0 <= j < self@.len() && self@[j]@ == other;
                            let j0 = if j < i as int {
                                j
                            } else {
                                j + 1
                            };
                            assert(prev[j0]@ == other);
                        }
                        if has_conn(prev, other) {
                            let j0 = choose|j0: int| 0 <= j0 < prev.len() && prev[j0]@ == other;
                            if j0 < i as int {
                                assert(self@[j0]@ == other);
                            } else if j0 > i as int {
                                assert(self@[j0 - 1]@ == other);
                            }
                        }
                    }
                }
                true
            },
            None => false,
        }
    }

    /// Every connected id, in insertion order.
    pub fn get_connections(&self) -> (r: Vec<String>)
        ensures
            r@.len() == self@.len(),
            forall|i: int| 0 <= i < r@.len() ==> r@[i]@ == self@[i]@,
    {
        let n = self.connected.len();
        let mut out: Vec<String> = Vec::new();
        let mut i: usize = 0;
        while i < n
            invariant
                i <= n,
                n == self@.len(),
                out@.len() == i,
                forall|j: int| 0 <= j < i ==> out@[j]@ == self@[j]@,
            decreases n - i,
        {
            out.push(self.connected[i].clone());
            i = i + 1;
        }
        out
    }
}

/// One row of the peer status listing: a stored beacon together with
/// whether a session to that peer is active.
pub struct PeerInfo {
    pub id: String,
    pub name: String,
    pub port: u16,
    pub is_connected: bool,
}

/// The composition root: all three shared tables in one place.
pub struct AppState {
    pub peers: PeerTable,
    pub active_connections: ConnectionRegistry,
    pub chunk_manager: ChunkManager,
}

impl AppState {
    pub open spec fn wf(&self) -> bool {
        &&& self.peers.wf()
        &&& self.active_connections.wf()
        &&& self.chunk_manager.wf()
    }

    pub fn new() -> (r: Self)
        ensures
            r.wf(),
            r.peers@ == Seq::<Beacon>::empty(),
            r.active_connections@ == Seq::<String>::empty(),
            r.chunk_manager@.len() == 0,
    {
        AppState {
            peers: PeerTable::new(),
            active_connections: ConnectionRegistry::new(),
            chunk_manager: ChunkManager::new(),
        }
    }

    /// Every stored peer with its connection status, as the status
    /// listing shows it.
    pub fn peer_statuses(&self) -> (r: Vec<PeerInfo>)
        ensures
            r@.len() == self.peers@.len(),
            forall|i: int|
                0 <= i < r@.len() ==> {
                    let b = self.peers@[i];
                    &&& (#[trigger] r@[i]).id@ == b.device_id@
                    &&& r@[i].name@ == b.name@
                    &&& r@[i].port == b.port
                    &&& r@[i].is_connected == has_conn(self.active_connections@, b.device_id@)
                },
    {
        let peers = self.peers.list();
        let n = peers.len();
        let mut out: Vec<PeerInfo> = Vec::new();
        let mut i: usize = 0;
        while i < n
            invariant
                i <= n,
                n == peers@.len(),
                peers@.len() == self.peers@.len(),
                forall|j: int| 0 <= j < n ==> peers@[j] == self.peers@[j],
                out@.len() == i,
                forall|j: int|
                    0 <= j < i ==> {
                        let b = self.peers@[j];
                        &&& (#[trigger] out@[j]).id@ == b.device_id@
                        &&& out@[j].name@ == b.name@
                        &&& out@[j].port == b.port
                        &&& out@[j].is_connected == has_conn(
                            self.active_connections@,
                            b.device_id@,
                        )
                    },
            decreases n - i,
        {
            let b = &peers[i];
            let is_connected = self.active_connections.contains(b.device_id.as_str());
            out.push(
                PeerInfo {
                    id: b.device_id.clone(),
                    name: b.name.clone(),
                    port: b.port,
                    is_connected,
                },
            );
            i = i + 1;
        }
        out
    }
}

impl Default for AppState {
    fn default() -> (r: Self)
        ensures
            r.wf(),
            r.peers@ == Seq::<Beacon>::empty(),
            r.active_connections@ == Seq::<String>::empty(),
            r.chunk_manager@.len() == 0,
    {
        AppState::new()
    }
}

} // verus!
