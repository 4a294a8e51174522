//! The discovery decision: what receiving one beacon does to the peer
//! table and the connection registry, and which actions it triggers.
//! The sockets that carry beacons live outside; they hand each parsed
//! beacon to `handle_beacon` and perform the actions it returns.

use vstd::prelude::*;

use crate::protocol::Beacon;
use crate::state::{has_conn, has_peer, lemma_peer_index, lemma_upsert_peer_unique, lookup_peer,
    peer_index, spec_upsert_peer, unique_conn_ids, unique_peer_ids, AppState};

verus! {

/// What one beacon receipt asks of the caller: whether the peer was
/// newly discovered (the observer is invoked exactly then), and
/// whether an outbound session should be opened (to the datagram's
/// source address combined with the beacon's advertised port).
pub struct BeaconOutcome {
    pub newly_discovered: bool,
    pub connect: bool,
}

/// The whole effect of receiving one beacon: the new peer table, the
/// new registry, whether the observer fires, and whether a connection
/// is attempted. A beacon carrying the local id changes nothing; any
/// other beacon overwrites its peer entry; only a first sighting with
/// no registry entry marks the registry and connects.
pub open spec fn spec_handle_beacon(
    peers: Seq<Beacon>,
    conns: Seq<String>,
    local_id: Seq<char>,
    b: Beacon,
) -> (Seq<Beacon>, Seq<String>, bool, bool) {
    if b.device_id@ == local_id {
        (peers, conns, false, false)
    } else {
        let newly = !has_peer(peers, b.device_id@);
        let peers2 = spec_upsert_peer(peers, b);
        if newly && !has_conn(conns, b.device_id@) {
            (peers2, conns.push(b.device_id), true, true)
        } else {
            (peers2, conns, newly, false)
        }
    }
}

impl AppState {
    /// Applies one received beacon: filters loopback, refreshes the
    /// peer entry, and decides whether to notify the observer and open
    /// a session. The caller performs the returned actions.
    pub fn handle_beacon(&mut self, local_id: &str, beacon: Beacon) -> (r: BeaconOutcome)
        requires
            old(self).wf(),
        ensures
            final(self).wf(),
            ({
                let t = spec_handle_beacon(
                    old(self).peers@,
                    old(self).active_connections@,
                    local_id@,
                    beacon,
                );
                &&& final(self).peers@ == t.0
                &&& final(self).active_connections@ == t.1
                &&& r.newly_discovered == t.2
                &&& r.connect == t.3
            }),
            final(self).chunk_manager == old(self).chunk_manager,
    {
        if crate::util::str_eq(beacon.device_id.as_str(), local_id) {
            return BeaconOutcome { newly_discovered: false, connect: false };
        }
        let id = beacon.device_id.clone();
        let newly = self.peers.upsert(beacon);
        if newly {
            let marked = self.active_connections.mark(id);
            BeaconOutcome { newly_discovered: true, connect: marked }
        } else {
            BeaconOutcome { newly_discovered: false, connect: false }
        }
    }
}

/// A beacon that carries the local id is never stored, never reaches
/// the observer, and never triggers a connection.
pub proof fn lemma_loopback_filtered(
    peers: Seq<Beacon>,
    conns: Seq<String>,
    local_id: Seq<char>,
    b: Beacon,
)
    requires
        b.device_id@ == local_id,
    ensures
        spec_handle_beacon(peers, conns, local_id, b) == (peers, conns, false, false),
{
}

/// Receiving the same foreign beacon a second time changes nothing
/// and triggers nothing: the entry already reflects the beacon, the
/// observer stays quiet, no further connection is attempted.
pub proof fn lemma_discovery_idempotent(
    peers: Seq<Beacon>,
    conns: Seq<String>,
    local_id: Seq<char>,
    b: Beacon,
)
    requires
        unique_peer_ids(peers),
        b.device_id@ != local_id,
    ensures
        ({
            let t1 = spec_handle_beacon(peers, conns, local_id, b);
            let t2 = spec_handle_beacon(t1.0, t1.1, local_id, b);
            &&& has_peer(t1.0, b.device_id@)
            &&& lookup_peer(t1.0, b.device_id@) == b
            &&& t2.0 == t1.0
            &&& t2.1 == t1.1
            &&& t2.2 == false
            &&& t2.3 == false
        }),
{
    let t1 = spec_handle_beacon(peers, conns, local_id, b);
    lemma_upsert_peer_unique(peers, b);
    let p1 = t1.0;
    assert(p1 == spec_upsert_peer(peers, b));
    assert(has_peer(p1, b.device_id@));
    let k = peer_index(p1, b.device_id@);
    lemma_peer_index(p1, b.device_id@, k);
    assert(p1[k] == b);
    assert(spec_upsert_peer(p1, b) == p1.update(k, b));
    assert(p1.update(k, b) =~= p1);
}

/// The state and action tally after `n` receipts of the same beacon:
/// the tables, how often the observer fired, and how many connection
/// attempts were made.
pub open spec fn spec_handle_beacon_n(
    peers: Seq<Beacon>,
    conns: Seq<String>,
    local_id: Seq<char>,
    b: Beacon,
    n: nat,
) -> (Seq<Beacon>, Seq<String>, int, int)
    decreases n,
{
    if n == 0 {
        (peers, conns, 0, 0)
    } else {
        let prev = spec_handle_beacon_n(peers, conns, local_id, b, (n - 1) as nat);
        let step = spec_handle_beacon(prev.0, prev.1, local_id, b);
        (
            step.0,
            step.1,
            prev.2 + if step.2 {
                1int
            } else {
                0int
            },
            prev.3 + if step.3 {
                1int
            } else {
                0int
            },
        )
    }
}

/// Receiving any number of identical beacons from an unseen device id
/// invokes the observer exactly once, attempts at most one connection,
/// and leaves the table holding exactly that beacon.
pub proof fn lemma_discovery_idempotent_n(
    peers: Seq<Beacon>,
    conns: Seq<String>,
    local_id: Seq<char>,
    b: Beacon,
    n: nat,
)
    requires
        unique_peer_ids(peers),
        b.device_id@ != local_id,
        !has_peer(peers, b.device_id@),
        n >= 1,
    ensures
        ({
            let r = spec_handle_beacon_n(peers, conns, local_id, b, n);
            let t1 = spec_handle_beacon(peers, conns, local_id, b);
            &&& r.0 == t1.0
            &&& r.1 == t1.1
            &&& r.2 == 1
            &&& 0 <= r.3 <= 1
            &&& has_peer(r.0, b.device_id@)
            &&& lookup_peer(r.0, b.device_id@) == b
        }),
    decreases n,
{
    lemma_upsert_peer_unique(peers, b);
    lemma_discovery_idempotent(peers, conns, local_id, b);
    if n == 1 {
        assert(spec_handle_beacon_n(peers, conns, local_id, b, 0) == (peers, conns, 0int, 0int));
    } else {
        lemma_discovery_idempotent_n(peers, conns, local_id, b, (n - 1) as nat);
        let prev = spec_handle_beacon_n(peers, conns, local_id, b, (n - 1) as nat);
        let t1 = spec_handle_beacon(peers, conns, local_id, b);
        assert(prev.0 == t1.0 && prev.1 == t1.1);
    }
}

} // verus!
