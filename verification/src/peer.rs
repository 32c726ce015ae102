//! The peer registry: the local node's identity, the set of peers currently
//! believed reachable, and the durable row kept per known peer.
//!
//! The local connection state moves through an explicit machine: connecting
//! to a named peer reaches `Connected`; disconnecting the last remaining
//! peer falls back to `Disconnected`.  Generating one's own identity is not
//! the same as connecting to a peer: it leaves the reachable set empty, so
//! the node does not count as connected until a peer is actually added.  A
//! connect or sync attempt may pass through the transient `Connecting`
//! state; a failed attempt restores the status it started from, so the
//! registry is never left stuck in `Connecting`.

use vstd::prelude::*;

use crate::todo::EngineError;

verus! {

/// The local node's connection state.
#[derive(Clone, Copy, PartialEq, Eq, Structural, Debug)]
pub enum SyncStatus {
    Disconnected,
    Connecting,
    Connected,
}

/// One known sync peer, as persisted: one row per peer id, created or
/// updated on connect, flipped to `Disconnected` on explicit disconnect,
/// never deleted automatically.
pub struct PeerConnection {
    pub peer_id: String,
    pub last_sync: u64,
    pub device_name: Option<String>,
    pub device_type: Option<String>,
    pub status: SyncStatus,
}

/// The mathematical model of a peer row.
#[verifier::ext_equal]
pub ghost struct PeerConnectionView {
    pub peer_id: Seq<char>,
    pub last_sync: u64,
    pub device_name: Option<Seq<char>>,
    pub device_type: Option<Seq<char>>,
    pub status: SyncStatus,
}

impl View for PeerConnection {
    type V = PeerConnectionView;

    open spec fn view(&self) -> PeerConnectionView {
        PeerConnectionView {
            peer_id: self.peer_id@,
            last_sync: self.last_sync,
            device_name: match self.device_name {
                Option::Some(s) => Option::Some(s@),
                Option::None => Option::None,
            },
            device_type: match self.device_type {
                Option::Some(s) => Option::Some(s@),
                Option::None => Option::None,
            },
            status: self.status,
        }
    }
}

impl DeepView for PeerConnection {
    type V = PeerConnectionView;

    open spec fn deep_view(&self) -> PeerConnectionView {
        self@
    }
}

/// The mathematical model of the registry.
#[verifier::ext_equal]
pub ghost struct PeerRegistryView {
    /// The node's own identity, once generated; stable afterwards.
    pub peer_id: Option<Seq<char>>,
    /// The peers currently believed reachable.
    pub connected_peers: Seq<Seq<char>>,
    /// The time of the most recent successful synchronization, if any.
    pub last_sync: Option<u64>,
    /// The durable rows, one per known peer.
    pub connections: Seq<PeerConnectionView>,
    /// The local connection state.
    pub status: SyncStatus,
}

/// Whether `ps` holds the peer id `p`.
pub open spec fn peers_contain(ps: Seq<Seq<char>>, p: Seq<char>) -> bool {
    exists|i: int| 0 <= i < ps.len() && ps[i] == p
}

/// `ps` without every occurrence of `p`, order kept.
pub open spec fn remove_peer(ps: Seq<Seq<char>>, p: Seq<char>) -> Seq<Seq<char>>
    decreases ps.len(),
{
    if ps.len() == 0 {
        Seq::<Seq<char>>::empty()
    } else {
        let rest = remove_peer(ps.drop_last(), p);
        if ps.last() == p {
            rest
        } else {
            rest.push(ps.last())
        }
    }
}

/// Whether some row of `cs` is keyed by `p`.
pub open spec fn conns_contain(cs: Seq<PeerConnectionView>, p: Seq<char>) -> bool {
    exists|i: int| 0 <= i < cs.len() && cs[i].peer_id == p
}

/// The index of the row keyed by `p`; meaningful when `conns_contain` holds
/// and the rows' keys are unique.
pub open spec fn conn_index(cs: Seq<PeerConnectionView>, p: Seq<char>) -> int {
    choose|i: int| 0 <= i < cs.len() && cs[i].peer_id == p
}

/// The row set after an upsert: the row keyed like `c` is replaced by `c`,
/// or `c` is appended when its key is new.
pub open spec fn upsert_conn(cs: Seq<PeerConnectionView>, c: PeerConnectionView) -> Seq<
    PeerConnectionView,
> {
    if conns_contain(cs, c.peer_id) {
        cs.update(conn_index(cs, c.peer_id), c)
    } else {
        cs.push(c)
    }
}

/// The row set after an explicit disconnect of `p`: that row's status flips
/// to `Disconnected`, its other fields and every other row are kept.
pub open spec fn disconnect_conn(cs: Seq<PeerConnectionView>, p: Seq<char>) -> Seq<
    PeerConnectionView,
> {
    if conns_contain(cs, p) {
        let i = conn_index(cs, p);
        cs.update(
            i,
            PeerConnectionView {
                peer_id: cs[i].peer_id,
                last_sync: cs[i].last_sync,
                device_name: cs[i].device_name,
                device_type: cs[i].device_type,
                status: SyncStatus::Disconnected,
            },
        )
    } else {
        cs
    }
}

/// The row set after a successful synchronization at `now`: the row keyed
/// by `p`, if any, gets `now` as its last synchronization time.
pub open spec fn touch_conn(cs: Seq<PeerConnectionView>, p: Seq<char>, now: u64) -> Seq<
    PeerConnectionView,
> {
    if conns_contain(cs, p) {
        let i = conn_index(cs, p);
        cs.update(
            i,
            PeerConnectionView {
                peer_id: cs[i].peer_id,
                last_sync: now,
                device_name: cs[i].device_name,
                device_type: cs[i].device_type,
                status: cs[i].status,
            },
        )
    } else {
        cs
    }
}

/// Whether the node counts as connected: connected status, an identity,
/// and at least one reachable peer, all three at once.
pub open spec fn connected_now(v: PeerRegistryView) -> bool {
    v.status == SyncStatus::Connected && v.peer_id is Some && v.connected_peers.len() > 0
}

/// The transition taken by a connect with no peer id given: a fresh
/// identity `own` is stored and the status becomes `Connected`; the
/// reachable set, the rows and the synchronization time are untouched.
pub open spec fn self_registered(
    v: PeerRegistryView,
    v2: PeerRegistryView,
    own: Seq<char>,
) -> bool {
    v2 == PeerRegistryView {
        peer_id: Option::Some(own),
        connected_peers: v.connected_peers,
        last_sync: v.last_sync,
        connections: v.connections,
        status: SyncStatus::Connected,
    }
}

/// The transition taken by a connect to the peer `p`: its row is upserted
/// as connected with the given device details at `now`, `p` joins the
/// reachable set unless already there, and the status becomes `Connected`.
pub open spec fn peer_added(
    v: PeerRegistryView,
    v2: PeerRegistryView,
    p: Seq<char>,
    device_name: Option<Seq<char>>,
    device_type: Option<Seq<char>>,
    now: u64,
) -> bool {
    v2 == PeerRegistryView {
        peer_id: v.peer_id,
        connected_peers: if peers_contain(v.connected_peers, p) {
            v.connected_peers
        } else {
            v.connected_peers.push(p)
        },
        last_sync: v.last_sync,
        connections: upsert_conn(
            v.connections,
            PeerConnectionView {
                peer_id: p,
                last_sync: now,
                device_name,
                device_type,
                status: SyncStatus::Connected,
            },
        ),
        status: SyncStatus::Connected,
    }
}

/// The transition taken by a disconnect of `p`: its row, if known, flips to
/// disconnected, `p` leaves the reachable set, and when no reachable peer
/// is left the status falls back to `Disconnected`.
pub open spec fn peer_removed(v: PeerRegistryView, v2: PeerRegistryView, p: Seq<char>) -> bool {
    v2 == PeerRegistryView {
        peer_id: v.peer_id,
        connected_peers: remove_peer(v.connected_peers, p),
        last_sync: v.last_sync,
        connections: disconnect_conn(v.connections, p),
        status: if remove_peer(v.connected_peers, p).len() == 0 {
            SyncStatus::Disconnected
        } else {
            v.status
        },
    }
}

/// Peer lifecycle, first leg: generating one's own identity is not a
/// connection.  A node whose reachable set was empty does not count as
/// connected right after registering itself, whatever identity it was
/// handed, until a peer is actually added.
pub proof fn lemma_self_registration_is_not_connection(
    v: PeerRegistryView,
    v2: PeerRegistryView,
    own: Seq<char>,
)
    requires
        v.connected_peers.len() == 0,
        self_registered(v, v2, own),
    ensures
        !connected_now(v2),
{
}

/// Peer lifecycle, second leg: connecting to a peer while an identity
/// exists makes the node count as connected.
pub proof fn lemma_adding_a_peer_connects(
    v: PeerRegistryView,
    v2: PeerRegistryView,
    p: Seq<char>,
    device_name: Option<Seq<char>>,
    device_type: Option<Seq<char>>,
    now: u64,
)
    requires
        v.peer_id is Some,
        peer_added(v, v2, p, device_name, device_type, now),
    ensures
        connected_now(v2),
{
    if peers_contain(v.connected_peers, p) {
        let i = choose|i: int| 0 <= i < v.connected_peers.len() && v.connected_peers[i] == p;
        assert(v.connected_peers.len() > 0);
    }
}

/// Peer lifecycle, third leg: disconnecting the only reachable peer drives
/// the status to disconnected, so the node no longer counts as connected.
pub proof fn lemma_disconnecting_last_peer_disconnects(
    v: PeerRegistryView,
    v2: PeerRegistryView,
    p: Seq<char>,
)
    requires
        v.connected_peers == seq![p],
        peer_removed(v, v2, p),
    ensures
        v2.status == SyncStatus::Disconnected,
        !connected_now(v2),
{
    let one = seq![p];
    assert(one.drop_last() =~= Seq::<Seq<char>>::empty());
    assert(remove_peer(one.drop_last(), p) == Seq::<Seq<char>>::empty());
    assert(one.last() == p);
    assert(remove_peer(one, p).len() == 0);
}

/// Tracks known sync peers and the local node's own connection state.  The
/// abstract state is read through `view`.
pub struct PeerRegistry {
    peer_id: Option<String>,
    connected_peers: Vec<String>,
    last_sync: Option<u64>,
    connections: Vec<PeerConnection>,
    sync_status: SyncStatus,
}

impl View for PeerRegistry {
    type V = PeerRegistryView;

    closed spec fn view(&self) -> PeerRegistryView {
        PeerRegistryView {
            peer_id: match self.peer_id {
                Option::Some(s) => Option::Some(s@),
                Option::None => Option::None,
            },
            connected_peers: self.connected_peers.deep_view(),
            last_sync: self.last_sync,
            connections: self.connections.deep_view(),
            status: self.sync_status,
        }
    }
}

impl PeerRegistry {
    /// Well-formedness: the reachable set holds no duplicates and the rows
    /// are keyed uniquely.
    pub open spec fn wf(self) -> bool {
        &&& forall|i: int, j: int| #![trigger self@.connected_peers[i], self@.connected_peers[j]]
            0 <= i < j < self@.connected_peers.len() ==> self@.connected_peers[i]
                != self@.connected_peers[j]
        &&& forall|i: int, j: int| #![trigger self@.connections[i].peer_id, self@.connections[j].peer_id]
            0 <= i < j < self@.connections.len() ==> self@.connections[i].peer_id
                != self@.connections[j].peer_id
    }

    /// A fresh registry: no identity, no reachable peer, no rows,
    /// disconnected.
    pub fn new() -> (r: PeerRegistry)
        ensures
            r@.peer_id is None,
            r@.connected_peers == Seq::<Seq<char>>::empty(),
            r@.last_sync is None,
            r@.connections == Seq::<PeerConnectionView>::empty(),
            r@.status == SyncStatus::Disconnected,
            r.wf(),
    {
        let r = PeerRegistry {
            peer_id: None,
            connected_peers: Vec::new(),
            last_sync: None,
            connections: Vec::new(),
            sync_status: SyncStatus::Disconnected,
        };
        proof {
            assert(r@.connected_peers =~= Seq::<Seq<char>>::empty());
            assert(r@.connections =~= Seq::<PeerConnectionView>::empty());
        }
        r
    }

    /// A registry rebuilt from the persisted peer rows, as the persistence
    /// collaborator hands them back.  Peer state itself (identity, reachable
    /// set, status) is process-local and starts fresh.  The rows are taken
    /// only when their keys are unique; otherwise the load is rejected as a
    /// validation failure.
    pub fn from_rows(rows: Vec<PeerConnection>) -> (r: Result<PeerRegistry, EngineError>)
        ensures
            (forall|i: int, j: int| #![trigger rows.deep_view()[i].peer_id, rows.deep_view()[j].peer_id]
                0 <= i < j < rows.deep_view().len() ==> rows.deep_view()[i].peer_id
                    != rows.deep_view()[j].peer_id) ==> (r matches Ok(reg) && reg@.connections
                == rows.deep_view() && reg@.peer_id is None && reg@.connected_peers == Seq::<
                Seq<char>,
            >::empty() && reg@.last_sync is None && reg@.status == SyncStatus::Disconnected
                && reg.wf()),
            !(forall|i: int, j: int| #![trigger rows.deep_view()[i].peer_id, rows.deep_view()[j].peer_id]
                0 <= i < j < rows.deep_view().len() ==> rows.deep_view()[i].peer_id
                    != rows.deep_view()[j].peer_id) ==> (r matches Err(e) && e
                == EngineError::Validation),
    {
        let n = rows.len();
        for i in 0..n
            invariant
                n == rows.len(),
                forall|p: int, q: int| #![trigger rows.deep_view()[p].peer_id, rows.deep_view()[q].peer_id]
                    0 <= p < q < rows.len() && p < i ==> rows.deep_view()[p].peer_id
                        != rows.deep_view()[q].peer_id,
        {
            let m = rows.len();
            for j in (i + 1)..m
                invariant
                    m == rows.len(),
                    i < rows.len(),
                    forall|q: int| i < q < j ==> rows.deep_view()[q].peer_id
                        != rows.deep_view()[i as int].peer_id,
            {
                if str_eq(&rows[j].peer_id, &rows[i].peer_id) {
                    proof {
                        assert(rows.deep_view()[j as int].peer_id
                            == rows.deep_view()[i as int].peer_id);
                    }
                    return Err(EngineError::Validation);
                }
            }
        }
        let r = PeerRegistry {
            peer_id: None,
            connected_peers: Vec::new(),
            last_sync: None,
            connections: rows,
            sync_status: SyncStatus::Disconnected,
        };
        proof {
            assert(r@.connected_peers =~= Seq::<Seq<char>>::empty());
        }
        Ok(r)
    }

    /// Copies of the persisted peer rows, for the persistence collaborator
    /// to write back.
    pub fn export_connections(&self) -> (r: Vec<PeerConnection>)
        ensures
            r.deep_view() == self@.connections,
    {
        let mut out: Vec<PeerConnection> = Vec::new();
        let n = self.connections.len();
        proof {
            assert(out.deep_view() =~= self@.connections.take(0));
        }
        for i in 0..n
            invariant
                n == self.connections.len(),
                out.deep_view() == self@.connections.take(i as int),
        {
            let ghost before = out.deep_view();
            let t = &self.connections[i];
            out.push(PeerConnection {
                peer_id: t.peer_id.clone(),
                last_sync: t.last_sync,
                device_name: clone_opt_string(&t.device_name),
                device_type: clone_opt_string(&t.device_type),
                status: t.status,
            });
            proof {
                assert(out.deep_view() =~= before.push(self@.connections[i as int]));
                assert(out.deep_view() =~= self@.connections.take(i + 1));
            }
        }
        proof {
            assert(self@.connections.take(n as int) =~= self@.connections);
        }
        out
    }

    /// Connects to a peer, or registers the node's own identity.
    ///
    /// With a peer id given, its row is upserted as connected with the given
    /// device details, the peer joins the reachable set if it is not already
    /// there, and the status becomes `Connected`.  With none given, a fresh
    /// identity is generated and stored as the node's own; the reachable set
    /// is deliberately left alone, so the node is not yet considered
    /// connected to anyone.
    pub fn connect_peer(
        &mut self,
        peer_id: Option<String>,
        device_name: Option<String>,
        device_type: Option<String>,
        now: u64,
    ) -> (r: String)
        requires
            old(self).wf(),
        ensures
            final(self).wf(),
            peer_id matches Some(p) ==> r@ == p@ && peer_added(
                old(self)@,
                final(self)@,
                p@,
                opt_str_view(device_name),
                opt_str_view(device_type),
                now,
            ),
            peer_id is None ==> self_registered(old(self)@, final(self)@, r@),
    {
        match peer_id {
            Some(p) => {
                let ghost oldconns = self@.connections;
                let ghost oldpeers = self@.connected_peers;
                let row = PeerConnection {
                    peer_id: p.clone(),
                    last_sync: now,
                    device_name,
                    device_type,
                    status: SyncStatus::Connected,
                };
                let ghost rowv = row@;
                match conn_find(&self.connections, &p) {
                    Some(j) => {
                        proof {
                            assert(conns_contain(oldconns, p@));
                            let i = conn_index(oldconns, p@);
                            assert(0 <= i < oldconns.len() && oldconns[i].peer_id == p@);
                            if i != j as int {
                                assert(oldconns[i].peer_id != oldconns[j as int].peer_id);
                            }
                        }
                        self.connections[j] = row;
                        proof {
                            assert(self@.connections =~= oldconns.update(j as int, rowv));
                            assert forall|a: int, b: int|
                                #![trigger self@.connections[a].peer_id, self@.connections[b].peer_id]
                                0 <= a < b < self@.connections.len()
                                implies self@.connections[a].peer_id
                                    != self@.connections[b].peer_id by {
                                assert(self@.connections[a].peer_id == oldconns[a].peer_id);
                                assert(self@.connections[b].peer_id == oldconns[b].peer_id);
                            }
                        }
                    },
                    None => {
                        self.connections.push(row);
                        proof {
                            assert(self@.connections =~= oldconns.push(rowv));
                            assert forall|a: int, b: int|
                                #![trigger self@.connections[a].peer_id, self@.connections[b].peer_id]
                                0 <= a < b < self@.connections.len()
                                implies self@.connections[a].peer_id
                                    != self@.connections[b].peer_id by {
                                if b < oldconns.len() {
                                    assert(oldconns[a].peer_id != oldconns[b].peer_id);
                                } else {
                                    assert(self@.connections[b] == rowv);
                                    if oldconns[a].peer_id == p@ {
                                        assert(conns_contain(oldconns, p@));
                                    }
                                }
                            }
                        }
                    },
                }
                match peers_index(&self.connected_peers, &p) {
                    Some(_) => {
                        proof {
                            assert(peers_contain(oldpeers, p@));
                        }
                    },
                    None => {
                        self.connected_peers.push(p.clone());
                        proof {
                            assert(self@.connected_peers =~= oldpeers.push(p@));
                            assert forall|a: int, b: int|
                                #![trigger self@.connected_peers[a], self@.connected_peers[b]]
                                0 <= a < b < self@.connected_peers.len()
                                implies self@.connected_peers[a] != self@.connected_peers[b] by {
                                if b < oldpeers.len() {
                                    assert(oldpeers[a] != oldpeers[b]);
                                } else {
                                    assert(self@.connected_peers[b] == p@);
                                    if oldpeers[a] == p@ {
                                        assert(peers_contain(oldpeers, p@));
                                    }
                                }
                            }
                        }
                    },
                }
                let ghost conns2 = self@.connections;
                let ghost peers2 = self@.connected_peers;
                self.sync_status = SyncStatus::Connected;
                proof {
                    assert(self@.connections == conns2);
                    assert(self@.connected_peers == peers2);
                    if !peers_contain(oldpeers, p@) {
                        assert(peers2 == oldpeers.push(p@));
                    } else {
                        assert(peers2 == oldpeers);
                    }
                    assert(self.wf());
                    assert(rowv == PeerConnectionView {
                        peer_id: p@,
                        last_sync: now,
                        device_name: opt_str_view(device_name),
                        device_type: opt_str_view(device_type),
                        status: SyncStatus::Connected,
                    });
                    assert(conns2 == upsert_conn(oldconns, rowv));
                    assert(self@ =~= PeerRegistryView {
                        peer_id: old(self)@.peer_id,
                        connected_peers: (if peers_contain(oldpeers, p@) {
                            oldpeers
                        } else {
                            oldpeers.push(p@)
                        }),
                        last_sync: old(self)@.last_sync,
                        connections: upsert_conn(oldconns, rowv),
                        status: SyncStatus::Connected,
                    });
                }
                p
            },
            None => {
                let fresh = fresh_peer_id();
                self.peer_id = Some(fresh.clone());
                self.sync_status = SyncStatus::Connected;
                proof {
                    assert(self@.connected_peers == old(self)@.connected_peers);
                    assert(self@.connections == old(self)@.connections);
                    assert(self.wf());
                    assert(self@ =~= PeerRegistryView {
                        peer_id: Option::Some(fresh@),
                        connected_peers: old(self)@.connected_peers,
                        last_sync: old(self)@.last_sync,
                        connections: old(self)@.connections,
                        status: SyncStatus::Connected,
                    });
                }
                fresh
            },
        }
    }

    /// Disconnects a peer: its row, if known, flips to `Disconnected`, and
    /// it leaves the reachable set.  When the last reachable peer leaves,
    /// the local status falls back to `Disconnected`.
    pub fn disconnect_peer(&mut self, peer_id: &String)
        requires
            old(self).wf(),
        ensures
            final(self).wf(),
            peer_removed(old(self)@, final(self)@, peer_id@),
    {
        let ghost oldconns = self@.connections;
        let ghost oldpeers = self@.connected_peers;
        match conn_find(&self.connections, peer_id) {
            Some(j) => {
                proof {
                    assert(conns_contain(oldconns, peer_id@));
                    let i = conn_index(oldconns, peer_id@);
                    assert(0 <= i < oldconns.len() && oldconns[i].peer_id == peer_id@);
                    if i != j as int {
                        assert(oldconns[i].peer_id != oldconns[j as int].peer_id);
                    }
                }
                let row = {
                    let t = &self.connections[j];
                    PeerConnection {
                        peer_id: t.peer_id.clone(),
                        last_sync: t.last_sync,
                        device_name: clone_opt_string(&t.device_name),
                        device_type: clone_opt_string(&t.device_type),
                        status: SyncStatus::Disconnected,
                    }
                };
                let ghost rowv = row@;
                self.connections[j] = row;
                proof {
                    assert(self@.connections =~= oldconns.update(j as int, rowv));
                    assert(self@.connections =~= disconnect_conn(oldconns, peer_id@));
                    assert forall|a: int, b: int|
                        #![trigger self@.connections[a].peer_id, self@.connections[b].peer_id]
                        0 <= a < b < self@.connections.len() implies self@.connections[a].peer_id
                            != self@.connections[b].peer_id by {
                        assert(self@.connections[a].peer_id == oldconns[a].peer_id);
                        assert(self@.connections[b].peer_id == oldconns[b].peer_id);
                    }
                }
            },
            None => {},
        }
        let mut kept: Vec<String> = Vec::new();
        let n = self.connected_peers.len();
        proof {
            assert(oldpeers.take(0) =~= Seq::<Seq<char>>::empty());
            assert(kept.deep_view() =~= Seq::<Seq<char>>::empty());
        }
        for i in 0..n
            invariant
                n == self.connected_peers.len(),
                oldpeers == self.connected_peers.deep_view(),
                kept.deep_view() == remove_peer(oldpeers.take(i as int), peer_id@),
        {
            proof {
                assert(oldpeers.take(i + 1).drop_last() =~= oldpeers.take(i as int));
                assert(oldpeers.take(i + 1).last() == oldpeers[i as int]);
            }
            let q = &self.connected_peers[i];
            if !str_eq(q, peer_id) {
                let ghost before = kept.deep_view();
                kept.push(q.clone());
                assert(kept.deep_view() =~= before.push(oldpeers[i as int]));
            }
        }
        proof {
            assert(oldpeers.take(n as int) =~= oldpeers);
        }
        self.connected_peers = kept;
        if self.connected_peers.len() == 0 {
            self.sync_status = SyncStatus::Disconnected;
        }
        proof {
            lemma_remove_peer_unique(oldpeers, peer_id@);
            if !conns_contain(oldconns, peer_id@) {
                assert(self@.connections == disconnect_conn(oldconns, peer_id@));
            }
            assert(self@ =~= PeerRegistryView {
                peer_id: old(self)@.peer_id,
                connected_peers: remove_peer(oldpeers, peer_id@),
                last_sync: old(self)@.last_sync,
                connections: disconnect_conn(oldconns, peer_id@),
                status: (if remove_peer(oldpeers, peer_id@).len() == 0 {
                    SyncStatus::Disconnected
                } else {
                    old(self)@.status
                }),
            });
        }
    }

    /// Records a successful synchronization at `now`: the registry's last
    /// synchronization time is set, and so is the row of the node's own
    /// identity, when such a row exists.
    pub fn record_sync(&mut self, now: u64)
        requires
            old(self).wf(),
        ensures
            final(self).wf(),
            final(self)@.last_sync == Option::Some(now),
            final(self)@.peer_id == old(self)@.peer_id,
            final(self)@.connected_peers == old(self)@.connected_peers,
            final(self)@.status == old(self)@.status,
            old(self)@.peer_id matches Some(p) ==> final(self)@.connections == touch_conn(
                old(self)@.connections,
                p,
                now,
            ),
            old(self)@.peer_id is None ==> final(self)@.connections == old(self)@.connections,
    {
        let ghost oldconns = self@.connections;
        self.last_sync = Some(now);
        let own = clone_opt_string(&self.peer_id);
        match own {
            Some(p) => {
                match conn_find(&self.connections, &p) {
                    Some(j) => {
                        proof {
                            assert(conns_contain(oldconns, p@));
                            let i = conn_index(oldconns, p@);
                            assert(0 <= i < oldconns.len() && oldconns[i].peer_id == p@);
                            if i != j as int {
                                assert(oldconns[i].peer_id != oldconns[j as int].peer_id);
                            }
                        }
                        let row = {
                            let t = &self.connections[j];
                            PeerConnection {
                                peer_id: t.peer_id.clone(),
                                last_sync: now,
                                device_name: clone_opt_string(&t.device_name),
                                device_type: clone_opt_string(&t.device_type),
                                status: t.status,
                            }
                        };
                        let ghost rowv = row@;
                        self.connections[j] = row;
                        proof {
                            assert(self@.connections =~= oldconns.update(j as int, rowv));
                            assert(self@.connections =~= touch_conn(oldconns, p@, now));
                            assert forall|a: int, b: int|
                                #![trigger self@.connections[a].peer_id, self@.connections[b].peer_id]
                                0 <= a < b < self@.connections.len()
                                implies self@.connections[a].peer_id
                                    != self@.connections[b].peer_id by {
                                assert(self@.connections[a].peer_id == oldconns[a].peer_id);
                                assert(self@.connections[b].peer_id == oldconns[b].peer_id);
                            }
                            assert(self@.connected_peers == old(self)@.connected_peers);
                            assert(self.wf());
                        }
                    },
                    None => {
                        proof {
                            assert(self@.connected_peers == old(self)@.connected_peers);
                            assert(self@.connections == old(self)@.connections);
                            assert(self.wf());
                        }
                    },
                }
            },
            None => {
                proof {
                    assert(self@.connected_peers == old(self)@.connected_peers);
                    assert(self@.connections == old(self)@.connections);
                    assert(self.wf());
                }
            },
        }
    }

    /// The node's own identity, if one was generated.
    pub fn get_peer_id(&self) -> (r: Option<String>)
        ensures
            opt_str_view(r) == self@.peer_id,
    {
        clone_opt_string(&self.peer_id)
    }

    /// Whether the node counts as connected: connected status, an identity,
    /// and at least one reachable peer, all three at once.
    pub fn is_peer_connected(&self) -> (r: bool)
        ensures
            r == connected_now(self@),
    {
        self.sync_status == SyncStatus::Connected && self.peer_id.is_some()
            && self.connected_peers.len() > 0
    }

    /// The time of the most recent successful synchronization, if any.
    pub fn last_synced(&self) -> (r: Option<u64>)
        ensures
            r == self@.last_sync,
    {
        match self.last_sync {
            Some(t) => Some(t),
            None => None,
        }
    }

    /// The local connection state.
    pub fn get_sync_status(&self) -> (r: SyncStatus)
        ensures
            r == self@.status,
    {
        self.sync_status
    }

    /// Marks the start of a connect or sync attempt: the status passes to
    /// the transient `Connecting`, and the status it started from is handed
    /// back so a failed attempt can restore it.
    pub fn begin_attempt(&mut self) -> (prev: SyncStatus)
        requires
            old(self).wf(),
        ensures
            final(self).wf(),
            prev == old(self)@.status,
            final(self)@.status == SyncStatus::Connecting,
            final(self)@.peer_id == old(self)@.peer_id,
            final(self)@.connected_peers == old(self)@.connected_peers,
            final(self)@.last_sync == old(self)@.last_sync,
            final(self)@.connections == old(self)@.connections,
    {
        let prev = self.sync_status;
        self.sync_status = SyncStatus::Connecting;
        proof {
            assert(self@.connected_peers == old(self)@.connected_peers);
            assert(self@.connections == old(self)@.connections);
            assert(self.wf());
        }
        prev
    }

    /// Restores the status a failed attempt started from, so the registry is
    /// never left stuck in the transient state.
    pub fn abort_attempt(&mut self, prev: SyncStatus)
        requires
            old(self).wf(),
        ensures
            final(self).wf(),
            final(self)@.status == prev,
            final(self)@.peer_id == old(self)@.peer_id,
            final(self)@.connected_peers == old(self)@.connected_peers,
            final(self)@.last_sync == old(self)@.last_sync,
            final(self)@.connections == old(self)@.connections,
    {
        self.sync_status = prev;
        proof {
            assert(self@.connected_peers == old(self)@.connected_peers);
            assert(self@.connections == old(self)@.connections);
            assert(self.wf());
        }
    }
}

/// The spec-level text of an optional string.
pub open spec fn opt_str_view(o: Option<String>) -> Option<Seq<char>> {
    match o {
        Option::Some(s) => Option::Some(s@),
        Option::None => Option::None,
    }
}

/// Whether two strings hold the same text.
fn str_eq(a: &String, b: &String) -> (r: bool)
    ensures
        r == (a@ == b@),
{
    *a == *b
}

/// A copy of an optional string.
fn clone_opt_string(o: &Option<String>) -> (r: Option<String>)
    ensures
        opt_str_view(r) == opt_str_view(*o),
{
    match o {
        Some(s) => Some(s.clone()),
        None => None,
    }
}

/// The index of the row of `v` keyed by `p`, if any.
fn conn_find(v: &Vec<PeerConnection>, p: &String) -> (r: Option<usize>)
    ensures
        match r {
            Some(j) => j < v.len() && v.deep_view()[j as int].peer_id == p@,
            None => !conns_contain(v.deep_view(), p@),
        },
{
    let n = v.len();
    for j in 0..n
        invariant
            n == v.len(),
            forall|i: int| 0 <= i < j ==> v.deep_view()[i].peer_id != p@,
    {
        if str_eq(&v[j].peer_id, p) {
            return Some(j);
        }
    }
    None
}

/// The index of `p` in a list of peer ids, if any.
fn peers_index(v: &Vec<String>, p: &String) -> (r: Option<usize>)
    ensures
        match r {
            Some(j) => j < v.len() && v.deep_view()[j as int] == p@,
            None => !peers_contain(v.deep_view(), p@),
        },
{
    let n = v.len();
    for j in 0..n
        invariant
            n == v.len(),
            forall|i: int| 0 <= i < j ==> v.deep_view()[i] != p@,
    {
        if str_eq(&v[j], p) {
            return Some(j);
        }
    }
    None
}

/// Relies on uuid's `Uuid::new_v4` and its `Display` form: a freshly
/// generated random version-4 UUID, written in the hyphenated lower-case
/// form of 36 characters.  The value is random; nothing more is promised of
/// it.
#[verifier::external_body]
fn fresh_peer_id() -> (r: String)
    ensures
        r@.len() == 36,
{
    uuid::Uuid::new_v4().to_string()
}

/// Removing a peer keeps a subset: every id left was already there.
proof fn lemma_remove_peer_sub(ps: Seq<Seq<char>>, p: Seq<char>)
    ensures
        forall|q: Seq<char>| #[trigger] remove_peer(ps, p).contains(q) ==> ps.contains(q) && q
            != p,
    decreases ps.len(),
{
    if ps.len() > 0 {
        lemma_remove_peer_sub(ps.drop_last(), p);
        let d = remove_peer(ps, p);
        let rest = remove_peer(ps.drop_last(), p);
        assert forall|q: Seq<char>| #[trigger] d.contains(q) implies ps.contains(q) && q != p by {
            let k = choose|k: int| 0 <= k < d.len() && d[k] == q;
            if ps.last() != p && k == rest.len() {
                assert(q == ps.last());
                assert(ps[ps.len() - 1] == q);
            } else {
                assert(rest[k] == q);
                assert(rest.contains(q));
                let m = choose|m: int| 0 <= m < ps.drop_last().len() && ps.drop_last()[m] == q;
                assert(ps[m] == q);
            }
        }
    }
}

/// Removing a peer from a duplicate-free list leaves a duplicate-free list.
proof fn lemma_remove_peer_unique(ps: Seq<Seq<char>>, p: Seq<char>)
    requires
        forall|i: int, j: int| #![trigger ps[i], ps[j]] 0 <= i < j < ps.len() ==> ps[i] != ps[j],
    ensures
        forall|i: int, j: int| #![trigger remove_peer(ps, p)[i], remove_peer(ps, p)[j]]
            0 <= i < j < remove_peer(ps, p).len() ==> remove_peer(ps, p)[i] != remove_peer(
                ps,
                p,
            )[j],
    decreases ps.len(),
{
    if ps.len() > 0 {
        assert forall|i: int, j: int| #![trigger ps.drop_last()[i], ps.drop_last()[j]]
            0 <= i < j < ps.drop_last().len() implies ps.drop_last()[i] != ps.drop_last()[j] by {
            assert(ps[i] != ps[j]);
        }
        lemma_remove_peer_unique(ps.drop_last(), p);
        lemma_remove_peer_sub(ps.drop_last(), p);
        let d = remove_peer(ps, p);
        let rest = remove_peer(ps.drop_last(), p);
        if ps.last() != p {
            assert(d == rest.push(ps.last()));
            assert forall|i: int, j: int| #![trigger d[i], d[j]] 0 <= i < j < d.len()
                implies d[i] != d[j] by {
                if j < rest.len() {
                    assert(rest[i] != rest[j]);
                } else {
                    assert(d[j] == ps.last());
                    assert(rest.contains(rest[i]));
                    let m = choose|m: int| 0 <= m < ps.drop_last().len() && ps.drop_last()[m]
                        == rest[i];
                    assert(ps[m] == rest[i]);
                    assert(ps[m] != ps[ps.len() - 1]);
                }
            }
        }
    }
}

} // verus!

