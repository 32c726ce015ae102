//! The synchronization coordinator: one round of exchange with a peer or
//! server.
//!
//! A round reads the full local snapshot, requires the node to have an
//! identity, hands the snapshot to the transport collaborator, merges what
//! comes back, and records the time of success.  The transport itself (an
//! HTTP-like exchange) lives outside the engine: the caller performs it
//! between `begin_sync` and `finish_sync`, holding no lock meanwhile, so a
//! slow exchange never blocks local operations.  A round that fails at the
//! transport step is simply never finished: local state is left exactly as
//! it was before the round, and `PeerRegistry::abort_attempt` restores the
//! status marker.

use vstd::prelude::*;

use crate::merge::merge_seq;
use crate::peer::{touch_conn, PeerRegistry};
use crate::store::{max_id_of, sorted_by_id, TodoStore};
use crate::todo::{EngineError, Todo};

verus! {

/// Starts a synchronization round: checks that the node has an identity and
/// takes the full local snapshot to be exchanged.  Fails with `NoIdentity`,
/// and with nothing else, exactly when no local peer id exists; neither the
/// store nor the registry is changed either way.
pub fn begin_sync(store: &TodoStore, registry: &PeerRegistry) -> (r: Result<
    Vec<Todo>,
    EngineError,
>)
    ensures
        registry@.peer_id is None ==> (r matches Err(e) && e == EngineError::NoIdentity),
        registry@.peer_id is Some ==> (r matches Ok(snapshot)
            && snapshot.deep_view().to_multiset() == store@.to_multiset() && sorted_by_id(
            snapshot.deep_view(),
        )),
{
    match registry.get_peer_id() {
        Some(_) => Ok(store.export_all()),
        None => Err(EngineError::NoIdentity),
    }
}

/// Finishes a synchronization round with the snapshot the counterpart
/// returned: merges it into the store under the last-write-wins policy (no
/// local record is ever deleted) and records the success time in the
/// registry, on the node's own row too when one exists.  The identity
/// requirement is checked again; on failure the store and the registry are
/// exactly as they were.
pub fn finish_sync(
    store: &mut TodoStore,
    registry: &mut PeerRegistry,
    remote: &Vec<Todo>,
    now: u64,
) -> (r: Result<(), EngineError>)
    requires
        old(store).wf(),
        old(registry).wf(),
    ensures
        final(store).wf(),
        final(registry).wf(),
        old(registry)@.peer_id is None ==> ({
            &&& r matches Err(e) && e == EngineError::NoIdentity
            &&& final(store)@ == old(store)@
            &&& final(registry)@ == old(registry)@
        }),
        old(registry)@.peer_id is Some ==> ({
            &&& r == Ok::<(), EngineError>(())
            &&& final(store)@ == merge_seq(old(store)@, remote.deep_view())
            &&& final(store).id_bound() as int == (if max_id_of(remote.deep_view()) > old(
                store,
            ).id_bound() as int {
                max_id_of(remote.deep_view())
            } else {
                old(store).id_bound() as int
            })
            &&& final(registry)@.last_sync == Option::Some(now)
            &&& final(registry)@.peer_id == old(registry)@.peer_id
            &&& final(registry)@.connected_peers == old(registry)@.connected_peers
            &&& final(registry)@.status == old(registry)@.status
            &&& (old(registry)@.peer_id matches Some(p) ==> final(registry)@.connections
                == touch_conn(old(registry)@.connections, p, now))
        }),
{
    if registry.get_peer_id().is_some() {
        store.import_merge(remote);
        registry.record_sync(now);
        Ok(())
    } else {
        Err(EngineError::NoIdentity)
    }
}

} // verus!
