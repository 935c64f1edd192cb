//! The engine's boundary: the plain values exchanged with the transport
//! layer, and the application of decoded operations to a store.

use vstd::prelude::*;

use crate::keys::{id_lt, NodeKey};
use crate::side::Side;
use crate::store::{alloc_ready, has_id, in_bounds, Doc, StoreError};
use crate::{PeerId, Timestamp};

verus! {

/// The configuration a node runs with.
pub struct NodeConfig {
    pub peer_id: PeerId,
    pub tcp_port: u16,
    pub udp_discovery_port: u16,
}

/// A discovery announcement: who a peer is and where it listens.
pub struct PeerBeacon {
    pub id: PeerId,
    pub tcp_port: u16,
}

/// An operation received from a peer, carrying an explicit identifier.
pub enum RemoteOp {
    RemoteInsert { key: Vec<NodeKey>, value: u8 },
    RemoteDelete { key: Vec<NodeKey> },
}

/// A message exchanged between peers.
pub enum PeerMessage {
    SyncOp(RemoteOp),
}

/// A local edit intent, offset-addressed by the editor.
pub enum LocalOp {
    Insert { position: u32, value: u8 },
    Remove { position: u32 },
}

/// Applies a peer's operation to the store: a remote insert stores the
/// carried identifier, a remote delete tombstones it and removes it if
/// live; either way the store changes exactly as `insert_id` or `remove_id`
/// says, and not at all on an error.
pub fn apply_remote_op(doc: &mut Doc, op: RemoteOp) -> (r: Result<(), StoreError>)
    requires
        old(doc).wf(),
    ensures
        final(doc).wf(),
        op matches RemoteOp::RemoteInsert { key, value } ==> (r is Ok <==> in_bounds(key@)
            && !has_id(old(doc).entries(), key@)),
        op matches RemoteOp::RemoteInsert { key, value } ==> (r is Ok ==> exists|i: int|
            0 < i < old(doc).entries().len() && final(doc).entries() == old(doc).entries().insert(i, (key@, value))),
        op matches RemoteOp::RemoteInsert { key, value } ==> final(doc).tomb_seq() == old(doc).tomb_seq(),
        op matches RemoteOp::RemoteDelete { key } ==> (r is Ok <==> in_bounds(key@) && (has_id(
            old(doc).entries(),
            key@,
        ) || old(doc).has_tomb(key@))),
        op matches RemoteOp::RemoteDelete { key } ==> (r is Ok ==> forall|x: Seq<NodeKey>|
            final(doc).has_tomb(x) <==> old(doc).has_tomb(x) || x == key@),
        op matches RemoteOp::RemoteDelete { key } ==> (r is Ok && has_id(
            old(doc).entries(),
            key@,
        ) ==> exists|i: int|
            0 < i < old(doc).entries().len() - 1 && old(doc).entries()[i].0 == key@ && final(doc).entries() == old(doc).entries().remove(i)),
        op matches RemoteOp::RemoteDelete { key } ==> (r is Ok && !has_id(
            old(doc).entries(),
            key@,
        ) ==> final(doc).entries() == old(doc).entries()),
        r is Err ==> *final(doc) == *old(doc),
{
    match op {
        RemoteOp::RemoteInsert { key, value } => doc.insert_id(key, value),
        RemoteOp::RemoteDelete { key } => doc.remove_id(key),
    }
}

/// Applies a local edit to the store and, on success, returns the operation
/// to broadcast to peers: an insert succeeds exactly when the offset is in
/// range and its neighbours leave a free slot, and then stores the minted
/// identifier with the payload; a remove succeeds exactly when the offset
/// addresses a live character, and then removes and tombstones it.
pub fn apply_local_op(doc: &mut Doc, side: &mut Side, op: LocalOp) -> (r: Result<
    RemoteOp,
    StoreError,
>)
    requires
        old(doc).wf(),
        old(side).time < Timestamp::MAX,
    ensures
        final(doc).wf(),
        r is Err ==> *final(doc) == *old(doc) && *final(side) == *old(side),
        op matches LocalOp::Insert { position, value } ==> (r is Ok <==> position + 2 <= old(doc).entries().len() && alloc_ready(
            old(doc).ids()[position as int],
            old(doc).ids()[position as int + 1],
        )),
        op matches LocalOp::Insert { position, value } ==> (r matches Ok(ro) ==> (ro matches
            RemoteOp::RemoteInsert { key, value: v } && v == value && final(doc).entries() == old(doc).entries().insert(position as int + 1, (key@, value)) && id_lt(
            old(doc).ids()[position as int],
            key@,
        ) && id_lt(key@, old(doc).ids()[position as int + 1]) && final(doc).tomb_seq() == old(doc).tomb_seq() && final(side).time == old(side).time + 1 && final(side).peer_id == old(side).peer_id)),
        op matches LocalOp::Remove { position } ==> (r is Ok <==> position + 3 <= old(doc).entries().len()),
        op matches LocalOp::Remove { position } ==> (r matches Ok(ro) ==> (ro matches
            RemoteOp::RemoteDelete { key } && key@ == old(doc).ids()[position as int + 1] && final(doc).entries() == old(doc).entries().remove(position as int + 1) && (forall|
            x: Seq<NodeKey>,
        |
            final(doc).has_tomb(x) <==> old(doc).has_tomb(x) || x == key@))),
        op matches LocalOp::Remove { position } ==> *final(side) == *old(side),
{
    match op {
        LocalOp::Insert { position, value } => {
            match doc.insert_absolute(position as usize, value, side) {
                Ok(key) => Ok(RemoteOp::RemoteInsert { key, value }),
                Err(e) => Err(e),
            }
        },
        LocalOp::Remove { position } => {
            match doc.remove_absolute(position as usize) {
                Ok(key) => Ok(RemoteOp::RemoteDelete { key }),
                Err(e) => Err(e),
            }
        },
    }
}

} // verus!
