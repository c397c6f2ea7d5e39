use vstd::prelude::*;

use crate::node::{NodeRecord, NodeRecordView, NodeStatus};
use crate::time::Timestamp;

verus! {

/// The record a registration leaves: the incoming record, back in `Registering`, keeping
/// the last heartbeat of the record it replaces, if any.
pub open spec fn registered(existing: Option<NodeRecordView>, incoming: NodeRecordView) -> NodeRecordView {
    NodeRecordView {
        status: NodeStatus::Registering,
        last_heartbeat: match existing {
            Some(current) => current.last_heartbeat,
            None => incoming.last_heartbeat,
        },
        ..incoming
    }
}

/// The record a heartbeat leaves: healthy, with the heartbeat's time.
pub open spec fn heartbeat_seen(node: NodeRecordView, timestamp: Timestamp) -> NodeRecordView {
    NodeRecordView { last_heartbeat: Some(timestamp), status: NodeStatus::Healthy, ..node }
}

/// The view of an optional record.
pub open spec fn opt_record_view(r: Option<&NodeRecord>) -> Option<NodeRecordView> {
    match r {
        Some(x) => Some(x@),
        None => None,
    }
}

/// A registration: the node starts over in `Registering` and keeps its last heartbeat.
pub fn on_register(existing: Option<&NodeRecord>, incoming: NodeRecord) -> (updated: NodeRecord)
    ensures
        updated@ == registered(opt_record_view(existing), incoming@),
{
    match existing {
        None => NodeRecord { status: NodeStatus::Registering, ..incoming },
        Some(current) => {
            let mut updated = incoming;
            updated.status = NodeStatus::Registering;
            updated.last_heartbeat = current.last_heartbeat;
            updated
        },
    }
}

/// A heartbeat: the node is healthy as of `timestamp`, whatever it was before.
pub fn on_heartbeat(node: &mut NodeRecord, timestamp: Timestamp)
    ensures
        final(node)@ == heartbeat_seen(old(node)@, timestamp),
{
    node.last_heartbeat = Some(timestamp);
    node.status = NodeStatus::Healthy;
}

/// The node has missed its heartbeats.
pub fn mark_offline(node: &mut NodeRecord)
    ensures
        final(node)@ == (NodeRecordView { status: NodeStatus::Offline, ..old(node)@ }),
{
    node.status = NodeStatus::Offline;
}

} // verus!
