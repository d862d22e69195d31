//! Decisions of the client that runs the torrents: where an incoming connection goes.
use vstd::prelude::*;

verus! {

/// Why a client could not be set up.
#[derive(Debug, Clone, Copy, PartialEq, Eq)]
pub enum InitError {
    /// No output path was provided.
    NoOutputPath,
}

/// Who opened a connection.
#[derive(Debug, Clone, Copy, PartialEq, Eq)]
pub enum ConnectionType {
    Inbound,
    Outbound,
}

/// Where an incoming connection for a torrent goes.
#[derive(Debug, Clone, Copy, PartialEq, Eq)]
pub enum IncomingRoute {
    /// To the peer manager that runs the torrent.
    RunningManager,
    /// To a peer manager started for the stored torrent.
    StartManager,
    /// Nowhere: the torrent is not ours.
    Refuse,
}

/// Where an incoming connection goes: to the running peer manager of its torrent, else to
/// one started from the stored torrent, else nowhere.
pub fn route_incoming(has_running_manager: bool, has_stored_entry: bool) -> (res: IncomingRoute)
    ensures
        has_running_manager ==> res == IncomingRoute::RunningManager,
        !has_running_manager && has_stored_entry ==> res == IncomingRoute::StartManager,
        !has_running_manager && !has_stored_entry ==> res == IncomingRoute::Refuse,
{
    if has_running_manager {
        IncomingRoute::RunningManager
    } else if has_stored_entry {
        IncomingRoute::StartManager
    } else {
        IncomingRoute::Refuse
    }
}

} // verus!
