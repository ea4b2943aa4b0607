//! What a direct connection does.

use vstd::prelude::*;

use crate::direct::connect::{connect_next, ConnectAction, ConnectStage};
use crate::direct::hub::reached_of;

verus! {

/// A lost connection is sought again: from every stage an attempt follows in at most two
/// steps without a connection, after one wait of two seconds.
pub proof fn law_lost_connection_is_sought_again(alive: bool)
    ensures
        connect_next(ConnectStage::Connected, false) == (
            ConnectStage::Waiting,
            ConnectAction::Closed,
        ),
        connect_next(ConnectStage::Waiting, alive) == (
            ConnectStage::Ready,
            ConnectAction::Sleep { millis: 2_000 },
        ),
        connect_next(ConnectStage::Ready, alive) == (ConnectStage::Ready, ConnectAction::Connect),
        connect_next(
            connect_next(connect_next(ConnectStage::Connected, false).0, alive).0,
            alive,
        ).1 == ConnectAction::Connect,
{
}

/// A connection that stands is only watched, twice a second.
pub proof fn law_standing_connection_is_watched()
    ensures
        connect_next(ConnectStage::Connected, true) == (
            ConnectStage::Connected,
            ConnectAction::Sleep { millis: 500 },
        ),
{
}

/// Devices that were reached stay, in their order, and the others go.
pub proof fn law_reached_devices_stay(peers: Seq<u64>, peer: u64, reached: Seq<bool>)
    requires
        reached.len() > peers.len(),
    ensures
        reached_of(Seq::<u64>::empty(), reached).len() == 0,
        reached[peers.len() as int] ==> reached_of(peers.push(peer), reached) == reached_of(
            peers,
            reached,
        ).push(peer),
        !reached[peers.len() as int] ==> reached_of(peers.push(peer), reached) == reached_of(
            peers,
            reached,
        ),
{
    assert(peers.push(peer).drop_last() == peers);
}

} // verus!
