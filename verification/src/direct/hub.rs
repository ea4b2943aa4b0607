//! Who is connected in the direct mode.

use vstd::prelude::*;

verus! {

/// A message was meant for nobody.
#[derive(Debug, Clone, Copy, PartialEq, Eq, Structural)]
pub enum HubError {
    NoPeers,
}

/// The devices that a message reached.
pub open spec fn reached_of(peers: Seq<u64>, reached: Seq<bool>) -> Seq<u64>
    decreases peers.len(),
{
    if peers.len() == 0 {
        seq![]
    } else if reached[peers.len() - 1] {
        reached_of(peers.drop_last(), reached).push(peers.last())
    } else {
        reached_of(peers.drop_last(), reached)
    }
}

/// The connected devices, by number, in the order in which they came.
pub struct PeerHub {
    pub peers: Vec<u64>,
}

impl Default for PeerHub {
    /// Nobody is connected.
    fn default() -> (hub: PeerHub)
        ensures
            hub.peers@ == Seq::<u64>::empty(),
    {
        PeerHub { peers: Vec::new() }
    }
}

impl PeerHub {
    /// One more device is connected.
    pub fn add(&mut self, peer: u64)
        ensures
            final(self).peers@ == old(self).peers@.push(peer),
    {
        self.peers.push(peer);
    }

    /// Takes note of which devices a message reached, in their order. The others are
    /// dropped, and those reached are counted.
    pub fn broadcast(&mut self, reached: &Vec<bool>) -> (count: usize)
        requires
            reached@.len() == old(self).peers@.len(),
        ensures
            final(self).peers@ == reached_of(old(self).peers@, reached@),
            count == final(self).peers@.len(),
    {
        let ghost all = self.peers@;
        let mut kept: Vec<u64> = Vec::new();
        let mut i: usize = 0;
        while i < self.peers.len()
            invariant
                i <= all.len(),
                self.peers@ == all,
                reached@.len() == all.len(),
                kept@ == reached_of(all.take(i as int), reached@),
            decreases all.len() - i,
        {
            proof {
                assert(all.take(i as int + 1).drop_last() == all.take(i as int));
            }
            if reached[i] {
                kept.push(self.peers[i]);
            }
            i += 1;
        }
        proof {
            assert(all.take(all.len() as int) == all);
        }
        self.peers = kept;
        self.peers.len()
    }

    /// Takes note of which devices a message reached that had to reach someone.
    pub fn send_required(&mut self, reached: &Vec<bool>) -> (r: Result<(), HubError>)
        requires
            reached@.len() == old(self).peers@.len(),
        ensures
            final(self).peers@ == reached_of(old(self).peers@, reached@),
            r is Ok <==> final(self).peers@.len() > 0,
            r matches Err(error) ==> error == HubError::NoPeers,
    {
        if self.broadcast(reached) == 0 {
            return Err(HubError::NoPeers);
        }
        Ok(())
    }
}

} // verus!
