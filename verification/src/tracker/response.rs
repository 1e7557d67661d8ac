//! A tracker's answer to an announce.

use vstd::prelude::*;

verus! {

/// A successful answer: how long to wait before asking again, and the peers.
#[derive(Debug)]
pub struct TrackerSuccessResponse {
    /// Seconds to wait between announces.
    pub interval: u64,
    /// The peers, in the order the tracker listed them: the four octets of each one's IPv4
    /// address and its port.
    pub peers: Vec<([u8; 4], u16)>,
}

/// The octets and ports of peers.
pub open spec fn peers_view(peers: Seq<([u8; 4], u16)>) -> Seq<(Seq<u8>, u16)> {
    peers.map_values(|p: ([u8; 4], u16)| (p.0@, p.1))
}

impl TrackerSuccessResponse {
    pub fn new(interval: u64, peers: Vec<([u8; 4], u16)>) -> (r: Self)
        ensures
            r.interval == interval,
            r.peers == peers,
    {
        TrackerSuccessResponse { interval, peers }
    }
}

} // verus!
