//! A replica's identity and its logical clock.

use vstd::prelude::*;

use crate::{PeerId, Timestamp};

verus! {

/// One replica's view of itself: its peer number and a logical clock that
/// stamps every segment the replica mints.
#[derive(Clone, Debug, PartialEq, Eq, Structural)]
pub struct Side {
    pub peer_id: PeerId,
    pub time: Timestamp,
}

impl Side {
    /// A fresh replica identity whose clock starts at zero.
    pub fn new(peer_id: PeerId) -> (r: Self)
        ensures
            r.peer_id == peer_id,
            r.time == 0,
    {
        Side { peer_id, time: 0 }
    }

    /// The replica's peer number.
    pub fn peer_id(&self) -> (r: PeerId)
        ensures
            r == self.peer_id,
    {
        self.peer_id
    }

    /// Advances the logical clock and returns its previous value.
    pub fn time_inc(&mut self) -> (r: Timestamp)
        requires
            old(self).time < Timestamp::MAX,
        ensures
            r == old(self).time,
            final(self).time == old(self).time + 1,
            final(self).peer_id == old(self).peer_id,
    {
        let ret = self.time;
        self.time = self.time + 1;
        ret
    }
}

/// Milliseconds elapsed since the Unix epoch on the system clock.
///
/// Relies on std::time::SystemTime::now and duration_since: the wall clock
/// read at the call; nothing can be promised of its value.
#[verifier::external_body]
pub fn now_millis() -> u64 {
    std::time::SystemTime::now()
        .duration_since(std::time::UNIX_EPOCH)
        .map(|d| d.as_millis() as u64)
        .unwrap_or(0)
}

} // verus!
