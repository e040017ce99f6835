//! Connection-activity bookkeeping: the idle-time clock a listener keeps
//! per connection.
use vstd::prelude::*;

verus! {

/// Tracks when a connection last moved; the caller supplies the clock.
pub struct ServerService {
    pub last_activity: u64,
}

impl ServerService {
    pub fn new() -> (r: ServerService)
        ensures
            r.last_activity == 0,
    {
        ServerService { last_activity: 0 }
    }

    /// Stamps the connection as active now.
    pub fn update_activity(&mut self, now: u64)
        ensures
            final(self).last_activity == now,
    {
        self.last_activity = now;
    }

    /// How long the connection has sat idle.
    pub fn seconds_since_last_activity(&self, now: u64) -> (r: u64)
        requires
            now >= self.last_activity,
        ensures
            r == now - self.last_activity,
    {
        now - self.last_activity
    }
}

} // verus!
