//! One recorded workout session: identifier, description, timestamp.

use vstd::prelude::*;

verus! {

/// The mathematical value of a [`Session`]: the two texts as character
/// sequences and the timestamp as seconds since the Unix epoch.
#[verifier::ext_equal]
pub ghost struct SessionView {
    pub identifier: Seq<char>,
    pub description: Seq<char>,
    pub timestamp: u64,
}

/// One recorded workout. `timestamp` is the creation time in whole seconds
/// since the Unix epoch.
#[derive(Debug)]
pub struct Session {
    pub identifier: String,
    pub description: String,
    pub timestamp: u64,
}

impl View for Session {
    type V = SessionView;

    open spec fn view(&self) -> SessionView {
        SessionView {
            identifier: self.identifier@,
            description: self.description@,
            timestamp: self.timestamp,
        }
    }
}

impl Clone for Session {
    fn clone(&self) -> (r: Session)
        ensures
            r == *self,
    {
        Session {
            identifier: self.identifier.clone(),
            description: self.description.clone(),
            timestamp: self.timestamp,
        }
    }
}

impl Session {
    pub fn new(identifier: String, description: String, timestamp: u64) -> (r: Session)
        ensures
            r@.identifier == identifier@,
            r@.description == description@,
            r@.timestamp == timestamp,
    {
        Session { identifier, description, timestamp }
    }

    /// The elapsed time from `self.timestamp` to `now`, broken into whole
    /// days, hours within the day, and minutes within the hour. A timestamp
    /// in the future counts as zero elapsed time.
    pub fn elapsed_parts(&self, now: u64) -> (r: (u64, u64, u64))
        ensures
            r.0 == self.spec_elapsed(now) / 86400,
            r.1 == (self.spec_elapsed(now) / 3600) % 24,
            r.2 == (self.spec_elapsed(now) / 60) % 60,
    {
        let diff: u64 = if now >= self.timestamp {
            now - self.timestamp
        } else {
            0
        };
        (diff / 86400, (diff / 3600) % 24, (diff / 60) % 60)
    }

    /// The elapsed seconds from the session's timestamp to `now`, clamped
    /// below at zero.
    pub open spec fn spec_elapsed(&self, now: u64) -> u64 {
        if now >= self.timestamp {
            (now - self.timestamp) as u64
        } else {
            0
        }
    }
}

} // verus!
