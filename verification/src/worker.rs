//! The order in which a worker goes through the buckets.
use crate::config::BUCKET_COUNT;
use vstd::prelude::*;

verus! {

/// Milliseconds that a worker rests after a pass without a match.
pub const REST_MILLIS: u64 = 5;

/// Where a worker is in its pass over the buckets.
#[derive(Clone, Copy, Debug, PartialEq, Eq, Structural)]
pub struct Worker {
    /// The bucket with which the pass started.
    pub cursor: usize,
    /// How many buckets of the pass are behind.
    pub offset: usize,
    /// Whether a match was formed in the pass.
    pub made_match: bool,
}

impl Worker {
    /// A place in a pass.
    pub open spec fn wf(self) -> bool {
        self.cursor < BUCKET_COUNT && self.offset < BUCKET_COUNT
    }

    /// The bucket to try next.
    pub open spec fn target(self) -> int {
        (self.cursor + self.offset) % BUCKET_COUNT as int
    }

    /// Whether one more attempt ends the pass.
    pub open spec fn at_end(self) -> bool {
        self.offset + 1 == BUCKET_COUNT
    }

    /// The place after an attempt that formed a match or did not. The next pass
    /// starts one bucket further.
    pub open spec fn advanced(self, formed: bool) -> Worker {
        if self.at_end() {
            Worker {
                cursor: ((self.cursor + 1) % BUCKET_COUNT as int) as usize,
                offset: 0,
                made_match: false,
            }
        } else {
            Worker {
                cursor: self.cursor,
                offset: (self.offset + 1) as usize,
                made_match: self.made_match || formed,
            }
        }
    }

    /// Whether the worker rests after an attempt: at the end of a pass without
    /// a match.
    pub open spec fn rests(self, formed: bool) -> bool {
        self.at_end() && !self.made_match && !formed
    }

    /// The first pass of the worker numbered `worker_id`.
    pub fn new(worker_id: usize) -> (worker: Worker)
        ensures
            worker.wf(),
            worker == (Worker {
                cursor: (worker_id % BUCKET_COUNT) as usize,
                offset: 0,
                made_match: false,
            }),
    {
        Worker { cursor: worker_id % BUCKET_COUNT, offset: 0, made_match: false }
    }

    /// The bucket to try next.
    pub fn bucket(&self) -> (bucket: usize)
        requires
            self.wf(),
        ensures
            bucket == self.target(),
            bucket < BUCKET_COUNT,
    {
        (self.cursor + self.offset) % BUCKET_COUNT
    }

    /// Goes on after an attempt that formed a match or did not, and says
    /// whether to rest first.
    pub fn advance(&mut self, formed: bool) -> (rest: bool)
        requires
            old(self).wf(),
        ensures
            final(self).wf(),
            *final(self) == old(self).advanced(formed),
            rest == old(self).rests(formed),
    {
        if formed {
            self.made_match = true;
        }
        if self.offset + 1 < BUCKET_COUNT {
            self.offset = self.offset + 1;
            return false;
        }
        let rest: bool = !self.made_match;
        self.cursor = (self.cursor + 1) % BUCKET_COUNT;
        self.offset = 0;
        self.made_match = false;
        rest
    }
}

} // verus!
