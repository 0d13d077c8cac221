//! The progress of one acquisition, for the report of how it ended.

use vstd::prelude::*;

verus! {

/// One acquisition under way.
#[derive(Debug, PartialEq, Eq)]
pub struct TaskProgress {
    /// What the acquisition is called.
    pub name: String,
    /// Whether it has failed.
    pub failed: bool,
    /// When it started, in nanoseconds.
    pub started: u64,
}

impl TaskProgress {
    /// An acquisition that starts at the time `now` and has not failed.
    pub fn new(name: String, now: u64) -> (p: Self)
        ensures
            p.name == name,
            !p.failed,
            p.started == now,
    {
        TaskProgress { name, failed: false, started: now }
    }

    /// Notes that the acquisition has failed.
    pub fn fail(&mut self)
        ensures
            final(self).failed,
            final(self).name == old(self).name,
            final(self).started == old(self).started,
    {
        self.failed = true;
    }

    /// How the acquisition ended, in a word.
    pub fn status(&self) -> (word: &'static str)
        ensures
            word@ == (if self.failed {
                "failed"@
            } else {
                "done"@
            }),
    {
        if self.failed {
            "failed"
        } else {
            "done"
        }
    }

    /// How long the acquisition has taken at the time `now`, in nanoseconds;
    /// nothing where the clock has gone back.
    pub fn took(&self, now: u64) -> (nanos: u64)
        ensures
            nanos == (if now >= self.started {
                now - self.started
            } else {
                0
            }),
    {
        if now >= self.started {
            now - self.started
        } else {
            0
        }
    }
}

} // verus!
