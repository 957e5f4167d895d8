//! Counters kept while a walk runs, and when to refresh their display. Times
//! are milliseconds on a monotonic clock that the caller reads.
use vstd::prelude::*;

verus! {

/// How often the display is refreshed, in milliseconds.
pub const UPDATE_FREQUENCY_MS: u64 = 500;

pub struct WalkProgress {
    pub errors: u64,
    pub total: u64,
    pub total_size: u64,
    pub root: Vec<String>,
    pub update_frequency_ms: u64,
    pub started_ms: u64,
    pub last_update_ms: u64,
}

impl WalkProgress {
    /// Counters at zero for a walk of `root` that starts at `now_ms`.
    pub fn new(root: Vec<String>, now_ms: u64) -> (r: WalkProgress)
        ensures
            r.errors == 0,
            r.total == 0,
            r.total_size == 0,
            r.root@ == root@,
            r.update_frequency_ms == UPDATE_FREQUENCY_MS,
            r.started_ms == now_ms,
            r.last_update_ms == now_ms,
    {
        WalkProgress {
            errors: 0,
            total: 0,
            total_size: 0,
            root,
            update_frequency_ms: UPDATE_FREQUENCY_MS,
            started_ms: now_ms,
            last_update_ms: now_ms,
        }
    }

    /// Whether more than the update frequency has passed since the last
    /// refresh; a clock reading before it counts as no time passed.
    pub fn should_update(&self, now_ms: u64) -> (r: bool)
        ensures
            r == (now_ms - self.last_update_ms > self.update_frequency_ms),
    {
        now_ms > self.last_update_ms && now_ms - self.last_update_ms > self.update_frequency_ms
    }

    /// Notes that the display was refreshed at `now_ms`.
    pub fn update(&mut self, now_ms: u64)
        ensures
            final(self).last_update_ms == now_ms,
            final(self).errors == old(self).errors,
            final(self).total == old(self).total,
            final(self).total_size == old(self).total_size,
            final(self).root@ == old(self).root@,
            final(self).update_frequency_ms == old(self).update_frequency_ms,
            final(self).started_ms == old(self).started_ms,
    {
        self.last_update_ms = now_ms;
    }

    /// Counts one walk result: the size of an entry whose metadata was read,
    /// or an error (the entry failed, or its metadata could not be read).
    pub fn record_progress(&mut self, size: Option<u64>)
        requires
            old(self).total < u64::MAX,
            size matches Some(s) ==> old(self).total_size + s <= u64::MAX,
            size is None ==> old(self).errors < u64::MAX,
        ensures
            final(self).total == old(self).total + 1,
            final(self).total_size == old(self).total_size + match size {
                Some(s) => s as int,
                None => 0,
            },
            final(self).errors == old(self).errors + if size is None {
                1int
            } else {
                0
            },
            final(self).root@ == old(self).root@,
            final(self).update_frequency_ms == old(self).update_frequency_ms,
            final(self).started_ms == old(self).started_ms,
            final(self).last_update_ms == old(self).last_update_ms,
    {
        self.total = self.total + 1;
        match size {
            Some(s) => {
                self.total_size = self.total_size + s;
            },
            None => {
                self.errors = self.errors + 1;
            },
        }
    }

    /// Milliseconds since the walk started, or zero for an earlier reading.
    pub fn elapsed_ms(&self, now_ms: u64) -> (r: u64)
        ensures
            r == if now_ms > self.started_ms {
                now_ms - self.started_ms
            } else {
                0
            },
    {
        if now_ms > self.started_ms {
            now_ms - self.started_ms
        } else {
            0
        }
    }
}

} // verus!
