//! The shared budget of background moves: a byte count per window, which can be
//! paused.

use vstd::prelude::*;

verus! {

/// Shared background bandwidth budget, in bytes per window.
#[derive(Debug, Clone)]
pub struct BandwidthPool {
    /// What one window may move.
    pub window_bytes: u64,
    /// What is left of the current window.
    pub remaining: u64,
    /// While set, nothing may be consumed.
    pub paused: bool,
}

impl BandwidthPool {
    /// A full window, not paused.
    pub fn new(window_bytes: u64) -> (pool: Self)
        ensures
            pool.window_bytes == window_bytes,
            pool.remaining == window_bytes,
            !pool.paused,
    {
        BandwidthPool { window_bytes, remaining: window_bytes, paused: false }
    }

    /// The default: a tenth of a notional 1 GiB/s link over one second, 100 MiB.
    pub fn default_throttle() -> (pool: Self)
        ensures
            pool.window_bytes == 104_857_600,
            pool.remaining == 104_857_600,
            !pool.paused,
    {
        BandwidthPool::new(100 * 1024 * 1024)
    }

    /// Stops all consumption.
    pub fn pause(&mut self)
        ensures
            final(self).paused,
            final(self).window_bytes == old(self).window_bytes,
            final(self).remaining == old(self).remaining,
    {
        self.paused = true;
    }

    /// Allows consumption again.
    pub fn resume(&mut self)
        ensures
            !final(self).paused,
            final(self).window_bytes == old(self).window_bytes,
            final(self).remaining == old(self).remaining,
    {
        self.paused = false;
    }

    /// Starts a new window.
    pub fn reset_window(&mut self)
        ensures
            final(self).remaining == old(self).window_bytes,
            final(self).window_bytes == old(self).window_bytes,
            final(self).paused == old(self).paused,
    {
        self.remaining = self.window_bytes;
    }

    /// What is left of the current window.
    pub fn remaining(&self) -> (n: u64)
        ensures
            n == self.remaining,
    {
        self.remaining
    }

    /// Consumes `bytes` unless paused or over budget; tells whether it did.
    pub fn try_consume(&mut self, bytes: u64) -> (taken: bool)
        ensures
            taken == (!old(self).paused && bytes <= old(self).remaining),
            final(self).remaining == if taken {
                old(self).remaining - bytes
            } else {
                old(self).remaining as int
            },
            final(self).window_bytes == old(self).window_bytes,
            final(self).paused == old(self).paused,
    {
        if self.paused {
            return false;
        }
        if bytes > self.remaining {
            return false;
        }
        self.remaining = self.remaining - bytes;
        true
    }

    /// Gives back budget, up to a full window.
    pub fn refund(&mut self, bytes: u64)
        requires
            old(self).remaining + bytes <= u64::MAX,
        ensures
            final(self).remaining == if old(self).remaining + bytes <= old(self).window_bytes {
                old(self).remaining + bytes
            } else {
                old(self).window_bytes as int
            },
            final(self).window_bytes == old(self).window_bytes,
            final(self).paused == old(self).paused,
    {
        let sum: u64 = self.remaining + bytes;
        self.remaining = if sum <= self.window_bytes {
            sum
        } else {
            self.window_bytes
        };
    }
}

} // verus!
