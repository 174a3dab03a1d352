//! Progress accounting for a byte source being loaded: counts bytes read
//! and decides when a progress event is due.

use vstd::prelude::*;

verus! {

/// The event reported to observers of a load in progress.
pub struct ProgressEvent {
    pub read_bytes: u64,
    pub total_bytes: u64,
    pub percent: u64,
    pub done: bool,
    pub canceled: bool,
}

/// The percentage of a total that has been read: zero when the total is
/// unknown, saturated at the numeric bound otherwise.
pub open spec fn percent_spec(read: nat, total: nat) -> nat {
    if total > 0 {
        let p: int = (read as int) * 100 / (total as int);
        if p > u64::MAX {
            u64::MAX as nat
        } else {
            p as nat
        }
    } else {
        0
    }
}

/// How many contiguous bytes pass between two progress events.
pub const EMIT_STEP: u64 = 1048576;

/// Counts bytes read from a source and decides when to emit progress.
pub struct ProgressTracker {
    pub read_bytes: u64,
    pub total_bytes: u64,
    pub last_emit: u64,
}

impl ProgressTracker {
    /// A tracker for a source whose size hint is `total_bytes` (zero when
    /// unknown).
    pub fn new(total_bytes: u64) -> (r: ProgressTracker)
        ensures
            r.read_bytes == 0,
            r.total_bytes == total_bytes,
            r.last_emit == 0,
    {
        ProgressTracker { read_bytes: 0, total_bytes, last_emit: 0 }
    }

    /// Accounts one read of `n` bytes. An event is due after every
    /// contiguous megabyte and at end of stream (`n == 0`); its fields
    /// report the running count, the size hint, the integer percentage,
    /// whether the stream ended, and whether cancellation was requested.
    pub fn on_read(&mut self, n: u64, canceled: bool) -> (ev: Option<ProgressEvent>)
        requires
            old(self).read_bytes + n <= u64::MAX,
            old(self).last_emit <= old(self).read_bytes,
        ensures
            final(self).read_bytes == old(self).read_bytes + n,
            final(self).total_bytes == old(self).total_bytes,
            final(self).last_emit <= final(self).read_bytes,
            (ev is Some) == (old(self).read_bytes + n - old(self).last_emit >= EMIT_STEP || n
                == 0),
            match ev {
                Some(e) => {
                    &&& e.read_bytes == final(self).read_bytes
                    &&& e.total_bytes == final(self).total_bytes
                    &&& e.percent == percent_spec(
                        final(self).read_bytes as nat,
                        final(self).total_bytes as nat,
                    )
                    &&& e.done == (n == 0)
                    &&& e.canceled == canceled
                    &&& final(self).last_emit == final(self).read_bytes
                },
                None => final(self).last_emit == old(self).last_emit,
            },
    {
        self.read_bytes = self.read_bytes + n;
        if self.read_bytes - self.last_emit >= EMIT_STEP || n == 0 {
            let percent: u64 = if self.total_bytes > 0 {
                let wide: u128 = (self.read_bytes as u128) * 100 / (self.total_bytes as u128);
                if wide > u64::MAX as u128 {
                    u64::MAX
                } else {
                    wide as u64
                }
            } else {
                0
            };
            let ev = ProgressEvent {
                read_bytes: self.read_bytes,
                total_bytes: self.total_bytes,
                percent,
                done: n == 0,
                canceled,
            };
            self.last_emit = self.read_bytes;
            Some(ev)
        } else {
            None
        }
    }
}

} // verus!
