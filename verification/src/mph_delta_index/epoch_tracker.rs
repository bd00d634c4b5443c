//! Counters of epoch-reclamation activity: deferred frees, pinned guards,
//! flushes, and radix indexes created and dropped.
//!
//! Each counter wraps around on overflow, as an atomic `fetch_add` does.
use vstd::prelude::*;

verus! {

/// Counters for epoch defer tracking.
pub struct EpochStats {
    /// Deferred frees registered.
    defers_registered: usize,
    /// Guards pinned.
    guards_pinned: usize,
    /// Flushes called.
    flushes_called: usize,
    /// Radix indexes created.
    radix_created: usize,
    /// Radix indexes dropped.
    radix_dropped: usize,
}

/// A copy of the counters at one moment.
#[derive(Debug, Clone, Copy)]
pub struct EpochSnapshot {
    pub defers_registered: usize,
    pub guards_pinned: usize,
    pub flushes_called: usize,
    pub radix_created: usize,
    pub radix_dropped: usize,
}

/// `x + 1`, wrapping to zero past `usize::MAX`.
pub open spec fn bump(x: usize) -> usize {
    if x == usize::MAX { 0 } else { (x + 1) as usize }
}

impl EpochStats {
    /// The counters, as a snapshot would read them.
    pub closed spec fn counters(&self) -> EpochSnapshot {
        EpochSnapshot {
            defers_registered: self.defers_registered,
            guards_pinned: self.guards_pinned,
            flushes_called: self.flushes_called,
            radix_created: self.radix_created,
            radix_dropped: self.radix_dropped,
        }
    }

    /// All counters at zero.
    pub fn new() -> (r: Self)
        ensures
            r.counters() == (EpochSnapshot {
                defers_registered: 0,
                guards_pinned: 0,
                flushes_called: 0,
                radix_created: 0,
                radix_dropped: 0,
            }),
    {
        EpochStats {
            defers_registered: 0,
            guards_pinned: 0,
            flushes_called: 0,
            radix_created: 0,
            radix_dropped: 0,
        }
    }

    /// Count one deferred free.
    pub fn register_defer(&mut self)
        ensures
            final(self).counters() == (EpochSnapshot {
                defers_registered: bump(old(self).counters().defers_registered),
                ..old(self).counters()
            }),
    {
        self.defers_registered = self.defers_registered.wrapping_add(1);
    }

    /// Count one pinned guard.
    pub fn register_pin(&mut self)
        ensures
            final(self).counters() == (EpochSnapshot {
                guards_pinned: bump(old(self).counters().guards_pinned),
                ..old(self).counters()
            }),
    {
        self.guards_pinned = self.guards_pinned.wrapping_add(1);
    }

    /// Count one flush.
    pub fn register_flush(&mut self)
        ensures
            final(self).counters() == (EpochSnapshot {
                flushes_called: bump(old(self).counters().flushes_called),
                ..old(self).counters()
            }),
    {
        self.flushes_called = self.flushes_called.wrapping_add(1);
    }

    /// Count one radix index created.
    pub fn register_radix_create(&mut self)
        ensures
            final(self).counters() == (EpochSnapshot {
                radix_created: bump(old(self).counters().radix_created),
                ..old(self).counters()
            }),
    {
        self.radix_created = self.radix_created.wrapping_add(1);
    }

    /// Count one radix index dropped.
    pub fn register_radix_drop(&mut self)
        ensures
            final(self).counters() == (EpochSnapshot {
                radix_dropped: bump(old(self).counters().radix_dropped),
                ..old(self).counters()
            }),
    {
        self.radix_dropped = self.radix_dropped.wrapping_add(1);
    }

    /// Read all counters.
    pub fn snapshot(&self) -> (r: EpochSnapshot)
        ensures
            r == self.counters(),
    {
        EpochSnapshot {
            defers_registered: self.defers_registered,
            guards_pinned: self.guards_pinned,
            flushes_called: self.flushes_called,
            radix_created: self.radix_created,
            radix_dropped: self.radix_dropped,
        }
    }

    /// Set every counter back to zero.
    pub fn reset(&mut self)
        ensures
            final(self).counters() == (EpochSnapshot {
                defers_registered: 0,
                guards_pinned: 0,
                flushes_called: 0,
                radix_created: 0,
                radix_dropped: 0,
            }),
    {
        self.defers_registered = 0;
        self.guards_pinned = 0;
        self.flushes_called = 0;
        self.radix_created = 0;
        self.radix_dropped = 0;
    }
}

impl EpochSnapshot {
    /// Radix indexes created and not yet dropped (zero if more were dropped).
    pub fn active_radix(&self) -> (r: usize)
        ensures
            r == (if self.radix_created >= self.radix_dropped {
                (self.radix_created - self.radix_dropped) as usize
            } else {
                0usize
            }),
    {
        self.radix_created.saturating_sub(self.radix_dropped)
    }

    /// Rough estimate of deferred frees still pending, taking each flush to
    /// process a hundred of them.
    pub fn estimate_pending(&self) -> (r: usize)
        ensures
            r == (if self.defers_registered >= 100 * self.flushes_called {
                (self.defers_registered - 100 * self.flushes_called) as usize
            } else {
                0usize
            }),
    {
        if self.flushes_called > self.defers_registered / 100 {
            0
        } else {
            self.defers_registered - self.flushes_called * 100
        }
    }
}

/// Count one deferred free on `stats`.
pub fn track_defer(stats: &mut EpochStats)
    ensures
        final(stats).counters() == (EpochSnapshot {
            defers_registered: bump(old(stats).counters().defers_registered),
            ..old(stats).counters()
        }),
{
    stats.register_defer();
}

} // verus!
