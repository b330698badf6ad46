//! Cooperative cancellation of long graph queries: a probe that a computation consults
//! once in a while, and that asks whether the operation it serves was cancelled.

use vstd::prelude::*;
use crate::local_source::DiscoveryPoller;

verus! {

/// How many steps a cooperative graph query takes between two cancellation checks.
pub const COOPERATIVE_POLL_INTERVAL: usize = 256;

/// Tells a long computation when to stop. An active probe asks `cancelled` once every
/// `interval` steps; an inactive one never stops the computation.
pub struct CancellationProbe<F: Fn() -> bool> {
    poller: DiscoveryPoller,
    cancelled: F,
    active: bool,
}

impl<F: Fn() -> bool> CancellationProbe<F> {
    /// The probe asks whether the operation was cancelled.
    pub closed spec fn active(&self) -> bool {
        self.active
    }

    /// What the probe asks.
    pub closed spec fn asks(&self) -> F {
        self.cancelled
    }

    /// The counter that says when the probe asks.
    pub closed spec fn poller(&self) -> DiscoveryPoller {
        self.poller
    }

    /// The probe may ask.
    pub closed spec fn callable(&self) -> bool {
        self.active ==> self.cancelled.requires(())
    }

    /// A probe that never stops the computation.
    pub fn inactive(cancelled: F) -> (p: Self)
        ensures
            !p.active(),
            p.callable(),
            p.asks() == cancelled,
    {
        CancellationProbe { poller: DiscoveryPoller::new(1), cancelled, active: false }
    }

    /// A probe that asks `cancelled` once every `interval` steps.
    pub fn every(interval: usize, cancelled: F) -> (p: Self)
        requires
            cancelled.requires(()),
        ensures
            p.active(),
            p.callable(),
            p.asks() == cancelled,
            p.poller().period() == if interval == 0 { 1 } else { interval as nat },
            p.poller().left() == p.poller().period(),
    {
        CancellationProbe { poller: DiscoveryPoller::new(interval), cancelled, active: true }
    }

    /// Whether the operation was cancelled, asked now; an inactive probe says no.
    pub fn check(&self) -> (stop: bool)
        requires
            self.callable(),
        ensures
            !self.active() ==> !stop,
            self.active() ==> self.asks().ensures((), stop),
    {
        if self.active {
            (self.cancelled)()
        } else {
            false
        }
    }

    /// Counts one step of the computation; true where the computation is to stop: the
    /// probe is active, the step is due for a check, and the operation was cancelled.
    pub fn step(&mut self) -> (stop: bool)
        requires
            old(self).callable(),
        ensures
            final(self).active() == old(self).active(),
            final(self).callable(),
            final(self).asks() == old(self).asks(),
            !old(self).active() ==> !stop && final(self).poller() == old(self).poller(),
            old(self).active() ==> final(self).poller().period() == old(self).poller().period()
                && final(self).poller().left() == (if old(self).poller().left() == 1 {
                    old(self).poller().period()
                } else {
                    (old(self).poller().left() - 1) as nat
                })
                && (if old(self).poller().left() == 1 { old(self).asks().ensures((), stop) } else { !stop }),
    {
        if !self.active {
            return false;
        }
        let due = self.poller.step();
        if due {
            (self.cancelled)()
        } else {
            false
        }
    }
}

} // verus!
