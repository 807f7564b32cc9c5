//! Scheduling rules for the polling sweep: the departure window each fetch
//! asks for, the pacing between requests, the order in which a sweep visits
//! the stations, and the single-flight rule between consecutive sweeps.

use vstd::prelude::*;

verus! {

/// Seconds of look-back before "now" at which a departure window starts.
pub const WINDOW_LOOKBACK_SECS: u64 = 900;

/// Minutes of departures each fetch asks for.
pub const WINDOW_DURATION_MINUTES: u64 = 15;

/// Requests per minute a sweep is allowed to make against the upstream API.
pub const DEFAULT_REQUESTS_PER_MINUTE: u64 = 50;

/// Minutes between the starts of two consecutive sweeps.
pub const SWEEP_PERIOD_MINUTES: u64 = 15;

/// Start of the departure window for a fetch made at `now_unix_secs`:
/// fifteen minutes back, so a trip first seen as upcoming is re-observed
/// once it has departed and its final delay or cancellation is recorded.
pub fn departure_window_start(now_unix_secs: u64) -> (r: u64)
    requires
        now_unix_secs >= WINDOW_LOOKBACK_SECS,
    ensures
        r == now_unix_secs - WINDOW_LOOKBACK_SECS,
{
    now_unix_secs - WINDOW_LOOKBACK_SECS
}

/// Milliseconds a sweep waits between two station fetches so that it stays
/// under `requests_per_minute` requests against the upstream API.
pub fn inter_request_delay_ms(requests_per_minute: u64) -> (r: u64)
    requires
        requests_per_minute >= 1,
    ensures
        r == 60000u64 / requests_per_minute,
{
    60000 / requests_per_minute
}

/// Progress of one sweep over the registered stations. The driver asks for
/// the next station to visit until the sweep reports itself done; stations
/// are visited strictly in registry order, each exactly once.
pub struct Sweep {
    /// Index of the next station to visit.
    pub next: usize,
    /// Number of registered stations.
    pub total: usize,
}

impl Sweep {
    /// Starts a sweep over `total` stations with nothing visited yet.
    pub fn new(total: usize) -> (s: Sweep)
        ensures
            s.next == 0,
            s.total == total,
    {
        Sweep { next: 0, total }
    }

    /// How many stations the sweep has still to visit.
    pub open spec fn remaining(self) -> int {
        self.total - self.next
    }

    /// Hands out the next station index, or `None` once every station has
    /// been visited. Successive calls yield `Some(0), Some(1), ...,
    /// Some(total - 1), None`, so a sweep is a bounded iteration.
    pub fn next_station(&mut self) -> (r: Option<usize>)
        ensures
            old(self).next < old(self).total ==> r == Some(old(self).next)
                && final(self).next == old(self).next + 1,
            old(self).next >= old(self).total ==> r is None
                && final(self).next == old(self).next,
            final(self).total == old(self).total,
            final(self).remaining() <= old(self).remaining(),
    {
        if self.next < self.total {
            let i = self.next;
            self.next = self.next + 1;
            Some(i)
        } else {
            None
        }
    }
}

/// What the scheduler does at a tick, once the inter-sweep sleep has run
/// out: either the prior sweep has finished and the next one starts at
/// once, or the prior sweep is still running and the scheduler waits for it
/// to finish before starting the next one. Sweeps are single-flight: two
/// never run at the same time.
pub enum TickAction {
    StartNext,
    WaitForPriorThenStart,
}

/// Decides the scheduler's step at a tick from whether the prior sweep has
/// finished. An unfinished prior sweep is an overrun: the caller reports it
/// and blocks on the sweep, it never starts a second one beside it.
pub fn tick_action(prior_sweep_finished: bool) -> (a: TickAction)
    ensures
        a == (if prior_sweep_finished {
            TickAction::StartNext
        } else {
            TickAction::WaitForPriorThenStart
        }),
{
    if prior_sweep_finished {
        TickAction::StartNext
    } else {
        TickAction::WaitForPriorThenStart
    }
}

} // verus!
