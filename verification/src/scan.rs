//! The scan scheduler's decisions: each unit's cadence, the watchdog that
//! counts overrunning scans, the order in which units due on one tick run,
//! and the bounds on injected stalls. Times are microseconds since the
//! scan loop started; the loop itself reads the clock and sleeps.
use vstd::prelude::*;

verus! {

/// The cycle period of a unit whose task names none.
pub const DEFAULT_SCAN_INTERVAL_MS: u64 = 100;

/// Consecutive overrunning scans of one unit that trip the watchdog.
pub const WATCHDOG_OVERRUN_THRESHOLD: u32 = 5;

/// The longest stall one injected tick may sleep.
pub const MAX_INJECT_STALL_MS: u64 = 1_000;

/// The most ticks one injection may stall.
pub const MAX_INJECT_SCANS: u32 = 1_000;

/// How often a snapshot goes out, and the longest idle sleep.
pub const SNAPSHOT_PERIOD_US: u64 = 100_000;

/// How often RETAIN values are flushed to disk while running.
pub const RETAIN_FLUSH_INTERVAL_MS: u64 = 5_000;

/// The period a unit scans at: its task's interval, or the default when
/// the task gives none, and never below one millisecond.
pub open spec fn effective_interval_ms(interval_ms: u64) -> u64 {
    let base = if interval_ms == 0 {
        DEFAULT_SCAN_INTERVAL_MS
    } else {
        interval_ms
    };
    if base < 1 {
        1
    } else {
        base
    }
}

/// Per-unit scheduling state.
#[derive(Debug, Clone, Copy, PartialEq, Eq, Structural)]
pub struct UnitClock {
    /// When the next scan is due.
    pub next_due_us: u64,
    /// The unit's period.
    pub interval_us: u64,
    /// Scans run so far.
    pub scan_count: u64,
    /// Overrunning scans in a row.
    pub consecutive_overruns: u32,
    /// Whether the first overrun has been reported.
    pub warned_overrun: bool,
}

/// What the end of one scan decided.
#[derive(Debug, Clone, Copy, PartialEq, Eq, Structural)]
pub struct ScanVerdict {
    /// The scan did not finish before its next one fell due.
    pub overran: bool,
    /// This is the unit's first overrun: report it.
    pub warn: bool,
    /// The watchdog trips now: engage failsafe and latch the outputs off.
    pub trip: bool,
}

/// The clock and the verdict after a scan that ended at `after_us`, with
/// the watchdog latched or not before it.
pub open spec fn finish(c: UnitClock, after_us: u64, tripped: bool) -> (UnitClock, ScanVerdict) {
    let due = c.next_due_us + c.interval_us;
    if due > after_us {
        (
            UnitClock { next_due_us: due as u64, consecutive_overruns: 0, ..c },
            ScanVerdict { overran: false, warn: false, trip: false },
        )
    } else {
        let streak: u32 = if c.consecutive_overruns == u32::MAX {
            u32::MAX
        } else {
            (c.consecutive_overruns + 1) as u32
        };
        (
            UnitClock {
                next_due_us: (after_us + c.interval_us) as u64,
                consecutive_overruns: streak,
                warned_overrun: true,
                ..c
            },
            ScanVerdict {
                overran: true,
                warn: !c.warned_overrun,
                trip: !tripped && streak >= WATCHDOG_OVERRUN_THRESHOLD,
            },
        )
    }
}

/// Whether a clock can take one more scan ending at `after_us` without
/// its times leaving `u64`.
pub open spec fn finish_fits(c: UnitClock, after_us: u64) -> bool {
    &&& c.next_due_us + c.interval_us <= u64::MAX
    &&& after_us + c.interval_us <= u64::MAX
}

/// The clock and the watchdog latch after scans ending at the times in
/// `afters`, one after another.
pub open spec fn finish_all(c: UnitClock, afters: Seq<u64>, tripped: bool) -> (UnitClock, bool)
    decreases afters.len(),
{
    if afters.len() == 0 {
        (c, tripped)
    } else {
        let before = finish_all(c, afters.drop_last(), tripped);
        let step = finish(before.0, afters.last(), before.1);
        (step.0, before.1 || step.1.trip)
    }
}

/// Whether every one of those scans overran.
pub open spec fn overran_each(c: UnitClock, afters: Seq<u64>, tripped: bool) -> bool
    decreases afters.len(),
{
    afters.len() > 0 ==> {
        let before = finish_all(c, afters.drop_last(), tripped);
        &&& overran_each(c, afters.drop_last(), tripped)
        &&& finish(before.0, afters.last(), before.1).1.overran
    }
}

/// Once latched, the watchdog stays latched whatever the scans do.
pub proof fn watchdog_latches(c: UnitClock, afters: Seq<u64>)
    ensures
        finish_all(c, afters, true).1,
    decreases afters.len(),
{
    if afters.len() > 0 {
        watchdog_latches(c, afters.drop_last());
    }
}

/// From a clear streak, `k` overrunning scans in a row leave a streak of
/// `k`, and the watchdog is latched afterwards exactly when it was before
/// or `k` reached the threshold.
pub proof fn watchdog_trips_at_threshold(c: UnitClock, afters: Seq<u64>, tripped: bool)
    requires
        c.consecutive_overruns == 0,
        afters.len() < u32::MAX,
        overran_each(c, afters, tripped),
    ensures
        finish_all(c, afters, tripped).0.consecutive_overruns == afters.len(),
        finish_all(c, afters, tripped).1 == (tripped || afters.len() >= WATCHDOG_OVERRUN_THRESHOLD),
    decreases afters.len(),
{
    if afters.len() > 0 {
        watchdog_trips_at_threshold(c, afters.drop_last(), tripped);
    }
}

impl UnitClock {
    /// A unit's clock at the start of the loop: due at once.
    pub fn new(interval_ms: u64, start_us: u64) -> (c: UnitClock)
        requires
            interval_ms <= u64::MAX / 1000,
        ensures
            c.next_due_us == start_us,
            c.interval_us == effective_interval_ms(interval_ms) * 1000,
            c.scan_count == 0,
            c.consecutive_overruns == 0,
            !c.warned_overrun,
    {
        let base: u64 = if interval_ms == 0 {
            DEFAULT_SCAN_INTERVAL_MS
        } else {
            interval_ms
        };
        let ms: u64 = if base < 1 {
            1
        } else {
            base
        };
        UnitClock {
            next_due_us: start_us,
            interval_us: ms * 1000,
            scan_count: 0,
            consecutive_overruns: 0,
            warned_overrun: false,
        }
    }

    /// Whether the unit runs on a tick at `now_us`.
    pub fn is_due(&self, now_us: u64) -> (r: bool)
        ensures
            r == (self.next_due_us <= now_us),
    {
        self.next_due_us <= now_us
    }

    /// Counts one scan that ran.
    pub fn record_scan(&mut self)
        requires
            old(self).scan_count < u64::MAX,
        ensures
            *final(self) == (UnitClock { scan_count: (old(self).scan_count + 1) as u64, ..*old(self) }),
    {
        self.scan_count = self.scan_count + 1;
    }

    /// Advances the cadence after a scan that ended at `after_us`: an
    /// in-time scan keeps the anchor and clears the overrun streak; an
    /// overrun slides the anchor to `after_us` plus one period, extends
    /// the streak, and trips the watchdog when the streak reaches the
    /// threshold and the watchdog has not latched yet.
    pub fn finish_scan(&mut self, after_us: u64, tripped: bool) -> (v: ScanVerdict)
        requires
            finish_fits(*old(self), after_us),
        ensures
            (*final(self), v) == finish(*old(self), after_us, tripped),
    {
        let due = self.next_due_us + self.interval_us;
        if due > after_us {
            self.next_due_us = due;
            self.consecutive_overruns = 0;
            ScanVerdict { overran: false, warn: false, trip: false }
        } else {
            let streak = self.consecutive_overruns.saturating_add(1);
            let warn = !self.warned_overrun;
            self.consecutive_overruns = streak;
            self.warned_overrun = true;
            self.next_due_us = after_us + self.interval_us;
            ScanVerdict {
                overran: true,
                warn,
                trip: !tripped && streak >= WATCHDOG_OVERRUN_THRESHOLD,
            }
        }
    }

    /// Coming out of a pause: the unit is due at `now_us`, so the frozen
    /// time is not counted as overruns.
    pub fn re_anchor(&mut self, now_us: u64)
        ensures
            *final(self) == (UnitClock { next_due_us: now_us, ..*old(self) }),
    {
        self.next_due_us = now_us;
    }
}


/// Whether unit `a` runs before unit `b` when both are due on one tick:
/// lower priority first, then declaration order.
pub open spec fn runs_before(priorities: Seq<i32>, a: usize, b: usize) -> bool {
    ||| priorities[a as int] < priorities[b as int]
    ||| (priorities[a as int] == priorities[b as int] && a < b)
}

/// The order in which units due on the same tick run: every unit once,
/// by priority and then by declaration order.
pub fn exec_order(priorities: &[i32]) -> (order: Vec<usize>)
    ensures
        order@.len() == priorities@.len(),
        forall|j: int| 0 <= j < order@.len() ==> order@[j] < priorities@.len(),
        forall|u: usize| u < priorities@.len() ==> #[trigger] order@.contains(u),
        forall|j: int, k: int|
            0 <= j < k < order@.len() ==> runs_before(priorities@, order@[j], order@[k]),
{
    let mut order: Vec<usize> = Vec::new();
    let mut i: usize = 0;
    while i < priorities.len()
        invariant
            i <= priorities@.len(),
            order@.len() == i,
            forall|j: int| 0 <= j < order@.len() ==> order@[j] < i,
            forall|u: usize| u < i ==> #[trigger] order@.contains(u),
            forall|j: int, k: int|
                0 <= j < k < order@.len() ==> runs_before(priorities@, order@[j], order@[k]),
        decreases priorities@.len() - i,
    {
        let mut pos: usize = 0;
        while pos < order.len() && priorities[order[pos]] <= priorities[i]
            invariant
                pos <= order@.len(),
                order@.len() == i,
                i < priorities@.len(),
                forall|j: int| 0 <= j < order@.len() ==> order@[j] < i,
                forall|j: int| 0 <= j < pos ==> priorities@[order@[j] as int] <= priorities@[i as int],
            decreases order@.len() - pos,
        {
            pos = pos + 1;
        }
        let ghost before = order@;
        order.insert(pos, i);
        assert(order@ == before.insert(pos as int, i));
        assert forall|u: usize| u < i + 1 implies #[trigger] order@.contains(u) by {
            if u == i {
                assert(order@[pos as int] == i);
            } else {
                assert(before.contains(u));
                let j = choose|j: int| 0 <= j < before.len() && before[j] == u;
                if j < pos {
                    assert(order@[j] == u);
                } else {
                    assert(order@[j + 1] == u);
                }
            }
        }
        assert forall|j: int, k: int| 0 <= j < k < order@.len() implies runs_before(
            priorities@,
            order@[j],
            order@[k],
        ) by {
            if k < pos {
                assert(order@[j] == before[j] && order@[k] == before[k]);
            } else if k == pos {
                assert(order@[j] == before[j]);
            } else if j == pos {
                assert(order@[k] == before[k - 1]);
                assert(pos < before.len());
                assert(priorities@[before[pos as int] as int] > priorities@[i as int]);
                if k - 1 > pos {
                    assert(runs_before(priorities@, before[pos as int], before[k - 1]));
                }
            } else if j < pos {
                assert(order@[j] == before[j] && order@[k] == before[k - 1]);
            } else {
                assert(order@[j] == before[j - 1] && order@[k] == before[k - 1]);
            }
        }
        i = i + 1;
    }
    order
}


/// An injected stall as the loop arms it.
#[derive(Debug, Clone, Copy, PartialEq, Eq, Structural)]
pub struct StallPlan {
    /// How long each stalled tick sleeps.
    pub stall_ms: u64,
    /// How many ticks stall.
    pub scans: u32,
    /// Whether the request was cut down to the ceilings.
    pub clamped: bool,
}

/// Arms a stall request: each part is cut down to its ceiling, and the
/// plan says whether either was.
pub fn clamp_injection(stall_ms: u64, scans: u32) -> (p: StallPlan)
    ensures
        p.stall_ms == (if stall_ms > MAX_INJECT_STALL_MS {
            MAX_INJECT_STALL_MS
        } else {
            stall_ms
        }),
        p.scans == (if scans > MAX_INJECT_SCANS {
            MAX_INJECT_SCANS
        } else {
            scans
        }),
        p.clamped == (stall_ms > MAX_INJECT_STALL_MS || scans > MAX_INJECT_SCANS),
{
    let ms = if stall_ms > MAX_INJECT_STALL_MS {
        MAX_INJECT_STALL_MS
    } else {
        stall_ms
    };
    let n = if scans > MAX_INJECT_SCANS {
        MAX_INJECT_SCANS
    } else {
        scans
    };
    StallPlan { stall_ms: ms, scans: n, clamped: ms != stall_ms || n != scans }
}

/// Whether some unit is due at `now_us`.
pub open spec fn some_due(clocks: Seq<UnitClock>, now_us: u64) -> bool {
    exists|i: int| 0 <= i < clocks.len() && clocks[i].next_due_us <= now_us
}

/// Whether some unit runs on a tick at `now_us`.
pub fn any_due(clocks: &[UnitClock], now_us: u64) -> (r: bool)
    ensures
        r == some_due(clocks@, now_us),
{
    let mut i: usize = 0;
    while i < clocks.len()
        invariant
            i <= clocks@.len(),
            forall|j: int| 0 <= j < i ==> clocks@[j].next_due_us > now_us,
        decreases clocks@.len() - i,
    {
        if clocks[i].next_due_us <= now_us {
            return true;
        }
        i = i + 1;
    }
    false
}

/// Whether a tick stalls, and the stalled ticks left after it: a stall
/// is spent only on a tick on which some unit is due.
pub fn stall_tick(scans_left: u32, due: bool) -> (r: (bool, u32))
    ensures
        r.0 == (scans_left > 0 && due),
        r.1 == (if r.0 {
            scans_left - 1
        } else {
            scans_left as int
        }),
{
    if scans_left > 0 && due {
        (true, scans_left - 1)
    } else {
        (false, scans_left)
    }
}

/// The earliest due time over a non-empty set of clocks.
pub open spec fn earliest_due(clocks: Seq<UnitClock>) -> u64
    decreases clocks.len(),
{
    if clocks.len() <= 1 {
        clocks[0].next_due_us
    } else {
        let rest = earliest_due(clocks.drop_last());
        if clocks.last().next_due_us < rest {
            clocks.last().next_due_us
        } else {
            rest
        }
    }
}

/// How long the loop sleeps after a tick at `now_us`: until the earliest
/// due unit, but never longer than one snapshot period.
pub open spec fn idle_sleep(clocks: Seq<UnitClock>, now_us: u64) -> u64 {
    let earliest = earliest_due(clocks);
    if earliest > now_us {
        if earliest - now_us < SNAPSHOT_PERIOD_US {
            (earliest - now_us) as u64
        } else {
            SNAPSHOT_PERIOD_US
        }
    } else {
        0
    }
}

proof fn lemma_earliest_due(clocks: Seq<UnitClock>)
    requires
        clocks.len() > 0,
    ensures
        forall|i: int| 0 <= i < clocks.len() ==> earliest_due(clocks) <= clocks[i].next_due_us,
        exists|i: int| 0 <= i < clocks.len() && earliest_due(clocks) == clocks[i].next_due_us,
    decreases clocks.len(),
{
    if clocks.len() > 1 {
        lemma_earliest_due(clocks.drop_last());
        let rest = clocks.drop_last();
        assert forall|i: int| 0 <= i < clocks.len() implies earliest_due(clocks)
            <= clocks[i].next_due_us by {
            if i < clocks.len() - 1 {
                assert(rest[i] == clocks[i]);
            }
        }
        if clocks.last().next_due_us >= earliest_due(rest) {
            let k = choose|k: int| 0 <= k < rest.len() && earliest_due(rest) == rest[k].next_due_us;
            assert(clocks[k] == rest[k]);
        } else {
            assert(earliest_due(clocks) == clocks[clocks.len() - 1].next_due_us);
        }
    } else {
        assert(earliest_due(clocks) == clocks[0].next_due_us);
    }
}

/// The sleep after a tick at `now_us`; the earliest due time is the
/// smallest of the clocks' due times.
pub fn idle_sleep_us(clocks: &[UnitClock], now_us: u64) -> (r: u64)
    requires
        clocks@.len() > 0,
    ensures
        r == idle_sleep(clocks@, now_us),
        forall|i: int| 0 <= i < clocks@.len() ==> earliest_due(clocks@) <= clocks@[i].next_due_us,
        exists|i: int| 0 <= i < clocks@.len() && earliest_due(clocks@) == clocks@[i].next_due_us,
{
    proof {
        lemma_earliest_due(clocks@);
    }
    let mut earliest = clocks[0].next_due_us;
    let mut i: usize = 1;
    while i < clocks.len()
        invariant
            1 <= i <= clocks@.len(),
            earliest == earliest_due(clocks@.take(i as int)),
        decreases clocks@.len() - i,
    {
        assert(clocks@.take(i + 1).drop_last() =~= clocks@.take(i as int));
        if clocks[i].next_due_us < earliest {
            earliest = clocks[i].next_due_us;
        }
        i = i + 1;
    }
    assert(clocks@.take(clocks@.len() as int) =~= clocks@);
    if earliest > now_us {
        let gap = earliest - now_us;
        if gap < SNAPSHOT_PERIOD_US {
            gap
        } else {
            SNAPSHOT_PERIOD_US
        }
    } else {
        0
    }
}

/// Coming out of a pause: every unit is due at `now_us`.
pub fn re_anchor_all(clocks: &mut Vec<UnitClock>, now_us: u64)
    ensures
        final(clocks)@.len() == old(clocks)@.len(),
        forall|i: int| 0 <= i < old(clocks)@.len() ==> final(clocks)@[i] == (UnitClock {
            next_due_us: now_us,
            ..old(clocks)@[i]
        }),
{
    let mut i: usize = 0;
    while i < clocks.len()
        invariant
            i <= clocks@.len(),
            clocks@.len() == old(clocks)@.len(),
            forall|j: int| 0 <= j < i ==> clocks@[j] == (UnitClock { next_due_us: now_us, ..old(clocks)@[j] }),
            forall|j: int| i <= j < clocks@.len() ==> clocks@[j] == old(clocks)@[j],
        decreases clocks@.len() - i,
    {
        let mut c = clocks[i];
        c.re_anchor(now_us);
        clocks.set(i, c);
        i = i + 1;
    }
}


/// The units that scan on a tick at `now_us`, in execution order.
pub fn due_in_order(order: &Vec<usize>, clocks: &Vec<UnitClock>, now_us: u64) -> (r: Vec<usize>)
    requires
        forall|j: int| 0 <= j < order@.len() ==> order@[j] < clocks@.len(),
    ensures
        r@ == order@.filter(|u: usize| clocks@[u as int].next_due_us <= now_us),
{
    let ghost pred = |u: usize| clocks@[u as int].next_due_us <= now_us;
    let mut out: Vec<usize> = Vec::new();
    let mut j: usize = 0;
    while j < order.len()
        invariant
            j <= order@.len(),
            forall|k: int| 0 <= k < order@.len() ==> order@[k] < clocks@.len(),
            pred == (|u: usize| clocks@[u as int].next_due_us <= now_us),
            out@ == order@.take(j as int).filter(pred),
        decreases order@.len() - j,
    {
        let u = order[j];
        proof {
            reveal(Seq::filter);
            assert(order@.take(j + 1).drop_last() =~= order@.take(j as int));
            assert(order@.take(j + 1).last() == u);
        }
        if clocks[u].next_due_us <= now_us {
            out.push(u);
        }
        j = j + 1;
    }
    assert(order@.take(order@.len() as int) =~= order@);
    out
}

proof fn lemma_filter_all(s: Seq<usize>, pred: spec_fn(usize) -> bool)
    requires
        forall|k: int| 0 <= k < s.len() ==> pred(#[trigger] s[k]),
    ensures
        s.filter(pred) == s,
    decreases s.len(),
{
    reveal(Seq::filter);
    if s.len() > 0 {
        lemma_filter_all(s.drop_last(), pred);
        assert(pred(s[s.len() - 1]));
        assert(s.drop_last().push(s.last()) =~= s);
    } else {
        assert(s.filter(pred) =~= s);
    }
}

/// Leaving a pause re-anchors every clock at the current time, so on the
/// first tick after it every unit runs, in execution order.
pub proof fn resume_runs_every_unit(order: Seq<usize>, before: Seq<UnitClock>, after: Seq<UnitClock>, now_us: u64)
    requires
        after.len() == before.len(),
        forall|i: int| 0 <= i < before.len() ==> #[trigger] after[i] == (UnitClock {
            next_due_us: now_us,
            ..before[i]
        }),
        forall|j: int| 0 <= j < order.len() ==> #[trigger] order[j] < before.len(),
    ensures
        order.filter(|u: usize| after[u as int].next_due_us <= now_us) == order,
        before.len() > 0 ==> some_due(after, now_us),
{
    let pred = |u: usize| after[u as int].next_due_us <= now_us;
    assert forall|k: int| 0 <= k < order.len() implies pred(#[trigger] order[k]) by {
        assert(after[order[k] as int].next_due_us == now_us);
    }
    lemma_filter_all(order, pred);
    if before.len() > 0 {
        assert(after[0].next_due_us <= now_us);
    }
}

} // verus!
