//! The cadence: when each class is snapped.
//!
//! Small class: any change marks it dirty and (re)arms a quiet timer; a dirty class also has a
//! maximum-interval deadline from its first change. Either firing snaps it; a snap that stages
//! nothing clears dirty. Bulk class: the same on its own, longer clocks, at most one bulk snap in
//! flight. A due small-class snap is never behind a bulk build: the bulk build yields and resumes
//! after the small snap. A class that cannot be watched polls: it is snapped at its maximum
//! interval, unconditionally.
//!
//! Times are nanoseconds of a clock that never goes back.

use vstd::prelude::*;
use crate::count;
use crate::engine::{Cadence, Class};
use crate::ship;
use crate::ship::ShipStatus;
use crate::watch::{ChangeSignal, Mode, WatchModes};

verus! {

/// How often the ship worker polls when nothing woke it, in nanoseconds.
pub const SHIP_TICK: u64 = 5_000_000_000;

/// Why a scheduled snap fired.
#[derive(Debug, Clone, Copy, PartialEq, Eq, Structural)]
pub enum Trigger {
    /// The quiet period after the last change elapsed.
    Quiet,
    /// The maximum interval since the first change elapsed.
    MaxInterval,
    /// The class polls; its interval elapsed.
    Poll,
}

/// One class's clock.
#[derive(Debug, Clone, Copy, PartialEq, Eq, Structural)]
pub struct Clock {
    /// When the class became dirty.
    pub first_change: Option<u64>,
    /// When the class changed last.
    pub last_change: Option<u64>,
    /// When the class was snapped last.
    pub last_snap: u64,
    /// Quiet period.
    pub quiet: u64,
    /// Maximum interval.
    pub max: u64,
}

impl Clock {
    /// A clean class, snapped at `now`.
    pub fn new(quiet: u64, max: u64, now: u64) -> (r: Self)
        ensures
            r == (Clock { first_change: None, last_change: None, last_snap: now, quiet, max }),
    {
        Clock { first_change: None, last_change: None, last_snap: now, quiet, max }
    }

    /// The clock after a change of the class.
    pub open spec fn dirtied(self, now: u64) -> Clock {
        Clock {
            first_change: if self.first_change is Some {
                self.first_change
            } else {
                Some(now)
            },
            last_change: Some(now),
            ..self
        }
    }

    /// The class changed.
    pub fn dirty(&mut self, now: u64)
        ensures
            *final(self) == old(self).dirtied(now),
    {
        if self.first_change.is_none() {
            self.first_change = Some(now);
        }
        self.last_change = Some(now);
    }

    /// The class is clean.
    pub fn clear(&mut self)
        ensures
            *final(self) == (Clock { first_change: None, last_change: None, ..*old(self) }),
    {
        self.first_change = None;
        self.last_change = None;
    }

    /// When the next snap is due and why, or `None` when nothing is pending. A watched class is due
    /// when it has been quiet long enough or dirty too long, whichever comes first; a polled one at
    /// its maximum interval.
    pub open spec fn due_at(&self, mode: Mode) -> Option<(int, Trigger)> {
        match mode {
            Mode::Polled => Some((self.last_snap + self.max, Trigger::Poll)),
            Mode::Watched => match self.first_change {
                None => None,
                Some(first) => {
                    let last = match self.last_change {
                        Some(t) => t,
                        None => first,
                    };
                    if last + self.quiet <= first + self.max {
                        Some((last + self.quiet, Trigger::Quiet))
                    } else {
                        Some((first + self.max, Trigger::MaxInterval))
                    }
                },
            },
        }
    }

    /// When the next snap is due and why, or `None` when nothing is pending.
    pub fn due(&self, mode: Mode) -> (r: Option<(u128, Trigger)>)
        ensures
            match (r, self.due_at(mode)) {
                (Some((at, why)), Some((t, w))) => at == t && why == w,
                (None, None) => true,
                _ => false,
            },
    {
        match mode {
            Mode::Polled => Some((self.last_snap as u128 + self.max as u128, Trigger::Poll)),
            Mode::Watched => match self.first_change {
                None => None,
                Some(first) => {
                    let last: u64 = match self.last_change {
                        Some(t) => t,
                        None => first,
                    };
                    let quiet_at: u128 = last as u128 + self.quiet as u128;
                    let max_at: u128 = first as u128 + self.max as u128;
                    if quiet_at <= max_at {
                        Some((quiet_at, Trigger::Quiet))
                    } else {
                        Some((max_at, Trigger::MaxInterval))
                    }
                },
            },
        }
    }
}

/// A change is snapped within the maximum interval of the first one, however busy the class stays,
/// and as soon as the class has been quiet for its quiet period.
pub proof fn law_a_change_is_due_in_time(clock: Clock, first: u64, last: u64)
    requires
        clock.first_change == Some(first),
        clock.last_change == Some(last),
    ensures
        match clock.due_at(Mode::Watched) {
            Some((at, _)) => {
                &&& at <= first + clock.max
                &&& at <= last + clock.quiet
                &&& at == first + clock.max || at == last + clock.quiet
            },
            None => false,
        },
{
}

/// Counters.
#[derive(Debug, Clone, Copy, PartialEq, Eq, Structural)]
pub struct Counters {
    /// Small-class snaps taken (scheduled and forced).
    pub small_snaps: u64,
    /// Small-class snaps that staged something.
    pub small_staged: u64,
    /// Bulk-class snaps completed.
    pub bulk_snaps: u64,
    /// Bulk-class snaps that staged something.
    pub bulk_staged: u64,
    /// Scheduled snaps fired by the quiet timer.
    pub quiet_fired: u64,
    /// Scheduled snaps fired by the maximum interval.
    pub max_fired: u64,
    /// Scheduled snaps fired by polling.
    pub poll_fired: u64,
    /// Forced snaps (turn, checkpoint, flush).
    pub forced: u64,
    /// Times a bulk build yielded to a small-class snap.
    pub preemptions: u64,
    /// Watcher overflows seen.
    pub overflows: u64,
    /// Whether a bulk snap is running (building, or waiting to resume after a yield).
    pub bulk_running: bool,
}

/// A snapshot of the runner's counters and modes.
#[derive(Debug, Clone, Copy, PartialEq, Eq, Structural)]
pub struct CadenceSnapshot {
    /// Small-class mode.
    pub small_mode: Mode,
    /// Bulk-class mode.
    pub bulk_mode: Mode,
    /// Small-class snaps taken (scheduled and forced).
    pub small_snaps: u64,
    /// Small-class snaps that staged something.
    pub small_staged: u64,
    /// Bulk-class snaps completed.
    pub bulk_snaps: u64,
    /// Bulk-class snaps that staged something.
    pub bulk_staged: u64,
    /// Scheduled snaps fired by the quiet timer.
    pub quiet_fired: u64,
    /// Scheduled snaps fired by the maximum interval.
    pub max_fired: u64,
    /// Scheduled snaps fired by polling.
    pub poll_fired: u64,
    /// Forced snaps (turn, checkpoint, flush).
    pub forced: u64,
    /// Times a bulk build yielded to a small-class snap.
    pub preemptions: u64,
    /// Watcher overflows seen.
    pub overflows: u64,
    /// Whether a bulk build is paused mid-way.
    pub bulk_in_progress: bool,
    /// Whether a bulk snap is running (building, or waiting to resume after a yield).
    pub bulk_running: bool,
    /// Whether the small class is dirty.
    pub small_dirty: bool,
    /// Whether the bulk class is dirty.
    pub bulk_dirty: bool,
}

/// What a class's loop does next.
#[derive(Debug, Clone, Copy, PartialEq, Eq, Structural)]
pub enum LoopStep {
    /// The runner stops.
    Stop,
    /// Snap the class.
    Snap(Trigger),
    /// A snap is due and may not be taken: the clock was cleared, look again.
    Skip,
    /// Nothing is due before this time.
    WaitUntil(u128),
    /// Nothing is pending.
    Wait,
}

/// What a bulk snap does next.
#[derive(Debug, Clone, Copy, PartialEq, Eq, Structural)]
pub enum BulkStep {
    /// The runner stops: give the snap up.
    Stopped,
    /// A small-class snap waits for the engine: let it go first.
    Yield,
    /// Build, or go on building.
    Build,
}

/// The state of the runner: the clocks of both classes, how they learn of changes, and who waits.
#[derive(Debug, Clone, Copy, PartialEq, Eq, Structural)]
pub struct CadenceState {
    /// Small-class clock.
    pub small: Clock,
    /// Bulk-class clock.
    pub bulk: Clock,
    /// Small-class mode.
    pub small_mode: Mode,
    /// Bulk-class mode.
    pub bulk_mode: Mode,
    /// The watcher overflowed: it is dropped.
    pub overflowed: bool,
    /// The runner was told to stop.
    pub stopping: bool,
    /// The runner was started.
    pub running: bool,
    /// Small-class snaps waiting for (or holding) the engine; a bulk build yields while > 0.
    pub small_waiting: usize,
    /// The next execution sequence.
    pub seq: u64,
    /// The counters.
    pub counters: Counters,
}

/// One more, as far as it can be counted.
pub open spec fn bumped(n: u64) -> u64 {
    count::capped((n + 1) as nat) as u64
}

impl Counters {
    /// The counters after a scheduled small-class snap fired.
    pub open spec fn with_fired(self, trigger: Trigger) -> Counters {
        match trigger {
            Trigger::Quiet => Counters { quiet_fired: bumped(self.quiet_fired), ..self },
            Trigger::MaxInterval => Counters { max_fired: bumped(self.max_fired), ..self },
            Trigger::Poll => Counters { poll_fired: bumped(self.poll_fired), ..self },
        }
    }
}

/// A time so long before `now` that a class of that maximum interval is due, where the clock
/// reaches back that far.
pub open spec fn overdue(now: u64, max: u64) -> u64 {
    if now >= max {
        (now - max) as u64
    } else {
        now
    }
}

impl CadenceState {
    /// Nothing runs; both classes poll.
    pub fn new(cadence: &Cadence, now: u64) -> (r: Self)
        ensures
            r.small == (Clock {
                first_change: None,
                last_change: None,
                last_snap: now,
                quiet: cadence.quiet,
                max: cadence.max_interval,
            }),
            r.bulk == (Clock {
                first_change: None,
                last_change: None,
                last_snap: now,
                quiet: cadence.bulk_quiet,
                max: cadence.bulk_max_interval,
            }),
            r.small_mode == Mode::Polled,
            r.bulk_mode == Mode::Polled,
            !r.overflowed,
            !r.stopping,
            !r.running,
            r.small_waiting == 0,
            r.seq == 0,
            r.counters == (Counters {
                small_snaps: 0,
                small_staged: 0,
                bulk_snaps: 0,
                bulk_staged: 0,
                quiet_fired: 0,
                max_fired: 0,
                poll_fired: 0,
                forced: 0,
                preemptions: 0,
                overflows: 0,
                bulk_running: false,
            }),
    {
        CadenceState {
            small: Clock::new(cadence.quiet, cadence.max_interval, now),
            bulk: Clock::new(cadence.bulk_quiet, cadence.bulk_max_interval, now),
            small_mode: Mode::Polled,
            bulk_mode: Mode::Polled,
            overflowed: false,
            stopping: false,
            running: false,
            small_waiting: 0,
            seq: 0,
            counters: Counters {
                small_snaps: 0,
                small_staged: 0,
                bulk_snaps: 0,
                bulk_staged: 0,
                quiet_fired: 0,
                max_fired: 0,
                poll_fired: 0,
                forced: 0,
                preemptions: 0,
                overflows: 0,
                bulk_running: false,
            },
        }
    }

    /// Start, unless it was started before.
    pub fn start(&mut self) -> (r: bool)
        ensures
            r == !old(self).running,
            *final(self) == (CadenceState { running: true, ..*old(self) }),
    {
        let first: bool = !self.running;
        self.running = true;
        first
    }

    /// The watcher started, or did not (`None`: both classes poll). The clocks start now.
    pub fn watching(&mut self, modes: Option<WatchModes>, now: u64)
        ensures
            *final(self) == (CadenceState {
                small_mode: match modes {
                    Some(m) => m.small,
                    None => Mode::Polled,
                },
                bulk_mode: match modes {
                    Some(m) => m.bulk,
                    None => Mode::Polled,
                },
                small: Clock { last_snap: now, ..old(self).small },
                bulk: Clock { last_snap: now, ..old(self).bulk },
                ..*old(self)
            }),
    {
        let (small, bulk): (Mode, Mode) = match modes {
            Some(m) => (m.small, m.bulk),
            None => (Mode::Polled, Mode::Polled),
        };
        self.small_mode = small;
        self.bulk_mode = bulk;
        self.small.last_snap = now;
        self.bulk.last_snap = now;
    }

    /// The state after a signal: a change makes its class dirty; after an overflow of the watcher
    /// both classes poll, and are due at once.
    pub open spec fn signalled(self, signal: ChangeSignal, now: u64) -> CadenceState {
        match signal {
            ChangeSignal::Changed(Class::Small) => CadenceState {
                small: self.small.dirtied(now),
                ..self
            },
            ChangeSignal::Changed(Class::Bulk) => CadenceState {
                bulk: self.bulk.dirtied(now),
                ..self
            },
            ChangeSignal::Overflow => CadenceState {
                counters: Counters {
                    overflows: bumped(self.counters.overflows),
                    ..self.counters
                },
                overflowed: true,
                small_mode: Mode::Polled,
                bulk_mode: Mode::Polled,
                small: Clock { last_snap: overdue(now, self.small.max), ..self.small },
                bulk: Clock { last_snap: overdue(now, self.bulk.max), ..self.bulk },
                ..self
            },
        }
    }

    /// A change, or an overflow of the watcher: both classes poll from then on, and are due at
    /// once.
    pub fn signal(&mut self, signal: ChangeSignal, now: u64)
        ensures
            *final(self) == old(self).signalled(signal, now),
    {
        match signal {
            ChangeSignal::Changed(Class::Small) => {
                self.small.dirty(now);
            },
            ChangeSignal::Changed(Class::Bulk) => {
                self.bulk.dirty(now);
            },
            ChangeSignal::Overflow => {
                self.counters.overflows = self.counters.overflows.saturating_add(1);
                self.overflowed = true;
                self.small_mode = Mode::Polled;
                self.bulk_mode = Mode::Polled;
                self.small.last_snap = if now >= self.small.max {
                    now - self.small.max
                } else {
                    now
                };
                self.bulk.last_snap = if now >= self.bulk.max {
                    now - self.bulk.max
                } else {
                    now
                };
            },
        }
    }

    /// The state once a small-class snap has begun.
    pub open spec fn small_begun(self) -> CadenceState {
        CadenceState {
            small: Clock { first_change: None, last_change: None, ..self.small },
            small_waiting: (self.small_waiting + 1) as usize,
            seq: bumped(self.seq),
            ..self
        }
    }

    /// The state once a small-class snap has ended.
    pub open spec fn small_ended(self, now: u64, staged: bool) -> CadenceState {
        CadenceState {
            small: Clock { last_snap: now, ..self.small },
            small_waiting: (self.small_waiting - 1) as usize,
            counters: Counters {
                small_snaps: bumped(self.counters.small_snaps),
                small_staged: if staged {
                    bumped(self.counters.small_staged)
                } else {
                    self.counters.small_staged
                },
                ..self.counters
            },
            ..self
        }
    }

    /// A small-class snap begins: a bulk build yields to it, and its clock is clear, so that a
    /// change during the snap makes it dirty again. Gives the execution sequence.
    pub fn small_begins(&mut self) -> (r: u64)
        requires
            old(self).small_waiting < usize::MAX,
        ensures
            r == old(self).seq,
            *final(self) == old(self).small_begun(),
    {
        self.small.clear();
        self.small_waiting = self.small_waiting + 1;
        let seq: u64 = self.seq;
        self.seq = self.seq.saturating_add(1);
        seq
    }

    /// A small-class snap ended; `staged` says whether it staged something. Gives whether the
    /// shipper is to be woken.
    pub fn small_ends(&mut self, now: u64, staged: bool) -> (r: bool)
        requires
            old(self).small_waiting > 0,
        ensures
            r == staged,
            *final(self) == old(self).small_ended(now, staged),
    {
        self.small_waiting = self.small_waiting - 1;
        self.small.last_snap = now;
        self.counters.small_snaps = self.counters.small_snaps.saturating_add(1);
        if staged {
            self.counters.small_staged = self.counters.small_staged.saturating_add(1);
        }
        staged
    }

    /// A bulk-class snap begins. Gives the execution sequence.
    pub fn bulk_begins(&mut self) -> (r: u64)
        ensures
            r == old(self).seq,
            *final(self) == (CadenceState {
                bulk: Clock { first_change: None, last_change: None, ..old(self).bulk },
                counters: Counters { bulk_running: true, ..old(self).counters },
                seq: bumped(old(self).seq),
                ..*old(self)
            }),
    {
        self.bulk.clear();
        self.counters.bulk_running = true;
        let seq: u64 = self.seq;
        self.seq = self.seq.saturating_add(1);
        seq
    }

    /// Whether a bulk build has to yield.
    pub fn preempts(&self) -> (r: bool)
        ensures
            r == (self.small_waiting > 0),
    {
        self.small_waiting > 0
    }

    /// What a bulk snap does next: it builds only while no small-class snap waits.
    pub fn bulk_next(&mut self) -> (r: BulkStep)
        ensures
            r == if old(self).stopping {
                BulkStep::Stopped
            } else if old(self).small_waiting > 0 {
                BulkStep::Yield
            } else {
                BulkStep::Build
            },
            *final(self) == (CadenceState {
                counters: Counters {
                    bulk_running: old(self).counters.bulk_running && !old(self).stopping,
                    ..old(self).counters
                },
                ..*old(self)
            }),
    {
        if self.stopping {
            self.counters.bulk_running = false;
            BulkStep::Stopped
        } else if self.small_waiting > 0 {
            BulkStep::Yield
        } else {
            BulkStep::Build
        }
    }

    /// A bulk build yielded.
    pub fn bulk_preempted(&mut self)
        ensures
            *final(self) == (CadenceState {
                counters: Counters {
                    preemptions: bumped(old(self).counters.preemptions),
                    ..old(self).counters
                },
                ..*old(self)
            }),
    {
        self.counters.preemptions = self.counters.preemptions.saturating_add(1);
    }

    /// A bulk-class snap ended. Gives whether the shipper is to be woken.
    pub fn bulk_ends(&mut self, now: u64, staged: bool) -> (r: bool)
        ensures
            r == staged,
            *final(self) == (CadenceState {
                bulk: Clock { last_snap: now, ..old(self).bulk },
                counters: Counters {
                    bulk_running: false,
                    bulk_snaps: bumped(old(self).counters.bulk_snaps),
                    bulk_staged: if staged {
                        bumped(old(self).counters.bulk_staged)
                    } else {
                        old(self).counters.bulk_staged
                    },
                    ..old(self).counters
                },
                ..*old(self)
            }),
    {
        self.counters.bulk_running = false;
        self.bulk.last_snap = now;
        self.counters.bulk_snaps = self.counters.bulk_snaps.saturating_add(1);
        if staged {
            self.counters.bulk_staged = self.counters.bulk_staged.saturating_add(1);
        }
        staged
    }

    /// Whether the watcher has to be dropped.
    pub fn drops_watch(&self) -> (r: bool)
        ensures
            r == (self.overflowed && !self.stopping),
    {
        self.overflowed && !self.stopping
    }

    /// What a class's loop does, from its clock.
    pub open spec fn next_step(clock: Clock, mode: Mode, stopping: bool, now: u64, may_snap: bool) -> LoopStep {
        if stopping {
            LoopStep::Stop
        } else {
            match clock.due_at(mode) {
                None => LoopStep::Wait,
                Some((at, why)) => if at > now {
                    LoopStep::WaitUntil(at as u128)
                } else if may_snap {
                    LoopStep::Snap(why)
                } else {
                    LoopStep::Skip
                },
            }
        }
    }

    /// What the small-class loop does next. `may_snap`: see [`ship::may_snap`]. A snap that may not be taken clears the clock, so that a polled class does not spin,
    /// and the next change (or poll) tries again.
    pub fn next_small(&mut self, now: u64, may_snap: bool) -> (r: LoopStep)
        ensures
            r == Self::next_step(
                old(self).small,
                old(self).small_mode,
                old(self).stopping,
                now,
                may_snap,
            ),
            *final(self) == match r {
                LoopStep::Skip => CadenceState {
                    small: Clock {
                        first_change: None,
                        last_change: None,
                        last_snap: now,
                        ..old(self).small
                    },
                    ..*old(self)
                },
                LoopStep::Snap(why) => CadenceState {
                    counters: old(self).counters.with_fired(why),
                    ..*old(self)
                },
                _ => *old(self),
            },
    {
        if self.stopping {
            return LoopStep::Stop;
        }
        match self.small.due(self.small_mode) {
            None => LoopStep::Wait,
            Some((at, why)) => {
                if at > now as u128 {
                    return LoopStep::WaitUntil(at);
                }
                if !may_snap {
                    self.small.clear();
                    self.small.last_snap = now;
                    return LoopStep::Skip;
                }
                match why {
                    Trigger::Quiet => {
                        self.counters.quiet_fired = self.counters.quiet_fired.saturating_add(1);
                    },
                    Trigger::MaxInterval => {
                        self.counters.max_fired = self.counters.max_fired.saturating_add(1);
                    },
                    Trigger::Poll => {
                        self.counters.poll_fired = self.counters.poll_fired.saturating_add(1);
                    },
                }
                LoopStep::Snap(why)
            },
        }
    }

    /// What the bulk-class loop does next.
    pub fn next_bulk(&mut self, now: u64, may_snap: bool) -> (r: LoopStep)
        ensures
            r == Self::next_step(
                old(self).bulk,
                old(self).bulk_mode,
                old(self).stopping,
                now,
                may_snap,
            ),
            *final(self) == match r {
                LoopStep::Skip => CadenceState {
                    bulk: Clock {
                        first_change: None,
                        last_change: None,
                        last_snap: now,
                        ..old(self).bulk
                    },
                    ..*old(self)
                },
                _ => *old(self),
            },
    {
        if self.stopping {
            return LoopStep::Stop;
        }
        match self.bulk.due(self.bulk_mode) {
            None => LoopStep::Wait,
            Some((at, why)) => {
                if at > now as u128 {
                    return LoopStep::WaitUntil(at);
                }
                if !may_snap {
                    self.bulk.clear();
                    self.bulk.last_snap = now;
                    return LoopStep::Skip;
                }
                LoopStep::Snap(why)
            },
        }
    }

    /// A forced snap (turn boundary, checkpoint): ahead of the timers and of any bulk build.
    pub fn forced(&mut self)
        ensures
            *final(self) == (CadenceState {
                counters: Counters {
                    forced: bumped(old(self).counters.forced),
                    ..old(self).counters
                },
                ..*old(self)
            }),
    {
        self.counters.forced = self.counters.forced.saturating_add(1);
    }

    /// Tell the loops to stop.
    pub fn stop(&mut self)
        ensures
            *final(self) == (CadenceState { stopping: true, ..*old(self) }),
    {
        self.stopping = true;
    }

    /// Counters and modes.
    #[must_use]
    pub fn snapshot(&self, bulk_in_progress: bool) -> (r: CadenceSnapshot)
        ensures
            r == (CadenceSnapshot {
                small_mode: self.small_mode,
                bulk_mode: self.bulk_mode,
                small_snaps: self.counters.small_snaps,
                small_staged: self.counters.small_staged,
                bulk_snaps: self.counters.bulk_snaps,
                bulk_staged: self.counters.bulk_staged,
                quiet_fired: self.counters.quiet_fired,
                max_fired: self.counters.max_fired,
                poll_fired: self.counters.poll_fired,
                forced: self.counters.forced,
                preemptions: self.counters.preemptions,
                overflows: self.counters.overflows,
                bulk_in_progress,
                bulk_running: self.counters.bulk_running,
                small_dirty: self.small.first_change is Some,
                bulk_dirty: self.bulk.first_change is Some,
            }),
    {
        CadenceSnapshot {
            small_mode: self.small_mode,
            bulk_mode: self.bulk_mode,
            small_snaps: self.counters.small_snaps,
            small_staged: self.counters.small_staged,
            bulk_snaps: self.counters.bulk_snaps,
            bulk_staged: self.counters.bulk_staged,
            quiet_fired: self.counters.quiet_fired,
            max_fired: self.counters.max_fired,
            poll_fired: self.counters.poll_fired,
            forced: self.counters.forced,
            preemptions: self.counters.preemptions,
            overflows: self.counters.overflows,
            bulk_in_progress,
            bulk_running: self.counters.bulk_running,
            small_dirty: self.small.first_change.is_some(),
            bulk_dirty: self.bulk.first_change.is_some(),
        }
    }
}

/// After an overflow nothing is missed: both classes poll, and on a clock that has run for their
/// maximum intervals both are due at once.
pub proof fn law_an_overflow_is_reconciled_at_once(before: CadenceState, now: u64)
    requires
        now >= before.small.max,
        now >= before.bulk.max,
        !before.stopping,
    ensures
        ({
            let state = before.signalled(ChangeSignal::Overflow, now);
            &&& CadenceState::next_step(state.small, state.small_mode, state.stopping, now, true)
                == LoopStep::Snap(Trigger::Poll)
            &&& CadenceState::next_step(state.bulk, state.bulk_mode, state.stopping, now, true)
                == LoopStep::Snap(Trigger::Poll)
        }),
{
}

/// A change that comes in while a small-class snap runs is not lost with it: the class is due again
/// once its quiet period after the change is over, or sooner.
pub proof fn law_a_change_during_a_snap_is_not_lost(
    before: CadenceState,
    at: u64,
    now: u64,
    staged: bool,
)
    requires
        before.small_waiting < usize::MAX,
    ensures
        ({
            let begun = before.small_begun();
            let state = begun.signalled(ChangeSignal::Changed(Class::Small), at).small_ended(
                now,
                staged,
            );
            &&& state.small_waiting == before.small_waiting
            &&& match state.small.due_at(Mode::Watched) {
                Some((due, _)) => due <= at + state.small.quiet,
                None => false,
            }
        }),
{
}

/// A bulk class that was refused for the byte quota is not snapped again, until a re-plan lifts the
/// refusal; the small class is snapped as before.
pub proof fn law_a_refused_bulk_class_takes_no_snap(
    state: CadenceState,
    before: ShipStatus,
    allowed: bool,
    now: u64,
)
    ensures
        ({
            let refused = before.with_refused(Some(Class::Bulk), true);
            &&& !(CadenceState::next_step(
                state.bulk,
                state.bulk_mode,
                state.stopping,
                now,
                ship::takes_snap(refused, Class::Bulk, allowed),
            ) is Snap)
            &&& ship::takes_snap(refused, Class::Small, allowed) == ship::takes_snap(
                before,
                Class::Small,
                allowed,
            )
            &&& ship::takes_snap(refused.replanned(None), Class::Bulk, allowed) == allowed
        }),
{
}

/// A polled class is snapped once per maximum interval: after a small-class snap that ended at `now`
/// the loop takes none before `now + max`, and the next one then.
pub proof fn law_a_polled_small_class_waits_its_interval(
    ended: &mut CadenceState,
    now: u64,
    staged: bool,
    woken: bool,
    looks: &mut CadenceState,
    t: u64,
    step: LoopStep,
)
    requires
        call_ensures(CadenceState::small_ends, (ended, now, staged), woken),
        *old(looks) == *final(ended),
        old(looks).small_mode == Mode::Polled,
        !old(looks).stopping,
        call_ensures(CadenceState::next_small, (looks, t, true), step),
    ensures
        t < now + old(ended).small.max ==> step is WaitUntil && step->WaitUntil_0 == now + old(
            ended,
        ).small.max,
        t >= now + old(ended).small.max ==> step == LoopStep::Snap(Trigger::Poll),
{
}

/// The same of the bulk class.
pub proof fn law_a_polled_bulk_class_waits_its_interval(
    ended: &mut CadenceState,
    now: u64,
    staged: bool,
    woken: bool,
    looks: &mut CadenceState,
    t: u64,
    step: LoopStep,
)
    requires
        call_ensures(CadenceState::bulk_ends, (ended, now, staged), woken),
        *old(looks) == *final(ended),
        old(looks).bulk_mode == Mode::Polled,
        !old(looks).stopping,
        call_ensures(CadenceState::next_bulk, (looks, t, true), step),
    ensures
        t < now + old(ended).bulk.max ==> step is WaitUntil && step->WaitUntil_0 == now + old(
            ended,
        ).bulk.max,
        t >= now + old(ended).bulk.max ==> step == LoopStep::Snap(Trigger::Poll),
{
}

/// A watched class that nothing changed since its last snap is not snapped, whatever the time.
pub proof fn law_a_clean_watched_class_is_not_snapped(
    begun: &mut CadenceState,
    seq: u64,
    ended: &mut CadenceState,
    now: u64,
    staged: bool,
    woken: bool,
    looks: &mut CadenceState,
    t: u64,
    may_snap: bool,
    step: LoopStep,
)
    requires
        old(begun).small_waiting < usize::MAX,
        old(begun).small_mode == Mode::Watched,
        !old(begun).stopping,
        call_ensures(CadenceState::small_begins, (begun,), seq),
        *old(ended) == *final(begun),
        call_ensures(CadenceState::small_ends, (ended, now, staged), woken),
        *old(looks) == *final(ended),
        call_ensures(CadenceState::next_small, (looks, t, may_snap), step),
    ensures
        step == LoopStep::Wait,
        *final(looks) == *old(looks),
{
}

/// The same of the bulk class.
pub proof fn law_a_clean_watched_bulk_class_is_not_snapped(
    begun: &mut CadenceState,
    seq: u64,
    ended: &mut CadenceState,
    now: u64,
    staged: bool,
    woken: bool,
    looks: &mut CadenceState,
    t: u64,
    may_snap: bool,
    step: LoopStep,
)
    requires
        old(begun).bulk_mode == Mode::Watched,
        !old(begun).stopping,
        call_ensures(CadenceState::bulk_begins, (begun,), seq),
        *old(ended) == *final(begun),
        call_ensures(CadenceState::bulk_ends, (ended, now, staged), woken),
        *old(looks) == *final(ended),
        call_ensures(CadenceState::next_bulk, (looks, t, may_snap), step),
    ensures
        step == LoopStep::Wait,
        *final(looks) == *old(looks),
{
}

/// A watched small class that was clean and changes at `a` and again at `b` is snapped as soon as it
/// was quiet since `b`, or dirty since `a` for its maximum interval, and not before; the bulk class
/// is left alone.
pub proof fn law_changes_are_snapped_when_quiet_or_overdue(
    first: &mut CadenceState,
    a: u64,
    second: &mut CadenceState,
    b: u64,
    looks: &mut CadenceState,
    t: u64,
    step: LoopStep,
)
    requires
        old(first).small.first_change is None,
        old(first).small_mode == Mode::Watched,
        !old(first).stopping,
        call_ensures(CadenceState::signal, (first, ChangeSignal::Changed(Class::Small), a), ()),
        *old(second) == *final(first),
        call_ensures(CadenceState::signal, (second, ChangeSignal::Changed(Class::Small), b), ()),
        *old(looks) == *final(second),
        call_ensures(CadenceState::next_small, (looks, t, true), step),
    ensures
        step is Snap <==> t >= b + old(first).small.quiet || t >= a + old(first).small.max,
        step is Snap || step is WaitUntil,
        step matches LoopStep::WaitUntil(at) ==> at <= b + old(first).small.quiet && at <= a + old(
            first,
        ).small.max && (at == b + old(first).small.quiet || at == a + old(first).small.max),
        step == LoopStep::Snap(Trigger::Quiet) ==> t >= b + old(first).small.quiet,
        step == LoopStep::Snap(Trigger::MaxInterval) ==> t >= a + old(first).small.max,
        step != LoopStep::Snap(Trigger::Poll),
        final(looks).bulk == old(first).bulk,
{
}

/// The same of the bulk class, which leaves the small one alone.
pub proof fn law_bulk_changes_are_snapped_when_quiet_or_overdue(
    first: &mut CadenceState,
    a: u64,
    second: &mut CadenceState,
    b: u64,
    looks: &mut CadenceState,
    t: u64,
    step: LoopStep,
)
    requires
        old(first).bulk.first_change is None,
        old(first).bulk_mode == Mode::Watched,
        !old(first).stopping,
        call_ensures(CadenceState::signal, (first, ChangeSignal::Changed(Class::Bulk), a), ()),
        *old(second) == *final(first),
        call_ensures(CadenceState::signal, (second, ChangeSignal::Changed(Class::Bulk), b), ()),
        *old(looks) == *final(second),
        call_ensures(CadenceState::next_bulk, (looks, t, true), step),
    ensures
        step is Snap <==> t >= b + old(first).bulk.quiet || t >= a + old(first).bulk.max,
        step is Snap || step is WaitUntil,
        step matches LoopStep::WaitUntil(at) ==> at <= b + old(first).bulk.quiet && at <= a + old(
            first,
        ).bulk.max && (at == b + old(first).bulk.quiet || at == a + old(first).bulk.max),
        step != LoopStep::Snap(Trigger::Poll),
        final(looks).small == old(first).small,
{
}

/// A snap that is due and may not be taken is put off: the class is clean, so that a watched one
/// waits for the next change and a polled one for a whole interval.
pub proof fn law_a_snap_that_may_not_be_taken_is_put_off(
    due: &mut CadenceState,
    now: u64,
    skipped: LoopStep,
    looks: &mut CadenceState,
    t: u64,
    may_snap: bool,
    step: LoopStep,
)
    requires
        call_ensures(CadenceState::next_small, (due, now, false), skipped),
        *old(looks) == *final(due),
        call_ensures(CadenceState::next_small, (looks, t, may_snap), step),
    ensures
        !(skipped is Snap),
        skipped is Skip && old(due).small_mode == Mode::Watched ==> step == LoopStep::Wait,
        skipped is Skip && old(due).small_mode == Mode::Polled && t < now + old(due).small.max
            ==> step is WaitUntil,
{
}

/// The same of the bulk class.
pub proof fn law_a_bulk_snap_that_may_not_be_taken_is_put_off(
    due: &mut CadenceState,
    now: u64,
    skipped: LoopStep,
    looks: &mut CadenceState,
    t: u64,
    may_snap: bool,
    step: LoopStep,
)
    requires
        call_ensures(CadenceState::next_bulk, (due, now, false), skipped),
        *old(looks) == *final(due),
        call_ensures(CadenceState::next_bulk, (looks, t, may_snap), step),
    ensures
        !(skipped is Snap),
        skipped is Skip && old(due).bulk_mode == Mode::Watched ==> step == LoopStep::Wait,
        skipped is Skip && old(due).bulk_mode == Mode::Polled && t < now + old(due).bulk.max
            ==> step is WaitUntil,
{
}

/// A bulk build never goes on beside a small-class snap: from the moment that one begins until it
/// ends the build yields, and after that it goes on, unless another small-class snap waits.
pub proof fn law_a_bulk_build_yields_to_a_small_snap(
    begun: &mut CadenceState,
    seq: u64,
    asked: &mut CadenceState,
    during: BulkStep,
    preempted: bool,
    ended: &mut CadenceState,
    now: u64,
    staged: bool,
    woken: bool,
    again: &mut CadenceState,
    after: BulkStep,
)
    requires
        old(begun).small_waiting < usize::MAX,
        !old(begun).stopping,
        call_ensures(CadenceState::small_begins, (begun,), seq),
        *old(asked) == *final(begun),
        call_ensures(CadenceState::preempts, (&*old(asked),), preempted),
        call_ensures(CadenceState::bulk_next, (asked,), during),
        *old(ended) == *final(asked),
        call_ensures(CadenceState::small_ends, (ended, now, staged), woken),
        *old(again) == *final(ended),
        call_ensures(CadenceState::bulk_next, (again,), after),
    ensures
        preempted,
        during == BulkStep::Yield,
        after == if old(begun).small_waiting == 0 {
            BulkStep::Build
        } else {
            BulkStep::Yield
        },
        final(again).counters.bulk_running == old(begun).counters.bulk_running,
{
}

/// Once told to stop, neither loop snaps and no bulk build goes on.
pub proof fn law_a_stopped_runner_does_nothing(
    told: &mut CadenceState,
    small: &mut CadenceState,
    bulk: &mut CadenceState,
    build: &mut CadenceState,
    now: u64,
    may_snap: bool,
    small_step: LoopStep,
    bulk_step: LoopStep,
    build_step: BulkStep,
    drops: bool,
)
    requires
        call_ensures(CadenceState::stop, (told,), ()),
        *old(small) == *final(told),
        call_ensures(CadenceState::next_small, (small, now, may_snap), small_step),
        *old(bulk) == *final(told),
        call_ensures(CadenceState::next_bulk, (bulk, now, may_snap), bulk_step),
        *old(build) == *final(told),
        call_ensures(CadenceState::bulk_next, (build,), build_step),
        call_ensures(CadenceState::drops_watch, (&*final(told),), drops),
    ensures
        small_step == LoopStep::Stop,
        bulk_step == LoopStep::Stop,
        build_step == BulkStep::Stopped,
        !final(build).counters.bulk_running,
        !drops,
{
}

/// Without a watcher both classes poll from now on; with one, each as it was decided.
pub proof fn law_unwatched_classes_poll(
    state: &mut CadenceState,
    modes: Option<WatchModes>,
    now: u64,
    looks: &mut CadenceState,
    t: u64,
    step: LoopStep,
)
    requires
        !old(state).stopping,
        call_ensures(CadenceState::watching, (state, modes, now), ()),
        *old(looks) == *final(state),
        call_ensures(CadenceState::next_small, (looks, t, true), step),
    ensures
        modes is None ==> final(state).small_mode == Mode::Polled && final(state).bulk_mode
            == Mode::Polled,
        modes matches Some(m) ==> final(state).small_mode == m.small && final(state).bulk_mode
            == m.bulk,
        modes is None ==> (step is Snap <==> t >= now + old(state).small.max),
        final(state).small.last_snap == now && final(state).bulk.last_snap == now,
        final(state).counters == old(state).counters,
        final(state).small.first_change == old(state).small.first_change,
        final(state).bulk.first_change == old(state).bulk.first_change,
{
}

/// No two snaps get the same execution sequence, as far as it can count.
pub proof fn law_sequences_increase(
    small: &mut CadenceState,
    a: u64,
    bulk: &mut CadenceState,
    b: u64,
    again: &mut CadenceState,
    c: u64,
)
    requires
        old(small).small_waiting < usize::MAX - 1,
        call_ensures(CadenceState::small_begins, (small,), a),
        *old(bulk) == *final(small),
        call_ensures(CadenceState::bulk_begins, (bulk,), b),
        *old(again) == *final(bulk),
        call_ensures(CadenceState::small_begins, (again,), c),
        a < u64::MAX - 1,
    ensures
        a < b < c,
        b == a + 1 && c == b + 1,
{
}

/// What a snapshot tells of a small-class snap that was taken: one snap more, one more that staged
/// something if it did, and a clean class; of a change since, a dirty one. The shipper is woken
/// just if something was staged.
pub proof fn law_a_snapshot_tells_what_was_snapped(
    before: CadenceSnapshot,
    begun: &mut CadenceState,
    seq: u64,
    ended: &mut CadenceState,
    now: u64,
    staged: bool,
    woken: bool,
    after: CadenceSnapshot,
    changed: &mut CadenceState,
    at: u64,
    last: CadenceSnapshot,
    in_progress: bool,
)
    requires
        old(begun).small_waiting < usize::MAX,
        old(begun).counters.small_snaps < u64::MAX,
        old(begun).counters.small_staged < u64::MAX,
        call_ensures(CadenceState::snapshot, (&*old(begun), in_progress), before),
        call_ensures(CadenceState::small_begins, (begun,), seq),
        *old(ended) == *final(begun),
        call_ensures(CadenceState::small_ends, (ended, now, staged), woken),
        call_ensures(CadenceState::snapshot, (&*final(ended), in_progress), after),
        *old(changed) == *final(ended),
        call_ensures(CadenceState::signal, (changed, ChangeSignal::Changed(Class::Small), at), ()),
        call_ensures(CadenceState::snapshot, (&*final(changed), in_progress), last),
    ensures
        after == (CadenceSnapshot {
            small_snaps: (before.small_snaps + 1) as u64,
            small_staged: (before.small_staged + if staged {
                1int
            } else {
                0int
            }) as u64,
            small_dirty: false,
            ..before
        }),
        last == (CadenceSnapshot { small_dirty: true, ..after }),
        woken == staged,
{
}

/// The same of a bulk-class snap, which runs from its begin to its end.
pub proof fn law_a_snapshot_tells_what_was_snapped_of_the_bulk_class(
    before: CadenceSnapshot,
    begun: &mut CadenceState,
    seq: u64,
    middle: CadenceSnapshot,
    ended: &mut CadenceState,
    now: u64,
    staged: bool,
    woken: bool,
    after: CadenceSnapshot,
    changed: &mut CadenceState,
    at: u64,
    last: CadenceSnapshot,
    in_progress: bool,
)
    requires
        old(begun).counters.bulk_snaps < u64::MAX,
        old(begun).counters.bulk_staged < u64::MAX,
        call_ensures(CadenceState::snapshot, (&*old(begun), in_progress), before),
        call_ensures(CadenceState::bulk_begins, (begun,), seq),
        call_ensures(CadenceState::snapshot, (&*final(begun), in_progress), middle),
        *old(ended) == *final(begun),
        call_ensures(CadenceState::bulk_ends, (ended, now, staged), woken),
        call_ensures(CadenceState::snapshot, (&*final(ended), in_progress), after),
        *old(changed) == *final(ended),
        call_ensures(CadenceState::signal, (changed, ChangeSignal::Changed(Class::Bulk), at), ()),
        call_ensures(CadenceState::snapshot, (&*final(changed), in_progress), last),
    ensures
        middle == (CadenceSnapshot { bulk_running: true, bulk_dirty: false, ..before }),
        after == (CadenceSnapshot {
            bulk_snaps: (before.bulk_snaps + 1) as u64,
            bulk_staged: (before.bulk_staged + if staged {
                1int
            } else {
                0int
            }) as u64,
            bulk_running: false,
            bulk_dirty: false,
            ..before
        }),
        last == (CadenceSnapshot { bulk_dirty: true, ..after }),
        woken == staged,
{
}

/// A scheduled small-class snap, a forced one, a yield and an overflow are each counted once, under
/// what they are.
pub proof fn law_events_are_counted_as_what_they_are(
    looks: &mut CadenceState,
    now: u64,
    why: Trigger,
    told: &mut CadenceState,
    yields: &mut CadenceState,
    overflows: &mut CadenceState,
)
    requires
        call_ensures(CadenceState::next_small, (looks, now, true), LoopStep::Snap(why)),
        call_ensures(CadenceState::forced, (told,), ()),
        call_ensures(CadenceState::bulk_preempted, (yields,), ()),
        call_ensures(CadenceState::signal, (overflows, ChangeSignal::Overflow, now), ()),
        old(looks).counters.quiet_fired < u64::MAX,
        old(looks).counters.max_fired < u64::MAX,
        old(looks).counters.poll_fired < u64::MAX,
        old(told).counters.forced < u64::MAX,
        old(yields).counters.preemptions < u64::MAX,
        old(overflows).counters.overflows < u64::MAX,
    ensures
        final(looks).counters.quiet_fired - old(looks).counters.quiet_fired == if why
            == Trigger::Quiet {
            1int
        } else {
            0int
        },
        final(looks).counters.max_fired - old(looks).counters.max_fired == if why
            == Trigger::MaxInterval {
            1int
        } else {
            0int
        },
        final(looks).counters.poll_fired - old(looks).counters.poll_fired == if why
            == Trigger::Poll {
            1int
        } else {
            0int
        },
        final(looks).small == old(looks).small && final(looks).bulk == old(looks).bulk,
        final(told).counters.forced == old(told).counters.forced + 1,
        final(yields).counters.preemptions == old(yields).counters.preemptions + 1,
        final(overflows).counters.overflows == old(overflows).counters.overflows + 1,
        final(told).small == old(told).small && final(told).bulk == old(told).bulk,
        final(yields).small == old(yields).small && final(yields).bulk == old(yields).bulk,
{
}

/// A runner is new just once, and a new one polls, is clean and has snapped nothing: its first snaps
/// come an interval after it was made.
pub proof fn law_a_new_runner_polls(
    cadence: Cadence,
    now: u64,
    state: CadenceState,
    started: &mut CadenceState,
    first: bool,
    again: &mut CadenceState,
    second: bool,
    looks: &mut CadenceState,
    t: u64,
    step: LoopStep,
    bulk: &mut CadenceState,
    bulk_step: LoopStep,
)
    requires
        call_ensures(CadenceState::new, (&cadence, now), state),
        *old(started) == state,
        call_ensures(CadenceState::start, (started,), first),
        *old(again) == *final(started),
        call_ensures(CadenceState::start, (again,), second),
        *old(looks) == *final(started),
        call_ensures(CadenceState::next_small, (looks, t, true), step),
        *old(bulk) == *final(started),
        call_ensures(CadenceState::next_bulk, (bulk, t, true), bulk_step),
    ensures
        first && !second,
        step is Snap <==> t >= now + cadence.max_interval,
        bulk_step is Snap <==> t >= now + cadence.bulk_max_interval,
        state.small.quiet == cadence.quiet && state.bulk.quiet == cadence.bulk_quiet,
        state.small.first_change is None && state.bulk.first_change is None,
        state.small_waiting == 0,
        !state.counters.bulk_running,
{
}

} // verus!
