use sealant_capture::cadence::{BulkStep, CadenceState, Clock, LoopStep, Trigger};
use sealant_capture::engine::{Cadence, Class};
use sealant_capture::pacing::SECOND;
use sealant_capture::ship::{may_snap, ShipStatus};
use sealant_capture::watch::{ChangeSignal, Mode, WatchModes};

fn state() -> CadenceState {
    let mut s = CadenceState::new(&Cadence::default(), 0);
    assert!(s.start());
    assert!(!s.start(), "it runs already");
    s.watching(Some(WatchModes { small: Mode::Watched, bulk: Mode::Watched }), 0);
    s
}

#[test]
fn a_change_is_snapped_after_the_quiet_period() {
    let mut s = state();
    assert_eq!(s.next_small(0, true), LoopStep::Wait);
    s.signal(ChangeSignal::Changed(Class::Small), SECOND);
    assert_eq!(s.next_small(SECOND, true), LoopStep::WaitUntil(3 * SECOND as u128));
    assert_eq!(s.next_small(3 * SECOND, true), LoopStep::Snap(Trigger::Quiet));
    assert_eq!(s.next_bulk(3 * SECOND, true), LoopStep::Wait);
}

#[test]
fn continuous_changes_are_snapped_at_the_maximum_interval() {
    let mut s = state();
    for t in 0..10 {
        s.signal(ChangeSignal::Changed(Class::Small), t * SECOND);
    }
    assert_eq!(s.next_small(9 * SECOND, true), LoopStep::WaitUntil(10 * SECOND as u128));
    s.signal(ChangeSignal::Changed(Class::Small), 10 * SECOND);
    assert_eq!(s.next_small(10 * SECOND, true), LoopStep::Snap(Trigger::MaxInterval));
}

#[test]
fn an_overflow_falls_back_to_polling() {
    let mut s = state();
    s.signal(ChangeSignal::Overflow, SECOND);
    assert!(s.drops_watch());
    assert_eq!((s.small_mode, s.bulk_mode), (Mode::Polled, Mode::Polled));
    assert_eq!(s.next_small(200 * SECOND, true), LoopStep::Snap(Trigger::Poll));
    assert_eq!(s.next_bulk(200 * SECOND, true), LoopStep::Snap(Trigger::Poll));
    assert_eq!(s.snapshot(false).overflows, 1);
}

#[test]
fn a_polled_class_is_snapped_at_its_interval() {
    let mut c = Clock::new(2, 10, 100);
    assert_eq!(c.due(Mode::Watched), None);
    assert_eq!(c.due(Mode::Polled), Some((110, Trigger::Poll)));
    c.dirty(103);
    c.dirty(104);
    assert_eq!(c.due(Mode::Watched), Some((106, Trigger::Quiet)));
    c.dirty(112);
    assert_eq!(c.due(Mode::Watched), Some((113, Trigger::MaxInterval)));
    c.clear();
    assert_eq!(c.due(Mode::Watched), None);
}

#[test]
fn a_due_small_snap_is_not_kept_waiting_by_a_bulk_build() {
    let mut s = state();
    let first = s.bulk_begins();
    assert_eq!(s.bulk_next(), BulkStep::Build);
    let second = s.small_begins();
    assert_eq!(second, first + 1);
    assert!(s.preempts());
    assert_eq!(s.bulk_next(), BulkStep::Yield);
    s.bulk_preempted();
    assert!(s.small_ends(5, true));
    assert!(!s.preempts());
    assert_eq!(s.bulk_next(), BulkStep::Build);
    assert!(!s.bulk_ends(6, false));
    let snap = s.snapshot(false);
    assert_eq!((snap.small_snaps, snap.small_staged), (1, 1));
    assert_eq!((snap.bulk_snaps, snap.bulk_staged), (1, 0));
    assert_eq!(snap.preemptions, 1);
}

#[test]
fn a_snap_that_may_not_be_taken_is_skipped() {
    let mut s = state();
    s.signal(ChangeSignal::Changed(Class::Small), 0);
    assert_eq!(s.next_small(60 * SECOND, false), LoopStep::Skip);
    assert_eq!(s.next_small(60 * SECOND, true), LoopStep::Wait);
}

#[test]
fn a_runner_that_stops_takes_no_more_snaps() {
    let mut s = state();
    s.forced();
    s.signal(ChangeSignal::Changed(Class::Bulk), 0);
    s.stop();
    assert_eq!(s.next_small(60 * SECOND, true), LoopStep::Stop);
    assert_eq!(s.next_bulk(600 * SECOND, true), LoopStep::Stop);
    assert_eq!(s.bulk_next(), BulkStep::Stopped);
    assert_eq!(s.snapshot(true).forced, 1);
}

#[test]
fn a_change_during_a_snap_is_snapped_later() {
    let mut s = state();
    s.signal(ChangeSignal::Changed(Class::Small), SECOND);
    s.small_begins();
    s.signal(ChangeSignal::Changed(Class::Small), 4 * SECOND);
    assert!(s.small_ends(5 * SECOND, true));
    assert_eq!(s.next_small(5 * SECOND, true), LoopStep::WaitUntil(6 * SECOND as u128));
}

#[test]
fn a_refused_bulk_class_is_not_snapped_until_a_replan() {
    let mut s = state();
    s.signal(ChangeSignal::Changed(Class::Small), SECOND);
    s.signal(ChangeSignal::Changed(Class::Bulk), SECOND);
    let mut status = ShipStatus::new();
    status.set_refused(Some(Class::Bulk), true);
    let now = 200 * SECOND;
    let bulk = may_snap(&status, Class::Bulk, true);
    assert_eq!(s.next_bulk(now, bulk), LoopStep::Skip);
    let small = may_snap(&status, Class::Small, true);
    assert!(matches!(s.next_small(now, small), LoopStep::Snap(_)));
    status.reset_after_replan(None);
    assert!(may_snap(&status, Class::Bulk, true));
    assert!(!may_snap(&status, Class::Small, false));
}
