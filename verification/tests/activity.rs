use std::time::Duration;
use xtp_rs::activity_stream::{half_close_watchdog, watchdog_step, Activity};
use xtp_rs::util::{finish_relay, relay_path, tcp_relay_half_close_timeouts, RelayCounters, RelayEnd, RelayStop};

const START: u64 = 1;

#[test]
fn the_deadline_does_not_apply_before_a_half_close() {
    let activity = Activity::new(START);
    assert_eq!(activity.quiet_since_half_close(START + 3_600_000), None);
}

#[test]
fn the_deadline_restarts_on_every_byte_after_the_half_close() {
    let mut activity = Activity::new(START);
    activity.half_closed(START);
    let mut now = START + 10_000;
    assert_eq!(activity.quiet_since_half_close(now), Some(Duration::from_secs(10)));

    activity.touch(now);
    assert_eq!(activity.quiet_since_half_close(now), Some(Duration::ZERO));

    now += 10_000;
    assert_eq!(activity.quiet_since_half_close(now), Some(Duration::from_secs(10)));
}

#[test]
fn the_watchdog_waits_for_both_a_half_close_and_the_grace() {
    let grace = 600_000;
    let mut activity = Activity::new(START);
    for looks in 0..60 {
        assert!(!half_close_watchdog(&activity, grace, START + looks * 30_000));
    }

    let mut now = START + 3 * grace;
    activity.half_closed(now);
    let armed_at = now;
    while !half_close_watchdog(&activity, grace, now) {
        now += watchdog_step(grace);
    }
    let waited = now - armed_at;
    assert!(waited >= grace);
    assert_eq!(waited, grace);
}

#[test]
fn an_eof_read_moves_no_bytes_and_does_not_restart_the_deadline() {
    let mut activity = Activity::new(START);
    activity.half_closed(START);
    let now = START + 5_000;
    activity.moved(0, now);
    assert_eq!(activity.quiet_since_half_close(now), Some(Duration::from_secs(5)));
}

#[test]
fn the_guard_records_bytes_moving_in_either_direction() {
    let mut activity = Activity::new(START);
    activity.half_closed(START);

    let now = START + 30_000;
    activity.moved(b"hello".len(), now);
    assert_eq!(activity.quiet_since_half_close(now), Some(Duration::ZERO));

    let now = now + 30_000;
    activity.moved(b"world".len(), now);
    assert_eq!(activity.quiet_since_half_close(now), Some(Duration::ZERO));
}

#[test]
fn shutting_down_the_guarded_writer_arms_the_deadline_once() {
    let mut activity = Activity::new(START);
    assert_eq!(activity.quiet_since_half_close(START), None);
    activity.shut_down(false, START);
    assert_eq!(activity.quiet_since_half_close(START), None);

    activity.shut_down(true, START);
    assert_eq!(activity.quiet_since_half_close(START), Some(Duration::ZERO));

    let now = START + 10_000;
    activity.shut_down(true, now);
    assert_eq!(activity.quiet_since_half_close(now), Some(Duration::from_secs(10)));
}

fn run_silent(counters: &mut RelayCounters, grace_secs: u64) -> (Option<RelayEnd>, bool) {
    let mut activity = Activity::new(START);
    activity.shut_down(true, START);
    let mut now = START;
    while !half_close_watchdog(&activity, grace_secs * 1000, now) {
        now += watchdog_step(grace_secs * 1000);
    }
    let quiet_secs = activity.quiet_millis(now).map(|ms| ms / 1000);
    let v = finish_relay(counters, relay_path(false, grace_secs), RelayStop::Silent { quiet_secs });
    (v.end, v.reset)
}

#[test]
fn half_closed_and_silent_session_is_reclaimed_after_the_grace() {
    let mut counters = RelayCounters::new();
    let before = tcp_relay_half_close_timeouts(&counters);
    let (end, reset) = run_silent(&mut counters, 1);
    assert!(matches!(end, Some(RelayEnd::HalfCloseTimeout { silent_secs }) if silent_secs >= 1));
    assert!(reset);
    assert!(tcp_relay_half_close_timeouts(&counters) > before);
}

#[test]
fn a_normal_both_sided_close_is_untouched_by_the_watchdog() {
    let mut counters = RelayCounters::new();
    let done = RelayStop::Done { sent: 18, recv: 24 };
    let v = finish_relay(&mut counters, relay_path(false, 30), done);
    assert_eq!(v.end, Some(RelayEnd::Finished { sent: 18, recv: 24 }));
    assert!(!v.reset);
    assert_eq!(tcp_relay_half_close_timeouts(&counters), 0);
}

#[test]
fn concurrent_half_closed_sessions_are_all_reclaimed() {
    let mut counters = RelayCounters::new();
    for _ in 0..128 {
        assert!(matches!(
            run_silent(&mut counters, 2),
            (Some(RelayEnd::HalfCloseTimeout { .. }), true)
        ));
    }
    assert_eq!(tcp_relay_half_close_timeouts(&counters), 128);
}

#[test]
fn a_half_closed_session_with_ongoing_progress_is_not_reclaimed() {
    let mut activity = Activity::new(START);
    activity.shut_down(true, START);
    let mut now = START;
    for _ in 0..11 {
        now += 300;
        assert!(!half_close_watchdog(&activity, 1000, now));
        activity.moved(1, now);
    }
    assert!(!half_close_watchdog(&activity, 1000, now + 999));
    assert!(half_close_watchdog(&activity, 1000, now + 1000));
}

#[test]
fn watchdog_steps_are_short() {
    assert_eq!(watchdog_step(5), 5);
    assert_eq!(watchdog_step(600_000), 30_000);
}
