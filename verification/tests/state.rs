use keypeat::Duration;
use keypeat::Instant;
use keypeat::KeyState;

fn at(secs: u64) -> Instant {
    Instant::from_nanos(secs * 1_000_000_000)
}

fn timeout() -> Duration {
    Duration::from_secs(5)
}

fn interval() -> Duration {
    Duration::from_secs(1)
}

#[test]
fn a_fresh_press_owes_nothing_yet() {
    assert_eq!(
        KeyState::pressed(at(3)),
        KeyState::Pressed { pressed_at: at(3), fire_count: 0 }
    );
}

#[test]
fn a_press_of_a_key_that_is_down_is_ignored() {
    let mut pressed = KeyState::Pressed { pressed_at: at(3), fire_count: 2 };
    pressed.on_press(at(4));
    assert_eq!(pressed, KeyState::Pressed { pressed_at: at(3), fire_count: 2 });

    let mut repeated = KeyState::Repeated {
        pressed_at: at(3),
        next_repeat: at(9),
        fire_count: 0,
    };
    repeated.on_press(at(10));
    assert_eq!(
        repeated,
        KeyState::Repeated { pressed_at: at(3), next_repeat: at(9), fire_count: 0 }
    );
}

#[test]
fn a_press_after_a_release_keeps_the_backlog() {
    let mut state = KeyState::ReleasePending { pressed_at: at(3), fire_count: 4 };
    state.on_press(at(11));
    assert_eq!(state, KeyState::Pressed { pressed_at: at(11), fire_count: 4 });
}

#[test]
fn a_release_before_the_threshold_owes_the_press() {
    let mut state = KeyState::pressed(at(10));
    state.on_release(at(12), timeout(), interval());
    assert_eq!(state, KeyState::ReleasePending { pressed_at: at(10), fire_count: 1 });

    let mut carried = KeyState::Pressed { pressed_at: at(10), fire_count: 3 };
    carried.on_release(at(10), timeout(), interval());
    assert_eq!(carried, KeyState::ReleasePending { pressed_at: at(10), fire_count: 4 });
}

#[test]
fn a_release_before_the_press_owes_the_press() {
    let mut state = KeyState::pressed(at(10));
    state.on_release(at(2), timeout(), interval());
    assert_eq!(state, KeyState::ReleasePending { pressed_at: at(10), fire_count: 1 });
}

#[test]
fn a_release_at_the_threshold_owes_no_repeat() {
    let mut state = KeyState::pressed(at(10));
    state.on_release(at(15), timeout(), interval());
    assert_eq!(state, KeyState::ReleasePending { pressed_at: at(10), fire_count: 1 });
}

#[test]
fn a_release_after_the_threshold_owes_the_missed_repeats() {
    // The press, the repeat at the threshold, and one for each of the two
    // intervals completed since.
    let mut state = KeyState::pressed(at(10));
    state.on_release(at(17), timeout(), interval());
    assert_eq!(state, KeyState::ReleasePending { pressed_at: at(10), fire_count: 4 });
}

#[test]
fn a_release_counts_full_intervals_only() {
    let half = Duration::from_millis(500);
    // 0.7 s past the threshold: the repeat at the threshold and one full
    // interval of half a second.
    let now = at(15).plus(Duration::from_millis(700));
    let mut state = KeyState::pressed(at(10));
    state.on_release(now, timeout(), half);
    assert_eq!(state, KeyState::ReleasePending { pressed_at: at(10), fire_count: 3 });

    // One nanosecond past the threshold: the repeat at the threshold alone.
    let now = at(15).plus(Duration::from_nanos(1));
    let mut state = KeyState::pressed(at(10));
    state.on_release(now, timeout(), half);
    assert_eq!(state, KeyState::ReleasePending { pressed_at: at(10), fire_count: 2 });
}

#[test]
fn a_release_while_repeating_owes_the_missed_repeats() {
    let repeating = KeyState::Repeated { pressed_at: at(10), next_repeat: at(18), fire_count: 0 };

    let mut before = repeating;
    before.on_release(at(17), timeout(), interval());
    assert_eq!(before, KeyState::ReleasePending { pressed_at: at(10), fire_count: 0 });

    let mut exactly = repeating;
    exactly.on_release(at(18), timeout(), interval());
    assert_eq!(exactly, KeyState::ReleasePending { pressed_at: at(10), fire_count: 0 });

    let mut after = repeating;
    after.on_release(at(20), timeout(), interval());
    assert_eq!(after, KeyState::ReleasePending { pressed_at: at(10), fire_count: 3 });

    let mut carried = KeyState::Repeated { pressed_at: at(10), next_repeat: at(18), fire_count: 2 };
    carried.on_release(at(19), timeout(), interval());
    assert_eq!(carried, KeyState::ReleasePending { pressed_at: at(10), fire_count: 4 });
}

#[test]
fn a_zero_timeout_repeats_from_the_press_on() {
    let none = Duration::from_nanos(0);
    let mut state = KeyState::pressed(at(10));
    state.on_release(at(10), none, interval());
    assert_eq!(state, KeyState::ReleasePending { pressed_at: at(10), fire_count: 1 });

    let mut state = KeyState::pressed(at(10));
    state.on_release(at(12), none, interval());
    assert_eq!(state, KeyState::ReleasePending { pressed_at: at(10), fire_count: 4 });
}

#[test]
fn only_a_key_that_is_down_can_be_released() {
    let pressed = KeyState::pressed(at(10));
    assert!(pressed.can_release(at(12), timeout(), interval()));
    let repeated = KeyState::Repeated { pressed_at: at(10), next_repeat: at(15), fire_count: 0 };
    assert!(repeated.can_release(at(16), timeout(), interval()));
    let released = KeyState::ReleasePending { pressed_at: at(10), fire_count: 1 };
    assert!(!released.can_release(at(12), timeout(), interval()));
}

#[test]
fn a_release_must_leave_a_backlog_that_fits() {
    let tick = Duration::from_nanos(1);
    let origin = Instant::from_nanos(0);
    let end = Instant::from_nanos(u64::MAX);

    // The press and `u64::MAX` repeats are one event too many.
    let pressed = KeyState::pressed(origin);
    assert!(!pressed.can_release(end, Duration::from_nanos(0), tick));
    assert!(!pressed.can_release(end, Duration::from_nanos(1), tick));
    // The press and one repeat less fit exactly.
    assert!(pressed.can_release(end, Duration::from_nanos(2), tick));
    let mut state = pressed;
    state.on_release(end, Duration::from_nanos(2), tick);
    assert_eq!(state, KeyState::ReleasePending { pressed_at: origin, fire_count: u64::MAX });

    let full = KeyState::Pressed { pressed_at: origin, fire_count: u64::MAX };
    assert!(!full.can_release(origin, timeout(), interval()));
    let nearly = KeyState::Pressed { pressed_at: origin, fire_count: u64::MAX - 1 };
    assert!(nearly.can_release(origin, timeout(), interval()));

    let first = Instant::from_nanos(1);
    let repeated = KeyState::Repeated { pressed_at: origin, next_repeat: origin, fire_count: 0 };
    assert!(!repeated.can_release(end, timeout(), tick));
    let repeated = KeyState::Repeated { pressed_at: origin, next_repeat: first, fire_count: 1 };
    assert!(!repeated.can_release(end, timeout(), tick));
    let repeated = KeyState::Repeated { pressed_at: origin, next_repeat: first, fire_count: 0 };
    assert!(repeated.can_release(end, timeout(), tick));
    let mut state = repeated;
    state.on_release(end, timeout(), tick);
    assert_eq!(state, KeyState::ReleasePending { pressed_at: origin, fire_count: u64::MAX });
}

#[test]
fn the_next_event_is_due_by_state() {
    let pressed = KeyState::Pressed { pressed_at: at(10), fire_count: 0 };
    assert_eq!(pressed.next_tick(), Some(at(10)));
    let pressed = KeyState::Pressed { pressed_at: at(10), fire_count: 3 };
    assert_eq!(pressed.next_tick(), Some(at(10)));

    let repeated = KeyState::Repeated { pressed_at: at(10), next_repeat: at(15), fire_count: 0 };
    assert_eq!(repeated.next_tick(), Some(at(15)));
    let repeated = KeyState::Repeated { pressed_at: at(10), next_repeat: at(15), fire_count: 1 };
    assert_eq!(repeated.next_tick(), Some(at(10)));

    let released = KeyState::ReleasePending { pressed_at: at(10), fire_count: 2 };
    assert_eq!(released.next_tick(), Some(at(10)));
    let released = KeyState::ReleasePending { pressed_at: at(10), fire_count: 0 };
    assert_eq!(released.next_tick(), None);
}

#[test]
fn a_delivery_takes_one_step() {
    let mut state = KeyState::Pressed { pressed_at: at(10), fire_count: 2 };
    state.tick(timeout(), interval());
    assert_eq!(state, KeyState::Pressed { pressed_at: at(10), fire_count: 1 });
    state.tick(timeout(), interval());
    assert_eq!(state, KeyState::Pressed { pressed_at: at(10), fire_count: 0 });
    state.tick(timeout(), interval());
    assert_eq!(
        state,
        KeyState::Repeated { pressed_at: at(10), next_repeat: at(15), fire_count: 0 }
    );
    state.tick(timeout(), interval());
    assert_eq!(
        state,
        KeyState::Repeated { pressed_at: at(10), next_repeat: at(16), fire_count: 0 }
    );

    let mut backlog = KeyState::Repeated { pressed_at: at(10), next_repeat: at(15), fire_count: 2 };
    backlog.tick(timeout(), interval());
    assert_eq!(
        backlog,
        KeyState::Repeated { pressed_at: at(10), next_repeat: at(15), fire_count: 1 }
    );

    let mut released = KeyState::ReleasePending { pressed_at: at(10), fire_count: 1 };
    released.tick(timeout(), interval());
    assert_eq!(released, KeyState::ReleasePending { pressed_at: at(10), fire_count: 0 });
    released.tick(timeout(), interval());
    assert_eq!(released, KeyState::ReleasePending { pressed_at: at(10), fire_count: 0 });
}
