use std::cell::Cell;
use std::cell::RefCell;

use keypeat::Duration;
use keypeat::Instant;
use keypeat::KeyRepeat;
use keypeat::Keys;

/// Where the tests' clock stands when a test begins.
const START: u64 = 3_600_000_000_000;

/// The instant `secs` seconds after the start.
fn at(secs: u64) -> Instant {
    Instant::from_nanos(START + secs * 1_000_000_000)
}

fn new_keys() -> Keys<char> {
    Keys::new(Duration::from_secs(5), Duration::from_secs(1))
}

/// Tick `keys` at `now` with a handler that only records the keys it is
/// called for.
fn tick_recording(keys: &mut Keys<char>, now: Instant) -> (Vec<char>, Option<Instant>) {
    let calls = RefCell::new(Vec::new());
    let (_, next) = keys.tick(now, |key: &char, _repeat: &mut KeyRepeat| {
        calls.borrow_mut().push(*key);
        true
    });
    (calls.into_inner(), next)
}

fn count(calls: &[char], key: char) -> usize {
    calls.iter().filter(|called| **called == key).count()
}

#[test]
fn an_empty_registry_has_nothing_to_do() {
    let mut keys = new_keys();
    let (calls, next) = tick_recording(&mut keys, at(0));
    assert_eq!(calls, vec![]);
    assert_eq!(next, None);
}

#[test]
fn the_release_of_an_untracked_key_is_ignored() {
    let mut keys = new_keys();
    assert!(keys.can_release(at(0), 'x'));
    keys.on_key_release(at(0), 'x');
    let (calls, next) = tick_recording(&mut keys, at(100));
    assert_eq!(calls, vec![]);
    assert_eq!(next, None);

    // Nor does it disturb a key that is tracked.
    keys.on_key_press(at(100), 'a');
    keys.on_key_release(at(101), 'x');
    let (calls, next) = tick_recording(&mut keys, at(101));
    assert_eq!(calls, vec!['a']);
    assert_eq!(next, Some(at(105)));
}

#[test]
fn the_handler_is_called_for_tracked_keys_only() {
    let mut keys = new_keys();
    keys.on_key_press(at(0), 'a');
    keys.on_key_release(at(1), 'b');
    for second in 0..20 {
        let (calls, _next) = tick_recording(&mut keys, at(second));
        assert!(calls.iter().all(|key| *key == 'a'));
    }
}

#[test]
fn a_press_released_at_once_is_delivered_once() {
    let mut keys = new_keys();
    keys.on_key_press(at(0), 'k');
    keys.on_key_release(at(0), 'k');
    let (calls, next) = tick_recording(&mut keys, at(0));
    assert_eq!(calls, vec!['k']);
    assert_eq!(next, None);

    let (calls, next) = tick_recording(&mut keys, at(60));
    assert_eq!(calls, vec![]);
    assert_eq!(next, None);
}

#[test]
fn a_press_in_the_future_waits_for_its_time() {
    let mut keys = new_keys();
    keys.on_key_press(at(10), 'k');
    let (calls, next) = tick_recording(&mut keys, at(0));
    assert_eq!(calls, vec![]);
    assert_eq!(next, Some(at(10)));

    let (calls, next) = tick_recording(&mut keys, at(10));
    assert_eq!(calls, vec!['k']);
    assert_eq!(next, Some(at(15)));
}

#[test]
fn a_held_key_repeats_at_a_steady_cadence() {
    let mut keys = new_keys();
    keys.on_key_press(at(0), 'k');

    let (calls, next) = tick_recording(&mut keys, at(0));
    assert_eq!(calls, vec!['k']);
    assert_eq!(next, Some(at(5)));

    let (calls, next) = tick_recording(&mut keys, at(5));
    assert_eq!(calls, vec!['k']);
    assert_eq!(next, Some(at(6)));

    // Half a second before the repeat at nine seconds: the repeats at six,
    // seven and eight seconds are due.
    let now = at(8).plus(Duration::from_millis(500));
    let (calls, next) = tick_recording(&mut keys, now);
    assert_eq!(calls, vec!['k', 'k', 'k']);
    assert_eq!(next, Some(at(9)));

    let (calls, next) = tick_recording(&mut keys, at(9));
    assert_eq!(calls, vec!['k']);
    assert_eq!(next, Some(at(10)));

    let (calls, next) = tick_recording(&mut keys, at(109));
    assert_eq!(calls.len(), 100);
    assert_eq!(next, Some(at(110)));
}

#[test]
fn a_first_tick_after_the_threshold_delivers_the_press_and_the_repeats() {
    let mut keys = new_keys();
    keys.on_key_press(at(0), 'k');
    let (calls, next) = tick_recording(&mut keys, at(7));
    assert_eq!(calls, vec!['k', 'k', 'k', 'k']);
    assert_eq!(next, Some(at(8)));
}

#[test]
fn a_second_tick_at_the_same_instant_is_idle() {
    let mut keys = new_keys();
    keys.on_key_press(at(0), 'a');
    keys.on_key_press(at(3), 'b');
    keys.on_key_press(at(4), 'c');
    keys.on_key_release(at(6), 'c');

    let (calls, next) = tick_recording(&mut keys, at(7));
    assert_eq!(count(&calls, 'a'), 4);
    assert_eq!(count(&calls, 'b'), 1);
    assert_eq!(count(&calls, 'c'), 1);
    assert_eq!(calls.len(), 6);
    assert_eq!(next, Some(at(8)));

    for _ in 0..3 {
        let (calls, next) = tick_recording(&mut keys, at(7));
        assert_eq!(calls, vec![]);
        assert_eq!(next, Some(at(8)));
    }
}

#[test]
fn a_disabled_key_is_never_delivered_again() {
    let f_calls = Cell::new(0);
    let g_calls = Cell::new(0);
    let mut handler = |key: &char, repeat: &mut KeyRepeat| {
        assert!(matches!(repeat, KeyRepeat::Enabled));
        match key {
            'f' => {
                f_calls.set(f_calls.get() + 1);
                *repeat = KeyRepeat::Disabled;
            },
            _ => g_calls.set(g_calls.get() + 1),
        }
        0u8
    };

    let mut keys = new_keys();
    keys.on_key_press(at(0), 'f');
    keys.on_key_press(at(0), 'g');

    // Both keys are long overdue, but the first call for `f` is its last.
    let (_, next) = keys.tick(at(20), &mut handler);
    assert_eq!(f_calls.get(), 1);
    assert_eq!(g_calls.get(), 17);
    assert_eq!(next, Some(at(21)));

    for second in 21..40 {
        let (_, next) = keys.tick(at(second), &mut handler);
        assert_eq!(f_calls.get(), 1);
        assert_eq!(next, Some(at(second + 1)));
    }
    assert_eq!(g_calls.get(), 36);

    // The release of the key that went is fine, and changes nothing.
    assert!(keys.can_release(at(40), 'f'));
    keys.on_key_release(at(40), 'f');
    let (_, next) = keys.tick(at(40), &mut handler);
    assert_eq!(f_calls.get(), 1);
    assert_eq!(g_calls.get(), 37);
    assert_eq!(next, Some(at(41)));
}

#[test]
fn a_disabled_key_can_be_pressed_again() {
    let mut keys = new_keys();
    let mut disable = |_key: &char, repeat: &mut KeyRepeat| {
        *repeat = KeyRepeat::Disabled;
        1u8
    };
    keys.on_key_press(at(0), 'f');
    let (change, next) = keys.tick(at(0), &mut disable);
    assert_eq!(change, 1);
    assert_eq!(next, None);

    // Pressed again right away, before any other tick.
    keys.on_key_press(at(1), 'f');
    let (calls, next) = tick_recording(&mut keys, at(1));
    assert_eq!(calls, vec!['f']);
    assert_eq!(next, Some(at(6)));
}

#[test]
fn keys_that_went_in_one_tick_are_all_gone() {
    let mut keys = new_keys();
    for key in ['a', 'b', 'c', 'd', 'e'] {
        keys.on_key_press(at(0), key);
    }
    keys.on_key_press(at(0), 'z');
    let calls = Cell::new(0);
    let (any, next) = keys.tick(at(30), |key: &char, repeat: &mut KeyRepeat| {
        calls.set(calls.get() + 1);
        if *key != 'z' {
            *repeat = KeyRepeat::Disabled;
        }
        *key == 'z'
    });
    assert!(any);
    assert_eq!(calls.get(), 5 + 27);
    assert_eq!(next, Some(at(31)));

    for second in 31..40 {
        let (calls, next) = tick_recording(&mut keys, at(second));
        assert_eq!(calls, vec!['z']);
        assert_eq!(next, Some(at(second + 1)));
    }

    // Each of them starts afresh when it is pressed again.
    for key in ['a', 'b', 'c', 'd', 'e'] {
        keys.on_key_press(at(40), key);
    }
    let (calls, next) = tick_recording(&mut keys, at(40));
    assert_eq!(calls.len(), 6);
    for key in ['a', 'b', 'c', 'd', 'e', 'z'] {
        assert_eq!(count(&calls, key), 1);
    }
    assert_eq!(next, Some(at(41)));
}

#[test]
fn the_next_deadline_is_the_earliest_of_all_keys() {
    let mut keys = new_keys();
    keys.on_key_press(at(0), 'a');
    keys.on_key_press(at(2), 'b');
    keys.on_key_press(at(1), 'c');

    let (calls, next) = tick_recording(&mut keys, at(2));
    assert_eq!(calls.len(), 3);
    assert_eq!(next, Some(at(5)));

    // Released with nothing left to deliver, `a` has no deadline any more
    // and no say in the next one.
    keys.on_key_release(at(3), 'a');
    let (calls, next) = tick_recording(&mut keys, at(3));
    assert_eq!(calls, vec![]);
    assert_eq!(next, Some(at(6)));

    keys.on_key_release(at(4), 'c');
    let (calls, next) = tick_recording(&mut keys, at(4));
    assert_eq!(calls, vec![]);
    assert_eq!(next, Some(at(7)));

    keys.on_key_release(at(5), 'b');
    let (calls, next) = tick_recording(&mut keys, at(5));
    assert_eq!(calls, vec![]);
    assert_eq!(next, None);
}

#[test]
fn a_key_that_waits_sets_the_deadline_for_one_that_is_due() {
    let mut keys = new_keys();
    keys.on_key_press(at(0), 'a');
    keys.on_key_press(at(9), 'b');
    let (calls, next) = tick_recording(&mut keys, at(6));
    assert_eq!(calls, vec!['a', 'a', 'a']);
    assert_eq!(next, Some(at(7)));

    let (calls, next) = tick_recording(&mut keys, at(8));
    assert_eq!(calls, vec!['a', 'a']);
    assert_eq!(next, Some(at(9)));
}

#[test]
fn presses_and_releases_without_a_tick_add_up() {
    let mut keys = new_keys();
    keys.on_key_press(at(0), 'k');
    keys.on_key_release(at(1), 'k');
    keys.on_key_press(at(2), 'k');
    keys.on_key_release(at(3), 'k');
    keys.on_key_press(at(4), 'k');
    keys.on_key_release(at(10), 'k');
    // Two short presses, and one that was held for six seconds: the press,
    // the repeat at nine seconds and the one interval completed since.
    let (calls, next) = tick_recording(&mut keys, at(10));
    assert_eq!(calls, vec!['k', 'k', 'k', 'k', 'k']);
    assert_eq!(next, None);
}

#[test]
fn a_release_is_accepted_for_keys_that_are_down_only() {
    let mut keys = new_keys();
    keys.on_key_press(at(0), 'k');
    assert!(keys.can_release(at(1), 'k'));
    keys.on_key_release(at(1), 'k');
    assert!(!keys.can_release(at(2), 'k'));
    keys.on_key_press(at(2), 'k');
    assert!(keys.can_release(at(3), 'k'));

    let (calls, _next) = tick_recording(&mut keys, at(8));
    assert_eq!(calls.len(), 4);
    assert!(keys.can_release(at(8), 'k'));
}

#[test]
fn clear_forgets_every_key_without_a_call() {
    let mut keys = new_keys();
    keys.on_key_press(at(0), 'a');
    keys.on_key_press(at(0), 'b');
    keys.on_key_release(at(1), 'b');
    keys.clear();
    let (calls, next) = tick_recording(&mut keys, at(100));
    assert_eq!(calls, vec![]);
    assert_eq!(next, None);

    keys.on_key_press(at(100), 'a');
    let (calls, next) = tick_recording(&mut keys, at(100));
    assert_eq!(calls, vec!['a']);
    assert_eq!(next, Some(at(105)));
}

#[test]
fn the_results_of_all_calls_are_merged() {
    let mut keys: Keys<u32> = Keys::new(Duration::from_secs(5), Duration::from_secs(1));
    let (change, next) = keys.tick(at(0), |key: &u32, _repeat: &mut KeyRepeat| 1u32 << *key);
    assert_eq!(change, 0);
    assert_eq!(next, None);

    keys.on_key_press(at(0), 0);
    keys.on_key_press(at(0), 3);
    keys.on_key_press(at(1), 5);
    keys.on_key_press(at(9), 7);
    let (change, next) = keys.tick(at(2), |key: &u32, _repeat: &mut KeyRepeat| 1u32 << *key);
    assert_eq!(change, 0b10_1001);
    assert_eq!(next, Some(at(5)));

    let (change, next) = keys.tick(at(5), |key: &u32, _repeat: &mut KeyRepeat| 1u32 << *key);
    assert_eq!(change, 0b00_1001);
    assert_eq!(next, Some(at(6)));
}

#[test]
fn an_interval_need_not_divide_the_time_that_passed() {
    let mut keys: Keys<char> = Keys::new(Duration::from_millis(250), Duration::from_millis(300));
    keys.on_key_press(at(0), 'k');
    // Repeats at 250, 550 and 850 ms; the next one at 1150 ms.
    let (calls, next) = tick_recording(&mut keys, at(1));
    assert_eq!(calls, vec!['k', 'k', 'k', 'k']);
    assert_eq!(next, Some(at(1).plus(Duration::from_millis(150))));

    // Released at 2 s: the repeats at 1150, 1450 and 1750 ms are owed.
    keys.on_key_release(at(2), 'k');
    let (calls, next) = tick_recording(&mut keys, at(2));
    assert_eq!(calls, vec!['k', 'k', 'k']);
    assert_eq!(next, None);
}
