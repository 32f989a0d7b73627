//! What follows from the rules: laws of the key state machine and of ticks,
//! each proved from the definitions in [`crate::state`] and
//! [`crate::outcome`].
use vstd::prelude::*;
use crate::keys::press_result;
use crate::keys::release_result;
use crate::outcome::deliveries_for;
use crate::outcome::is_earliest_deadline;
use crate::outcome::key_outcome;
use crate::outcome::lemma_call_is_among_deliveries;
use crate::outcome::lemma_delivery_is_in_log;
use crate::outcome::reclaimed_one;
use crate::outcome::tick_outcome;
use crate::outcome::Delivery;
use crate::state::lemma_delivery_counts_down;
use crate::state::lemma_drain_settles;
use crate::state::lemma_due_has_events;
use crate::state::lemma_repeats_due_sign;
use crate::state::KeyModel;

verus! {

/// How the backlog moves: a press keeps it, a release never lowers it and
/// adds the press itself for a key that had not started to repeat, and a
/// delivery takes exactly one event off it as long as there is one.
pub proof fn law_backlog_moves(state: KeyModel, now: int, timeout: int, interval: int)
    requires
        interval > 0,
    ensures
        state.on_press(now).backlog() == state.backlog(),
        state.on_release(now, timeout, interval).backlog() >= state.backlog(),
        state is Pressed ==> state.on_release(now, timeout, interval).backlog() > state.backlog(),
        state.advance(timeout, interval).backlog() == if state.backlog() > 0 {
            state.backlog() - 1
        } else {
            0
        },
{
}

/// How the time of the press moves: it is set anew when a released key is
/// pressed again, and by nothing else.
pub proof fn law_press_time_moves(state: KeyModel, now: int, timeout: int, interval: int)
    ensures
        state.on_press(now).pressed_at() == if state is ReleasePending {
            now
        } else {
            state.pressed_at()
        },
        state.on_release(now, timeout, interval).pressed_at() == state.pressed_at(),
        state.advance(timeout, interval).pressed_at() == state.pressed_at(),
{
}

/// The release of a key that is not tracked changes nothing.
pub proof fn law_release_of_untracked_key<K>(
    live: Map<K, KeyModel>,
    tombstones: Set<K>,
    now: int,
    key: K,
    timeout: int,
    interval: int,
)
    requires
        !live.contains_key(key),
        !tombstones.contains(key),
    ensures
        release_result(live, now, key, timeout, interval) == live,
        tombstones.remove(key) == tombstones,
{
    assert(tombstones.remove(key) =~= tombstones);
}

/// A tick calls the handler for live keys only: for a key that is not live
/// the record holds no call, and the key is not live afterwards either.
pub proof fn law_tick_skips_untracked_keys<K, C>(
    before: Map<K, KeyModel>,
    now: int,
    timeout: int,
    interval: int,
    log: Seq<Delivery<K, C>>,
    after: Map<K, KeyModel>,
    key: K,
)
    requires
        tick_outcome(before, now, timeout, interval, log, after),
        !before.contains_key(key),
    ensures
        forall|i: int| 0 <= i < log.len() ==> (#[trigger] log[i]).key != key,
        !after.contains_key(key),
{
    assert(deliveries_for(log, key).len() == 0);
    assert forall|i: int| 0 <= i < log.len() implies (#[trigger] log[i]).key != key by {
        if log[i].key == key {
            lemma_call_is_among_deliveries(log, i);
        }
    }
}

/// With a handler that disables no key, a tick is as good as determined:
/// every live key gets a call for each of its due events, and stays, drained
/// of them, unless it has nothing left to wait for.
pub proof fn law_tick_without_disabling<K, C>(
    before: Map<K, KeyModel>,
    now: int,
    timeout: int,
    interval: int,
    log: Seq<Delivery<K, C>>,
    after: Map<K, KeyModel>,
    key: K,
)
    requires
        tick_outcome(before, now, timeout, interval, log, after),
        forall|i: int| 0 <= i < log.len() ==> !(#[trigger] log[i]).disabled,
        before.contains_key(key),
    ensures
        deliveries_for(log, key).len() == before[key].due_events(now, timeout, interval),
        after.get(key) == if before[key].drain(now, timeout, interval).next_due() is None {
            None
        } else {
            Some(before[key].drain(now, timeout, interval))
        },
{
    let calls = deliveries_for(log, key);
    assert(key_outcome(before[key], now, timeout, interval, calls, after.get(key)));
    if calls.len() > 0 {
        lemma_delivery_is_in_log(log, key, calls.len() - 1);
        let i = choose|i: int| 0 <= i < log.len() && log[i] == calls.last();
        assert(!log[i].disabled);
    }
}

/// A key that is pressed and released at the same instant owes exactly one
/// event, the press itself: whenever it is ticked from that instant on, one
/// event is due, and once that is delivered the key has nothing to wait for.
pub proof fn law_press_and_release_at_once(at: int, now: int, timeout: int, interval: int)
    requires
        timeout >= 0,
        interval > 0,
        at <= now,
    ensures
        ({
            let released = KeyModel::pressed(at).on_release(at, timeout, interval);
            &&& released == KeyModel::ReleasePending { pressed_at: at, backlog: 1 }
            &&& released.due_events(now, timeout, interval) == 1
            &&& released.drain(now, timeout, interval).next_due() is None
        }),
{
    reveal_with_fuel(KeyModel::drain, 3);
}

/// In the registry: a key that was not tracked, and is pressed and released
/// at the same instant with no tick in between, gets exactly one call from
/// the next tick and is gone after it, whatever the handler answers.
pub proof fn law_tick_after_press_and_release_at_once<K, C>(
    live: Map<K, KeyModel>,
    key: K,
    at: int,
    now: int,
    timeout: int,
    interval: int,
    log: Seq<Delivery<K, C>>,
    after: Map<K, KeyModel>,
)
    requires
        !live.contains_key(key),
        timeout >= 0,
        interval > 0,
        at <= now,
        tick_outcome(
            release_result(press_result(live, at, key), at, key, timeout, interval),
            now,
            timeout,
            interval,
            log,
            after,
        ),
    ensures
        deliveries_for(log, key).len() == 1,
        !after.contains_key(key),
{
    let before = release_result(press_result(live, at, key), at, key, timeout, interval);
    law_press_and_release_at_once(at, now, timeout, interval);
    assert(before.contains_key(key));
    assert(before[key] == KeyModel::pressed(at).on_release(at, timeout, interval));
    assert(key_outcome(
        before[key],
        now,
        timeout,
        interval,
        deliveries_for(log, key),
        after.get(key),
    ));
}

/// A key that is pressed again before the backlog of its release is drained
/// carries the backlog forward: ticked before the new press has reached its
/// repeat threshold, it has the backlog and the new press due, and waits for
/// its first repeat one timeout after the new press.
pub proof fn law_press_carries_backlog(
    released: KeyModel,
    pressed_at: int,
    now: int,
    timeout: int,
    interval: int,
)
    requires
        released is ReleasePending,
        interval > 0,
        pressed_at <= now < pressed_at + timeout,
    ensures
        ({
            let again = released.on_press(pressed_at);
            &&& again == KeyModel::Pressed { pressed_at, backlog: released.backlog() }
            &&& again.due_events(now, timeout, interval) == released.backlog() + 1
            &&& again.drain(now, timeout, interval) == KeyModel::Repeated {
                pressed_at,
                next_repeat: pressed_at + timeout,
                backlog: 0,
            }
        }),
{
    lemma_drain_of_pressed(released.on_press(pressed_at), now, timeout, interval);
}

/// A pressed key that is ticked before its repeat threshold delivers its
/// backlog and the press, and is left waiting for its first repeat.
proof fn lemma_drain_of_pressed(state: KeyModel, now: int, timeout: int, interval: int)
    requires
        state is Pressed,
        interval > 0,
        state.pressed_at() <= now < state.pressed_at() + timeout,
    ensures
        state.drain(now, timeout, interval) == (KeyModel::Repeated {
            pressed_at: state.pressed_at(),
            next_repeat: state.pressed_at() + timeout,
            backlog: 0,
        }),
    decreases state.backlog(),
{
    reveal_with_fuel(KeyModel::drain, 2);
    if state.backlog() > 0 {
        lemma_drain_of_pressed(state.advance(timeout, interval), now, timeout, interval);
    }
}

/// A key that is released at or after its repeat threshold has in effect been
/// repeating: its release does what the release of a repeating key does that
/// has the press as backlog and its first repeat scheduled at the threshold.
/// It owes the press, the repeat at the threshold if the release came after
/// it, and one repeat for each full interval between threshold and release.
pub proof fn law_release_after_threshold(
    pressed_at: int,
    backlog: nat,
    now: int,
    timeout: int,
    interval: int,
)
    requires
        interval > 0,
        now >= pressed_at + timeout,
    ensures
        ({
            let pressed = KeyModel::Pressed { pressed_at, backlog };
            let promoted = KeyModel::Repeated {
                pressed_at,
                next_repeat: pressed_at + timeout,
                backlog: backlog + 1,
            };
            let missed: int = if now > pressed_at + timeout {
                (now - pressed_at - timeout) / interval + 1
            } else {
                0
            };
            &&& pressed.on_release(now, timeout, interval) == promoted.on_release(
                now,
                timeout,
                interval,
            )
            &&& pressed.on_release(now, timeout, interval) == KeyModel::ReleasePending {
                pressed_at,
                backlog: (backlog + 1 + missed) as nat,
            }
        }),
{
    if now > pressed_at + timeout {
        vstd::arithmetic::div_mod::lemma_div_pos_is_pos(now - pressed_at - timeout, interval);
    }
}

/// The cadence of a repeating key: ticked at or after its next repeat, it
/// delivers that repeat and one more for each full interval that has passed
/// since, and the repeat it waits for next lies exactly one interval past the
/// last one delivered, in the future.
pub proof fn law_repeat_cadence(
    pressed_at: int,
    next_repeat: int,
    now: int,
    timeout: int,
    interval: int,
)
    requires
        interval > 0,
        next_repeat <= now,
    ensures
        ({
            let repeating = KeyModel::Repeated { pressed_at, next_repeat, backlog: 0 };
            let delivered = repeating.due_events(now, timeout, interval);
            let last = next_repeat + (delivered - 1) * interval;
            &&& delivered == (now - next_repeat) / interval + 1
            &&& last <= now < last + interval
            &&& repeating.drain(now, timeout, interval) == KeyModel::Repeated {
                pressed_at,
                next_repeat: last + interval,
                backlog: 0,
            }
        }),
    decreases now - next_repeat,
{
    let repeating = KeyModel::Repeated { pressed_at, next_repeat, backlog: 0 };
    let delivered = repeating.due_events(now, timeout, interval);
    lemma_repeats_due_sign(next_repeat, now, interval);
    lemma_delivery_counts_down(repeating, now, timeout, interval);
    reveal_with_fuel(KeyModel::drain, 2);
    if next_repeat + interval <= now {
        law_repeat_cadence(pressed_at, next_repeat + interval, now, timeout, interval);
        let rest = (delivered - 1) as int;
        assert(next_repeat + interval + (rest - 1) * interval == next_repeat + rest * interval)
            by (nonlinear_arith);
    } else {
        lemma_repeats_due_sign(next_repeat + interval, now, interval);
        assert(delivered == 1);
        assert((delivered - 1) * interval == 0) by (nonlinear_arith)
            requires
                delivered == 1,
        ;
    }
}

/// A key that the handler disables is dropped by that very tick, and the call
/// that disabled it is the last one made for it.
pub proof fn law_disabled_key_is_dropped<K, C>(
    before: Map<K, KeyModel>,
    now: int,
    timeout: int,
    interval: int,
    log: Seq<Delivery<K, C>>,
    after: Map<K, KeyModel>,
    i: int,
)
    requires
        tick_outcome(before, now, timeout, interval, log, after),
        0 <= i < log.len(),
        log[i].disabled,
    ensures
        !after.contains_key(log[i].key),
        forall|j: int| i < j < log.len() ==> (#[trigger] log[j]).key != log[i].key,
{
    let key = log[i].key;
    let calls = deliveries_for(log, key);
    lemma_call_is_among_deliveries(log, i);
    let at = choose|at: int| 0 <= at < calls.len() && calls[at] == log[i];
    assert(calls[at].disabled);
    if !before.contains_key(key) {
        assert(calls.len() == 0);
    }
    assert(key_outcome(before[key], now, timeout, interval, calls, after.get(key)));
    assert(at == calls.len() - 1);
    assert forall|j: int| i < j < log.len() implies (#[trigger] log[j]).key != key by {
        if log[j].key == key {
            let wanted = |delivery: Delivery<K, C>| delivery.key == key;
            let head = log.take(j);
            let tail = log.skip(j);
            assert(log == head + tail);
            Seq::filter_distributes_over_add(head, tail, wanted);
            assert(head[i] == log[i]);
            head.lemma_filter_contains(wanted, i);
            let first = choose|first: int|
                0 <= first < head.filter(wanted).len() && head.filter(wanted)[first] == log[i];
            assert(tail[0] == log[j]);
            tail.lemma_filter_contains(wanted, 0);
            assert(tail.filter(wanted).len() > 0);
            assert(calls[first] == log[i]);
            assert(first < calls.len() - 1);
        }
    }
}

/// A key that went does not linger: of the tombstones that a tick finds or
/// makes it reclaims one, so that ticks which make no new ones run out of
/// them.
pub proof fn law_tick_reclaims_a_tombstone<K>(dead: Set<K>, remaining: Set<K>)
    requires
        dead.finite(),
        reclaimed_one(dead, remaining),
    ensures
        remaining.finite(),
        remaining.subset_of(dead),
        remaining.len() == if dead.len() == 0 {
            0
        } else {
            dead.len() - 1
        },
{
    if dead =~= Set::<K>::empty() {
        assert(remaining.len() == 0);
    } else {
        let key = choose|key: K| #[trigger] dead.contains(key) && remaining == dead.remove(key);
        assert(dead.len() > 0) by {
            if dead.len() == 0 {
                dead.lemma_len0_is_empty();
            }
        }
    }
}

/// A second tick at the same instant, with no event in between, does nothing:
/// it makes no call, leaves every key as it is, and reports the deadline
/// that the first tick reported.
pub proof fn law_tick_again_is_idle<K, C>(
    before: Map<K, KeyModel>,
    now: int,
    timeout: int,
    interval: int,
    log: Seq<Delivery<K, C>>,
    after: Map<K, KeyModel>,
    deadline: Option<int>,
    again: Seq<Delivery<K, C>>,
    settled: Map<K, KeyModel>,
    deadline_again: Option<int>,
)
    requires
        interval > 0,
        tick_outcome(before, now, timeout, interval, log, after),
        is_earliest_deadline(after, deadline),
        tick_outcome(after, now, timeout, interval, again, settled),
        is_earliest_deadline(settled, deadline_again),
    ensures
        again.len() == 0,
        settled == after,
        deadline_again == deadline,
{
    assert forall|key: K| after.contains_key(key) implies settled.contains_key(key)
        && settled[key] == after[key] && deliveries_for(again, key).len() == 0 by {
        assert(before.contains_key(key));
        assert(key_outcome(
            before[key],
            now,
            timeout,
            interval,
            deliveries_for(log, key),
            after.get(key),
        ));
        lemma_drain_settles(before[key], now, timeout, interval);
        lemma_due_has_events(after[key], now, timeout, interval);
        assert(key_outcome(
            after[key],
            now,
            timeout,
            interval,
            deliveries_for(again, key),
            settled.get(key),
        ));
    }
    assert forall|key: K| settled.contains_key(key) implies after.contains_key(key) by {}
    assert(settled =~= after);
    if again.len() > 0 {
        lemma_call_is_among_deliveries(again, 0);
        assert(deliveries_for(again, again[0].key).len() > 0);
    }
    law_earliest_deadline_is_unique(after, deadline, deadline_again);
}

/// There is one earliest deadline: two that both are the earliest among the
/// same keys are the same.
pub proof fn law_earliest_deadline_is_unique<K>(
    live: Map<K, KeyModel>,
    one: Option<int>,
    other: Option<int>,
)
    requires
        is_earliest_deadline(live, one),
        is_earliest_deadline(live, other),
    ensures
        one == other,
{
}

/// A key without a due time has no part in the earliest deadline: the
/// deadline is the same with the key and without it.
pub proof fn law_idle_key_sets_no_deadline<K>(
    live: Map<K, KeyModel>,
    deadline: Option<int>,
    key: K,
)
    requires
        live.contains_key(key) ==> live[key].next_due() is None,
    ensures
        is_earliest_deadline(live, deadline) <==> is_earliest_deadline(live.remove(key), deadline),
{
    let rest = live.remove(key);
    assert forall|other: K| rest.contains_key(other) implies live.contains_key(other)
        && live[other] == rest[other] by {}
    if is_earliest_deadline(live, deadline) {
        if let Some(earliest) = deadline {
            let holder = choose|holder: K| #[trigger]
                live.contains_key(holder) && live[holder].next_due() == Some(earliest);
            assert(rest.contains_key(holder) && rest[holder].next_due() == Some(earliest));
        }
    }
    if is_earliest_deadline(rest, deadline) {
        match deadline {
            Some(earliest) => {
                let holder = choose|holder: K| #[trigger]
                    rest.contains_key(holder) && rest[holder].next_due() == Some(earliest);
                assert(live.contains_key(holder) && live[holder].next_due() == Some(earliest));
                assert forall|other: K| #[trigger] live.contains_key(other) implies match live[other]
                    .next_due() {
                    Some(due) => earliest <= due,
                    None => true,
                } by {
                    if other != key {
                        assert(rest.contains_key(other));
                    }
                }
            },
            None => {
                assert forall|other: K| #[trigger]
                    live.contains_key(other) implies live[other].next_due() is None by {
                    if other != key {
                        assert(rest.contains_key(other));
                    }
                }
            },
        }
    }
}

/// After a tick every key that is still live waits for an event that lies in
/// the future.
pub proof fn law_tick_leaves_nothing_due<K, C>(
    before: Map<K, KeyModel>,
    now: int,
    timeout: int,
    interval: int,
    log: Seq<Delivery<K, C>>,
    after: Map<K, KeyModel>,
    key: K,
)
    requires
        interval > 0,
        tick_outcome(before, now, timeout, interval, log, after),
        after.contains_key(key),
    ensures
        after[key].next_due() matches Some(due) && due > now,
{
    assert(before.contains_key(key));
    assert(key_outcome(
        before[key],
        now,
        timeout,
        interval,
        deliveries_for(log, key),
        after.get(key),
    ));
    lemma_drain_settles(before[key], now, timeout, interval);
}

} // verus!
