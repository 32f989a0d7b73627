//! The life of a single key: pressed, repeating, released with events still
//! owed.
//!
//! [`KeyModel`] is the state machine over unbounded integers; every rule of
//! the machine is a spec function on it. [`KeyState`] is the value the
//! registry stores, and each of its methods is proved to take the step that
//! the model prescribes.
use vstd::prelude::*;
use crate::time::deadline_view;
use crate::time::Duration;
use crate::time::Instant;

verus! {

/// What a [`KeyState`] stands for, with times and counts as unbounded
/// integers.
///
/// `backlog` counts the events that have accumulated for the key but were not
/// yet handed to a handler. `pressed_at` is the time of the press that the
/// state goes back to.
pub enum KeyModel {
    /// The key is down and has not started to repeat.
    Pressed { pressed_at: int, backlog: nat },
    /// The key is down and repeats; `next_repeat` is the next repeat's deadline.
    Repeated { pressed_at: int, next_repeat: int, backlog: nat },
    /// The key is up again, with `backlog` events still to deliver.
    ReleasePending { pressed_at: int, backlog: nat },
}

/// The repeats that a release at `now` accounts for, for a key whose next
/// repeat was scheduled at `next_repeat`: none up to and including that
/// deadline; after it the repeat at the deadline itself and one more for each
/// full interval that has passed since.
pub open spec fn missed_repeats(next_repeat: int, now: int, interval: int) -> nat {
    if now > next_repeat {
        ((now - next_repeat) / interval + 1) as nat
    } else {
        0
    }
}

/// The repeats that are due at `now` for a key that repeats every `interval`
/// from `next_repeat` on: those scheduled at `next_repeat`,
/// `next_repeat + interval`, ... up to and including `now`.
pub open spec fn repeats_due(next_repeat: int, now: int, interval: int) -> nat {
    if now >= next_repeat {
        ((now - next_repeat) / interval + 1) as nat
    } else {
        0
    }
}

impl KeyModel {
    /// The state of a key at its first press.
    pub open spec fn pressed(now: int) -> KeyModel {
        KeyModel::Pressed { pressed_at: now, backlog: 0 }
    }

    /// The time of the press this state goes back to.
    pub open spec fn pressed_at(self) -> int {
        match self {
            KeyModel::Pressed { pressed_at, .. } => pressed_at,
            KeyModel::Repeated { pressed_at, .. } => pressed_at,
            KeyModel::ReleasePending { pressed_at, .. } => pressed_at,
        }
    }

    /// The number of events accumulated and not yet delivered.
    pub open spec fn backlog(self) -> nat {
        match self {
            KeyModel::Pressed { backlog, .. } => backlog,
            KeyModel::Repeated { backlog, .. } => backlog,
            KeyModel::ReleasePending { backlog, .. } => backlog,
        }
    }

    /// Whether every time and count of this state can be stored in 64 bits.
    pub open spec fn fits(self) -> bool {
        match self {
            KeyModel::Pressed { pressed_at, backlog } => {
                0 <= pressed_at <= u64::MAX && backlog <= u64::MAX
            },
            KeyModel::Repeated { pressed_at, next_repeat, backlog } => {
                0 <= pressed_at <= u64::MAX && 0 <= next_repeat <= u64::MAX && backlog <= u64::MAX
            },
            KeyModel::ReleasePending { pressed_at, backlog } => {
                0 <= pressed_at <= u64::MAX && backlog <= u64::MAX
            },
        }
    }

    /// The state after a press at `now`.
    ///
    /// A press of a key that is already down is noise and changes nothing. A
    /// press of a released key restarts the clock and keeps the backlog.
    pub open spec fn on_press(self, now: int) -> KeyModel {
        match self {
            KeyModel::Pressed { .. } | KeyModel::Repeated { .. } => self,
            KeyModel::ReleasePending { backlog, .. } => KeyModel::Pressed {
                pressed_at: now,
                backlog,
            },
        }
    }

    /// The state after a release at `now`.
    ///
    /// The press itself is an event that a key released from `Pressed` still
    /// owes; on top of it come the repeats that the release has missed. To
    /// release a key that was released already is an error of the caller;
    /// the model leaves such a key as it is.
    pub open spec fn on_release(self, now: int, timeout: int, interval: int) -> KeyModel {
        match self {
            KeyModel::Pressed { pressed_at, backlog } => KeyModel::ReleasePending {
                pressed_at,
                backlog: backlog + 1 + missed_repeats(pressed_at + timeout, now, interval),
            },
            KeyModel::Repeated { pressed_at, next_repeat, backlog } => KeyModel::ReleasePending {
                pressed_at,
                backlog: backlog + missed_repeats(next_repeat, now, interval),
            },
            KeyModel::ReleasePending { .. } => self,
        }
    }

    /// When the next event of this key is due, if one is.
    pub open spec fn next_due(self) -> Option<int> {
        match self {
            KeyModel::Pressed { pressed_at, .. } => Some(pressed_at),
            KeyModel::Repeated { pressed_at, next_repeat, backlog } => if backlog > 0 {
                Some(pressed_at)
            } else {
                Some(next_repeat)
            },
            KeyModel::ReleasePending { pressed_at, backlog } => if backlog > 0 {
                Some(pressed_at)
            } else {
                None
            },
        }
    }

    /// Whether an event of this key is due at `now`.
    pub open spec fn is_due(self, now: int) -> bool {
        self.next_due() matches Some(due) && due <= now
    }

    /// The state after one due event has been delivered.
    pub open spec fn advance(self, timeout: int, interval: int) -> KeyModel {
        match self {
            KeyModel::Pressed { pressed_at, backlog } => if backlog > 0 {
                KeyModel::Pressed { pressed_at, backlog: (backlog - 1) as nat }
            } else {
                KeyModel::Repeated { pressed_at, next_repeat: pressed_at + timeout, backlog: 0 }
            },
            KeyModel::Repeated { pressed_at, next_repeat, backlog } => if backlog > 0 {
                KeyModel::Repeated { pressed_at, next_repeat, backlog: (backlog - 1) as nat }
            } else {
                KeyModel::Repeated { pressed_at, next_repeat: next_repeat + interval, backlog: 0 }
            },
            KeyModel::ReleasePending { pressed_at, backlog } => KeyModel::ReleasePending {
                pressed_at,
                backlog: if backlog > 0 {
                    (backlog - 1) as nat
                } else {
                    0
                },
            },
        }
    }

    /// The number of events of this key that are due at `now`.
    pub open spec fn due_events(self, now: int, timeout: int, interval: int) -> nat {
        match self {
            KeyModel::Pressed { pressed_at, backlog } => if pressed_at <= now {
                backlog + 1 + repeats_due(pressed_at + timeout, now, interval)
            } else {
                0
            },
            KeyModel::Repeated { pressed_at, next_repeat, backlog } => if backlog == 0 {
                repeats_due(next_repeat, now, interval)
            } else if pressed_at <= now {
                backlog + repeats_due(next_repeat, now, interval)
            } else {
                0
            },
            KeyModel::ReleasePending { pressed_at, backlog } => if pressed_at <= now {
                backlog
            } else {
                0
            },
        }
    }

    /// The state after every event that is due at `now` has been delivered,
    /// one at a time.
    pub open spec fn drain(self, now: int, timeout: int, interval: int) -> KeyModel
        decreases self.due_events(now, timeout, interval),
        when interval > 0
        via Self::drain_terminates
    {
        if self.is_due(now) {
            self.advance(timeout, interval).drain(now, timeout, interval)
        } else {
            self
        }
    }

    #[via_fn]
    proof fn drain_terminates(self, now: int, timeout: int, interval: int) {
        if self.is_due(now) {
            lemma_delivery_counts_down(self, now, timeout, interval);
        }
    }
}

/// The state a single tracked key is in.
#[derive(Clone, Copy, Debug, PartialEq, Eq)]
pub enum KeyState {
    /// The key is down and has not started to repeat.
    Pressed { pressed_at: Instant, fire_count: u64 },
    /// The key is down and repeats; `next_repeat` is the next repeat's deadline.
    Repeated { pressed_at: Instant, next_repeat: Instant, fire_count: u64 },
    /// The key is up again, with `fire_count` events still to deliver.
    ReleasePending { pressed_at: Instant, fire_count: u64 },
}

impl View for KeyState {
    type V = KeyModel;

    open spec fn view(&self) -> KeyModel {
        match *self {
            KeyState::Pressed { pressed_at, fire_count } => KeyModel::Pressed {
                pressed_at: pressed_at@,
                backlog: fire_count as nat,
            },
            KeyState::Repeated { pressed_at, next_repeat, fire_count } => KeyModel::Repeated {
                pressed_at: pressed_at@,
                next_repeat: next_repeat@,
                backlog: fire_count as nat,
            },
            KeyState::ReleasePending { pressed_at, fire_count } => KeyModel::ReleasePending {
                pressed_at: pressed_at@,
                backlog: fire_count as nat,
            },
        }
    }
}

impl KeyState {
    /// The state of a key at its first press.
    pub fn pressed(pressed_at: Instant) -> (state: KeyState)
        ensures
            state@ == KeyModel::pressed(pressed_at@),
    {
        KeyState::Pressed { pressed_at, fire_count: 0 }
    }

    /// Record a press at `now`.
    pub fn on_press(&mut self, now: Instant)
        ensures
            final(self)@ == old(self)@.on_press(now@),
    {
        match *self {
            KeyState::Pressed { .. } | KeyState::Repeated { .. } => {
                // The key is down already, so this is the system's own
                // auto-repeat. Repeats are made here, not taken from outside.
            },
            KeyState::ReleasePending { fire_count, .. } => {
                // The key had been released with events still undelivered.
                // It is down again; the events carry over.
                *self = KeyState::Pressed { pressed_at: now, fire_count };
            },
        }
    }

    /// Whether a release at `now` may be recorded: the key is down, and the
    /// backlog that the release leaves can be stored.
    pub open spec fn releasable(self, now: int, timeout: int, interval: int) -> bool {
        &&& !(self is ReleasePending)
        &&& self@.on_release(now, timeout, interval).fits()
    }

    /// Decide whether a release at `now` may be recorded.
    pub fn can_release(&self, now: Instant, timeout: Duration, interval: Duration) -> (ok: bool)
        requires
            interval@ > 0,
        ensures
            ok == self.releasable(now@, timeout@, interval@),
    {
        match *self {
            KeyState::Pressed { pressed_at, fire_count } => {
                let missed = if reached(now, pressed_at, timeout) {
                    count_missed(pressed_at.plus(timeout), now, interval)
                } else {
                    assert(missed_repeats(pressed_at@ + timeout@, now@, interval@) == 0);
                    Some(0)
                };
                match missed {
                    Some(missed) => fire_count < u64::MAX && missed <= u64::MAX - 1 - fire_count,
                    None => false,
                }
            },
            KeyState::Repeated { next_repeat, fire_count, .. } => {
                match count_missed(next_repeat, now, interval) {
                    Some(missed) => missed <= u64::MAX - fire_count,
                    None => false,
                }
            },
            KeyState::ReleasePending { .. } => false,
        }
    }

    /// Record a release at `now`.
    ///
    /// The key must be down: a release of a key that was released already
    /// means that events reached the registry out of order.
    pub fn on_release(&mut self, now: Instant, timeout: Duration, interval: Duration)
        requires
            interval@ > 0,
            old(self).releasable(now@, timeout@, interval@),
        ensures
            final(self)@ == old(self)@.on_release(now@, timeout@, interval@),
    {
        // A key released at or after its repeat threshold has been repeating
        // in all but name: the press itself becomes backlog.
        if let KeyState::Pressed { pressed_at, fire_count } = *self {
            if reached(now, pressed_at, timeout) {
                *self = KeyState::Repeated {
                    pressed_at,
                    next_repeat: pressed_at.plus(timeout),
                    fire_count: fire_count + 1,
                };
            }
        }
        match *self {
            KeyState::Pressed { pressed_at, fire_count } => {
                *self = KeyState::ReleasePending { pressed_at, fire_count: fire_count + 1 };
            },
            KeyState::Repeated { pressed_at, next_repeat, fire_count } => {
                let elapsed = now.saturating_duration_since(next_repeat);
                let mut count = fire_count + elapsed.nanos / interval.nanos;
                // If `now` is past the next repeat, take that repeat into
                // account as well.
                if now.nanos > next_repeat.nanos {
                    count += 1;
                }
                *self = KeyState::ReleasePending { pressed_at, fire_count: count };
            },
            KeyState::ReleasePending { .. } => {},
        }
    }

    /// When the next event of this key is due, if one is.
    pub fn next_tick(&self) -> (due: Option<Instant>)
        ensures
            deadline_view(due) == self@.next_due(),
    {
        match *self {
            KeyState::Pressed { pressed_at, .. } => Some(pressed_at),
            KeyState::Repeated { pressed_at, next_repeat, fire_count } => {
                if fire_count > 0 {
                    Some(pressed_at)
                } else {
                    Some(next_repeat)
                }
            },
            KeyState::ReleasePending { pressed_at, fire_count } => {
                if fire_count > 0 {
                    Some(pressed_at)
                } else {
                    None
                }
            },
        }
    }

    /// Account for the delivery of one due event.
    ///
    /// To be called only once the instant that [`KeyState::next_tick`]
    /// reports has been reached.
    pub fn tick(&mut self, timeout: Duration, interval: Duration)
        requires
            old(self)@.advance(timeout@, interval@).fits(),
        ensures
            final(self)@ == old(self)@.advance(timeout@, interval@),
    {
        match *self {
            KeyState::Pressed { pressed_at, fire_count } => {
                if let Some(count) = fire_count.checked_sub(1) {
                    *self = KeyState::Pressed { pressed_at, fire_count: count };
                } else {
                    *self = KeyState::Repeated {
                        pressed_at,
                        next_repeat: pressed_at.plus(timeout),
                        fire_count: 0,
                    };
                }
            },
            KeyState::Repeated { pressed_at, next_repeat, fire_count } => {
                if let Some(count) = fire_count.checked_sub(1) {
                    *self = KeyState::Repeated { pressed_at, next_repeat, fire_count: count };
                } else {
                    *self = KeyState::Repeated {
                        pressed_at,
                        next_repeat: next_repeat.plus(interval),
                        fire_count: 0,
                    };
                }
            },
            KeyState::ReleasePending { pressed_at, fire_count } => {
                *self = KeyState::ReleasePending {
                    pressed_at,
                    fire_count: fire_count.saturating_sub(1),
                };
            },
        }
    }
}

/// Whether `now` is at or past the repeat threshold of a key pressed at
/// `pressed_at`.
fn reached(now: Instant, pressed_at: Instant, timeout: Duration) -> (at_or_past: bool)
    ensures
        at_or_past == (now@ >= pressed_at@ + timeout@),
{
    now.nanos >= pressed_at.nanos && now.nanos - pressed_at.nanos >= timeout.nanos
}

/// The repeats that a release at `now` accounts for, where a `u64` can hold
/// their number.
fn count_missed(next_repeat: Instant, now: Instant, interval: Duration) -> (missed: Option<u64>)
    requires
        interval@ > 0,
    ensures
        match missed {
            Some(count) => count == missed_repeats(next_repeat@, now@, interval@),
            None => missed_repeats(next_repeat@, now@, interval@) > u64::MAX,
        },
{
    if now.nanos > next_repeat.nanos {
        let elapsed = now.saturating_duration_since(next_repeat);
        (elapsed.nanos / interval.nanos).checked_add(1)
    } else {
        Some(0)
    }
}

/// Delivering one due event leaves exactly one event less to deliver.
pub proof fn lemma_delivery_counts_down(state: KeyModel, now: int, timeout: int, interval: int)
    requires
        interval > 0,
        state.is_due(now),
    ensures
        state.advance(timeout, interval).due_events(now, timeout, interval) + 1
            == state.due_events(now, timeout, interval),
{
    match state {
        KeyModel::Pressed { pressed_at, backlog } => {},
        KeyModel::Repeated { pressed_at, next_repeat, backlog } => {
            if backlog == 0 {
                lemma_repeats_due_step(next_repeat, now, interval);
            }
        },
        KeyModel::ReleasePending { pressed_at, backlog } => {},
    }
}

/// An event is due at `now` exactly if the count of due events is not zero.
pub proof fn lemma_due_has_events(state: KeyModel, now: int, timeout: int, interval: int)
    requires
        interval > 0,
    ensures
        state.is_due(now) <==> state.due_events(now, timeout, interval) > 0,
{
    match state {
        KeyModel::Pressed { pressed_at, backlog } => {
            lemma_repeats_due_sign(pressed_at + timeout, now, interval);
        },
        KeyModel::Repeated { pressed_at, next_repeat, backlog } => {
            lemma_repeats_due_sign(next_repeat, now, interval);
        },
        KeyModel::ReleasePending { pressed_at, backlog } => {},
    }
}

/// A repeat is due at `now` exactly if `now` has reached the next deadline.
pub proof fn lemma_repeats_due_sign(next_repeat: int, now: int, interval: int)
    requires
        interval > 0,
    ensures
        repeats_due(next_repeat, now, interval) > 0 <==> next_repeat <= now,
{
    if next_repeat <= now {
        vstd::arithmetic::div_mod::lemma_div_pos_is_pos(now - next_repeat, interval);
    }
}

/// Draining a state delivers its due events one after the other: the first
/// now, the rest from the state that the first delivery leaves.
pub proof fn lemma_drain_unfolds(state: KeyModel, now: int, timeout: int, interval: int)
    requires
        interval > 0,
    ensures
        state.drain(now, timeout, interval) == if state.is_due(now) {
            state.advance(timeout, interval).drain(now, timeout, interval)
        } else {
            state
        },
{
}

/// A drained state has no event due.
pub proof fn lemma_drain_settles(state: KeyModel, now: int, timeout: int, interval: int)
    requires
        interval > 0,
    ensures
        !state.drain(now, timeout, interval).is_due(now),
        state.drain(now, timeout, interval).due_events(now, timeout, interval) == 0,
    decreases state.due_events(now, timeout, interval),
{
    if state.is_due(now) {
        lemma_delivery_counts_down(state, now, timeout, interval);
        lemma_drain_settles(state.advance(timeout, interval), now, timeout, interval);
    }
    lemma_due_has_events(state.drain(now, timeout, interval), now, timeout, interval);
}

/// Of the repeats due from `next_repeat` on, all but the first are due from
/// `next_repeat + interval` on.
pub proof fn lemma_repeats_due_step(next_repeat: int, now: int, interval: int)
    requires
        interval > 0,
        next_repeat <= now,
    ensures
        repeats_due(next_repeat + interval, now, interval) + 1 == repeats_due(
            next_repeat,
            now,
            interval,
        ),
{
    let elapsed = now - next_repeat;
    if elapsed >= interval {
        vstd::arithmetic::div_mod::lemma_div_minus_one(elapsed, interval);
    } else {
        vstd::arithmetic::div_mod::lemma_basic_div(elapsed, interval);
    }
}

} // verus!
