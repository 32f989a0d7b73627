//! The registry of tracked keys.
//!
//! [`Keys`] holds the state of every key that is down or still has events to
//! deliver, takes presses and releases, and on each tick hands the events
//! that have come due to a handler.
use core::ops::BitOr;
use std::collections::HashMap;
use std::collections::hash_map::Entry;
use std::hash::Hash;
use vstd::prelude::*;
use vstd::std_specs::hash::obeys_key_model;
use vstd::std_specs::iter::IteratorSpec;
use vstd::std_specs::ops::BitOrSpec;
use crate::outcome::Delivery;
use crate::outcome::is_earliest_deadline;
use crate::outcome::lemma_merged_in_turn;
use crate::outcome::merged;
use crate::outcome::reclaimed_one;
use crate::outcome::tick_outcome;
use crate::scan::earliest_so_far;
use crate::scan::lemma_earliest_steps;
use crate::scan::lemma_scan_ends;
use crate::scan::lemma_scan_starts;
use crate::scan::lemma_scan_steps;
use crate::scan::lemma_tombstone_steps;
use crate::scan::live_view;
use crate::scan::scanned;
use crate::scan::slot_is_due;
use crate::scan::slot_outcome;
use crate::scan::slot_settled;
use crate::scan::slot_steady;
use crate::scan::steady;
use crate::scan::tombstone_found;
use crate::scan::tombstones_of;
use crate::state::KeyModel;
use crate::state::KeyState;
use crate::state::lemma_delivery_counts_down;
use crate::state::lemma_drain_unfolds;
use crate::state::lemma_due_has_events;
use crate::time::Duration;
use crate::time::Instant;
use crate::time::deadline_view;
use crate::time::min_instant;

verus! {

/// The two auto-repeat states that a handler can leave a key in.
#[derive(Debug)]
pub enum KeyRepeat {
    /// Auto-repeat is enabled.
    Enabled,
    /// Auto-repeat is disabled.
    Disabled,
}

/// The live keys after a press of `key` at `now`.
pub open spec fn press_result<K>(live: Map<K, KeyModel>, now: int, key: K) -> Map<K, KeyModel> {
    if live.contains_key(key) {
        live.insert(key, live[key].on_press(now))
    } else {
        live.insert(key, KeyModel::pressed(now))
    }
}

/// The live keys after a release of `key` at `now`.
pub open spec fn release_result<K>(
    live: Map<K, KeyModel>,
    now: int,
    key: K,
    timeout: int,
    interval: int,
) -> Map<K, KeyModel> {
    if live.contains_key(key) {
        live.insert(key, live[key].on_release(now, timeout, interval))
    } else {
        live
    }
}

/// A registry of key states that turns presses and releases into auto-repeat
/// events: the first `timeout` after a press, the following ones every
/// `interval`.
///
/// Feed it the presses and releases that the system delivers, through
/// [`on_key_press`][Keys::on_key_press] and
/// [`on_key_release`][Keys::on_key_release], and [`tick`][Keys::tick] it: the
/// handler is called once for each press and repeat that has come due since
/// the last tick.
#[derive(Debug)]
pub struct Keys<K> {
    /// The time from a press to the first repeat.
    timeout: Duration,
    /// The time between one repeat and the next.
    interval: Duration,
    /// The state of each key that is tracked. A key whose slot is `None` is
    /// gone already and only waits for its removal.
    pressed: HashMap<K, Option<KeyState>>,
}

impl<K> View for Keys<K> {
    type V = Map<K, KeyModel>;

    /// The live keys, each with its state.
    closed spec fn view(&self) -> Map<K, KeyModel> {
        live_view(self.pressed@)
    }
}

impl<K> Keys<K> where K: Copy + Eq + Hash {
    /// The time from a press to the first repeat, in nanoseconds.
    pub closed spec fn timeout(&self) -> int {
        self.timeout@
    }

    /// The time between one repeat and the next, in nanoseconds.
    pub closed spec fn interval(&self) -> int {
        self.interval@
    }

    /// The keys that are gone but whose slots are not reclaimed yet.
    pub closed spec fn tombstones(&self) -> Set<K> {
        tombstones_of(self.pressed@)
    }

    /// The invariant of the registry: repeats are a positive time apart, and
    /// the first repeat of every key that waits for it has a deadline that
    /// can be stored.
    pub closed spec fn wf(&self) -> bool {
        &&& obeys_key_model::<K>()
        &&& self.interval@ > 0
        &&& steady(self.pressed@, self.timeout@)
    }

    /// What the invariant means for the registry's users: repeats are a
    /// positive time apart, finitely many keys are live, every state can be
    /// stored, and the first repeat of every key that waits for it has a
    /// deadline that can be stored.
    pub proof fn lemma_wf(&self)
        requires
            self.wf(),
        ensures
            self.timeout() >= 0,
            self.interval() > 0,
            self@.dom().finite(),
            self.tombstones().finite(),
            forall|key: K| #[trigger]
                self@.contains_key(key) ==> self@[key].fits() && (self@[key] is Pressed
                    ==> self@[key].pressed_at() + self.timeout() <= u64::MAX),
    {
        let slots = self.pressed@;
        assert(slots.dom().finite());
        assert(self@.dom().subset_of(slots.dom()));
        assert(self.tombstones().subset_of(slots.dom()));
        vstd::set_lib::lemma_len_subset(self@.dom(), slots.dom());
        vstd::set_lib::lemma_len_subset(self.tombstones(), slots.dom());
        assert forall|key: K| #[trigger] self@.contains_key(key) implies self@[key].fits() && (
        self@[key] is Pressed ==> self@[key].pressed_at() + self.timeout() <= u64::MAX) by {
            assert(slots.contains_key(key));
            assert(slot_steady(slots[key], self.timeout@));
        }
    }

    /// Whether a release of `key` at `now` may be recorded: a live key must
    /// be down, and the backlog that the release leaves must fit.
    pub open spec fn releasable(&self, now: int, key: K) -> bool {
        self@.contains_key(key) ==> {
            &&& !(self@[key] is ReleasePending)
            &&& self@[key].on_release(now, self.timeout(), self.interval()).fits()
        }
    }

    /// Create a registry in which a pressed key starts to repeat after
    /// `timeout` and from there on repeats every `interval`.
    ///
    /// Repeats have to be some time apart: with an interval of zero a held
    /// key would owe events without end. The keys must hash and compare the
    /// way a hash map relies on.
    pub fn new(timeout: Duration, interval: Duration) -> (keys: Self)
        requires
            interval@ > 0,
            obeys_key_model::<K>(),
        ensures
            keys.wf(),
            keys@ == Map::<K, KeyModel>::empty(),
            keys.tombstones() == Set::<K>::empty(),
            keys.timeout() == timeout@,
            keys.interval() == interval@,
    {
        let keys = Self { timeout, interval, pressed: HashMap::new() };
        assert(keys@ =~= Map::<K, KeyModel>::empty());
        assert(keys.tombstones() =~= Set::<K>::empty());
        keys
    }

    /// The keys that have a slot, each once.
    fn tracked_keys(&self) -> (keys: Vec<K>)
        requires
            obeys_key_model::<K>(),
        ensures
            keys@.no_duplicates(),
            keys@.to_set() == self.pressed@.dom(),
    {
        let mut keys: Vec<K> = Vec::new();
        for key in iter: self.pressed.keys()
            invariant
                keys@ == iter.seq().take(iter.index()).unref(),
                iter.seq() == self.pressed.keys().remaining(),
        {
            keys.push(*key);
        }
        assert(keys@ == self.pressed.keys().remaining().unref());
        keys
    }

    /// Handle a "tick": evaluate the tracked keys at `now` and call `handler`
    /// for each press and repeat that is due.
    ///
    /// `handler` can disable the auto-repeat of the key it is called for
    /// (it is enabled at each call); such a key is dropped at once. What the
    /// handler returns is merged with `|`, from the default value on, so
    /// that callers can learn of an abstract "something changed". Returned
    /// with it is the instant at which the next event comes due, which is
    /// when to tick again; if there is none, no key is waiting.
    ///
    /// The handler has to accept the keys that have an event due, with
    /// auto-repeat enabled; it is called for no other key. `now` must leave
    /// room for the deadline of the repeat that follows it.
    ///
    /// The contract speaks of the record of the handler calls, in the order
    /// they were made. There is such a record: it goes with the states before
    /// and after as [`tick_outcome`] says; each of its calls was made for a
    /// key that was live, with auto-repeat enabled, and holds what the
    /// handler can have answered; and its outputs merge to the result. The
    /// deadline returned is the earliest one among the keys that stay.
    pub fn tick<F, C>(&mut self, now: Instant, handler: F) -> (result: (C, Option<Instant>)) where
        F: FnMut(&K, &mut KeyRepeat) -> C,
        C: Default + BitOr<Output = C>,

        requires
            old(self).wf(),
            now@ + old(self).interval() <= u64::MAX,
            forall|key: &K, flag: &mut KeyRepeat|
                old(self)@.contains_key(*key) && old(self)@[*key].is_due(now@) && *flag
                    == KeyRepeat::Enabled ==> #[trigger] call_requires(handler, (key, flag)),
            forall|a: C, b: C| #[trigger] a.bitor_req(b),
        ensures
            final(self).wf(),
            final(self).timeout() == old(self).timeout(),
            final(self).interval() == old(self).interval(),
            exists|log: Seq<Delivery<K, C>>, start: C|
                {
                    &&& #[trigger] tick_outcome(
                        old(self)@,
                        now@,
                        old(self).timeout(),
                        old(self).interval(),
                        log,
                        final(self)@,
                    )
                    &&& forall|i: int|
                        0 <= i < log.len() ==> old(self)@.contains_key((#[trigger] log[i]).key)
                    &&& forall|i: int|
                        #![trigger log[i]]
                        0 <= i < log.len() && old(self)@.contains_key(log[i].key) ==> exists|
                            flag: &mut KeyRepeat,
                        |
                            #![trigger call_ensures(handler, (&log[i].key, flag), log[i].output)]
                            {
                                &&& *flag == KeyRepeat::Enabled
                                &&& call_ensures(handler, (&log[i].key, flag), log[i].output)
                                &&& log[i].disabled <==> *final(flag) == KeyRepeat::Disabled
                            }
                    &&& #[trigger] call_ensures(C::default, (), start)
                    &&& C::obeys_bitor_spec() ==> result.0 == merged(start, log)
                    &&& log.len() == 0 ==> result.0 == start
                },
            is_earliest_deadline(final(self)@, deadline_view(result.1)),
            result.1 matches Some(deadline) ==> deadline@ > now@,
            reclaimed_one(
                old(self).tombstones() + (old(self)@.dom() - final(self)@.dom()),
                final(self).tombstones(),
            ),
    {
        let timeout = self.timeout;
        let interval = self.interval;
        let ghost origin = self.pressed@;
        let mut handler_mut = handler;
        let mut change = C::default();
        let ghost start = change;
        let mut next_tick: Option<Instant> = None;
        let mut remove: Option<K> = None;
        let ghost mut log: Seq<Delivery<K, C>> = Seq::empty();

        let keys = self.tracked_keys();
        let mut index: usize = 0;
        proof {
            lemma_scan_starts::<K, C>(origin, keys@, now@, timeout@, interval@);
        }
        while index < keys.len()
            invariant
                index <= keys.len(),
                obeys_key_model::<K>(),
                self.timeout == timeout,
                self.interval == interval,
                interval@ > 0,
                now@ + interval@ <= u64::MAX,
                keys@.no_duplicates(),
                keys@.to_set() == origin.dom(),
                handler_mut == handler,
                forall|key: &K, flag: &mut KeyRepeat|
                    origin.contains_key(*key) && slot_is_due(origin[*key], now@) && *flag
                        == KeyRepeat::Enabled ==> #[trigger] call_requires(handler, (key, flag)),
                forall|a: C, b: C| #[trigger] a.bitor_req(b),
                scanned(origin, self.pressed@, keys@, index as int, log, now@, timeout@, interval@),
                earliest_so_far(self.pressed@, keys@, index as int, deadline_view(next_tick)),
                tombstone_found(self.pressed@, keys@, index as int, remove),
                forall|i: int|
                    0 <= i < log.len() ==> live_view(origin).contains_key((#[trigger] log[i]).key),
                forall|i: int|
                    #![trigger log[i]]
                    0 <= i < log.len() && live_view(origin).contains_key(log[i].key) ==> exists|
                        flag: &mut KeyRepeat,
                    |
                        #![trigger call_ensures(handler, (&log[i].key, flag), log[i].output)]
                        {
                            &&& *flag == KeyRepeat::Enabled
                            &&& call_ensures(handler, (&log[i].key, flag), log[i].output)
                            &&& log[i].disabled <==> *final(flag) == KeyRepeat::Disabled
                        },
                call_ensures(C::default, (), start),
                C::obeys_bitor_spec() ==> change == merged(start, log),
                log.len() == 0 ==> change == start,
            decreases keys.len() - index,
        {
            let key = keys[index];
            let ghost slots = self.pressed@;
            let ghost earlier = log;
            let ghost deadline = deadline_view(next_tick);
            let ghost found = remove;
            assert(keys@.to_set().contains(keys@[index as int]));
            let slot = match self.pressed.get(&key) {
                Some(slot) => *slot,
                None => None,
            };
            assert(slot == origin[key]);
            let mut left: Option<KeyState> = None;
            if let Some(state) = slot {
                let (total, drained, Ghost(calls)) = deliver_due(
                    &key,
                    state,
                    now,
                    timeout,
                    interval,
                    &mut handler_mut,
                    change,
                );
                change = total;
                left = drained;
                proof {
                    let all = log + calls;
                    assert(live_view(origin).contains_key(key));
                    assert forall|i: int| 0 <= i < all.len() implies live_view(
                        origin,
                    ).contains_key((#[trigger] all[i]).key) by {
                        if i < log.len() {
                            assert(all[i] == log[i]);
                        } else {
                            assert(all[i] == calls[i - log.len()]);
                        }
                    }
                    assert forall|i: int|
                        #![trigger all[i]]
                        0 <= i < all.len() && live_view(origin).contains_key(
                            all[i].key,
                        ) implies exists|flag: &mut KeyRepeat|
                        #![trigger call_ensures(handler, (&all[i].key, flag), all[i].output)]
                        {
                            &&& *flag == KeyRepeat::Enabled
                            &&& call_ensures(handler, (&all[i].key, flag), all[i].output)
                            &&& all[i].disabled <==> *final(flag) == KeyRepeat::Disabled
                        } by {
                        if i < log.len() {
                            assert(all[i] == log[i]);
                        } else {
                            assert(all[i] == calls[i - log.len()]);
                        }
                    }
                    lemma_merged_in_turn(start, log, calls);
                    log = all;
                }
                if let Some(state) = left {
                    next_tick = min_instant(next_tick, state.next_tick());
                }
                let _state = self.pressed.insert(key, left);
            }
            if left.is_none() && remove.is_none() {
                remove = Some(key);
            }
            proof {
                let run = log.skip(earlier.len() as int);
                assert(log == earlier + run);
                assert(self.pressed@ == slots.insert(key, left));
                lemma_scan_steps(
                    origin,
                    slots,
                    keys@,
                    index as int,
                    earlier,
                    now@,
                    timeout@,
                    interval@,
                    run,
                    left,
                );
                lemma_earliest_steps(slots, keys@, index as int, deadline, left);
                lemma_tombstone_steps(slots, keys@, index as int, found, left);
            }
            index += 1;
        }
        let ghost slots = self.pressed@;
        if let Some(key) = remove {
            // Only one key is ever removed at a time. It does not take many
            // ticks to clear all the keys that went.
            let _state = self.pressed.remove(&key);
        }
        proof {
            lemma_scan_ends(
                origin,
                slots,
                keys@,
                log,
                now@,
                timeout@,
                interval@,
                deadline_view(next_tick),
                remove,
                self.pressed@,
            );
            assert(tick_outcome(
                old(self)@,
                now@,
                old(self).timeout(),
                old(self).interval(),
                log,
                self@,
            ));
        }
        (change, next_tick)
    }

    /// Record that `key` was pressed (`pressed`) or released (not `pressed`)
    /// at `now`.
    fn on_key_event(&mut self, now: Instant, key: K, pressed: bool)
        requires
            old(self).wf(),
            pressed ==> now@ + old(self).timeout() <= u64::MAX,
            !pressed ==> old(self).releasable(now@, key),
        ensures
            final(self).wf(),
            final(self).timeout() == old(self).timeout(),
            final(self).interval() == old(self).interval(),
            final(self).tombstones() == old(self).tombstones().remove(key),
            final(self)@ == if pressed {
                press_result(old(self)@, now@, key)
            } else {
                release_result(old(self)@, now@, key, old(self).timeout(), old(self).interval())
            },
    {
        let timeout = self.timeout;
        let interval = self.interval;
        match pressed {
            false => match self.pressed.entry(key) {
                Entry::Vacant(_vacancy) => {
                    // A key can be released without being tracked here any
                    // more, if a handler had disabled its auto-repeat. Such
                    // a release is fine to ignore.
                },
                Entry::Occupied(mut occupancy) => {
                    if let Some(ref mut state) = occupancy.get_mut() {
                        state.on_release(now, timeout, interval);
                    } else {
                        let _state = occupancy.remove();
                    }
                },
            },
            true => match self.pressed.entry(key) {
                Entry::Vacant(vacancy) => {
                    let _state = vacancy.insert(Some(KeyState::pressed(now)));
                },
                Entry::Occupied(mut occupancy) => {
                    if let Some(ref mut state) = occupancy.get_mut() {
                        state.on_press(now);
                    } else {
                        let _state = occupancy.insert(Some(KeyState::pressed(now)));
                    }
                },
            },
        }
        assert(self@ =~= if pressed {
            press_result(old(self)@, now@, key)
        } else {
            release_result(old(self)@, now@, key, old(self).timeout(), old(self).interval())
        });
        assert(self.tombstones() =~= old(self).tombstones().remove(key));
    }

    /// Record that `key` was pressed at `now`.
    ///
    /// A key that is not tracked, or that is gone and waits for its removal,
    /// starts out as pressed at `now`. A press of a key that is down already
    /// is ignored. A press of a released key that still has events to
    /// deliver restarts its clock at `now` and keeps those events. `now` must
    /// leave room for the deadline of the key's first repeat.
    pub fn on_key_press(&mut self, now: Instant, key: K)
        requires
            old(self).wf(),
            now@ + old(self).timeout() <= u64::MAX,
        ensures
            final(self).wf(),
            final(self).timeout() == old(self).timeout(),
            final(self).interval() == old(self).interval(),
            final(self).tombstones() == old(self).tombstones().remove(key),
            final(self)@ == press_result(old(self)@, now@, key),
    {
        self.on_key_event(now, key, true)
    }

    /// Record that `key` was released at `now`.
    ///
    /// The release of a key that is not tracked is ignored: its auto-repeat
    /// may have been disabled before. A tracked key must be down: a second
    /// release without a press in between means that events arrive out of
    /// order. [`can_release`][Keys::can_release] tells.
    pub fn on_key_release(&mut self, now: Instant, key: K)
        requires
            old(self).wf(),
            old(self).releasable(now@, key),
        ensures
            final(self).wf(),
            final(self).timeout() == old(self).timeout(),
            final(self).interval() == old(self).interval(),
            final(self).tombstones() == old(self).tombstones().remove(key),
            final(self)@ == release_result(
                old(self)@,
                now@,
                key,
                old(self).timeout(),
                old(self).interval(),
            ),
    {
        self.on_key_event(now, key, false)
    }

    /// Decide whether a release of `key` at `now` may be recorded.
    pub fn can_release(&self, now: Instant, key: K) -> (ok: bool)
        requires
            self.wf(),
        ensures
            ok == self.releasable(now@, key),
    {
        match self.pressed.get(&key) {
            Some(Some(state)) => state.can_release(now, self.timeout, self.interval),
            _ => true,
        }
    }

    /// Clear all pressed keys, as if they had all been released and had
    /// nothing left to deliver. No handler is called.
    pub fn clear(&mut self)
        requires
            old(self).wf(),
        ensures
            final(self).wf(),
            final(self).timeout() == old(self).timeout(),
            final(self).interval() == old(self).interval(),
            final(self)@ == Map::<K, KeyModel>::empty(),
            final(self).tombstones() == Set::<K>::empty(),
    {
        self.pressed.clear();
        assert(self@ =~= Map::<K, KeyModel>::empty());
        assert(self.tombstones() =~= Set::<K>::empty());
    }
}

/// Deliver the events of `key` that are due at `now`, one call of `handler`
/// for each, until none is left or the handler disables the key.
///
/// Returns the handler's results merged into `change`, the key's slot after
/// the deliveries, and the record of the calls.
fn deliver_due<K, C, F>(
    key: &K,
    state: KeyState,
    now: Instant,
    timeout: Duration,
    interval: Duration,
    handler: &mut F,
    change: C,
) -> (out: (C, Option<KeyState>, Ghost<Seq<Delivery<K, C>>>)) where
    K: Copy,
    F: FnMut(&K, &mut KeyRepeat) -> C,
    C: BitOr<Output = C>,

    requires
        interval@ > 0,
        now@ + interval@ <= u64::MAX,
        slot_steady(Some(state), timeout@),
        state@.is_due(now@) ==> forall|flag: &mut KeyRepeat|
            *flag == KeyRepeat::Enabled ==> #[trigger] call_requires(*old(handler), (key, flag)),
        forall|a: C, b: C| #[trigger] a.bitor_req(b),
    ensures
        *final(handler) == *old(handler),
        slot_outcome(Some(state), now@, timeout@, interval@, out.2@, out.1),
        slot_settled(out.1, now@),
        slot_steady(out.1, timeout@),
        forall|i: int| 0 <= i < out.2@.len() ==> (#[trigger] out.2@[i]).key == *key,
        forall|i: int|
            #![trigger out.2@[i]]
            0 <= i < out.2@.len() && out.2@[i].key == *key ==> exists|flag: &mut KeyRepeat|
                #![trigger call_ensures(*old(handler), (&out.2@[i].key, flag), out.2@[i].output)]
                {
                    &&& *flag == KeyRepeat::Enabled
                    &&& call_ensures(*old(handler), (&out.2@[i].key, flag), out.2@[i].output)
                    &&& out.2@[i].disabled <==> *final(flag) == KeyRepeat::Disabled
                },
        C::obeys_bitor_spec() ==> out.0 == merged(change, out.2@),
        out.2@.len() == 0 ==> out.0 == change,
{
    let mut current = state;
    let mut total = change;
    let ghost mut log: Seq<Delivery<K, C>> = Seq::empty();
    loop
        invariant
            interval@ > 0,
            now@ + interval@ <= u64::MAX,
            *handler == *old(handler),
            state@.is_due(now@) ==> forall|flag: &mut KeyRepeat|
                *flag == KeyRepeat::Enabled ==> #[trigger] call_requires(
                    *old(handler),
                    (key, flag),
                ),
            forall|a: C, b: C| #[trigger] a.bitor_req(b),
            slot_steady(Some(current), timeout@),
            current@.drain(now@, timeout@, interval@) == state@.drain(now@, timeout@, interval@),
            log.len() + current@.due_events(now@, timeout@, interval@) == state@.due_events(
                now@,
                timeout@,
                interval@,
            ),
            forall|i: int|
                0 <= i < log.len() ==> !(#[trigger] log[i]).disabled && log[i].key == *key,
            forall|i: int|
                #![trigger log[i]]
                0 <= i < log.len() && log[i].key == *key ==> exists|flag: &mut KeyRepeat|
                    #![trigger call_ensures(*old(handler), (&log[i].key, flag), log[i].output)]
                    {
                        &&& *flag == KeyRepeat::Enabled
                        &&& call_ensures(*old(handler), (&log[i].key, flag), log[i].output)
                        &&& log[i].disabled <==> *final(flag) == KeyRepeat::Disabled
                    },
            C::obeys_bitor_spec() ==> total == merged(change, log),
            log.len() == 0 ==> total == change,
        decreases current@.due_events(now@, timeout@, interval@),
    {
        proof {
            lemma_due_has_events(current@, now@, timeout@, interval@);
            lemma_due_has_events(state@, now@, timeout@, interval@);
            lemma_drain_unfolds(current@, now@, timeout@, interval@);
        }
        match current.next_tick() {
            Some(due) => {
                if due.nanos > now.nanos {
                    return (total, Some(current), Ghost(log));
                }
                let mut repeat = KeyRepeat::Enabled;
                let output = handler(key, &mut repeat);
                proof {
                    let delivery = Delivery { key: *key, output, disabled: repeat is Disabled };
                    let all = log.push(delivery);
                    assert(&delivery.key == key);
                    assert(delivery.output == output);
                    assert forall|i: int|
                        #![trigger all[i]]
                        0 <= i < all.len() && all[i].key == *key implies exists|
                        flag: &mut KeyRepeat,
                    |
                        #![trigger call_ensures(*old(handler), (&all[i].key, flag), all[i].output)]
                        {
                            &&& *flag == KeyRepeat::Enabled
                            &&& call_ensures(*old(handler), (&all[i].key, flag), all[i].output)
                            &&& all[i].disabled <==> *final(flag) == KeyRepeat::Disabled
                        } by {
                        if i < log.len() {
                            assert(all[i] == log[i]);
                        } else {
                            assert(all[i] == delivery);
                        }
                    }
                    assert(all.drop_last() == log);
                    log = all;
                }
                total = total | output;
                match repeat {
                    KeyRepeat::Disabled => {
                        return (total, None, Ghost(log));
                    },
                    KeyRepeat::Enabled => {
                        proof {
                            lemma_delivery_counts_down(current@, now@, timeout@, interval@);
                        }
                        current.tick(timeout, interval);
                    },
                }
            },
            None => {
                // Nothing is left to deliver for a key that was released:
                // the key can go.
                return (total, None, Ghost(log));
            },
        }
    }
}

} // verus!
