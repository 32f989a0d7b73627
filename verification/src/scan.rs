//! How a tick walks the registry's slots, and why the walk ends in what
//! [`tick_outcome`] asks for.
//!
//! The registry keeps one slot per key: `Some` with the state of a live key,
//! `None` for a tombstone, a key that is gone and waits to be reclaimed. A
//! tick visits each slot once. The predicates here say what holds after some
//! slots were visited; the lemmas carry them from one visit to the next and
//! from the last visit to the tick's contract.
use vstd::prelude::*;
use crate::outcome::deliveries_for;
use crate::outcome::is_earliest_deadline;
use crate::outcome::key_outcome;
use crate::outcome::lemma_deliveries_of_run;
use crate::outcome::reclaimed_one;
use crate::outcome::tick_outcome;
use crate::outcome::Delivery;
use crate::state::KeyModel;
use crate::state::KeyState;
use crate::time::earlier_deadline;

verus! {

/// What the slot of a key stands for: the state of a live key, nothing for a
/// tombstone.
pub open spec fn slot_view(slot: Option<KeyState>) -> Option<KeyModel> {
    match slot {
        Some(state) => Some(state@),
        None => None,
    }
}

/// Whether the first repeat of the key in `slot`, if it waits for one, has a
/// deadline that can be stored.
pub open spec fn slot_steady(slot: Option<KeyState>, timeout: int) -> bool {
    match slot {
        Some(state) => state@ is Pressed ==> state@.pressed_at() + timeout <= u64::MAX,
        None => true,
    }
}

/// Whether an event of the key in `slot` is due at `now`.
pub open spec fn slot_is_due(slot: Option<KeyState>, now: int) -> bool {
    match slot {
        Some(state) => state@.is_due(now),
        None => false,
    }
}

/// When the next event of the key in `slot` is due, if one is.
pub open spec fn slot_due(slot: Option<KeyState>) -> Option<int> {
    match slot {
        Some(state) => state@.next_due(),
        None => None,
    }
}

/// Whether a tick at `now` has nothing more to do with `slot`: it holds a
/// key whose next event lies ahead, or a tombstone.
pub open spec fn slot_settled(slot: Option<KeyState>, now: int) -> bool {
    match slot_due(slot) {
        Some(due) => due > now,
        None => slot is None,
    }
}

/// What a tick can do with one slot: with a live key what [`key_outcome`]
/// says, with a tombstone nothing.
pub open spec fn slot_outcome<K, C>(
    before: Option<KeyState>,
    now: int,
    timeout: int,
    interval: int,
    calls: Seq<Delivery<K, C>>,
    after: Option<KeyState>,
) -> bool {
    match before {
        Some(state) => key_outcome(state@, now, timeout, interval, calls, slot_view(after)),
        None => calls.len() == 0 && after is None,
    }
}

/// The live keys among `slots`, each with its state.
pub open spec fn live_view<K>(slots: Map<K, Option<KeyState>>) -> Map<K, KeyModel> {
    Map::new(
        |key: K| slots.contains_key(key) && slots[key] is Some,
        |key: K| slots[key].unwrap()@,
    )
}

/// The tombstones among `slots`.
pub open spec fn tombstones_of<K>(slots: Map<K, Option<KeyState>>) -> Set<K> {
    Set::new(|key: K| slots.contains_key(key) && slots[key] is None)
}

/// Whether every slot is steady.
pub open spec fn steady<K>(slots: Map<K, Option<KeyState>>, timeout: int) -> bool {
    forall|key: K| #[trigger] slots.contains_key(key) ==> slot_steady(slots[key], timeout)
}

/// What holds once a tick at `now` has visited the slots of the first
/// `count` keys of `keys`, with `log` the calls made so far: the visited
/// slots went from `origin` to `slots` as a tick may take them and are
/// settled, the others are untouched, and calls were made for visited keys
/// only.
pub open spec fn scanned<K, C>(
    origin: Map<K, Option<KeyState>>,
    slots: Map<K, Option<KeyState>>,
    keys: Seq<K>,
    count: int,
    log: Seq<Delivery<K, C>>,
    now: int,
    timeout: int,
    interval: int,
) -> bool {
    &&& slots.dom() == origin.dom()
    &&& steady(slots, timeout)
    &&& forall|j: int|
        count <= j < keys.len() ==> slots[#[trigger] keys[j]] == origin[keys[j]]
            && deliveries_for(log, keys[j]).len() == 0
    &&& forall|j: int|
        0 <= j < count ==> slot_settled(slots[#[trigger] keys[j]], now) && slot_outcome(
            origin[keys[j]],
            now,
            timeout,
            interval,
            deliveries_for(log, keys[j]),
            slots[keys[j]],
        )
    &&& forall|key: K|
        !origin.contains_key(key) ==> (#[trigger] deliveries_for(log, key)).len() == 0
}

/// Whether `deadline` is the earliest due time among the slots of the first
/// `count` keys of `keys`.
pub open spec fn earliest_so_far<K>(
    slots: Map<K, Option<KeyState>>,
    keys: Seq<K>,
    count: int,
    deadline: Option<int>,
) -> bool {
    match deadline {
        Some(earliest) => {
            &&& exists|j: int|
                0 <= j < count && slot_due(slots[#[trigger] keys[j]]) == Some(earliest)
            &&& forall|j: int|
                0 <= j < count ==> match slot_due(slots[#[trigger] keys[j]]) {
                    Some(due) => earliest <= due,
                    None => true,
                }
        },
        None => forall|j: int| 0 <= j < count ==> slot_due(slots[#[trigger] keys[j]]) is None,
    }
}

/// Whether `found` is a tombstone among `slots`, or, if nothing was found,
/// none of the first `count` keys of `keys` has one.
pub open spec fn tombstone_found<K>(
    slots: Map<K, Option<KeyState>>,
    keys: Seq<K>,
    count: int,
    found: Option<K>,
) -> bool {
    match found {
        Some(key) => slots.contains_key(key) && slots[key] is None,
        None => forall|j: int| 0 <= j < count ==> slots[#[trigger] keys[j]] is Some,
    }
}

/// Before the first visit nothing has changed and no call was made.
pub proof fn lemma_scan_starts<K, C>(
    origin: Map<K, Option<KeyState>>,
    keys: Seq<K>,
    now: int,
    timeout: int,
    interval: int,
)
    requires
        steady(origin, timeout),
    ensures
        scanned(origin, origin, keys, 0, Seq::<Delivery<K, C>>::empty(), now, timeout, interval),
        earliest_so_far(origin, keys, 0, None),
        tombstone_found(origin, keys, 0, None),
{
    reveal(Seq::filter);
    assert forall|key: K|
        (#[trigger] deliveries_for(Seq::<Delivery<K, C>>::empty(), key)).len() == 0 by {}
}

/// One visit more: the slot of the next key went to `after` with the calls
/// `run`, all made for that key.
pub proof fn lemma_scan_steps<K, C>(
    origin: Map<K, Option<KeyState>>,
    slots: Map<K, Option<KeyState>>,
    keys: Seq<K>,
    count: int,
    log: Seq<Delivery<K, C>>,
    now: int,
    timeout: int,
    interval: int,
    run: Seq<Delivery<K, C>>,
    after: Option<KeyState>,
)
    requires
        keys.no_duplicates(),
        keys.to_set() == origin.dom(),
        0 <= count < keys.len(),
        scanned(origin, slots, keys, count, log, now, timeout, interval),
        forall|i: int| 0 <= i < run.len() ==> (#[trigger] run[i]).key == keys[count],
        slot_outcome(origin[keys[count]], now, timeout, interval, run, after),
        slot_settled(after, now),
        slot_steady(after, timeout),
    ensures
        scanned(
            origin,
            slots.insert(keys[count], after),
            keys,
            count + 1,
            log + run,
            now,
            timeout,
            interval,
        ),
{
    let key = keys[count];
    let slots2 = slots.insert(key, after);
    let log2 = log + run;
    assert(keys.to_set().contains(key));
    lemma_deliveries_of_run(log, run, key);
    assert(deliveries_for(log, key) =~= Seq::empty());
    assert(deliveries_for(log2, key) =~= run);
    assert(slots2.dom() =~= origin.dom());
    assert forall|j: int| count + 1 <= j < keys.len() implies slots2[#[trigger] keys[j]]
        == origin[keys[j]] && deliveries_for(log2, keys[j]).len() == 0 by {
        assert(keys[j] != key);
    }
    assert forall|j: int| 0 <= j < count + 1 implies slot_settled(
        slots2[#[trigger] keys[j]],
        now,
    ) && slot_outcome(
        origin[keys[j]],
        now,
        timeout,
        interval,
        deliveries_for(log2, keys[j]),
        slots2[keys[j]],
    ) by {
        if j < count {
            assert(keys[j] != key);
        }
    }
    assert forall|other: K| !origin.contains_key(other) implies (#[trigger] deliveries_for(
        log2,
        other,
    )).len() == 0 by {
        assert(other != key);
    }
}

/// One visit more, seen from the deadline: the earliest due time among the
/// visited slots is the earlier of what it was and the new slot's.
pub proof fn lemma_earliest_steps<K>(
    slots: Map<K, Option<KeyState>>,
    keys: Seq<K>,
    count: int,
    deadline: Option<int>,
    after: Option<KeyState>,
)
    requires
        keys.no_duplicates(),
        0 <= count < keys.len(),
        earliest_so_far(slots, keys, count, deadline),
    ensures
        earliest_so_far(
            slots.insert(keys[count], after),
            keys,
            count + 1,
            earlier_deadline(deadline, slot_due(after)),
        ),
{
    let key = keys[count];
    let slots2 = slots.insert(key, after);
    let deadline2 = earlier_deadline(deadline, slot_due(after));
    assert forall|j: int| 0 <= j < count implies slots2[#[trigger] keys[j]] == slots[keys[j]] by {
        assert(keys[j] != key);
    }
    assert(slots2[keys[count]] == after);
    match deadline2 {
        Some(earliest) => {
            if deadline2 == deadline {
                let j = choose|j: int|
                    0 <= j < count && slot_due(slots[#[trigger] keys[j]]) == Some(earliest);
                assert(0 <= j < count + 1 && slot_due(slots2[keys[j]]) == Some(earliest));
            } else {
                assert(0 <= count < count + 1 && slot_due(slots2[keys[count]]) == Some(earliest));
            }
            assert forall|j: int| 0 <= j < count + 1 implies match slot_due(
                slots2[#[trigger] keys[j]],
            ) {
                Some(due) => earliest <= due,
                None => true,
            } by {
                if j < count {
                    assert(slots2[keys[j]] == slots[keys[j]]);
                }
            }
        },
        None => {
            assert forall|j: int| 0 <= j < count + 1 implies slot_due(
                slots2[#[trigger] keys[j]],
            ) is None by {
                if j < count {
                    assert(slots2[keys[j]] == slots[keys[j]]);
                }
            }
        },
    }
}

/// One visit more, seen from the tombstone to reclaim: the one found first
/// stays the one.
pub proof fn lemma_tombstone_steps<K>(
    slots: Map<K, Option<KeyState>>,
    keys: Seq<K>,
    count: int,
    found: Option<K>,
    after: Option<KeyState>,
)
    requires
        keys.no_duplicates(),
        0 <= count < keys.len(),
        tombstone_found(slots, keys, count, found),
        found matches Some(key) ==> key != keys[count] || after is None,
    ensures
        tombstone_found(
            slots.insert(keys[count], after),
            keys,
            count + 1,
            if found is None && after is None {
                Some(keys[count])
            } else {
                found
            },
        ),
{
    let key = keys[count];
    let slots2 = slots.insert(key, after);
    if found is None && after is Some {
        assert forall|j: int| 0 <= j < count + 1 implies slots2[#[trigger] keys[j]] is Some by {
            if j < count {
                assert(keys[j] != key);
            }
        }
    }
}

/// After the last visit, and with the tombstone `found` reclaimed, the walk
/// has done what a tick is to do.
pub proof fn lemma_scan_ends<K, C>(
    origin: Map<K, Option<KeyState>>,
    slots: Map<K, Option<KeyState>>,
    keys: Seq<K>,
    log: Seq<Delivery<K, C>>,
    now: int,
    timeout: int,
    interval: int,
    deadline: Option<int>,
    found: Option<K>,
    left: Map<K, Option<KeyState>>,
)
    requires
        keys.no_duplicates(),
        keys.to_set() == origin.dom(),
        scanned(origin, slots, keys, keys.len() as int, log, now, timeout, interval),
        earliest_so_far(slots, keys, keys.len() as int, deadline),
        tombstone_found(slots, keys, keys.len() as int, found),
        left == match found {
            Some(key) => slots.remove(key),
            None => slots,
        },
    ensures
        steady(left, timeout),
        tick_outcome(live_view(origin), now, timeout, interval, log, live_view(left)),
        is_earliest_deadline(live_view(left), deadline),
        deadline matches Some(earliest) ==> earliest > now,
        reclaimed_one(
            tombstones_of(origin) + (live_view(origin).dom() - live_view(left).dom()),
            tombstones_of(left),
        ),
{
    let before = live_view(origin);
    let after = live_view(left);
    assert forall|key: K| origin.contains_key(key) implies exists|j: int|
        0 <= j < keys.len() && #[trigger] keys[j] == key by {
        assert(keys.to_set().contains(key));
    }
    assert forall|key: K| origin.contains_key(key) implies slot_settled(slots[key], now)
        && slot_outcome(
        origin[key],
        now,
        timeout,
        interval,
        #[trigger] deliveries_for(log, key),
        slots[key],
    ) && after.get(key) == slot_view(slots[key]) by {
        let j = choose|j: int| 0 <= j < keys.len() && #[trigger] keys[j] == key;
        assert(slot_settled(slots[keys[j]], now));
    }
    assert forall|key: K|
        #![trigger deliveries_for(log, key)]
        #![trigger before.contains_key(key)]
        #![trigger after.contains_key(key)]
        if before.contains_key(key) {
            key_outcome(
                before[key],
                now,
                timeout,
                interval,
                deliveries_for(log, key),
                after.get(key),
            )
        } else {
            deliveries_for(log, key).len() == 0 && !after.contains_key(key)
        } by {
        if origin.contains_key(key) {
            assert(slot_outcome(
                origin[key],
                now,
                timeout,
                interval,
                deliveries_for(log, key),
                slots[key],
            ));
        }
    }
    // The deadline.
    match deadline {
        Some(earliest) => {
            let j = choose|j: int|
                0 <= j < keys.len() && slot_due(slots[#[trigger] keys[j]]) == Some(earliest);
            let key = keys[j];
            assert(keys.to_set().contains(key));
            assert(slot_settled(slots[key], now));
            assert(after.contains_key(key) && after[key].next_due() == Some(earliest));
            assert forall|key: K| #[trigger] after.contains_key(key) implies match after[key]
                .next_due() {
                Some(due) => earliest <= due,
                None => true,
            } by {
                let j = choose|j: int| 0 <= j < keys.len() && #[trigger] keys[j] == key;
                assert(slot_due(slots[keys[j]]) == after[key].next_due());
            }
        },
        None => {
            assert forall|key: K| #[trigger] after.contains_key(key) implies after[key]
                .next_due() is None by {
                let j = choose|j: int| 0 <= j < keys.len() && #[trigger] keys[j] == key;
                assert(slot_due(slots[keys[j]]) == after[key].next_due());
            }
        },
    }
    // The tombstones.
    let dead = tombstones_of(origin) + (before.dom() - after.dom());
    assert(dead =~= tombstones_of(slots)) by {
        assert forall|key: K| dead.contains(key) <==> tombstones_of(slots).contains(key) by {
            if origin.contains_key(key) {
                assert(slot_outcome(
                    origin[key],
                    now,
                    timeout,
                    interval,
                    deliveries_for(log, key),
                    slots[key],
                ));
            }
        }
    }
    match found {
        Some(key) => {
            assert(dead.contains(key));
            assert(tombstones_of(left) =~= dead.remove(key));
        },
        None => {
            assert forall|key: K| !tombstones_of(slots).contains(key) by {
                if slots.contains_key(key) {
                    let j = choose|j: int| 0 <= j < keys.len() && #[trigger] keys[j] == key;
                    assert(slots[keys[j]] is Some);
                }
            }
            assert(dead =~= Set::<K>::empty());
            assert(tombstones_of(left) =~= dead);
        },
    }
}

} // verus!
