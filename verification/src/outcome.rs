//! What a tick does, said over the record of the handler calls it makes.
//!
//! A tick cannot know what its handler will answer, so its contract speaks of
//! a record: the calls in the order they were made, each with the key handed
//! to the handler, the handler's result, and whether the handler disabled the
//! key's auto-repeat. The predicates here say which records, and which states
//! after them, a tick can produce from a given state.
use core::ops::BitOr;
use vstd::prelude::*;
use vstd::std_specs::ops::BitOrSpec;
use crate::state::KeyModel;

verus! {

/// One call of the handler.
pub struct Delivery<K, C> {
    /// The key whose event was delivered.
    pub key: K,
    /// What the handler returned.
    pub output: C,
    /// Whether the handler disabled auto-repeat for the key.
    pub disabled: bool,
}

/// The calls in `log` that were made for `key`, in order.
pub open spec fn deliveries_for<K, C>(log: Seq<Delivery<K, C>>, key: K) -> Seq<Delivery<K, C>> {
    log.filter(|delivery: Delivery<K, C>| delivery.key == key)
}

/// What one tick at `now` can do with one live key in state `before`, given
/// the calls `calls` that it made for the key and the key's slot `after` it.
///
/// Only the last call can have disabled auto-repeat, and no call is made for
/// an event that is not due. A key that was not disabled gets a call for
/// every due event. The key stays, drained of its due events, unless it was
/// disabled or has nothing left to wait for.
pub open spec fn key_outcome<K, C>(
    before: KeyModel,
    now: int,
    timeout: int,
    interval: int,
    calls: Seq<Delivery<K, C>>,
    after: Option<KeyModel>,
) -> bool {
    let due = before.due_events(now, timeout, interval);
    let drained = before.drain(now, timeout, interval);
    let stopped = calls.len() > 0 && calls.last().disabled;
    &&& calls.len() <= due
    &&& forall|i: int| 0 <= i < calls.len() - 1 ==> !(#[trigger] calls[i]).disabled
    &&& !stopped ==> calls.len() == due
    &&& after == if stopped || drained.next_due() is None {
        None
    } else {
        Some(drained)
    }
}

/// What one tick at `now` can do with the live keys `before`: the record
/// `log` of its calls and the live keys `after` it go together if they do so
/// for every key. No call is made for a key that is not live, and no key
/// comes to life.
pub open spec fn tick_outcome<K, C>(
    before: Map<K, KeyModel>,
    now: int,
    timeout: int,
    interval: int,
    log: Seq<Delivery<K, C>>,
    after: Map<K, KeyModel>,
) -> bool {
    forall|key: K|
        #![trigger deliveries_for(log, key)]
        #![trigger before.contains_key(key)]
        #![trigger after.contains_key(key)]
        if before.contains_key(key) {
            key_outcome(
                before[key],
                now,
                timeout,
                interval,
                deliveries_for(log, key),
                after.get(key),
            )
        } else {
            deliveries_for(log, key).len() == 0 && !after.contains_key(key)
        }
}

/// The outputs of the calls in `log`, merged into `start` from first to last.
pub open spec fn merged<K, C: BitOr<Output = C>>(start: C, log: Seq<Delivery<K, C>>) -> C
    decreases log.len(),
{
    if log.len() == 0 {
        start
    } else {
        merged(start, log.drop_last()).bitor_spec(log.last().output)
    }
}

/// Whether `deadline` is the earliest time at which an event of a key in
/// `live` comes due: the least of the keys' due times, and absent only if no
/// key has one.
pub open spec fn is_earliest_deadline<K>(live: Map<K, KeyModel>, deadline: Option<int>) -> bool {
    match deadline {
        Some(earliest) => {
            &&& exists|key: K| #[trigger]
                live.contains_key(key) && live[key].next_due() == Some(earliest)
            &&& forall|key: K| #[trigger]
                live.contains_key(key) ==> match live[key].next_due() {
                    Some(due) => earliest <= due,
                    None => true,
                }
        },
        None => forall|key: K| #[trigger] live.contains_key(key) ==> live[key].next_due() is None,
    }
}

/// Whether `remaining` is what is left of the tombstones `dead` once a tick
/// has reclaimed one of them, if there was one.
pub open spec fn reclaimed_one<K>(dead: Set<K>, remaining: Set<K>) -> bool {
    if dead =~= Set::<K>::empty() {
        remaining == dead
    } else {
        exists|key: K| #[trigger] dead.contains(key) && remaining == dead.remove(key)
    }
}

/// Each call in a record is among the calls for its key.
pub proof fn lemma_call_is_among_deliveries<K, C>(log: Seq<Delivery<K, C>>, i: int)
    requires
        0 <= i < log.len(),
    ensures
        deliveries_for(log, log[i].key).contains(log[i]),
{
    let wanted = log[i].key;
    log.lemma_filter_contains(|delivery: Delivery<K, C>| delivery.key == wanted, i);
}

/// Each call for a key is a call of the record.
pub proof fn lemma_delivery_is_in_log<K, C>(log: Seq<Delivery<K, C>>, key: K, at: int)
    requires
        0 <= at < deliveries_for(log, key).len(),
    ensures
        log.contains(deliveries_for(log, key)[at]),
        deliveries_for(log, key)[at].key == key,
{
    let wanted = |delivery: Delivery<K, C>| delivery.key == key;
    let calls = log.filter(wanted);
    assert(calls.contains(calls[at]));
    log.lemma_filter_contains_rev(wanted, calls[at]);
    log.lemma_filter_pred(wanted, at);
}

/// Calls that were all made for one key add to the calls for that key, in
/// the order they were made, and to those for no other key.
pub proof fn lemma_deliveries_of_run<K, C>(
    log: Seq<Delivery<K, C>>,
    run: Seq<Delivery<K, C>>,
    key: K,
)
    requires
        forall|i: int| 0 <= i < run.len() ==> (#[trigger] run[i]).key == key,
    ensures
        deliveries_for(log + run, key) == deliveries_for(log, key) + run,
        forall|other: K|
            other != key ==> #[trigger] deliveries_for(log + run, other) == deliveries_for(
                log,
                other,
            ),
    decreases run.len(),
{
    reveal(Seq::filter);
    if run.len() == 0 {
        assert(log + run == log);
        assert(deliveries_for(log, key) + run == deliveries_for(log, key));
    } else {
        let shorter = run.drop_last();
        lemma_deliveries_of_run(log, shorter, key);
        assert((log + run).drop_last() == log + shorter);
        assert((log + run).last() == run.last());
        assert(deliveries_for(log + run, key) == deliveries_for(log + shorter, key).push(
            run.last(),
        ));
        assert((deliveries_for(log, key) + shorter).push(run.last()) == deliveries_for(log, key)
            + run);
        assert forall|other: K| other != key implies #[trigger] deliveries_for(log + run, other)
            == deliveries_for(log, other) by {
            assert(deliveries_for(log + run, other) == deliveries_for(log + shorter, other));
        }
    }
}

/// A record whose calls were all made for one key is the record of the calls
/// for that key.
pub proof fn lemma_deliveries_of_one_key<K, C>(log: Seq<Delivery<K, C>>, key: K)
    requires
        forall|i: int| 0 <= i < log.len() ==> (#[trigger] log[i]).key == key,
    ensures
        deliveries_for(log, key) == log,
{
    let none = Seq::<Delivery<K, C>>::empty();
    lemma_deliveries_of_run(none, log, key);
    assert(none + log == log);
    assert(deliveries_for(none, key) == none) by {
        reveal(Seq::filter);
    }
}

/// Merging the outputs of two records one after the other is merging the
/// outputs of their concatenation.
pub proof fn lemma_merged_in_turn<K, C: BitOr<Output = C>>(
    start: C,
    log: Seq<Delivery<K, C>>,
    run: Seq<Delivery<K, C>>,
)
    ensures
        merged(start, log + run) == merged(merged(start, log), run),
    decreases run.len(),
{
    if run.len() == 0 {
        assert(log + run == log);
    } else {
        lemma_merged_in_turn(start, log, run.drop_last());
        assert((log + run).drop_last() == log + run.drop_last());
        assert((log + run).last() == run.last());
    }
}

} // verus!
