//! The writers' protocol, one call of `update` or `set` at a time.
//!
//! The machine decides; the caller performs each action on the cell and
//! reports what came of it as the next event.
use vstd::prelude::*;

verus! {

/// Where one writer's call stands.
#[derive(Debug, PartialEq, Eq)]
pub enum Writer<T> {
    /// An update that forces an epoch advance before its first read.
    Advancing,
    /// A set that forces an epoch advance before it swaps in the value held.
    AdvancingSet(T),
    /// Waiting for the caller's function, applied to the value just read.
    Reading,
    /// A compare-and-swap of the function's result is in flight.
    Installing,
    /// An unconditional swap is in flight.
    Swapping,
    /// The superseded value is being handed to the reclaimer.
    Retiring,
    /// The call has returned.
    Done,
}

/// What the caller reports after performing an action.
#[derive(Debug, PartialEq, Eq)]
pub enum Event<T, E> {
    /// The action completed and gave nothing back.
    Proceeded,
    /// The caller's function returned this on the value read.
    Computed(Result<T, E>),
    /// The slot was replaced; the superseded value is in hand.
    Replaced,
    /// The compare-and-swap failed: another writer replaced the slot first.
    Lost,
}

/// What the caller does next.
#[derive(Debug, PartialEq, Eq)]
pub enum Action<T, E> {
    /// Force a global epoch advance.
    AdvanceEpoch,
    /// Acquire-load the current value and apply the function to it.
    Read,
    /// Install the value, provided the slot still holds what was read.
    CompareAndSwap(T),
    /// Install the value unconditionally.
    Swap(T),
    /// Defer the freeing of the superseded value.
    Retire,
    /// Return this to the caller.
    Finish(Result<(), E>),
    /// The event does not belong to the current state: nothing to do.
    Ignore,
}

/// First state and action of an update.
pub open spec fn start_update<T, E>(reclaim: bool) -> (Writer<T>, Action<T, E>) {
    if reclaim {
        (Writer::Advancing, Action::AdvanceEpoch)
    } else {
        (Writer::Reading, Action::Read)
    }
}

/// First state and action of a set of `v`.
pub open spec fn start_set<T, E>(reclaim: bool, v: T) -> (Writer<T>, Action<T, E>) {
    if reclaim {
        (Writer::AdvancingSet(v), Action::AdvanceEpoch)
    } else {
        (Writer::Swapping, Action::Swap(v))
    }
}

/// One transition of the protocol.
pub open spec fn next<T, E>(s: Writer<T>, e: Event<T, E>) -> (Writer<T>, Action<T, E>) {
    match s {
        Writer::Advancing => match e {
            Event::Proceeded => (Writer::Reading, Action::Read),
            _ => (s, Action::Ignore),
        },
        Writer::AdvancingSet(v) => match e {
            Event::Proceeded => (Writer::Swapping, Action::Swap(v)),
            _ => (s, Action::Ignore),
        },
        Writer::Reading => match e {
            Event::Computed(Ok(t)) => (Writer::Installing, Action::CompareAndSwap(t)),
            Event::Computed(Err(x)) => (Writer::Done, Action::Finish(Err(x))),
            _ => (s, Action::Ignore),
        },
        Writer::Installing => match e {
            Event::Replaced => (Writer::Retiring, Action::Retire),
            Event::Lost => (Writer::Reading, Action::Read),
            _ => (s, Action::Ignore),
        },
        Writer::Swapping => match e {
            Event::Replaced => (Writer::Retiring, Action::Retire),
            _ => (s, Action::Ignore),
        },
        Writer::Retiring => match e {
            Event::Proceeded => (Writer::Done, Action::Finish(Ok(()))),
            _ => (s, Action::Ignore),
        },
        Writer::Done => (s, Action::Ignore),
    }
}

/// Starts an update; with `reclaim`, an epoch advance comes first.
pub fn begin_update<T, E>(reclaim: bool) -> (r: (Writer<T>, Action<T, E>))
    ensures
        r == start_update::<T, E>(reclaim),
{
    if reclaim {
        (Writer::Advancing, Action::AdvanceEpoch)
    } else {
        (Writer::Reading, Action::Read)
    }
}

/// Starts a set of `v`; with `reclaim`, an epoch advance comes first.
pub fn begin_set<T, E>(reclaim: bool, v: T) -> (r: (Writer<T>, Action<T, E>))
    ensures
        r == start_set::<T, E>(reclaim, v),
{
    if reclaim {
        (Writer::AdvancingSet(v), Action::AdvanceEpoch)
    } else {
        (Writer::Swapping, Action::Swap(v))
    }
}

/// Takes the writer from `s` on event `e`, and says what to do next.
pub fn step<T, E>(s: Writer<T>, e: Event<T, E>) -> (r: (Writer<T>, Action<T, E>))
    ensures
        r == next(s, e),
{
    match s {
        Writer::Advancing => match e {
            Event::Proceeded => (Writer::Reading, Action::Read),
            _ => (Writer::Advancing, Action::Ignore),
        },
        Writer::AdvancingSet(v) => match e {
            Event::Proceeded => (Writer::Swapping, Action::Swap(v)),
            _ => (Writer::AdvancingSet(v), Action::Ignore),
        },
        Writer::Reading => match e {
            Event::Computed(Ok(t)) => (Writer::Installing, Action::CompareAndSwap(t)),
            Event::Computed(Err(x)) => (Writer::Done, Action::Finish(Err(x))),
            _ => (Writer::Reading, Action::Ignore),
        },
        Writer::Installing => match e {
            Event::Replaced => (Writer::Retiring, Action::Retire),
            Event::Lost => (Writer::Reading, Action::Read),
            _ => (Writer::Installing, Action::Ignore),
        },
        Writer::Swapping => match e {
            Event::Replaced => (Writer::Retiring, Action::Retire),
            _ => (Writer::Swapping, Action::Ignore),
        },
        Writer::Retiring => match e {
            Event::Proceeded => (Writer::Done, Action::Finish(Ok(()))),
            _ => (Writer::Retiring, Action::Ignore),
        },
        Writer::Done => (Writer::Done, Action::Ignore),
    }
}

/// The states passed through and the actions issued when the events come in
/// order from `s`: one action for each event.
pub open spec fn run<T, E>(s: Writer<T>, events: Seq<Event<T, E>>) -> (Writer<T>, Seq<Action<T, E>>)
    decreases events.len(),
{
    if events.len() == 0 {
        (s, Seq::empty())
    } else {
        let (s1, a1) = next(s, events[0]);
        let (s2, rest) = run(s1, events.drop_first());
        (s2, seq![a1] + rest)
    }
}

/// Every action of an update call: the first one, then one for each event.
pub open spec fn update_trace<T, E>(reclaim: bool, events: Seq<Event<T, E>>) -> Seq<Action<T, E>> {
    seq![start_update::<T, E>(reclaim).1] + run(start_update::<T, E>(reclaim).0, events).1
}

/// Every action of a set call of `v`: the first one, then one for each event.
pub open spec fn set_trace<T, E>(reclaim: bool, v: T, events: Seq<Event<T, E>>) -> Seq<Action<T, E>> {
    seq![start_set::<T, E>(reclaim, v).1] + run(start_set::<T, E>(reclaim, v).0, events).1
}

/// Whether the action writes to the slot.
pub open spec fn installs<T, E>(a: Action<T, E>) -> bool {
    match a {
        Action::CompareAndSwap(_) | Action::Swap(_) => true,
        _ => false,
    }
}

/// Whether the event reports a successful result of the caller's function.
pub open spec fn computed_ok<T, E>(e: Event<T, E>) -> bool {
    match e {
        Event::Computed(Ok(_)) => true,
        _ => false,
    }
}

proof fn lemma_run_len<T, E>(s: Writer<T>, events: Seq<Event<T, E>>)
    ensures
        run(s, events).1.len() == events.len(),
    decreases events.len(),
{
    if events.len() > 0 {
        lemma_run_len(next(s, events[0]).0, events.drop_first());
    }
}

proof fn lemma_failing_run<T, E>(s: Writer<T>, events: Seq<Event<T, E>>)
    requires
        s is Advancing || s is Reading || s is Done,
        forall|i: int| 0 <= i < events.len() ==> !computed_ok(#[trigger] events[i]),
    ensures
        forall|j: int| 0 <= j < run(s, events).1.len() ==> !installs(#[trigger] run(s, events).1[j]),
    decreases events.len(),
{
    if events.len() > 0 {
        let rest = events.drop_first();
        assert(!computed_ok(events[0]));
        assert forall|i: int| 0 <= i < rest.len() implies !computed_ok(#[trigger] rest[i]) by {
            assert(rest[i] == events[i + 1]);
        }
        let s1 = next(s, events[0]).0;
        lemma_failing_run(s1, rest);
        lemma_run_len(s1, rest);
        let acts = run(s, events).1;
        assert forall|j: int| 0 <= j < acts.len() implies !installs(#[trigger] acts[j]) by {
            if j > 0 {
                assert(acts[j] == run(s1, rest).1[j - 1]);
            }
        }
    }
}

/// An update whose function fails on every attempt never writes to the
/// slot, whatever the other writers do: the cell is left as it was.
pub proof fn law_failing_update_installs_nothing<T, E>(reclaim: bool, events: Seq<Event<T, E>>)
    requires
        forall|i: int| 0 <= i < events.len() ==> !computed_ok(#[trigger] events[i]),
    ensures
        forall|j: int|
            0 <= j < update_trace(reclaim, events).len() ==> !installs(
                #[trigger] update_trace(reclaim, events)[j],
            ),
{
    lemma_failing_run(start_update::<T, E>(reclaim).0, events);
    let tr = update_trace(reclaim, events);
    assert forall|j: int| 0 <= j < tr.len() implies !installs(#[trigger] tr[j]) by {
        if j > 0 {
            assert(tr[j] == run(start_update::<T, E>(reclaim).0, events).1[j - 1]);
        }
    }
}

/// Whether a compare-and-swap action carries exactly the successful result
/// that the event reported.
pub open spec fn offers_computed<T, E>(a: Action<T, E>, e: Event<T, E>) -> bool {
    match a {
        Action::CompareAndSwap(t) => e == Event::<T, E>::Computed(Ok(t)),
        _ => true,
    }
}

proof fn lemma_run_installs_computed<T, E>(s: Writer<T>, events: Seq<Event<T, E>>)
    ensures
        run(s, events).1.len() == events.len(),
        forall|j: int| 0 <= j < events.len() ==> offers_computed(#[trigger] run(s, events).1[j], events[j]),
    decreases events.len(),
{
    lemma_run_len(s, events);
    if events.len() > 0 {
        let rest = events.drop_first();
        let s1 = next(s, events[0]).0;
        lemma_run_installs_computed(s1, rest);
        let acts = run(s, events).1;
        assert forall|j: int| 0 <= j < events.len() implies offers_computed(#[trigger] acts[j], events[j]) by {
            if j > 0 {
                assert(acts[j] == run(s1, rest).1[j - 1]);
                assert(rest[j - 1] == events[j]);
            }
        }
    }
}

/// An update offers to the slot only what the caller's function returned:
/// each compare-and-swap it issues carries exactly the result reported just
/// before it, on the value read in that attempt.
pub proof fn law_update_installs_function_result<T, E>(reclaim: bool, events: Seq<Event<T, E>>)
    ensures
        update_trace(reclaim, events).len() == events.len() + 1,
        forall|j: int|
            0 <= j < events.len() ==> offers_computed(#[trigger] update_trace(reclaim, events)[j + 1], events[j]),
{
    let s0 = start_update::<T, E>(reclaim).0;
    lemma_run_installs_computed(s0, events);
    let tr = update_trace(reclaim, events);
    assert forall|j: int| 0 <= j < events.len() implies offers_computed(#[trigger] tr[j + 1], events[j]) by {
        assert(tr[j + 1] == run(s0, events).1[j]);
    }
}

/// Whether the action belongs to a set of `v`: it swaps in `v` and nothing
/// else, and never reads or compares.
pub open spec fn set_action<T, E>(a: Action<T, E>, v: T) -> bool {
    match a {
        Action::Swap(w) => w == v,
        Action::CompareAndSwap(_) => false,
        Action::Read => false,
        _ => true,
    }
}

proof fn lemma_set_run_after_swap<T, E>(s: Writer<T>, v: T, events: Seq<Event<T, E>>)
    requires
        s is Swapping || s is Retiring || s is Done,
    ensures
        run(s, events).1.len() == events.len(),
        forall|j: int|
            0 <= j < events.len() ==> !installs(#[trigger] run(s, events).1[j]) && set_action(
                run(s, events).1[j],
                v,
            ),
    decreases events.len(),
{
    lemma_run_len(s, events);
    if events.len() > 0 {
        let s1 = next(s, events[0]).0;
        let rest = events.drop_first();
        lemma_set_run_after_swap(s1, v, rest);
        let acts = run(s, events).1;
        assert forall|j: int| 0 <= j < events.len() implies !installs(#[trigger] acts[j]) && set_action(
            acts[j],
            v,
        ) by {
            if j > 0 {
                assert(acts[j] == run(s1, rest).1[j - 1]);
            }
        }
    }
}

proof fn lemma_set_run_before_swap<T, E>(v: T, events: Seq<Event<T, E>>)
    ensures
        run(Writer::AdvancingSet(v), events).1.len() == events.len(),
        forall|j: int|
            0 <= j < events.len() ==> set_action(#[trigger] run(Writer::AdvancingSet(v), events).1[j], v),
        forall|i: int, j: int|
            0 <= i < j < events.len() ==> !(installs(#[trigger] run(Writer::AdvancingSet(v), events).1[i])
                && installs(#[trigger] run(Writer::AdvancingSet(v), events).1[j])),
    decreases events.len(),
{
    let s = Writer::<T>::AdvancingSet(v);
    lemma_run_len(s, events);
    if events.len() > 0 {
        let s1 = next(s, events[0]).0;
        let rest = events.drop_first();
        let acts = run(s, events).1;
        let tail = run(s1, rest).1;
        if events[0] is Proceeded {
            lemma_set_run_after_swap(s1, v, rest);
        } else {
            lemma_set_run_before_swap(v, rest);
        }
        assert forall|j: int| 0 < j < events.len() implies acts[j] == tail[j - 1] by {}
        assert forall|j: int| 0 <= j < events.len() implies set_action(#[trigger] acts[j], v) by {
            if j > 0 {
                assert(acts[j] == tail[j - 1]);
            }
        }
        assert forall|i: int, j: int|
            0 <= i < j < events.len() implies !(installs(#[trigger] acts[i]) && installs(#[trigger] acts[j])) by {
            assert(acts[j] == tail[j - 1]);
            if i > 0 {
                assert(acts[i] == tail[i - 1]);
            }
        }
    }
}

/// A set of `v` writes to the slot only by swapping in `v` itself, at most
/// once per call, and never reads the slot or retries: whatever the other
/// writers do, nothing is merged into `v` and it is never dropped for a
/// lost race.
pub proof fn law_set_swaps_in_its_value<T, E>(reclaim: bool, v: T, events: Seq<Event<T, E>>)
    ensures
        set_trace(reclaim, v, events).len() == events.len() + 1,
        forall|j: int|
            0 <= j < set_trace(reclaim, v, events).len() ==> set_action(
                #[trigger] set_trace(reclaim, v, events)[j],
                v,
            ),
        forall|i: int, j: int|
            0 <= i < j < set_trace(reclaim, v, events).len() ==> !(installs(
                #[trigger] set_trace(reclaim, v, events)[i],
            ) && installs(#[trigger] set_trace(reclaim, v, events)[j])),
{
    let s0 = start_set::<T, E>(reclaim, v).0;
    let tr = set_trace(reclaim, v, events);
    let tail = run(s0, events).1;
    if reclaim {
        lemma_set_run_before_swap(v, events);
    } else {
        lemma_set_run_after_swap(s0, v, events);
    }
    assert forall|j: int| 0 < j < tr.len() implies tr[j] == tail[j - 1] by {}
    assert forall|j: int| 0 <= j < tr.len() implies set_action(#[trigger] tr[j], v) by {
        if j > 0 {
            assert(tr[j] == tail[j - 1]);
        }
    }
    assert forall|i: int, j: int|
        0 <= i < j < tr.len() implies !(installs(#[trigger] tr[i]) && installs(#[trigger] tr[j])) by {
        assert(tr[j] == tail[j - 1]);
        if i > 0 {
            assert(tr[i] == tail[i - 1]);
        }
    }
}

/// Skipping the reclamation changes nothing but the epoch advance: an
/// update that reclaims issues that advance and then, event for event,
/// exactly the actions of an update that does not.
pub proof fn law_update_reclaim_only_adds_advance<T, E>(events: Seq<Event<T, E>>)
    ensures
        update_trace(true, seq![Event::<T, E>::Proceeded] + events) == seq![Action::<T, E>::AdvanceEpoch]
            + update_trace(false, events),
{
    let evs = seq![Event::<T, E>::Proceeded] + events;
    assert(evs.drop_first() =~= events);
    assert(evs[0] == Event::<T, E>::Proceeded);
    assert(update_trace(true, evs) =~= seq![Action::<T, E>::AdvanceEpoch] + update_trace(false, events));
}

/// Skipping the reclamation changes nothing but the epoch advance: a set
/// that reclaims issues that advance and then, event for event, exactly the
/// actions of a set that does not.
pub proof fn law_set_reclaim_only_adds_advance<T, E>(v: T, events: Seq<Event<T, E>>)
    ensures
        set_trace(true, v, seq![Event::<T, E>::Proceeded] + events) == seq![Action::<T, E>::AdvanceEpoch]
            + set_trace(false, v, events),
{
    let evs = seq![Event::<T, E>::Proceeded] + events;
    assert(evs.drop_first() =~= events);
    assert(evs[0] == Event::<T, E>::Proceeded);
    assert(set_trace(true, v, evs) =~= seq![Action::<T, E>::AdvanceEpoch] + set_trace(false, v, events));
}

/// Whether the action hands a superseded value to the reclaimer.
pub open spec fn retires<T, E>(a: Action<T, E>) -> bool {
    a is Retire
}

proof fn lemma_no_retire_after_retiring<T, E>(s: Writer<T>, events: Seq<Event<T, E>>)
    requires
        s is Retiring || s is Done,
    ensures
        run(s, events).1.len() == events.len(),
        forall|j: int| 0 <= j < events.len() ==> !retires(#[trigger] run(s, events).1[j]),
    decreases events.len(),
{
    lemma_run_len(s, events);
    if events.len() > 0 {
        let s1 = next(s, events[0]).0;
        let rest = events.drop_first();
        lemma_no_retire_after_retiring(s1, rest);
        let acts = run(s, events).1;
        assert forall|j: int| 0 <= j < events.len() implies !retires(#[trigger] acts[j]) by {
            if j > 0 {
                assert(acts[j] == run(s1, rest).1[j - 1]);
            }
        }
    }
}

proof fn lemma_retire_once<T, E>(s: Writer<T>, events: Seq<Event<T, E>>)
    ensures
        run(s, events).1.len() == events.len(),
        forall|j: int| 0 <= j < events.len() && retires(#[trigger] run(s, events).1[j]) ==> events[j] is Replaced,
        forall|i: int, j: int|
            0 <= i < j < events.len() ==> !(retires(#[trigger] run(s, events).1[i]) && retires(
                #[trigger] run(s, events).1[j],
            )),
        (s is Retiring || s is Done) ==> forall|j: int|
            0 <= j < events.len() ==> !retires(#[trigger] run(s, events).1[j]),
    decreases events.len(),
{
    lemma_run_len(s, events);
    if s is Retiring || s is Done {
        lemma_no_retire_after_retiring(s, events);
    }
    if events.len() > 0 {
        let s1 = next(s, events[0]).0;
        let rest = events.drop_first();
        let acts = run(s, events).1;
        let tail = run(s1, rest).1;
        lemma_retire_once(s1, rest);
        if retires(acts[0]) {
            lemma_no_retire_after_retiring(s1, rest);
        }
        assert forall|j: int| 0 < j < events.len() implies acts[j] == tail[j - 1] && events[j] == rest[j - 1] by {}
        assert forall|j: int| 0 <= j < events.len() && retires(#[trigger] acts[j]) implies events[j] is Replaced by {
            if j > 0 {
                assert(acts[j] == tail[j - 1]);
            }
        }
        assert forall|i: int, j: int|
            0 <= i < j < events.len() implies !(retires(#[trigger] acts[i]) && retires(#[trigger] acts[j])) by {
            assert(acts[j] == tail[j - 1]);
            if i > 0 {
                assert(acts[i] == tail[i - 1]);
            }
        }
    }
}

/// An update hands a superseded value to the reclaimer only right after the
/// slot was replaced, and at most once per call: no value is retired twice,
/// nor one that is still current.
pub proof fn law_update_retires_once<T, E>(reclaim: bool, events: Seq<Event<T, E>>)
    ensures
        update_trace(reclaim, events).len() == events.len() + 1,
        !retires(update_trace(reclaim, events)[0]),
        forall|j: int|
            0 <= j < events.len() && retires(#[trigger] update_trace(reclaim, events)[j + 1])
                ==> events[j] is Replaced,
        forall|i: int, j: int|
            0 <= i < j < update_trace(reclaim, events).len() ==> !(retires(
                #[trigger] update_trace(reclaim, events)[i],
            ) && retires(#[trigger] update_trace(reclaim, events)[j])),
{
    let s0 = start_update::<T, E>(reclaim).0;
    let tr = update_trace(reclaim, events);
    let tail = run(s0, events).1;
    lemma_retire_once(s0, events);
    assert forall|j: int| 0 < j < tr.len() implies tr[j] == tail[j - 1] by {}
    assert forall|j: int| 0 <= j < events.len() && retires(#[trigger] tr[j + 1]) implies events[j] is Replaced by {
        assert(tr[j + 1] == tail[j]);
    }
    assert forall|i: int, j: int|
        0 <= i < j < tr.len() implies !(retires(#[trigger] tr[i]) && retires(#[trigger] tr[j])) by {
        assert(tr[j] == tail[j - 1]);
        if i > 0 {
            assert(tr[i] == tail[i - 1]);
        }
    }
}

/// A set hands the value it superseded to the reclaimer only right after
/// its swap, and at most once per call.
pub proof fn law_set_retires_once<T, E>(reclaim: bool, v: T, events: Seq<Event<T, E>>)
    ensures
        set_trace(reclaim, v, events).len() == events.len() + 1,
        !retires(set_trace(reclaim, v, events)[0]),
        forall|j: int|
            0 <= j < events.len() && retires(#[trigger] set_trace(reclaim, v, events)[j + 1])
                ==> events[j] is Replaced,
        forall|i: int, j: int|
            0 <= i < j < set_trace(reclaim, v, events).len() ==> !(retires(
                #[trigger] set_trace(reclaim, v, events)[i],
            ) && retires(#[trigger] set_trace(reclaim, v, events)[j])),
{
    let s0 = start_set::<T, E>(reclaim, v).0;
    let tr = set_trace(reclaim, v, events);
    let tail = run(s0, events).1;
    lemma_retire_once(s0, events);
    assert forall|j: int| 0 < j < tr.len() implies tr[j] == tail[j - 1] by {}
    assert forall|j: int| 0 <= j < events.len() && retires(#[trigger] tr[j + 1]) implies events[j] is Replaced by {
        assert(tr[j + 1] == tail[j]);
    }
    assert forall|i: int, j: int|
        0 <= i < j < tr.len() implies !(retires(#[trigger] tr[i]) && retires(#[trigger] tr[j])) by {
        assert(tr[j] == tail[j - 1]);
        if i > 0 {
            assert(tr[i] == tail[i - 1]);
        }
    }
}

} // verus!
