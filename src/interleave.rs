//! One writer's update, driven by the protocol, against the slot model while
//! other writers' attempts reach the slot between any two of its actions.
use vstd::prelude::*;
use crate::protocol::{next, start_update, Action, Event, Writer};
use crate::slot::{current, generation, replay};

verus! {

/// What performing `a` on the slot `h` does, for an update of `f` that last
/// read generation `seen`: the slot after, the generation read, and the event
/// reported back.
pub open spec fn perform<T, E>(h: Seq<T>, seen: nat, a: Action<T, E>, f: spec_fn(T) -> T) -> (
    Seq<T>,
    nat,
    Event<T, E>,
) {
    match a {
        Action::Read => (h, generation(h), Event::Computed(Ok(f(current(h))))),
        Action::CompareAndSwap(t) => if seen + 1 == h.len() {
            (h.push(t), seen, Event::Replaced)
        } else {
            (h, seen, Event::Lost)
        },
        Action::Swap(t) => (h.push(t), seen, Event::Replaced),
        _ => (h, seen, Event::Proceeded),
    }
}

/// The slot as the update leaves it when `others[i]` reach the slot just
/// before its `i`-th action, with the generation it installed, if any, and
/// how many times its own actions replaced the slot.
pub open spec fn update_among<T, E>(
    h: Seq<T>,
    seen: nat,
    s: Writer<T>,
    a: Action<T, E>,
    f: spec_fn(T) -> T,
    others: Seq<Seq<(Option<nat>, T)>>,
    mine: Option<nat>,
    count: nat,
) -> (Seq<T>, Option<nat>, nat)
    decreases others.len(),
{
    if others.len() == 0 {
        (h, mine, count)
    } else {
        let h1 = replay(h, others[0]);
        let (h2, seen2, e) = perform(h1, seen, a, f);
        let (s2, a2) = next(s, e);
        let grew = h2.len() > h1.len();
        update_among(
            h2,
            seen2,
            s2,
            a2,
            f,
            others.drop_first(),
            if grew { Some(h1.len()) } else { mine },
            if grew { count + 1 } else { count },
        )
    }
}

proof fn lemma_replay_extends<T>(h: Seq<T>, ops: Seq<(Option<nat>, T)>)
    ensures
        replay(h, ops).len() >= h.len(),
        forall|i: int| 0 <= i < h.len() ==> #[trigger] replay(h, ops)[i] == h[i],
    decreases ops.len(),
{
    if ops.len() > 0 {
        lemma_replay_extends(h, ops.drop_last());
    }
}

/// Where the writer stands, and what its pending action carries.
pub open spec fn writer_ok<T, E>(
    h: Seq<T>,
    seen: nat,
    s: Writer<T>,
    a: Action<T, E>,
    f: spec_fn(T) -> T,
    mine: Option<nat>,
    count: nat,
) -> bool {
    &&& h.len() >= 1
    &&& match s {
        Writer::Advancing => a == Action::<T, E>::AdvanceEpoch && mine is None && count == 0,
        Writer::Reading => a == Action::<T, E>::Read && mine is None && count == 0,
        Writer::Installing => seen < h.len() && a == Action::<T, E>::CompareAndSwap(f(h[seen as int]))
            && mine is None && count == 0,
        Writer::Retiring => a == Action::<T, E>::Retire && mine is Some && count == 1,
        Writer::Done => (a == Action::<T, E>::Finish(Ok(())) || a == Action::<T, E>::Ignore)
            && mine is Some && count == 1,
        _ => false,
    }
    &&& match mine {
        Some(w) => 1 <= w < h.len() && h[w as int] == f(h[w - 1]),
        None => true,
    }
}

proof fn lemma_update_among<T, E>(
    h: Seq<T>,
    seen: nat,
    s: Writer<T>,
    a: Action<T, E>,
    f: spec_fn(T) -> T,
    others: Seq<Seq<(Option<nat>, T)>>,
    mine: Option<nat>,
    count: nat,
)
    requires
        writer_ok(h, seen, s, a, f, mine, count),
    ensures
        ({
            let (hf, m, c) = update_among(h, seen, s, a, f, others, mine, count);
            &&& hf.len() >= h.len()
            &&& forall|i: int| 0 <= i < h.len() ==> #[trigger] hf[i] == h[i]
            &&& c <= 1
            &&& (c == 1 <==> m is Some)
            &&& match m {
                Some(w) => 1 <= w < hf.len() && hf[w as int] == f(hf[w - 1]),
                None => true,
            }
        }),
    decreases others.len(),
{
    if others.len() > 0 {
        let h1 = replay(h, others[0]);
        lemma_replay_extends(h, others[0]);
        let (h2, seen2, e) = perform(h1, seen, a, f);
        let (s2, a2) = next(s, e);
        let grew = h2.len() > h1.len();
        let mine2 = if grew { Some(h1.len()) } else { mine };
        let count2: nat = if grew { count + 1 } else { count };
        if let Writer::Installing = s {
            assert(h1[seen as int] == h[seen as int]);
        }
        assert(writer_ok(h2, seen2, s2, a2, f, mine2, count2)) by {
            if let Some(w) = mine {
                assert(h1[w as int] == h[w as int]);
                assert(h1[w - 1] == h[w - 1]);
            }
        }
        lemma_update_among(h2, seen2, s2, a2, f, others.drop_first(), mine2, count2);
        let (hf, m, c) = update_among(h, seen, s, a, f, others, mine, count);
        assert forall|i: int| 0 <= i < h.len() implies #[trigger] hf[i] == h[i] by {
            assert(hf[i] == h2[i]);
            assert(h2[i] == h1[i]);
        }
    }
}

/// An update is linearizable among any other writers: however their
/// attempts interleave with its actions, it leaves every earlier generation
/// as it was, replaces the slot at most once, and when it does, the value it
/// installs is `f` applied to the value current just before.
pub proof fn law_update_linearizes<T, E>(
    h: Seq<T>,
    reclaim: bool,
    f: spec_fn(T) -> T,
    others: Seq<Seq<(Option<nat>, T)>>,
)
    requires
        h.len() >= 1,
    ensures
        ({
            let (hf, m, c) = update_among(
                h,
                0,
                start_update::<T, E>(reclaim).0,
                start_update::<T, E>(reclaim).1,
                f,
                others,
                None,
                0,
            );
            &&& hf.len() >= h.len()
            &&& forall|i: int| 0 <= i < h.len() ==> #[trigger] hf[i] == h[i]
            &&& c <= 1
            &&& (c == 1 <==> m is Some)
            &&& match m {
                Some(w) => 1 <= w < hf.len() && hf[w as int] == f(hf[w - 1]),
                None => true,
            }
        }),
{
    lemma_update_among(h, 0, start_update::<T, E>(reclaim).0, start_update::<T, E>(reclaim).1, f, others, None, 0);
}

proof fn lemma_finished_writer_keeps_quiet_slot<T, E>(
    h: Seq<T>,
    seen: nat,
    s: Writer<T>,
    a: Action<T, E>,
    f: spec_fn(T) -> T,
    others: Seq<Seq<(Option<nat>, T)>>,
    mine: Option<nat>,
    count: nat,
)
    requires
        s is Retiring || s is Done,
        a is Retire || a is Finish || a is Ignore,
        forall|i: int| 0 <= i < others.len() ==> (#[trigger] others[i]).len() == 0,
    ensures
        update_among(h, seen, s, a, f, others, mine, count) == (h, mine, count),
    decreases others.len(),
{
    if others.len() > 0 {
        let rest = others.drop_first();
        assert forall|i: int| 0 <= i < rest.len() implies (#[trigger] rest[i]).len() == 0 by {
            assert(rest[i] == others[i + 1]);
        }
        let (s2, a2) = next(s, perform(h, seen, a, f).2);
        lemma_finished_writer_keeps_quiet_slot(h, seen, s2, a2, f, rest, mine, count);
    }
}

proof fn lemma_read_alone<T, E>(
    h: Seq<T>,
    seen: nat,
    f: spec_fn(T) -> T,
    others: Seq<Seq<(Option<nat>, T)>>,
)
    requires
        h.len() >= 1,
        others.len() >= 2,
        forall|i: int| 0 <= i < others.len() ==> (#[trigger] others[i]).len() == 0,
    ensures
        update_among(h, seen, Writer::<T>::Reading, Action::<T, E>::Read, f, others, None, 0) == (
            h.push(f(current(h))),
            Some(h.len()),
            1nat,
        ),
{
    let o1 = others.drop_first();
    let o2 = o1.drop_first();
    assert(others[0].len() == 0 && others[1].len() == 0);
    assert(o1[0] == others[1]);
    assert forall|i: int| 0 <= i < o2.len() implies (#[trigger] o2[i]).len() == 0 by {
        assert(o2[i] == others[i + 2]);
    }
    let hn = h.push(f(current(h)));
    let g = generation(h);
    let v = f(current(h));
    assert(replay(h, others[0]) == h);
    assert(replay(h, o1[0]) == h);
    lemma_finished_writer_keeps_quiet_slot(
        hn, g, Writer::<T>::Retiring, Action::<T, E>::Retire, f, o2, Some(h.len()), 1,
    );
    assert(update_among(h, g, Writer::<T>::Installing, Action::<T, E>::CompareAndSwap(v), f, o1, None, 0)
        == update_among(hn, g, Writer::<T>::Retiring, Action::<T, E>::Retire, f, o2, Some(h.len()), 1));
}

/// With no other writer in the way, an update gets its value in on its
/// first attempt: once it has had three turns, the slot holds one more
/// generation, `f` applied to the value it held.
pub proof fn law_update_alone<T, E>(
    h: Seq<T>,
    reclaim: bool,
    f: spec_fn(T) -> T,
    others: Seq<Seq<(Option<nat>, T)>>,
)
    requires
        h.len() >= 1,
        others.len() >= 3,
        forall|i: int| 0 <= i < others.len() ==> (#[trigger] others[i]).len() == 0,
    ensures
        update_among(
            h,
            0,
            start_update::<T, E>(reclaim).0,
            start_update::<T, E>(reclaim).1,
            f,
            others,
            None,
            0,
        ) == (h.push(f(current(h))), Some(h.len()), 1nat),
{
    if reclaim {
        let o1 = others.drop_first();
        assert(others[0].len() == 0);
        assert(replay(h, others[0]) == h);
        assert forall|i: int| 0 <= i < o1.len() implies (#[trigger] o1[i]).len() == 0 by {
            assert(o1[i] == others[i + 1]);
        }
        lemma_read_alone::<T, E>(h, 0, f, o1);
    } else {
        lemma_read_alone::<T, E>(h, 0, f, others);
    }
}

} // verus!
