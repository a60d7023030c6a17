//! The generational model of the cell's slot.
//!
//! A slot is described by its generations: the first is the value the cell
//! was made with, each later one the value that one successful replacement
//! installed. Replacements are totally ordered by when they succeed.
use vstd::prelude::*;

verus! {

/// The value the slot holds now.
pub open spec fn current<T>(h: Seq<T>) -> T {
    h.last()
}

/// The number of successful replacements so far.
pub open spec fn generation<T>(h: Seq<T>) -> nat {
    (h.len() - 1) as nat
}

/// One writer's attempt on the slot: `(None, v)` swaps in `v`; `(Some(g), v)`
/// is a compare-and-swap of `v` by a writer that read generation `g`, which
/// succeeds only when no other replacement came in between.
pub open spec fn replace<T>(h: Seq<T>, op: (Option<nat>, T)) -> Seq<T> {
    match op.0 {
        None => h.push(op.1),
        Some(g) => if g + 1 == h.len() {
            h.push(op.1)
        } else {
            h
        },
    }
}

/// The slot after the attempts, in the order in which they reached it.
pub open spec fn replay<T>(h: Seq<T>, ops: Seq<(Option<nat>, T)>) -> Seq<T>
    decreases ops.len(),
{
    if ops.len() == 0 {
        h
    } else {
        replace(replay(h, ops.drop_last()), ops.last())
    }
}

/// Each attempt either changes nothing or adds exactly one generation
/// holding the value offered; a swap always adds one, and a
/// compare-and-swap adds one exactly when the generation it read is still
/// the current one.
pub proof fn law_replacement_is_one_generation<T>(h: Seq<T>, op: (Option<nat>, T))
    requires
        h.len() > 0,
    ensures
        replace(h, op) == h || replace(h, op) == h.push(op.1),
        op.0 is None ==> replace(h, op) == h.push(op.1),
        op.0 is Some ==> (replace(h, op) == h.push(op.1) <==> op.0.unwrap() == generation(h)),
{
    if op.0 is Some && replace(h, op) == h.push(op.1) {
        assert(replace(h, op).len() == h.len() + 1);
    }
}

/// An update is linearizable: when its compare-and-swap of `f` applied to
/// the value it read succeeds, what it installs is `f` applied to the value
/// current at that moment, and nothing else changes.
pub proof fn law_update_applies_to_current<T>(h: Seq<T>, g: nat, f: spec_fn(T) -> T)
    requires
        g < h.len(),
    ensures
        replace(h, (Some(g), f(h[g as int]))) == h || replace(h, (Some(g), f(h[g as int]))) == h.push(
            f(current(h)),
        ),
{
}

/// However the attempts interleave, every generation of the slot holds the
/// value the cell was made with or a value some attempt offered: never a
/// torn or made-up value.
pub proof fn law_slot_holds_offered_values<T>(init: T, ops: Seq<(Option<nat>, T)>)
    ensures
        replay(seq![init], ops).len() >= 1,
        forall|k: int|
            0 <= k < replay(seq![init], ops).len() ==> #[trigger] replay(seq![init], ops)[k] == init
                || exists|i: int| 0 <= i < ops.len() && ops[i].1 == replay(seq![init], ops)[k],
    decreases ops.len(),
{
    if ops.len() > 0 {
        let pre = ops.drop_last();
        law_slot_holds_offered_values(init, pre);
        let h0 = replay(seq![init], pre);
        let h = replay(seq![init], ops);
        assert forall|k: int| 0 <= k < h.len() implies #[trigger] h[k] == init || exists|i: int|
            0 <= i < ops.len() && ops[i].1 == h[k] by {
            if k < h0.len() {
                assert(h[k] == h0[k]);
                if h0[k] != init {
                    let i = choose|i: int| 0 <= i < pre.len() && pre[i].1 == h0[k];
                    assert(ops[i] == pre[i]);
                }
            } else {
                assert(h[k] == ops.last().1);
                assert(ops[ops.len() - 1].1 == h[k]);
            }
        }
    }
}

/// Whether every attempt is a compare-and-swap that offers one more than
/// the value of the generation it read.
pub open spec fn all_increments(init: int, ops: Seq<(Option<nat>, int)>) -> bool {
    forall|k: int|
        0 <= k < ops.len() ==> {
            let h = replay(seq![init], ops.take(k));
            &&& (#[trigger] ops[k]).0 is Some
            &&& ops[k].0.unwrap() < h.len()
            &&& ops[k].1 == h[ops[k].0.unwrap() as int] + 1
        }
}

/// Writers that each add one, interleaved in any way, lose no increment:
/// the slot ends at the initial value plus the number of successful
/// replacements.
pub proof fn law_increments_add_up(init: int, ops: Seq<(Option<nat>, int)>)
    requires
        all_increments(init, ops),
    ensures
        replay(seq![init], ops).len() >= 1,
        forall|i: int| 0 <= i < replay(seq![init], ops).len() ==> #[trigger] replay(seq![init], ops)[i] == init + i,
        current(replay(seq![init], ops)) == init + generation(replay(seq![init], ops)),
    decreases ops.len(),
{
    if ops.len() > 0 {
        let pre = ops.drop_last();
        assert forall|k: int| 0 <= k < pre.len() implies {
            let h = replay(seq![init], pre.take(k));
            &&& (#[trigger] pre[k]).0 is Some
            &&& pre[k].0.unwrap() < h.len()
            &&& pre[k].1 == h[pre[k].0.unwrap() as int] + 1
        } by {
            assert(pre.take(k) =~= ops.take(k));
            assert(pre[k] == ops[k]);
        }
        law_increments_add_up(init, pre);
        let k = ops.len() - 1;
        assert(ops.take(k) =~= pre);
        assert(ops[k] == ops.last());
    }
}

} // verus!
