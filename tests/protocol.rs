use crossbeam_arccell::epoch::{advance, enter};
use crossbeam_arccell::protocol::{begin_set, begin_update, step, Action, Event, Writer};

/// A slot kept as its list of generations, for driving writers by hand.
struct Sim {
    gens: Vec<u64>,
}

/// One writer in flight over a `Sim`.
struct Run<E> {
    state: Writer<u64>,
    action: Action<u64, E>,
    seen: usize,
}

impl<E> Run<E> {
    fn update(reclaim: bool) -> Run<E> {
        let (state, action) = begin_update(reclaim);
        Run { state, action, seen: 0 }
    }

    fn set(reclaim: bool, v: u64) -> Run<E> {
        let (state, action) = begin_set(reclaim, v);
        Run { state, action, seen: 0 }
    }

    /// Performs the pending action; returns the call's result once it finishes.
    fn advance<F: Fn(&u64) -> Result<u64, E>>(&mut self, sim: &mut Sim, f: &F) -> Option<Result<(), E>> {
        let action = std::mem::replace(&mut self.action, Action::Ignore);
        let event = match action {
            Action::AdvanceEpoch => Event::Proceeded,
            Action::Read => {
                self.seen = sim.gens.len() - 1;
                Event::Computed(f(&sim.gens[self.seen]))
            }
            Action::CompareAndSwap(t) => {
                if self.seen == sim.gens.len() - 1 {
                    sim.gens.push(t);
                    Event::Replaced
                } else {
                    Event::Lost
                }
            }
            Action::Swap(t) => {
                sim.gens.push(t);
                Event::Replaced
            }
            Action::Retire => Event::Proceeded,
            Action::Finish(r) => return Some(r),
            Action::Ignore => panic!("writer out of step"),
        };
        let state = std::mem::replace(&mut self.state, Writer::Done);
        let (state, action) = step(state, event);
        self.state = state;
        self.action = action;
        None
    }
}

fn run_alone<E, F: Fn(&u64) -> Result<u64, E>>(w: &mut Run<E>, sim: &mut Sim, f: &F) -> Result<(), E> {
    loop {
        if let Some(r) = w.advance(sim, f) {
            return r;
        }
    }
}

fn plus_one(v: &u64) -> Result<u64, ()> {
    Ok(*v + 1)
}

#[test]
fn update_starts_with_epoch_advance_only_when_reclaiming() {
    assert_eq!(begin_update::<u64, ()>(true), (Writer::Advancing, Action::AdvanceEpoch));
    assert_eq!(begin_update::<u64, ()>(false), (Writer::Reading, Action::Read));
}

#[test]
fn set_starts_with_epoch_advance_only_when_reclaiming() {
    assert_eq!(begin_set::<u64, ()>(true, 9), (Writer::AdvancingSet(9), Action::AdvanceEpoch));
    assert_eq!(begin_set::<u64, ()>(false, 9), (Writer::Swapping, Action::Swap(9)));
    assert_eq!(step::<u64, ()>(Writer::AdvancingSet(9), Event::Proceeded), (Writer::Swapping, Action::Swap(9)));
}

#[test]
fn computed_value_is_offered_for_compare_and_swap() {
    assert_eq!(
        step::<u64, ()>(Writer::Reading, Event::Computed(Ok(42))),
        (Writer::Installing, Action::CompareAndSwap(42))
    );
}

#[test]
fn failed_function_finishes_with_its_error() {
    assert_eq!(
        step::<u64, &str>(Writer::Reading, Event::Computed(Err("no"))),
        (Writer::Done, Action::Finish(Err("no")))
    );
}

#[test]
fn lost_race_reads_again() {
    assert_eq!(step::<u64, ()>(Writer::Installing, Event::Lost), (Writer::Reading, Action::Read));
}

#[test]
fn replacement_retires_then_finishes() {
    assert_eq!(step::<u64, ()>(Writer::Installing, Event::Replaced), (Writer::Retiring, Action::Retire));
    assert_eq!(step::<u64, ()>(Writer::Swapping, Event::Replaced), (Writer::Retiring, Action::Retire));
    assert_eq!(step::<u64, ()>(Writer::Retiring, Event::Proceeded), (Writer::Done, Action::Finish(Ok(()))));
}

#[test]
fn events_out_of_place_are_ignored() {
    assert_eq!(step::<u64, ()>(Writer::Swapping, Event::Lost), (Writer::Swapping, Action::Ignore));
    assert_eq!(step::<u64, ()>(Writer::Reading, Event::Replaced), (Writer::Reading, Action::Ignore));
    assert_eq!(step::<u64, ()>(Writer::Done, Event::Proceeded), (Writer::Done, Action::Ignore));
    assert_eq!(
        step::<u64, ()>(Writer::Advancing, Event::Computed(Ok(1))),
        (Writer::Advancing, Action::Ignore)
    );
}

#[test]
fn always_failing_update_leaves_slot_unchanged() {
    let mut sim = Sim { gens: vec![5] };
    let mut w = Run::update(true);
    let r = run_alone(&mut w, &mut sim, &|_: &u64| Err::<u64, &str>("refused"));
    assert_eq!(r, Err("refused"));
    assert_eq!(sim.gens, vec![5]);
}

#[test]
fn two_writers_interleaved_lose_no_increment() {
    let mut sim = Sim { gens: vec![7] };
    let mut left = [1000u32, 1000u32];
    let mut writers = [Run::<()>::update(true), Run::<()>::update(false)];
    while left[0] > 0 || left[1] > 0 {
        for i in 0..2 {
            if left[i] == 0 {
                continue;
            }
            if let Some(r) = writers[i].advance(&mut sim, &plus_one) {
                assert_eq!(r, Ok(()));
                left[i] -= 1;
                writers[i] = Run::update(i == 0);
            }
        }
    }
    assert_eq!(*sim.gens.last().unwrap(), 7 + 2000);
    assert_eq!(sim.gens.len(), 2001);
}

#[test]
fn set_racing_an_update_installs_its_value() {
    let mut sim = Sim { gens: vec![1] };
    let mut upd = Run::<()>::update(false);
    let mut set = Run::<()>::set(false, 100);
    // The update reads generation 0, then the set swaps in its value.
    assert!(upd.advance(&mut sim, &plus_one).is_none());
    assert!(set.advance(&mut sim, &plus_one).is_none());
    assert_eq!(sim.gens, vec![1, 100]);
    // The update's compare-and-swap loses, and it retries on the set's value.
    assert_eq!(run_alone(&mut upd, &mut sim, &plus_one), Ok(()));
    assert_eq!(run_alone(&mut set, &mut sim, &plus_one), Ok(()));
    assert_eq!(sim.gens, vec![1, 100, 101]);
}

#[test]
fn no_reclaim_update_reaches_same_value() {
    let mut a = Sim { gens: vec![3] };
    let mut b = Sim { gens: vec![3] };
    for _ in 0..10 {
        assert_eq!(run_alone(&mut Run::update(true), &mut a, &plus_one), Ok(()));
        assert_eq!(run_alone(&mut Run::update(false), &mut b, &plus_one), Ok(()));
    }
    assert_eq!(run_alone(&mut Run::set(false, 50), &mut b, &plus_one), Ok(()));
    assert_eq!(run_alone(&mut Run::set(true, 50), &mut a, &plus_one), Ok(()));
    assert_eq!(a.gens, b.gens);
    assert_eq!(*a.gens.last().unwrap(), 50);
}

#[test]
fn update_installs_function_of_current_value() {
    let mut sim = Sim { gens: vec![2] };
    let r = run_alone(&mut Run::update(true), &mut sim, &|v: &u64| Ok::<u64, ()>(*v * 10 + 1));
    assert_eq!(r, Ok(()));
    assert_eq!(sim.gens, vec![2, 21]);
}

#[test]
fn epoch_can_be_entered_and_advanced() {
    {
        let _pinned = enter(false);
        assert!(crossbeam_epoch::is_pinned());
    }
    {
        let _pinned = enter(true);
        assert!(crossbeam_epoch::is_pinned());
    }
    advance();
    assert!(!crossbeam_epoch::is_pinned());
}
