use vstd::prelude::*;
use crate::flag::MoveFlag;
use crate::_try_drain::{_TryDrain, DrainState, lemma_move_step_left};

verus! {

broadcast use vstd::function::group_function_axioms;

/// The element that a moving drain hands to its predicate, taken out of
/// the vector and held in a slot. The predicate reads or changes it
/// through the handle and answers with one of the handle's decisions,
/// each of which consumes the handle; `take` and `take_and_stop` empty
/// the slot. Whatever is still in the slot afterwards goes back to the
/// vector.
pub struct MoveElement<'b, T> {
    slot: &'b mut Option<T>,
}

impl<'b, T> MoveElement<'b, T> {
    /// Where the handed-over element is held.
    pub closed spec fn slot(&self) -> &'b mut Option<T> {
        self.slot
    }

    /// The slot holds the element.
    pub open spec fn holds(&self) -> bool {
        *self.slot() is Some
    }

    /// The handed-over element.
    pub open spec fn element(&self) -> T {
        (*self.slot())->0
    }

    /// Reads the element.
    pub fn get(&self) -> (r: &T)
        requires
            self.holds(),
        ensures
            *r == self.element(),
    {
        self.slot.as_ref().unwrap()
    }

    /// Borrows the element mutably.
    pub fn get_mut(&mut self) -> (r: &mut T)
        requires
            old(self).holds(),
        ensures
            *r == old(self).element(),
            *final(self).slot() == Some(*final(r)),
            *final(final(self).slot()) == *final(old(self).slot()),
    {
        self.slot.as_mut().unwrap()
    }

    /// Removes the element from the vector: it is yielded.
    pub fn take(self) -> (r: MoveFlag<T>)
        requires
            self.holds(),
        ensures
            r == MoveFlag::Yield(self.element()),
            *final(self.slot()) is None,
    {
        MoveFlag::Yield(self.slot.take().unwrap())
    }

    /// Removes the element from the vector: it is yielded and the
    /// iteration stops.
    pub fn take_and_stop(self) -> (r: MoveFlag<T>)
        requires
            self.holds(),
        ensures
            r == MoveFlag::Return(self.element()),
            *final(self.slot()) is None,
    {
        MoveFlag::Return(self.slot.take().unwrap())
    }

    /// Keeps the element and stops the iteration.
    pub fn stop(self) -> (r: MoveFlag<T>)
        ensures
            r is Break,
            *final(self.slot()) == *self.slot(),
    {
        MoveFlag::Break
    }

    /// Keeps the element.
    pub fn keep(self) -> (r: MoveFlag<T>)
        ensures
            r is Continue,
            *final(self.slot()) == *self.slot(),
    {
        MoveFlag::Continue
    }
}

/// A drain whose predicate receives each element, taken out of the
/// vector, and answers with a `MoveFlag`.
#[verifier::reject_recursive_types(T)]
pub struct ElementMoveDrain<'a, T, F> where F: FnMut(MoveElement<T>) -> MoveFlag<T> {
    drain: _TryDrain<'a, T>,
    pred: F,
}

impl<'a, T, F> View for ElementMoveDrain<'a, T, F> where F: FnMut(MoveElement<T>) -> MoveFlag<T> {
    type V = DrainState<T>;

    closed spec fn view(&self) -> DrainState<T> {
        self.drain@
    }
}

/// `hs[j]` handed `states[j]`'s current element to `pred`, which left
/// `steps[j].0` in its slot and answered `steps[j].1`.
proof fn lemma_handles_push<'x, T, F: FnMut(MoveElement<T>) -> MoveFlag<T>>(
    pred: F,
    states: Seq<DrainState<T>>,
    steps: Seq<(Option<T>, MoveFlag<T>)>,
    h: MoveElement<'x, T>,
    state: DrainState<T>,
    step: (Option<T>, MoveFlag<T>),
)
    requires
        exists|hs: Seq<MoveElement<'x, T>>| #![trigger hs.len()]
            hs.len() == steps.len()
            && forall|j: int| #![trigger hs[j]] 0 <= j < hs.len() ==> {
                &&& *hs[j].slot() == Some(states[j].current())
                &&& *final(hs[j].slot()) == steps[j].0
                &&& call_ensures(pred, (hs[j],), steps[j].1)
            },
        *h.slot() == Some(state.current()),
        *final(h.slot()) == step.0,
        call_ensures(pred, (h,), step.1),
        states.len() == steps.len() + 1,
        states.last() == state,
    ensures
        exists|hs: Seq<MoveElement<'x, T>>| #![trigger hs.len()]
            hs.len() == steps.push(step).len()
            && forall|j: int| #![trigger hs[j]] 0 <= j < hs.len() ==> {
                &&& *hs[j].slot() == Some(states[j].current())
                &&& *final(hs[j].slot()) == steps.push(step)[j].0
                &&& call_ensures(pred, (hs[j],), steps.push(step)[j].1)
            },
{
    let hs = choose|hs: Seq<MoveElement<'x, T>>| #![trigger hs.len()]
        hs.len() == steps.len()
        && forall|j: int| #![trigger hs[j]] 0 <= j < hs.len() ==> {
            &&& *hs[j].slot() == Some(states[j].current())
            &&& *final(hs[j].slot()) == steps[j].0
            &&& call_ensures(pred, (hs[j],), steps[j].1)
        };
    let hs1 = hs.push(h);
    assert(hs1.len() == steps.push(step).len());
    assert(forall|j: int| #![trigger hs1[j]] 0 <= j < hs1.len() ==> {
        &&& *hs1[j].slot() == Some(states[j].current())
        &&& *final(hs1[j].slot()) == steps.push(step)[j].0
        &&& call_ensures(pred, (hs1[j],), steps.push(step)[j].1)
    });
}

impl<'a, T, F> ElementMoveDrain<'a, T, F> where F: FnMut(MoveElement<T>) -> MoveFlag<T> {
    /// The borrowed vector.
    pub closed spec fn target(&self) -> &'a mut Vec<T> {
        self.drain.target()
    }

    /// The predicate.
    pub closed spec fn pred(&self) -> F {
        self.pred
    }

    /// The drain's state describes the borrowed vector.
    pub open spec fn wf(&self) -> bool {
        &&& self@.wf()
        &&& self@.items == self.target()@
    }

    /// The predicate accepts every handle that holds its element, as
    /// every handle that the drain passes does.
    pub open spec fn pred_total(&self) -> bool {
        forall|h: MoveElement<T>| h.holds() ==> call_requires(self.pred(), (h,))
    }

    /// No element is yielded for sure; at most every unvisited one is.
    pub fn size_hint(&self) -> (r: (usize, Option<usize>))
        requires
            self.wf(),
        ensures
            r == (0usize, Some(self@.unvisited().len() as usize)),
    {
        (0, Some(self.drain.tail_len()))
    }

    /// Ends the drain: the vector keeps the kept elements followed by the
    /// elements not looked at, in order.
    pub fn finish(self)
        requires
            self.wf(),
        ensures
            (*final(self.target()))@ == self@.kept() + self@.unvisited(),
    {
        assert(self@.kept() + self@.unvisited() =~= self@.items);
        self.drain.finish();
    }

    /// A drain at the start of `vec`, judging with `pred`.
    /// `vec` is not emptied while the drain lives: it keeps every element
    /// that is not yielded or dropped (see `_TryDrain`).
    pub fn new(vec: &'a mut Vec<T>, pred: F) -> (r: Self)
        ensures
            r.wf(),
            r@ == DrainState::start(old(vec)@),
            r.pred() == pred,
            *final(vec) == *final(r.target()),
    {
        ElementMoveDrain { drain: _TryDrain::new(vec), pred }
    }

    /// Hands the unvisited elements to the predicate in order until a
    /// decision yields an element or the iteration stops or runs out.
    pub fn next(&mut self) -> (r: Option<T>)
        requires
            old(self).wf(),
            old(self).pred_total(),
        ensures
            final(self).wf(),
            final(self).pred() == old(self).pred(),
            *final(final(self).target()) == *final(old(self).target()),
            !old(self)@.is_active() ==> r is None && final(self)@ == old(self)@,
            old(self)@.is_active() ==> exists|states: Seq<DrainState<T>>, steps: Seq<(Option<T>, MoveFlag<T>)>, hs: Seq<MoveElement<'a, T>>|
                #![trigger states.len(), steps.len(), hs.len()]
                {
                    &&& states[0] == old(self)@
                    &&& states.last() == final(self)@
                    &&& DrainState::is_move_run(states, steps, r)
                    &&& steps.len() + final(self)@.left() <= old(self)@.left()
                    &&& hs.len() == steps.len()
                    &&& forall|j: int| #![trigger hs[j]] 0 <= j < hs.len() ==> {
                        &&& *hs[j].slot() == Some(states[j].current())
                        &&& *final(hs[j].slot()) == steps[j].0
                        &&& call_ensures(old(self).pred(), (hs[j],), steps[j].1)
                    }
                },
    {
        let ghost o = self@;
        let ghost p = self.pred();
        let ghost mut states: Seq<DrainState<T>> = seq![o];
        let ghost mut steps: Seq<(Option<T>, MoveFlag<T>)> = Seq::empty();
        proof {
            let hs = Seq::<MoveElement<'a, T>>::empty();
            assert(hs.len() == steps.len());
        }
        loop
            invariant
                self.wf(),
                self.pred() == p,
                p == old(self).pred(),
                self.pred_total(),
                *final(self.target()) == *final(old(self).target()),
                o == old(self)@,
                old(self).wf(),
                !o.is_active() ==> self@ == o,
                o.is_active() ==> {
                    &&& states.len() == steps.len() + 1
                    &&& states[0] == o
                    &&& states.last() == self@
                    &&& steps.len() + self@.left() <= o.left()
                    &&& forall|j: int| #![trigger steps[j]] 0 <= j < steps.len() ==> {
                        &&& DrainState::is_move_step(states[j], steps[j], states[j + 1])
                        &&& DrainState::<T>::moved_item(steps[j].1) is None
                    }
                    &&& exists|hs: Seq<MoveElement<'a, T>>| #![trigger hs.len()]
                        hs.len() == steps.len()
                        && forall|j: int| #![trigger hs[j]] 0 <= j < hs.len() ==> {
                            &&& *hs[j].slot() == Some(states[j].current())
                            &&& *final(hs[j].slot()) == steps[j].0
                            &&& call_ensures(p, (hs[j],), steps[j].1)
                        }
                },
            decreases self@.items.len() - self@.pos,
        {
            if !self.drain.is_active() {
                proof {
                    if o.is_active() {
                        if steps.len() == 0 {
                            assert(states.last() == states[0]);
                        }
                        let hs = choose|hs: Seq<MoveElement<'a, T>>| #![trigger hs.len()]
                            hs.len() == steps.len()
                            && forall|j: int| #![trigger hs[j]] 0 <= j < hs.len() ==> {
                                &&& *hs[j].slot() == Some(states[j].current())
                                &&& *final(hs[j].slot()) == steps[j].0
                                &&& call_ensures(p, (hs[j],), steps[j].1)
                            };
                        assert(hs.len() == steps.len());
                        assert(DrainState::is_move_run(states, steps, None));
                    }
                }
                return None;
            }
            let ghost before = self@;
            let e = self.drain.hand_over();
            let mut slot: Option<T> = Some(e);
            let h = MoveElement { slot: &mut slot };
            assert(*h.slot() == Some(before.current()));
            assert(h.holds());
            let flag = (self.pred)(h);
            assert(*final(h.slot()) == slot);
            assert(call_ensures(p, (h,), flag));
            assert(exists|h: MoveElement<'a, T>|
                *h.slot() == Some(before.current())
                && *final(h.slot()) == slot
                && call_ensures(p, (h,), flag));
            let ghost step = (slot, flag);
            let r = self.drain.settle_moved(slot, flag);
            proof {
                let h = choose|h: MoveElement<'a, T>|
                    *h.slot() == Some(before.current())
                    && *final(h.slot()) == slot
                    && call_ensures(p, (h,), flag);
                lemma_handles_push(p, states, steps, h, before, step);
                lemma_move_step_left(before, step, self@);
                steps = steps.push(step);
                states = states.push(self@);
            }
            if r.is_some() || self.drain.finished() {
                proof {
                    let hs = choose|hs: Seq<MoveElement<'a, T>>| #![trigger hs.len()]
                        hs.len() == steps.len()
                        && forall|j: int| #![trigger hs[j]] 0 <= j < hs.len() ==> {
                            &&& *hs[j].slot() == Some(states[j].current())
                            &&& *final(hs[j].slot()) == steps[j].0
                            &&& call_ensures(p, (hs[j],), steps[j].1)
                        };
                    assert(hs.len() == steps.len());
                    assert(DrainState::is_move_run(states, steps, r));
                }
                return r;
            }
        }
    }
}

} // verus!
