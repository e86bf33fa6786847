use vstd::prelude::*;
use crate::flag::Flag;
use crate::_try_drain::{_TryDrain, DrainState, Handle, lemma_record_empty, lemma_record_frame, lemma_record_push};

verus! {

broadcast use vstd::function::group_function_axioms;

/// The element that a drain hands to its predicate: the predicate can
/// read and change it, and decides its fate with the `Flag` it returns.
pub struct Element<'b, T> {
    elem: &'b mut T,
}

impl<'b, T> Element<'b, T> {
    /// Where the element is.
    pub closed spec fn slot(&self) -> &'b mut T {
        self.elem
    }

    /// Reads the element.
    pub fn get(&self) -> (r: &T)
        ensures
            *r == *self.slot(),
    {
        &*self.elem
    }

    /// Borrows the element mutably.
    pub fn get_mut(&mut self) -> (r: &mut T)
        ensures
            *r == *old(self).slot(),
            *final(final(self).slot()) == *final(old(self).slot()),
            *final(self).slot() == *final(r),
    {
        &mut *self.elem
    }
}

impl<'b, T> Handle<'b, T> for Element<'b, T> {
    open spec fn element_ref(&self) -> &'b mut T {
        self.slot()
    }
}

/// A drain whose predicate receives a handle to each element and answers
/// with a `Flag`.
#[verifier::reject_recursive_types(T)]
pub struct ElementTryDrain<'a, T, F> where F: FnMut(Element<T>) -> Flag {
    drain: _TryDrain<'a, T>,
    pred: F,
}

impl<'a, T, F> View for ElementTryDrain<'a, T, F> where F: FnMut(Element<T>) -> Flag {
    type V = DrainState<T>;

    closed spec fn view(&self) -> DrainState<T> {
        self.drain@
    }
}

impl<'a, T, F> ElementTryDrain<'a, T, F> where F: FnMut(Element<T>) -> Flag {
    /// The borrowed vector.
    pub closed spec fn target(&self) -> &'a mut Vec<T> {
        self.drain.target()
    }

    /// The predicate.
    pub closed spec fn pred(&self) -> F {
        self.pred
    }

    /// The drain's state describes the borrowed vector.
    pub open spec fn wf(&self) -> bool {
        &&& self@.wf()
        &&& self@.items == self.target()@
    }

    /// The predicate accepts every handle.
    pub open spec fn pred_total(&self) -> bool {
        forall|h: Element<T>| call_requires(self.pred(), (h,))
    }

    /// No element is yielded for sure; at most every unvisited one is.
    pub fn size_hint(&self) -> (r: (usize, Option<usize>))
        requires
            self.wf(),
        ensures
            r == (0usize, Some(self@.unvisited().len() as usize)),
    {
        (0, Some(self.drain.tail_len()))
    }

    /// Ends the drain: the vector keeps the kept elements followed by the
    /// elements not looked at, in order.
    pub fn finish(self)
        requires
            self.wf(),
        ensures
            (*final(self.target()))@ == self@.kept() + self@.unvisited(),
    {
        assert(self@.kept() + self@.unvisited() =~= self@.items);
        self.drain.finish();
    }

    /// A drain at the start of `vec`, judging with `pred`.
    /// `vec` is not emptied while the drain lives: it keeps every element
    /// that is not yielded or dropped (see `_TryDrain`).
    pub fn new(vec: &'a mut Vec<T>, pred: F) -> (r: Self)
        ensures
            r.wf(),
            r@ == DrainState::start(old(vec)@),
            r.pred() == pred,
            *final(vec) == *final(r.target()),
    {
        ElementTryDrain { drain: _TryDrain::new(vec), pred }
    }

    /// Runs the predicate over the unvisited elements in order until one
    /// is removed (and returned) or the iteration stops or runs out.
    /// Kept elements stay in the vector, in order, as the predicate left
    /// them.
    pub fn next(&mut self) -> (r: Option<T>)
        requires
            old(self).wf(),
            old(self).pred_total(),
        ensures
            final(self).wf(),
            final(self).pred() == old(self).pred(),
            *final(final(self).target()) == *final(old(self).target()),
            !old(self)@.is_active() ==> r is None && final(self)@ == old(self)@,
            DrainState::handed(old(self)@, final(self)@, r) + final(self)@.left() <= old(self)@.left(),
            final(self)@.items.len() + (if r is Some { 1int } else { 0int }) == old(self)@.items.len(),
            old(self)@.is_active() ==> {
                let o = old(self)@;
                let n = final(self)@;
                &&& o.pos <= n.pos
                &&& n.items.take(o.pos as int) == o.items.take(o.pos as int)
                // every element passed over was judged `Continue`
                &&& exists|ms: Seq<Element<'a, T>>| #![trigger ms.len()]
                    ms.len() == n.pos - o.pos
                    && forall|i: int| #![trigger ms[i]] 0 <= i < ms.len() ==> {
                        &&& mut_ref_current(ms[i].slot()) == o.items[o.pos + i]
                        &&& mut_ref_future(ms[i].slot()) == n.items[o.pos + i]
                        &&& call_ensures(old(self).pred(), (ms[i],), Flag::Continue)
                    }
                &&& match r {
                    Some(y) => {
                        &&& n.items.len() + 1 == o.items.len()
                        &&& n.items.skip(n.pos as int) == o.items.skip(n.pos + 1int)
                        &&& exists|m: Element<'a, T>|
                            mut_ref_current(m.slot()) == o.items[n.pos as int]
                            && mut_ref_future(m.slot()) == y
                            && if n.finished {
                                call_ensures(old(self).pred(), (m,), Flag::Return)
                            } else {
                                call_ensures(old(self).pred(), (m,), Flag::Yield)
                            }
                    },
                    None => {
                        &&& n.items.len() == o.items.len()
                        &&& n.pos == n.items.len() ==> !n.finished
                        &&& n.pos < n.items.len() ==> {
                            &&& n.finished
                            &&& n.items.skip(n.pos + 1int) == o.items.skip(n.pos + 1int)
                            &&& exists|m: Element<'a, T>|
                                mut_ref_current(m.slot()) == o.items[n.pos as int]
                                && mut_ref_future(m.slot()) == n.items[n.pos as int]
                                && call_ensures(old(self).pred(), (m,), Flag::Break)
                        }
                    },
                }
            },
    {
        let ghost o = self@;
        let ghost p = self.pred();
        proof {
            lemma_record_empty(p, Flag::Continue, o.items, o.items, o.pos as int);
        }
        loop
            invariant
                self.wf(),
                self.pred() == p,
                p == old(self).pred(),
                self.pred_total(),
                *final(self.target()) == *final(old(self).target()),
                o == old(self)@,
                old(self).wf(),
                o.is_active() ==> {
                    &&& o.pos <= self@.pos
                    &&& self@.items.len() == o.items.len()
                    &&& !self@.finished
                    &&& self@.items.take(o.pos as int) == o.items.take(o.pos as int)
                    &&& self@.items.skip(self@.pos as int) == o.items.skip(self@.pos as int)
                    &&& exists|ms: Seq<Element<'a, T>>| #![trigger ms.len()]
                        ms.len() == self@.pos - o.pos
                        && forall|i: int| #![trigger ms[i]] 0 <= i < ms.len() ==> {
                            &&& mut_ref_current(ms[i].slot()) == o.items[o.pos + i]
                            &&& mut_ref_future(ms[i].slot()) == self@.items[o.pos + i]
                            &&& call_ensures(p, (ms[i],), Flag::Continue)
                        }
                },
                !o.is_active() ==> self@ == o,
            decreases self@.items.len() - self@.pos,
        {
            if !self.drain.is_active() {
                return None;
            }
            let ghost before = self@;
            proof {
                if o.is_active() {
                    assert(before.items.skip(before.pos as int)[0] == o.items.skip(before.pos as int)[0]);
                    assert(before.items[before.pos as int] == o.items[before.pos as int]);
                }
            }
            let cur = self.drain.current_mut();
            let h = Element { elem: cur };
            assert(mut_ref_current(h.slot()) == before.items[before.pos as int]);
            let flag = (self.pred)(h);
            assert(call_ensures(p, (h,), flag));
            assert(mut_ref_future(h.slot()) == self@.items[before.pos as int]);
            assert(exists|m: Element<'a, T>|
                mut_ref_current(m.slot()) == before.items[before.pos as int]
                && mut_ref_future(m.slot()) == self@.items[before.pos as int]
                && call_ensures(p, (m,), flag));
            match self.drain.settle(flag) {
                Some(x) => {
                    proof {
                        assert(self@.items.skip(before.pos as int) =~= before.items.skip(before.pos + 1int));
                        assert(before.items.skip(before.pos + 1int) =~= before.items.skip(before.pos as int).skip(1));
                        assert(o.items.skip(before.pos + 1int) =~= o.items.skip(before.pos as int).skip(1));
                        lemma_record_frame(p, Flag::Continue, o.items, before.items, self@.items, o.pos as int, before.pos - o.pos);
                    }
                    return Some(x);
                },
                None => {
                    proof {
                        assert(self@.items.skip(before.pos + 1int) =~= before.items.skip(before.pos + 1int));
                        assert(before.items.skip(before.pos + 1int) =~= before.items.skip(before.pos as int).skip(1));
                        assert(o.items.skip(before.pos + 1int) =~= o.items.skip(before.pos as int).skip(1));
                    }
                    if let Flag::Break = flag {
                        proof {
                            lemma_record_frame(p, Flag::Continue, o.items, before.items, self@.items, o.pos as int, before.pos - o.pos);
                        }
                        return None;
                    }
                    proof {
                        lemma_record_frame(p, Flag::Continue, o.items, before.items, self@.items, o.pos as int, before.pos - o.pos);
                        lemma_record_push(p, Flag::Continue, o.items, self@.items, o.pos as int, before.pos - o.pos);
                    }
                },
            }
        }
    }
}

} // verus!
