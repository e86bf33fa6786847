use vstd::prelude::*;
use crate::flag::Flag;
use crate::_try_drain::{_TryDrain, DrainState, lemma_record_empty, lemma_record_frame, lemma_record_push};
use crate::laws::{flag_next, passed_to, lemma_flag_next_of};

verus! {

broadcast use vstd::function::group_function_axioms;

/// A drain whose predicate sees each element by mutable reference and
/// answers with a `Flag`.
pub struct TryDrain<'a, T, F> where F: FnMut(&mut T) -> Flag {
    drain: _TryDrain<'a, T>,
    pred: F,
}

impl<'a, T, F> View for TryDrain<'a, T, F> where F: FnMut(&mut T) -> Flag {
    type V = DrainState<T>;

    closed spec fn view(&self) -> DrainState<T> {
        self.drain@
    }
}

impl<'a, T, F> TryDrain<'a, T, F> where F: FnMut(&mut T) -> Flag {
    /// The borrowed vector.
    pub closed spec fn target(&self) -> &'a mut Vec<T> {
        self.drain.target()
    }

    /// The predicate.
    pub closed spec fn pred(&self) -> F {
        self.pred
    }

    /// The drain's state describes the borrowed vector.
    pub open spec fn wf(&self) -> bool {
        &&& self@.wf()
        &&& self@.items == self.target()@
    }

    /// The predicate accepts every element.
    pub open spec fn pred_total(&self) -> bool {
        forall|x: &mut T| call_requires(self.pred(), (x,))
    }

    /// No element is yielded for sure; at most every unvisited one is.
    pub fn size_hint(&self) -> (r: (usize, Option<usize>))
        requires
            self.wf(),
        ensures
            r == (0usize, Some(self@.unvisited().len() as usize)),
    {
        (0, Some(self.drain.tail_len()))
    }

    /// Ends the drain: the vector keeps the kept elements followed by the
    /// elements not looked at, in order.
    pub fn finish(self)
        requires
            self.wf(),
        ensures
            (*final(self.target()))@ == self@.kept() + self@.unvisited(),
    {
        assert(self@.kept() + self@.unvisited() =~= self@.items);
        self.drain.finish();
    }

    /// A drain at the start of `vec`, judging with `pred`.
    /// `vec` is not emptied while the drain lives: it keeps every element
    /// that is not yielded or dropped (see `_TryDrain`).
    pub fn new(vec: &'a mut Vec<T>, pred: F) -> (r: Self)
        ensures
            r.wf(),
            r@ == DrainState::start(old(vec)@),
            r.pred() == pred,
            *final(vec) == *final(r.target()),
    {
        TryDrain { drain: _TryDrain::new(vec), pred }
    }

    /// Runs the predicate over the unvisited elements in order until one
    /// is removed (and returned) or the iteration stops or runs out.
    /// Kept elements stay in the vector, in order, as the predicate left
    /// them.
    ///
    /// A predicate that leaves elements as they are and answers `g(x)` for
    /// each element `x` makes this the flag drain's step `flag_next`.
    pub fn next(&mut self) -> (r: Option<T>)
        requires
            old(self).wf(),
            old(self).pred_total(),
        ensures
            final(self).wf(),
            final(self).pred() == old(self).pred(),
            *final(final(self).target()) == *final(old(self).target()),
            !old(self)@.is_active() ==> r is None && final(self)@ == old(self)@,
            DrainState::handed(old(self)@, final(self)@, r) + final(self)@.left() <= old(self)@.left(),
            final(self)@.items.len() + (if r is Some { 1int } else { 0int }) == old(self)@.items.len(),
            old(self)@.is_active() ==> {
                let o = old(self)@;
                let n = final(self)@;
                &&& o.pos <= n.pos
                &&& n.items.take(o.pos as int) == o.items.take(o.pos as int)
                // every element passed over was judged `Continue`
                &&& exists|ms: Seq<&mut T>| #![trigger ms.len()]
                    ms.len() == n.pos - o.pos
                    && forall|i: int| #![trigger ms[i]] 0 <= i < ms.len() ==> {
                        &&& mut_ref_current(ms[i]) == o.items[o.pos + i]
                        &&& mut_ref_future(ms[i]) == n.items[o.pos + i]
                        &&& call_ensures(old(self).pred(), (ms[i],), Flag::Continue)
                    }
                &&& match r {
                    Some(y) => {
                        &&& n.items.len() + 1 == o.items.len()
                        &&& n.items.skip(n.pos as int) == o.items.skip(n.pos + 1int)
                        &&& exists|m: &mut T|
                            mut_ref_current(m) == o.items[n.pos as int]
                            && mut_ref_future(m) == y
                            && if n.finished {
                                call_ensures(old(self).pred(), (m,), Flag::Return)
                            } else {
                                call_ensures(old(self).pred(), (m,), Flag::Yield)
                            }
                    },
                    None => {
                        &&& n.items.len() == o.items.len()
                        &&& n.pos == n.items.len() ==> !n.finished
                        &&& n.pos < n.items.len() ==> {
                            &&& n.finished
                            &&& n.items.skip(n.pos + 1int) == o.items.skip(n.pos + 1int)
                            &&& exists|m: &mut T|
                                mut_ref_current(m) == o.items[n.pos as int]
                                && mut_ref_future(m) == n.items[n.pos as int]
                                && call_ensures(old(self).pred(), (m,), Flag::Break)
                        }
                    },
                }
            },
            forall|g: spec_fn(T) -> Flag|
                (forall|m: &mut T, f: Flag| #[trigger] call_ensures(old(self).pred(), (m,), f)
                    ==> f == g(mut_ref_current(m)) && mut_ref_future(m) == mut_ref_current(m))
                ==> #[trigger] flag_next(old(self)@, g) == (final(self)@, r),

    {
        let ghost o = self@;
        let r = self.scan();
        proof {
            let n = self@;
            let pr = old(self).pred();
            assert forall|g: spec_fn(T) -> Flag|
                (forall|m: &mut T, f: Flag| #[trigger] call_ensures(pr, (m,), f)
                    ==> f == g(mut_ref_current(m)) && mut_ref_future(m) == mut_ref_current(m))
                implies #[trigger] flag_next(o, g) == (n, r) by {
                if o.is_active() {
                    let ms = choose|ms: Seq<&mut T>| #![trigger ms.len()]
                        ms.len() == n.pos - o.pos
                        && forall|i: int| #![trigger ms[i]] 0 <= i < ms.len() ==> {
                            &&& mut_ref_current(ms[i]) == o.items[o.pos + i]
                            &&& mut_ref_future(ms[i]) == n.items[o.pos + i]
                            &&& call_ensures(pr, (ms[i],), Flag::Continue)
                        };
                    assert forall|i: int| o.pos <= i < n.pos implies (#[trigger] g(o.items[i]) is Continue) && n.items[i] == o.items[i] by {
                        assert(call_ensures(pr, (ms[i - o.pos],), Flag::Continue));
                    }
                    let before = passed_to(o, n.pos);
                    if n.pos < o.items.len() {
                        let f = g(o.items[n.pos as int]);
                        match r {
                            Some(y) => {
                                let fl = if n.finished { Flag::Return } else { Flag::Yield };
                                let m = choose|m: &mut T|
                                    mut_ref_current(m) == o.items[n.pos as int]
                                    && mut_ref_future(m) == y
                                    && call_ensures(pr, (m,), fl);
                                assert(call_ensures(pr, (m,), fl));
                                assert(n.items =~= o.items.remove(n.pos as int)) by {
                                    assert forall|i: int| 0 <= i < n.items.len() implies n.items[i] == o.items.remove(n.pos as int)[i] by {
                                        if i < o.pos {
                                            assert(n.items.take(o.pos as int)[i] == o.items.take(o.pos as int)[i]);
                                        } else if i < n.pos {
                                            assert(g(o.items[i]) is Continue);
                                        } else if i >= n.pos {
                                            assert(n.items.skip(n.pos as int)[i - n.pos] == o.items.skip(n.pos + 1int)[i - n.pos]);
                                        }
                                    }
                                }
                            },
                            None => {
                                let m = choose|m: &mut T|
                                    mut_ref_current(m) == o.items[n.pos as int]
                                    && mut_ref_future(m) == n.items[n.pos as int]
                                    && call_ensures(pr, (m,), Flag::Break);
                                assert(call_ensures(pr, (m,), Flag::Break));
                                assert(n.items =~= o.items) by {
                                    assert forall|i: int| 0 <= i < n.items.len() implies n.items[i] == o.items[i] by {
                                        if i < o.pos {
                                            assert(n.items.take(o.pos as int)[i] == o.items.take(o.pos as int)[i]);
                                        } else if i < n.pos {
                                            assert(g(o.items[i]) is Continue);
                                        } else if i == n.pos {
                                        } else if i > n.pos {
                                            assert(n.items.skip(n.pos + 1int)[i - n.pos - 1] == o.items.skip(n.pos + 1int)[i - n.pos - 1]);
                                        }
                                    }
                                }
                            },
                        }
                    } else {
                        assert(n.items =~= o.items) by {
                            assert forall|i: int| 0 <= i < n.items.len() implies n.items[i] == o.items[i] by {
                                if i < o.pos {
                                    assert(n.items.take(o.pos as int)[i] == o.items.take(o.pos as int)[i]);
                                } else if i < n.pos {
                                    assert(g(o.items[i]) is Continue);
                                }
                            }
                        }
                    }
                    lemma_flag_next_of(o, n, r, g);
                } else {
                    assert(n == o);
                }
            }
        }
        r
    }

    /// The step behind `next`.
    fn scan(&mut self) -> (r: Option<T>)
        requires
            old(self).wf(),
            old(self).pred_total(),
        ensures
            final(self).wf(),
            final(self).pred() == old(self).pred(),
            *final(final(self).target()) == *final(old(self).target()),
            !old(self)@.is_active() ==> r is None && final(self)@ == old(self)@,
            DrainState::handed(old(self)@, final(self)@, r) + final(self)@.left() <= old(self)@.left(),
            final(self)@.items.len() + (if r is Some { 1int } else { 0int }) == old(self)@.items.len(),
            old(self)@.is_active() ==> {
                let o = old(self)@;
                let n = final(self)@;
                &&& o.pos <= n.pos
                &&& n.items.take(o.pos as int) == o.items.take(o.pos as int)
                // every element passed over was judged `Continue`
                &&& exists|ms: Seq<&mut T>| #![trigger ms.len()]
                    ms.len() == n.pos - o.pos
                    && forall|i: int| #![trigger ms[i]] 0 <= i < ms.len() ==> {
                        &&& mut_ref_current(ms[i]) == o.items[o.pos + i]
                        &&& mut_ref_future(ms[i]) == n.items[o.pos + i]
                        &&& call_ensures(old(self).pred(), (ms[i],), Flag::Continue)
                    }
                &&& match r {
                    Some(y) => {
                        &&& n.items.len() + 1 == o.items.len()
                        &&& n.items.skip(n.pos as int) == o.items.skip(n.pos + 1int)
                        &&& exists|m: &mut T|
                            mut_ref_current(m) == o.items[n.pos as int]
                            && mut_ref_future(m) == y
                            && if n.finished {
                                call_ensures(old(self).pred(), (m,), Flag::Return)
                            } else {
                                call_ensures(old(self).pred(), (m,), Flag::Yield)
                            }
                    },
                    None => {
                        &&& n.items.len() == o.items.len()
                        &&& n.pos == n.items.len() ==> !n.finished
                        &&& n.pos < n.items.len() ==> {
                            &&& n.finished
                            &&& n.items.skip(n.pos + 1int) == o.items.skip(n.pos + 1int)
                            &&& exists|m: &mut T|
                                mut_ref_current(m) == o.items[n.pos as int]
                                && mut_ref_future(m) == n.items[n.pos as int]
                                && call_ensures(old(self).pred(), (m,), Flag::Break)
                        }
                    },
                }
            },
    {
        let ghost o = self@;
        let ghost p = self.pred();
        proof {
            lemma_record_empty(p, Flag::Continue, o.items, o.items, o.pos as int);
        }
        loop
            invariant
                self.wf(),
                self.pred() == p,
                p == old(self).pred(),
                self.pred_total(),
                *final(self.target()) == *final(old(self).target()),
                o == old(self)@,
                old(self).wf(),
                o.is_active() ==> {
                    &&& o.pos <= self@.pos
                    &&& self@.items.len() == o.items.len()
                    &&& !self@.finished
                    &&& self@.items.take(o.pos as int) == o.items.take(o.pos as int)
                    &&& self@.items.skip(self@.pos as int) == o.items.skip(self@.pos as int)
                    &&& exists|ms: Seq<&mut T>| #![trigger ms.len()]
                        ms.len() == self@.pos - o.pos
                        && forall|i: int| #![trigger ms[i]] 0 <= i < ms.len() ==> {
                            &&& mut_ref_current(ms[i]) == o.items[o.pos + i]
                            &&& mut_ref_future(ms[i]) == self@.items[o.pos + i]
                            &&& call_ensures(p, (ms[i],), Flag::Continue)
                        }
                },
                !o.is_active() ==> self@ == o,
            decreases self@.items.len() - self@.pos,
        {
            if !self.drain.is_active() {
                return None;
            }
            let ghost before = self@;
            proof {
                if o.is_active() {
                    assert(before.items.skip(before.pos as int)[0] == o.items.skip(before.pos as int)[0]);
                    assert(before.items[before.pos as int] == o.items[before.pos as int]);
                }
            }
            let cur = self.drain.current_mut();
            let flag = (self.pred)(cur);
            assert(exists|m: &mut T|
                mut_ref_current(m) == before.items[before.pos as int]
                && mut_ref_future(m) == self@.items[before.pos as int]
                && call_ensures(p, (m,), flag));
            match self.drain.settle(flag) {
                Some(x) => {
                    proof {
                        assert(self@.items.skip(before.pos as int) =~= before.items.skip(before.pos + 1int));
                        assert(before.items.skip(before.pos + 1int) =~= before.items.skip(before.pos as int).skip(1));
                        assert(o.items.skip(before.pos + 1int) =~= o.items.skip(before.pos as int).skip(1));
                        lemma_record_frame(p, Flag::Continue, o.items, before.items, self@.items, o.pos as int, before.pos - o.pos);
                    }
                    return Some(x);
                },
                None => {
                    proof {
                        assert(self@.items.skip(before.pos + 1int) =~= before.items.skip(before.pos + 1int));
                        assert(before.items.skip(before.pos + 1int) =~= before.items.skip(before.pos as int).skip(1));
                        assert(o.items.skip(before.pos + 1int) =~= o.items.skip(before.pos as int).skip(1));
                    }
                    if let Flag::Break = flag {
                        proof {
                            lemma_record_frame(p, Flag::Continue, o.items, before.items, self@.items, o.pos as int, before.pos - o.pos);
                        }
                        return None;
                    }
                    proof {
                        lemma_record_frame(p, Flag::Continue, o.items, before.items, self@.items, o.pos as int, before.pos - o.pos);
                        lemma_record_push(p, Flag::Continue, o.items, self@.items, o.pos as int, before.pos - o.pos);
                    }
                },
            }
        }
    }
}

} // verus!
