use vstd::prelude::*;
use crate::flag::Flag;
use crate::_try_drain::{_TryDrain, DrainState, lemma_record_empty, lemma_record_frame, lemma_record_push};
use crate::laws::{filter_next, filter_run, lemma_filter_next_of, lemma_filter_next_run, left_in_place, lemma_left_in_place_len, lemma_filter_answers};

verus! {

broadcast use vstd::function::group_function_axioms;

/// A record of a filter's calls on `u[0..fs.len()]` (each element handed
/// over once, left as `fs[i]` and judged `bs[i]`) extends by one more call.
proof fn lemma_answers_push<T, F: FnMut(&mut T) -> bool>(pred: F, u: Seq<T>, fs: Seq<T>, bs: Seq<bool>, f: T, b: bool)
    requires
        fs.len() == bs.len(),
        fs.len() < u.len(),
        exists|ms: Seq<&mut T>| #![trigger ms.len()]
                ms.len() == fs.len()
                && forall|i: int| #![trigger ms[i]] 0 <= i < ms.len() ==> {
                    &&& mut_ref_current(ms[i]) == u[i]
                    &&& mut_ref_future(ms[i]) == fs[i]
                    &&& call_ensures(pred, (ms[i],), bs[i])
                },
        exists|m: &mut T| #![trigger call_ensures(pred, (m,), b)]
            mut_ref_current(m) == u[fs.len() as int] && mut_ref_future(m) == f && call_ensures(pred, (m,), b),
    ensures
        exists|ms: Seq<&mut T>| #![trigger ms.len()]
                ms.len() == fs.len() + 1
                && forall|i: int| #![trigger ms[i]] 0 <= i < ms.len() ==> {
                    &&& mut_ref_current(ms[i]) == u[i]
                    &&& mut_ref_future(ms[i]) == fs.push(f)[i]
                    &&& call_ensures(pred, (ms[i],), bs.push(b)[i])
                },
{
    let ms = choose|ms: Seq<&mut T>| #![trigger ms.len()]
        ms.len() == fs.len()
        && forall|i: int| #![trigger ms[i]] 0 <= i < ms.len() ==> {
            &&& mut_ref_current(ms[i]) == u[i]
            &&& mut_ref_future(ms[i]) == fs[i]
            &&& call_ensures(pred, (ms[i],), bs[i])
        };
    let m = choose|m: &mut T| #![trigger call_ensures(pred, (m,), b)]
        mut_ref_current(m) == u[fs.len() as int] && mut_ref_future(m) == f && call_ensures(pred, (m,), b);
    let ms1 = ms.push(m);
    assert(ms1.len() == fs.len() + 1);
    assert forall|i: int| #![trigger ms1[i]] 0 <= i < ms1.len() implies {
        &&& mut_ref_current(ms1[i]) == u[i]
        &&& mut_ref_future(ms1[i]) == fs.push(f)[i]
        &&& call_ensures(pred, (ms1[i],), bs.push(b)[i])
    } by {
        if i < ms.len() {
            assert(ms1[i] == ms[i]);
        }
    }
}

/// A drain that removes and yields the elements its predicate matches and
/// keeps the others; the predicate sees each element by mutable reference.
///
/// Verus runs no destructor, so dropping the drain does no filtering: the
/// elements it has not looked at stay in the vector as they are. `finish`
/// filters them first, removing and dropping those the predicate matches.
pub struct FilterDrain<'a, T, F> where F: FnMut(&mut T) -> bool {
    drain: _TryDrain<'a, T>,
    pred: F,
}

impl<'a, T, F> View for FilterDrain<'a, T, F> where F: FnMut(&mut T) -> bool {
    type V = DrainState<T>;

    closed spec fn view(&self) -> DrainState<T> {
        self.drain@
    }
}

impl<'a, T, F> FilterDrain<'a, T, F> where F: FnMut(&mut T) -> bool {
    /// The borrowed vector.
    pub closed spec fn target(&self) -> &'a mut Vec<T> {
        self.drain.target()
    }

    /// The predicate.
    pub closed spec fn pred(&self) -> F {
        self.pred
    }

    /// The drain's state describes the borrowed vector.
    pub open spec fn wf(&self) -> bool {
        &&& self@.wf()
        &&& !self@.finished
        &&& self@.items == self.target()@
    }

    /// The predicate accepts every element.
    pub open spec fn pred_total(&self) -> bool {
        forall|x: &mut T| call_requires(self.pred(), (x,))
    }

    /// No element is yielded for sure; at most every unvisited one is.
    pub fn size_hint(&self) -> (r: (usize, Option<usize>))
        requires
            self.wf(),
        ensures
            r == (0usize, Some(self@.unvisited().len() as usize)),
    {
        (0, Some(self.drain.tail_len()))
    }


    /// A drain at the start of `vec`, judging with `pred`.
    /// `vec` is not emptied while the drain lives: it keeps every element
    /// that is not yielded or dropped (see `_TryDrain`).
    pub fn new(vec: &'a mut Vec<T>, pred: F) -> (r: Self)
        ensures
            r.wf(),
            r@ == DrainState::start(old(vec)@),
            r.pred() == pred,
            *final(vec) == *final(r.target()),
    {
        FilterDrain { drain: _TryDrain::new(vec), pred }
    }

    /// Runs the predicate over the unvisited elements in order until it
    /// matches one, which is removed and returned, or none is left. The
    /// elements it does not match stay in the vector, in order, as the
    /// predicate left them.
    ///
    /// A predicate that leaves elements as they are and answers `p(x)` for
    /// each element `x` makes this the filtering step `filter_next`.
    pub fn next(&mut self) -> (r: Option<T>)
        requires
            old(self).wf(),
            old(self).pred_total(),
        ensures
            final(self).wf(),
            final(self).pred() == old(self).pred(),
            *final(final(self).target()) == *final(old(self).target()),
            !old(self)@.is_active() ==> r is None && final(self)@ == old(self)@,
            DrainState::handed(old(self)@, final(self)@, r) + final(self)@.left() <= old(self)@.left(),
            final(self)@.items.len() + (if r is Some { 1int } else { 0int }) == old(self)@.items.len(),
            old(self)@.is_active() ==> {
                let o = old(self)@;
                let n = final(self)@;
                &&& o.pos <= n.pos
                &&& n.items.take(o.pos as int) == o.items.take(o.pos as int)
                // every element passed over was not matched
                &&& exists|ms: Seq<&mut T>| #![trigger ms.len()]
                    ms.len() == n.pos - o.pos
                    && forall|i: int| #![trigger ms[i]] 0 <= i < ms.len() ==> {
                        &&& mut_ref_current(ms[i]) == o.items[o.pos + i]
                        &&& mut_ref_future(ms[i]) == n.items[o.pos + i]
                        &&& call_ensures(old(self).pred(), (ms[i],), false)
                    }
                &&& match r {
                    Some(y) => {
                        &&& n.items.len() + 1 == o.items.len()
                        &&& n.items.skip(n.pos as int) == o.items.skip(n.pos + 1int)
                        &&& exists|m: &mut T|
                            mut_ref_current(m) == o.items[n.pos as int]
                            && mut_ref_future(m) == y
                            && call_ensures(old(self).pred(), (m,), true)
                    },
                    None => {
                        &&& n.items.len() == o.items.len()
                        &&& n.pos == n.items.len()
                    },
                }
            },
            forall|p: spec_fn(T) -> bool|
                (forall|m: &mut T, b: bool| #[trigger] call_ensures(old(self).pred(), (m,), b)
                    ==> b == p(mut_ref_current(m)) && mut_ref_future(m) == mut_ref_current(m))
                ==> #[trigger] filter_next(old(self)@, p) == (final(self)@, r),
    {
        let ghost o = self@;
        let r = self.scan();
        proof {
            let n = self@;
            let pr = old(self).pred();
            assert forall|p: spec_fn(T) -> bool|
                (forall|m: &mut T, b: bool| #[trigger] call_ensures(pr, (m,), b)
                    ==> b == p(mut_ref_current(m)) && mut_ref_future(m) == mut_ref_current(m))
                implies #[trigger] filter_next(o, p) == (n, r) by {
                if o.is_active() {
                    let ms = choose|ms: Seq<&mut T>| #![trigger ms.len()]
                        ms.len() == n.pos - o.pos
                        && forall|i: int| #![trigger ms[i]] 0 <= i < ms.len() ==> {
                            &&& mut_ref_current(ms[i]) == o.items[o.pos + i]
                            &&& mut_ref_future(ms[i]) == n.items[o.pos + i]
                            &&& call_ensures(pr, (ms[i],), false)
                        };
                    assert forall|i: int| o.pos <= i < n.pos implies !p(#[trigger] o.items[i]) && n.items[i] == o.items[i] by {
                        assert(call_ensures(pr, (ms[i - o.pos],), false));
                    }
                    match r {
                        Some(y) => {
                            let m = choose|m: &mut T|
                                mut_ref_current(m) == o.items[n.pos as int]
                                && mut_ref_future(m) == y
                                && call_ensures(pr, (m,), true);
                            assert(call_ensures(pr, (m,), true));
                            assert(n.items =~= o.items.remove(n.pos as int)) by {
                                assert forall|i: int| 0 <= i < n.items.len() implies n.items[i] == o.items.remove(n.pos as int)[i] by {
                                    if i < o.pos {
                                        assert(n.items.take(o.pos as int)[i] == o.items.take(o.pos as int)[i]);
                                    } else if i >= n.pos {
                                        assert(n.items.skip(n.pos as int)[i - n.pos] == o.items.skip(n.pos + 1int)[i - n.pos]);
                                    }
                                }
                            }
                        },
                        None => {
                            assert(n.items =~= o.items) by {
                                assert forall|i: int| 0 <= i < n.items.len() implies n.items[i] == o.items[i] by {
                                    if i < o.pos {
                                        assert(n.items.take(o.pos as int)[i] == o.items.take(o.pos as int)[i]);
                                    }
                                }
                            }
                        },
                    }
                    lemma_filter_next_of(o, n, r, p);
                } else {
                    assert(n == o);
                }
            }
        }
        r
    }

    /// Ends the drain, first running the predicate over the elements not
    /// looked at yet, once each and in order, and dropping those it
    /// matches. The `i`-th of them was handed over as `ms[i]`, left as
    /// `fs[i]` and judged `bs[i]`; the vector ends with the kept elements
    /// followed by the handed elements, as the predicate left them, that it
    /// did not match. A predicate that leaves elements as they are and
    /// answers `p(x)` for each `x` leaves the vector as the filtering run
    /// `filter_run` does.
    pub fn finish(self)
        requires
            self.wf(),
            self.pred_total(),
        ensures
            exists|fs: Seq<T>, bs: Seq<bool>| #![trigger fs.len(), bs.len()]
            {
                &&& fs.len() == self@.unvisited().len()
                &&& bs.len() == self@.unvisited().len()
                &&& exists|ms: Seq<&mut T>| #![trigger ms.len()]
                ms.len() == fs.len()
                && forall|i: int| #![trigger ms[i]] 0 <= i < ms.len() ==> {
                    &&& mut_ref_current(ms[i]) == self@.unvisited()[i]
                    &&& mut_ref_future(ms[i]) == fs[i]
                    &&& call_ensures(self.pred(), (ms[i],), bs[i])
                }
                &&& (*final(self.target()))@ == self@.kept() + left_in_place(fs, bs)
            },
            (*final(self.target()))@.take(self@.pos as int) == self@.kept(),
            forall|p: spec_fn(T) -> bool|
                (forall|m: &mut T, b: bool| #[trigger] call_ensures(self.pred(), (m,), b)
                    ==> b == p(mut_ref_current(m)) && mut_ref_future(m) == mut_ref_current(m))
                ==> (*final(self.target()))@ == #[trigger] filter_run(self@, p).0.items,
    {
        let ghost o = self@;
        let ghost pr = self.pred();
        let ghost u = o.unvisited();
        let ghost mut fs: Seq<T> = Seq::empty();
        let ghost mut bs: Seq<bool> = Seq::empty();
        proof {
            let ms = Seq::<&mut T>::empty();
            assert(ms.len() == fs.len());
            assert(o.kept() + left_in_place(fs, bs) + u.skip(0) =~= o.items);
        }
        let mut d = self;
        while d.drain.is_active()
            invariant
                d.wf(),
                d.pred() == pr,
                d.pred_total(),
                *final(d.target()) == *final(self.target()),
                o == self@,
                u == o.unvisited(),
                o.wf(),
                fs.len() == bs.len(),
                fs.len() <= u.len(),
                exists|ms: Seq<&mut T>| #![trigger ms.len()]
                ms.len() == fs.len()
                && forall|i: int| #![trigger ms[i]] 0 <= i < ms.len() ==> {
                    &&& mut_ref_current(ms[i]) == u[i]
                    &&& mut_ref_future(ms[i]) == fs[i]
                    &&& call_ensures(pr, (ms[i],), bs[i])
                },
                d@.items == o.kept() + left_in_place(fs, bs) + u.skip(fs.len() as int),
                d@.pos == o.pos + left_in_place(fs, bs).len(),
            decreases d@.items.len() - d@.pos,
        {
            let ghost before = d@;
            let ghost k = fs.len() as int;
            proof {
                lemma_left_in_place_len(fs, bs);
                assert(before.current() == u[k]) by {
                    assert(before.items[before.pos as int] == u.skip(k)[0]);
                }
            }
            let cur = d.drain.current_mut();
            let b = (d.pred)(cur);
            let ghost f = d@.items[before.pos as int];
            assert(exists|m: &mut T| #![trigger call_ensures(pr, (m,), b)]
                mut_ref_current(m) == u[k] && mut_ref_future(m) == f && call_ensures(pr, (m,), b));
            let ghost mid = d@;
            if b {
                d.drain.settle(Flag::Yield);
            } else {
                d.drain.settle(Flag::Continue);
            }
            proof {
                lemma_answers_push(pr, u, fs, bs, f, b);
                let fs0 = fs;
                let bs0 = bs;
                fs = fs.push(f);
                bs = bs.push(b);
                assert(fs.drop_last() =~= fs0 && bs.drop_last() =~= bs0);
                let l0 = left_in_place(fs0, bs0);
                assert(u.skip(k) =~= seq![u[k]] + u.skip(k + 1));
                assert(mid.items =~= o.kept() + l0 + seq![f] + u.skip(k + 1));
                if b {
                    assert(left_in_place(fs, bs) == l0);
                    assert(d@.items =~= o.kept() + l0 + u.skip(k + 1));
                } else {
                    assert(left_in_place(fs, bs) == l0.push(f));
                    assert(d@.items =~= o.kept() + l0.push(f) + u.skip(k + 1));
                }
            }
        }
        proof {
            lemma_left_in_place_len(fs, bs);
            assert(fs.len() == u.len());
            assert(u.skip(fs.len() as int) =~= Seq::<T>::empty());
            assert(d@.items =~= o.kept() + left_in_place(fs, bs));
            assert(d@.items.take(o.pos as int) =~= o.kept());
            assert forall|p: spec_fn(T) -> bool|
                (forall|m: &mut T, b: bool| #[trigger] call_ensures(pr, (m,), b)
                    ==> b == p(mut_ref_current(m)) && mut_ref_future(m) == mut_ref_current(m))
                implies d@.items == #[trigger] filter_run(o, p).0.items by {
                lemma_filter_answers(pr, o, fs, bs, p);
            }
        }
        assert(d@.kept() + d@.unvisited() =~= d@.items);
        d.drain.finish();
    }

    /// The step behind `next`.
    fn scan(&mut self) -> (r: Option<T>)
        requires
            old(self).wf(),
            old(self).pred_total(),
        ensures
            final(self).wf(),
            final(self).pred() == old(self).pred(),
            *final(final(self).target()) == *final(old(self).target()),
            !old(self)@.is_active() ==> r is None && final(self)@ == old(self)@,
            old(self)@.is_active() ==> {
                let o = old(self)@;
                let n = final(self)@;
                &&& o.pos <= n.pos
                &&& n.items.take(o.pos as int) == o.items.take(o.pos as int)
                // every element passed over was not matched
                &&& exists|ms: Seq<&mut T>| #![trigger ms.len()]
                    ms.len() == n.pos - o.pos
                    && forall|i: int| #![trigger ms[i]] 0 <= i < ms.len() ==> {
                        &&& mut_ref_current(ms[i]) == o.items[o.pos + i]
                        &&& mut_ref_future(ms[i]) == n.items[o.pos + i]
                        &&& call_ensures(old(self).pred(), (ms[i],), false)
                    }
                &&& match r {
                    Some(y) => {
                        &&& n.items.len() + 1 == o.items.len()
                        &&& n.items.skip(n.pos as int) == o.items.skip(n.pos + 1int)
                        &&& exists|m: &mut T|
                            mut_ref_current(m) == o.items[n.pos as int]
                            && mut_ref_future(m) == y
                            && call_ensures(old(self).pred(), (m,), true)
                    },
                    None => {
                        &&& n.items.len() == o.items.len()
                        &&& n.pos == n.items.len()
                    },
                }
            },
    {
        let ghost o = self@;
        let ghost p = self.pred();
        proof {
            lemma_record_empty(p, false, o.items, o.items, o.pos as int);
        }
        loop
            invariant
                self.wf(),
                self.pred() == p,
                p == old(self).pred(),
                self.pred_total(),
                *final(self.target()) == *final(old(self).target()),
                o == old(self)@,
                old(self).wf(),
                o.is_active() ==> {
                    &&& o.pos <= self@.pos
                    &&& self@.items.len() == o.items.len()
                    &&& self@.items.take(o.pos as int) == o.items.take(o.pos as int)
                    &&& self@.items.skip(self@.pos as int) == o.items.skip(self@.pos as int)
                    &&& exists|ms: Seq<&mut T>| #![trigger ms.len()]
                        ms.len() == self@.pos - o.pos
                        && forall|i: int| #![trigger ms[i]] 0 <= i < ms.len() ==> {
                            &&& mut_ref_current(ms[i]) == o.items[o.pos + i]
                            &&& mut_ref_future(ms[i]) == self@.items[o.pos + i]
                            &&& call_ensures(p, (ms[i],), false)
                        }
                },
                !o.is_active() ==> self@ == o,
            decreases self@.items.len() - self@.pos,
        {
            if !self.drain.is_active() {
                return None;
            }
            let ghost before = self@;
            proof {
                if o.is_active() {
                    assert(before.items.skip(before.pos as int)[0] == o.items.skip(before.pos as int)[0]);
                    assert(before.items[before.pos as int] == o.items[before.pos as int]);
                }
            }
            let cur = self.drain.current_mut();
            let matched = (self.pred)(cur);
            assert(exists|m: &mut T|
                mut_ref_current(m) == before.items[before.pos as int]
                && mut_ref_future(m) == self@.items[before.pos as int]
                && call_ensures(p, (m,), matched));
            if matched {
                let r = self.drain.settle(Flag::Yield);
                proof {
                    assert(self@.items.skip(before.pos as int) =~= before.items.skip(before.pos + 1int));
                    assert(before.items.skip(before.pos + 1int) =~= before.items.skip(before.pos as int).skip(1));
                    assert(o.items.skip(before.pos + 1int) =~= o.items.skip(before.pos as int).skip(1));
                    lemma_record_frame(p, false, o.items, before.items, self@.items, o.pos as int, before.pos - o.pos);
                }
                return r;
            }
            self.drain.settle(Flag::Continue);
            proof {
                assert(self@.items.skip(before.pos + 1int) =~= before.items.skip(before.pos + 1int));
                assert(before.items.skip(before.pos + 1int) =~= before.items.skip(before.pos as int).skip(1));
                assert(o.items.skip(before.pos + 1int) =~= o.items.skip(before.pos as int).skip(1));
                lemma_record_frame(p, false, o.items, before.items, self@.items, o.pos as int, before.pos - o.pos);
                lemma_record_push(p, false, o.items, self@.items, o.pos as int, before.pos - o.pos);
            }
        }
    }
}

} // verus!
