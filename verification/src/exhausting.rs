use vstd::prelude::*;
use vstd::std_specs::iter::IteratorSpec;

verus! {

/// Iterators that can be wrapped so that the rest of their items is
/// consumed at the end.
pub trait IteratorExt {
    fn exhausting(self) -> (r: Exhausting<Self>)
        where
            Self: Sized + Iterator,
        ensures
            r.inner() == self;
}

impl<T: Iterator> IteratorExt for T {
    fn exhausting(self) -> (r: Exhausting<Self>)
        where
            Self: Sized,
    {
        Exhausting { iter: self }
    }
}

/// An iterator whose remaining items are consumed by `finish`.
///
/// Verus runs no destructor, so dropping an `Exhausting` consumes nothing:
/// the inner iterator is dropped with whatever it had not yielded.
/// `finish` is the call that runs it to its end.
pub struct Exhausting<T: Iterator> {
    iter: T,
}

impl<T: Iterator> Exhausting<T> {
    /// The wrapped iterator.
    pub closed spec fn inner(&self) -> T {
        self.iter
    }

    /// The next item of the wrapped iterator.
    pub fn next(&mut self) -> (r: Option<T::Item>)
        ensures
            old(self).inner().obeys_prophetic_iter_laws() ==> {
                if old(self).inner().remaining().len() > 0 {
                    &&& final(self).inner().remaining() == old(self).inner().remaining().drop_first()
                    &&& r == Some(old(self).inner().remaining()[0])
                } else {
                    &&& final(self).inner().remaining() == old(self).inner().remaining()
                    &&& r is None
                }
            },
            old(self).inner().obeys_prophetic_iter_laws() == final(self).inner().obeys_prophetic_iter_laws(),
            exists|m: &mut T|
                mut_ref_current(m) == old(self).inner()
                && mut_ref_future(m) == final(self).inner()
                && call_ensures(T::next, (m,), r),
    {
        self.iter.next()
    }

    /// Consumes every remaining item of the wrapped iterator: calls its
    /// `next` until a call returns `None`. The `i`-th call took the
    /// iterator from `its[i]` to `its[i + 1]` and returned `rs[i]`: the
    /// iterator's remaining items, in order, then `None`; nothing remains.
    pub fn finish(self)
        requires
            self.inner().obeys_prophetic_iter_laws(),
            self.inner().decrease() is Some,
        ensures
            exists|its: Seq<T>, rs: Seq<Option<T::Item>>| #![trigger its.len(), rs.len()]
            {
                &&& its.len() == rs.len() + 1
                &&& exists|ms: Seq<&mut T>| #![trigger ms.len()] ms.len() == rs.len() && forall|i: int| #![trigger ms[i]] 0 <= i < ms.len() ==> mut_ref_current(ms[i]) == its[i] && mut_ref_future(ms[i]) == its[i + 1] && call_ensures(T::next, (ms[i],), rs[i])
                &&& its[0] == self.inner()
                &&& rs == self.inner().remaining().map_values(|y: T::Item| Some(y)).push(None)
                &&& its.last().remaining().len() == 0
            },
    {
        let mut iter = self.iter;
        let ghost mut its: Seq<T> = seq![iter];
        let ghost mut rs: Seq<Option<T::Item>> = Seq::empty();
        let ghost mut ys: Seq<T::Item> = Seq::empty();
        proof {
            let ms = Seq::<&mut T>::empty();
            assert(ms.len() == rs.len());
        }
        loop
            invariant
                iter.obeys_prophetic_iter_laws(),
                iter.decrease() is Some,
                its.len() == rs.len() + 1,
                its[0] == self.inner(),
                its.last() == iter,
                exists|ms: Seq<&mut T>| #![trigger ms.len()] ms.len() == rs.len() && forall|i: int| #![trigger ms[i]] 0 <= i < ms.len() ==> mut_ref_current(ms[i]) == its[i] && mut_ref_future(ms[i]) == its[i + 1] && call_ensures(T::next, (ms[i],), rs[i]),
                rs == ys.map_values(|y: T::Item| Some(y)),
                ys + iter.remaining() == self.inner().remaining(),
            decreases iter.decrease()->0,
        {
            let ghost before = iter;
            let r = iter.next();
            assert(exists|m: &mut T| #![trigger call_ensures(T::next, (m,), r)]
                mut_ref_current(m) == before && mut_ref_future(m) == iter && call_ensures(T::next, (m,), r));
            proof {
                lemma_trace_push(its, rs, iter, r);
                let ys0 = ys;
                its = its.push(iter);
                rs = rs.push(r);
                if r is Some {
                    ys = ys.push(r->0);
                    assert(ys + iter.remaining() =~= ys0 + before.remaining());
                    assert(rs =~= ys.map_values(|y: T::Item| Some(y)));
                } else {
                    assert(ys0 + before.remaining() =~= ys0);
                    assert(rs =~= self.inner().remaining().map_values(|y: T::Item| Some(y)).push(None));
                }
            }
            if r.is_none() {
                return;
            }
        }
    }
}

/// A record of calls of `next` (the `i`-th took the iterator from `its[i]`
/// to `its[i + 1]` and returned `rs[i]`) extends by one more call.
proof fn lemma_trace_push<T: Iterator>(its: Seq<T>, rs: Seq<Option<T::Item>>, after: T, r: Option<T::Item>)
    requires
        its.len() == rs.len() + 1,
        exists|ms: Seq<&mut T>| #![trigger ms.len()] ms.len() == rs.len() && forall|i: int| #![trigger ms[i]] 0 <= i < ms.len() ==> mut_ref_current(ms[i]) == its[i] && mut_ref_future(ms[i]) == its[i + 1] && call_ensures(T::next, (ms[i],), rs[i]),
        exists|m: &mut T| #![trigger call_ensures(T::next, (m,), r)]
            mut_ref_current(m) == its.last() && mut_ref_future(m) == after && call_ensures(T::next, (m,), r),
    ensures
        exists|ms: Seq<&mut T>| #![trigger ms.len()] ms.len() == rs.push(r).len() && forall|i: int| #![trigger ms[i]] 0 <= i < ms.len() ==> mut_ref_current(ms[i]) == its.push(after)[i] && mut_ref_future(ms[i]) == its.push(after)[i + 1] && call_ensures(T::next, (ms[i],), rs.push(r)[i]),
{
    let ms = choose|ms: Seq<&mut T>| #![trigger ms.len()] ms.len() == rs.len() && forall|i: int| #![trigger ms[i]] 0 <= i < ms.len() ==> mut_ref_current(ms[i]) == its[i] && mut_ref_future(ms[i]) == its[i + 1] && call_ensures(T::next, (ms[i],), rs[i]);
    let m = choose|m: &mut T| #![trigger call_ensures(T::next, (m,), r)]
        mut_ref_current(m) == its.last() && mut_ref_future(m) == after && call_ensures(T::next, (m,), r);
    let ms1 = ms.push(m);
    let its1 = its.push(after);
    let rs1 = rs.push(r);
    assert(ms1.len() == rs1.len());
    assert forall|i: int| #![trigger ms1[i]] 0 <= i < ms1.len() implies mut_ref_current(ms1[i]) == its1[i] && mut_ref_future(ms1[i]) == its1[i + 1] && call_ensures(T::next, (ms1[i],), rs1[i]) by {
        if i < ms.len() {
            assert(ms1[i] == ms[i] && its1[i] == its[i] && its1[i + 1] == its[i + 1] && rs1[i] == rs[i]);
        }
    }
}

/// An iterator that obeys the iterator laws and is advanced by calls of
/// `next` until one returns `None` (the `i`-th call took it from `its[i]`
/// to `its[i + 1]` and returned `rs[i]`) has yielded exactly its remaining
/// items, in order, and has nothing left.
pub proof fn lemma_exhausting_run_yields_remaining<T: Iterator>(its: Seq<T>, rs: Seq<Option<T::Item>>)
    requires
        its.len() == rs.len() + 1,
        rs.len() >= 1,
        exists|ms: Seq<&mut T>| #![trigger ms.len()] ms.len() == rs.len() && forall|i: int| #![trigger ms[i]] 0 <= i < ms.len() ==> mut_ref_current(ms[i]) == its[i] && mut_ref_future(ms[i]) == its[i + 1] && call_ensures(T::next, (ms[i],), rs[i]),
        forall|i: int| #![trigger rs[i]] 0 <= i < rs.len() - 1 ==> rs[i] is Some,
        rs.last() is None,
        its[0].obeys_prophetic_iter_laws(),
    ensures
        rs == its[0].remaining().map_values(|y: T::Item| Some(y)).push(None),
        its.last().remaining().len() == 0,
    decreases rs.len(),
{
    let ms = choose|ms: Seq<&mut T>| #![trigger ms.len()] ms.len() == rs.len() && forall|i: int| #![trigger ms[i]] 0 <= i < ms.len() ==> mut_ref_current(ms[i]) == its[i] && mut_ref_future(ms[i]) == its[i + 1] && call_ensures(T::next, (ms[i],), rs[i]);
    assert(mut_ref_current(ms[0]) == its[0] && mut_ref_future(ms[0]) == its[1] && call_ensures(T::next, (ms[0],), rs[0]));
    if rs.len() == 1 {
        assert(its[0].remaining().map_values(|y: T::Item| Some(y)) =~= Seq::<Option<T::Item>>::empty());
        assert(rs =~= Seq::<Option<T::Item>>::empty().push(None));
    } else {
        assert(rs[0] is Some);
        let its1 = its.drop_first();
        let rs1 = rs.drop_first();
        let ms1 = ms.drop_first();
        assert forall|i: int| #![trigger ms1[i]] 0 <= i < ms1.len() implies mut_ref_current(ms1[i]) == its1[i] && mut_ref_future(ms1[i]) == its1[i + 1] && call_ensures(T::next, (ms1[i],), rs1[i]) by {
            assert(ms[i + 1] == ms1[i] && its[i + 1] == its1[i] && its[i + 2] == its1[i + 1] && rs[i + 1] == rs1[i]);
        }
        assert(ms1.len() == rs1.len());
        assert forall|i: int| #![trigger rs1[i]] 0 <= i < rs1.len() - 1 implies rs1[i] is Some by {
            assert(rs[i + 1] == rs1[i]);
        }
        lemma_exhausting_run_yields_remaining(its1, rs1);
        let rem = its[0].remaining();
        assert(rem.len() > 0);
        assert(its1[0].remaining() == rem.drop_first());
        assert(rs[0] == Some(rem[0]));
        let whole = rem.map_values(|y: T::Item| Some(y)).push(None);
        let tail = rem.drop_first().map_values(|y: T::Item| Some(y)).push(None);
        assert(rs1 == tail);
        assert forall|k: int| 0 <= k < rs.len() implies rs[k] == whole[k] by {
            if k > 0 {
                assert(rs[k] == rs1[k - 1]);
                if k < rem.len() {
                    assert(tail[k - 1] == Some(rem[k]));
                }
            }
        }
        assert(rs =~= whole);
    }
}

} // verus!
