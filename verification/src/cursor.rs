use vstd::prelude::*;
use crate::flag::Flag;
use crate::_try_drain::{_TryDrain, DrainState};

verus! {

broadcast use vstd::function::group_function_axioms;

/// A cursor over a vector: the elements before it were passed over and
/// kept, the element at it is the current one. Elements can be kept,
/// taken out or dropped one at a time; the vector always holds the kept
/// elements followed by those not reached yet.
pub struct Cursor<'a, T> {
    drain: _TryDrain<'a, T>,
}

impl<'a, T> View for Cursor<'a, T> {
    type V = DrainState<T>;

    closed spec fn view(&self) -> DrainState<T> {
        self.drain@
    }
}

impl<'a, T> Cursor<'a, T> {
    /// The borrowed vector.
    pub closed spec fn target(&self) -> &'a mut Vec<T> {
        self.drain.target()
    }

    /// The cursor's state describes the borrowed vector.
    pub open spec fn wf(&self) -> bool {
        &&& self@.wf()
        &&& !self@.finished
        &&& self@.items == self.target()@
    }

    /// The cursor's state after the current element is kept.
    pub open spec fn advanced(s: DrainState<T>) -> DrainState<T> {
        if s.pos < s.items.len() {
            DrainState { pos: s.pos + 1, ..s }
        } else {
            s
        }
    }

    /// The cursor's state after the current element is removed.
    pub open spec fn removed(s: DrainState<T>) -> DrainState<T> {
        if s.pos < s.items.len() {
            DrainState { items: s.items.remove(s.pos as int), ..s }
        } else {
            s
        }
    }

    /// Ends the drain: the vector keeps the kept elements followed by the
    /// elements not looked at, in order.
    pub fn finish(self)
        requires
            self.wf(),
        ensures
            (*final(self.target()))@ == self@.kept() + self@.unvisited(),
    {
        assert(self@.kept() + self@.unvisited() =~= self@.items);
        self.drain.finish();
    }

    /// A cursor at the first element of `vec`.
    /// `vec` is not emptied while the cursor lives: it keeps every element
    /// that is not yielded or dropped (see `_TryDrain`).
    pub fn new(vec: &'a mut Vec<T>) -> (r: Self)
        ensures
            r.wf(),
            r@ == DrainState::start(old(vec)@),
            *final(vec) == *final(r.target()),
    {
        Cursor { drain: _TryDrain::new(vec) }
    }

    /// Keeps the current element and moves to the next one; does nothing
    /// if the cursor is already at the end.
    pub fn advance(&mut self)
        requires
            old(self).wf(),
        ensures
            final(self).wf(),
            final(self)@ == Self::advanced(old(self)@),
            *final(final(self).target()) == *final(old(self).target()),
    {
        if self.drain.is_active() {
            self.drain.settle(Flag::Continue);
        }
    }

    /// Removes the current element and returns it; the next element
    /// becomes the current one. `None` if the cursor is at the end.
    pub fn take(&mut self) -> (r: Option<T>)
        requires
            old(self).wf(),
        ensures
            final(self).wf(),
            final(self)@ == Self::removed(old(self)@),
            r == (if old(self)@.pos < old(self)@.items.len() {
                Some(old(self)@.current())
            } else {
                None::<T>
            }),
            *final(final(self).target()) == *final(old(self).target()),
    {
        if self.drain.is_active() {
            self.drain.settle(Flag::Yield)
        } else {
            None
        }
    }

    /// Drops the current element; the next element becomes the current
    /// one. `false` if the cursor is at the end.
    pub fn delete(&mut self) -> (r: bool)
        requires
            old(self).wf(),
        ensures
            final(self).wf(),
            final(self)@ == Self::removed(old(self)@),
            r == (old(self)@.pos < old(self)@.items.len()),
            *final(final(self).target()) == *final(old(self).target()),
    {
        if self.drain.is_active() {
            let _ = self.drain.settle(Flag::Yield);
            true
        } else {
            false
        }
    }

    /// A mutable borrow of the element after the current one, if any.
    pub fn peek(&mut self) -> (r: Option<&mut T>)
        requires
            old(self).wf(),
        ensures
            final(self).wf(),
            *final(final(self).target()) == *final(old(self).target()),
            match r {
                Some(e) => {
                    &&& old(self)@.pos + 1 < old(self)@.items.len()
                    &&& *e == old(self)@.items[old(self)@.pos + 1int]
                    &&& final(self)@ == (DrainState {
                        items: old(self)@.items.update(old(self)@.pos + 1int, *final(e)),
                        ..old(self)@
                    })
                },
                None => {
                    &&& old(self)@.pos + 1 >= old(self)@.items.len()
                    &&& final(self)@ == old(self)@
                },
            },
    {
        if self.drain.tail_len() > 1 {
            let next = self.drain.tail_start() + 1;
            Some(self.drain.item_mut(next))
        } else {
            None
        }
    }

    /// Mutable borrows of the elements still in the vector: first those
    /// passed over and kept, then those not reached yet, the current
    /// element first.
    pub fn peek_slices(&mut self) -> (r: (&mut [T], &mut [T]))
        requires
            old(self).wf(),
        ensures
            r.0@ == old(self)@.kept(),
            r.1@ == old(self)@.unvisited(),
            final(self).wf(),
            final(self)@ == (DrainState { items: final(r.0)@ + final(r.1)@, ..old(self)@ }),
            *final(final(self).target()) == *final(old(self).target()),
    {
        self.drain.split_mut()
    }

    /// A handle to the current element, which can read, change or remove
    /// it; `None` if the cursor is at the end.
    pub fn get<'b>(&'b mut self) -> (r: Option<MoveElement<'a, 'b, T>>)
        requires
            old(self).wf(),
        ensures
            old(self)@.pos == old(self)@.items.len() ==> {
                &&& r is None
                &&& final(self).wf()
                &&& final(self)@ == old(self)@
                &&& *final(final(self).target()) == *final(old(self).target())
            },
            old(self)@.pos < old(self)@.items.len() ==> {
                &&& r matches Some(h)
                &&& h.wf()
                &&& *h.owner() == *old(self)
                &&& *final(self) == *final(h.owner())
            },
    {
        if self.drain.is_active() {
            Some(MoveElement { cursor: self })
        } else {
            None
        }
    }

    /// Turns the cursor into an iterator whose every step is a call of
    /// `pred` on the cursor; `pred` moves the cursor itself and returns
    /// what is yielded.
    pub fn iter<F>(self, pred: F) -> (r: CursorIter<'a, T, F>)
        where
            F: FnMut(&mut Cursor<'a, T>) -> Option<T>,
        ensures
            r.cursor() == self,
            r.pred() == pred,
    {
        CursorIter { cursor: self, pred }
    }

    /// Drops the current element and every element after it.
    pub fn clear(&mut self)
        requires
            old(self).wf(),
        ensures
            final(self).wf(),
            final(self)@ == (DrainState { items: old(self)@.kept(), ..old(self)@ }),
            *final(final(self).target()) == *final(old(self).target()),
    {
        self.drain.truncate_unvisited();
    }
}

/// A handle to the element a `Cursor` is at.
pub struct MoveElement<'a, 'b, T> {
    cursor: &'b mut Cursor<'a, T>,
}

impl<'a, 'b, T> MoveElement<'a, 'b, T> {
    /// The cursor the handle works on.
    pub closed spec fn owner(&self) -> &'b mut Cursor<'a, T> {
        self.cursor
    }

    /// The handle's cursor is at an element.
    pub open spec fn wf(&self) -> bool {
        &&& (*self.owner()).wf()
        &&& (*self.owner())@.pos < (*self.owner())@.items.len()
    }

    /// The element the handle is at.
    pub open spec fn element(&self) -> T {
        (*self.owner())@.current()
    }

    /// Reads the element.
    pub fn get(&self) -> (r: &T)
        requires
            self.wf(),
        ensures
            *r == self.element(),
    {
        self.cursor.drain.item(self.cursor.drain.tail_start())
    }

    /// Borrows the element mutably.
    pub fn get_mut(&mut self) -> (r: &mut T)
        requires
            old(self).wf(),
        ensures
            *r == old(self).element(),
            final(self).wf(),
            (*final(self).owner())@ == (DrainState {
                items: (*old(self).owner())@.items.update((*old(self).owner())@.pos as int, *final(r)),
                ..(*old(self).owner())@
            }),
            *final(final(self).owner()) == *final(old(self).owner()),
            *final((*final(self).owner()).target()) == *final((*old(self).owner()).target()),
    {
        let i = self.cursor.drain.tail_start();
        self.cursor.drain.item_mut(i)
    }

    /// Lets go of the element; the cursor stays at it.
    pub fn release(self)
        ensures
            *final(self.owner()) == *self.owner(),
    {
    }

    /// Removes the element from the vector and returns it; the next
    /// element becomes the cursor's current one.
    pub fn take(self) -> (r: T)
        requires
            self.wf(),
        ensures
            r == self.element(),
            (*final(self.owner())).wf(),
            (*final(self.owner()))@ == Cursor::removed((*self.owner())@),
            *final((*final(self.owner())).target()) == *final((*self.owner()).target()),
    {
        self.cursor.drain.hand_over()
    }
}

/// An iterator made from a cursor: each step calls the predicate on the
/// cursor, and the predicate's answer is what is yielded.
#[verifier::reject_recursive_types(T)]
pub struct CursorIter<'a, T, F>
    where
        F: FnMut(&mut Cursor<'a, T>) -> Option<T>,
{
    cursor: Cursor<'a, T>,
    pred: F,
}

impl<'a, T, F> CursorIter<'a, T, F>
    where
        F: FnMut(&mut Cursor<'a, T>) -> Option<T>,
{
    /// The cursor.
    pub closed spec fn cursor(&self) -> Cursor<'a, T> {
        self.cursor
    }

    /// The predicate.
    pub closed spec fn pred(&self) -> F {
        self.pred
    }

    /// The predicate accepts every cursor that describes its vector, as
    /// the cursor it is handed does.
    pub open spec fn pred_total(&self) -> bool {
        forall|c: &mut Cursor<'a, T>| (*c).wf() ==> call_requires(self.pred(), (c,))
    }

    /// Calls the predicate on the cursor and returns its answer.
    pub fn next(&mut self) -> (r: Option<T>)
        requires
            old(self).cursor().wf(),
            old(self).pred_total(),
        ensures
            final(self).pred() == old(self).pred(),
            exists|m: &mut Cursor<'a, T>|
                mut_ref_current(m) == old(self).cursor()
                && mut_ref_future(m) == final(self).cursor()
                && call_ensures(old(self).pred(), (m,), r),
    {
        let ghost p = self.pred;
        assert(p == self.pred());
        let c = &mut self.cursor;
        assert((*c).wf());
        (self.pred)(c)
    }
}

} // verus!
