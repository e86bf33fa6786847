pub mod flag;
pub mod _try_drain;
pub mod drain_refmut_flag;
pub mod drain_filter;
pub mod drain_element_flag;
pub mod drain_element_move_flag;
pub mod drain_element_streaming;
pub mod cursor;
pub mod laws;
pub mod exhausting;

use vstd::prelude::*;
use crate::flag::{Flag, MoveFlag};
use crate::_try_drain::DrainState;
use crate::drain_refmut_flag::TryDrain;
use crate::drain_filter::FilterDrain;
use crate::drain_element_flag::{Element, ElementTryDrain};
use crate::drain_element_move_flag::{ElementMoveDrain, MoveElement};
use crate::drain_element_streaming::StreamDrain;
use crate::cursor::Cursor;

verus! {

/// Chooses how to drain a borrowed vector. Draining it plainly removes
/// the elements of a range (by default all of them); the other methods
/// start a drain that decides element by element.
pub struct DrainBuilder<'a, T> {
    vec: &'a mut Vec<T>,
    start: usize,
    end: usize,
}

impl<'a, T> DrainBuilder<'a, T> {
    /// The borrowed vector.
    pub closed spec fn target(&self) -> &'a mut Vec<T> {
        self.vec
    }

    /// The start of the range a plain drain removes.
    pub closed spec fn start(&self) -> nat {
        self.start as nat
    }

    /// The end (exclusive) of the range a plain drain removes.
    pub closed spec fn end(&self) -> nat {
        self.end as nat
    }

    pub open spec fn wf(&self) -> bool {
        self.start() <= self.end() <= self.target()@.len()
    }

    /// A builder over the whole vector.
    fn new(vec: &'a mut Vec<T>) -> (r: Self)
        ensures
            r.wf(),
            r.target()@ == old(vec)@,
            r.start() == 0,
            r.end() == old(vec)@.len(),
            *final(vec) == *final(r.target()),
    {
        let end = vec.len();
        DrainBuilder { vec, start: 0, end }
    }

    /// Restricts a plain drain to the range `rg`.
    pub fn range(self, rg: core::ops::Range<usize>) -> (r: Self)
        requires
            self.wf(),
            rg.start <= rg.end <= self.target()@.len(),
        ensures
            r.wf(),
            r.target()@ == self.target()@,
            *final(r.target()) == *final(self.target()),
            r.start() == rg.start,
            r.end() == rg.end,
    {
        DrainBuilder { vec: self.vec, start: rg.start, end: rg.end }
    }

    /// Removes the elements of the range from the vector and returns
    /// them, in order; the vector keeps the elements before and after it.
    pub fn into_iter(self) -> (r: Vec<T>)
        requires
            self.wf(),
        ensures
            r@ == self.target()@.subrange(self.start() as int, self.end() as int),
            (*final(self.target()))@ == self.target()@.take(self.start() as int)
                + self.target()@.skip(self.end() as int),
    {
        let DrainBuilder { vec, start, end } = self;
        let mut tail = vec.split_off(end);
        let drained = vec.split_off(start);
        vec.append(&mut tail);
        drained
    }

    /// A drain that removes and yields the elements `f` matches.
    pub fn filter<F: FnMut(&mut T) -> bool>(self, f: F) -> (r: DrainFilterBuilder<'a, T, F>)
        ensures
            r.drain().wf(),
            r.drain()@ == DrainState::start(self.target()@),
            r.drain().pred() == f,
            *final(r.drain().target()) == *final(self.target()),
    {
        DrainFilterBuilder(FilterDrain::new(self.vec, f))
    }

    /// A drain whose predicate answers with a `Flag` for each element.
    pub fn try_drain<F: FnMut(&mut T) -> Flag>(self, pred: F) -> (r: TryDrainBuilder<'a, T, F>)
        ensures
            r.drain().wf(),
            r.drain()@ == DrainState::start(self.target()@),
            r.drain().pred() == pred,
            *final(r.drain().target()) == *final(self.target()),
    {
        TryDrainBuilder(TryDrain::new(self.vec, pred))
    }

    /// A drain whose predicate receives a handle to each element and
    /// answers with a `Flag`.
    pub fn elem_try_drain<F: FnMut(Element<T>) -> Flag>(self, pred: F) -> (r: ElementTryDrain<'a, T, F>)
        ensures
            r.wf(),
            r@ == DrainState::start(self.target()@),
            r.pred() == pred,
            *final(r.target()) == *final(self.target()),
    {
        ElementTryDrain::new(self.vec, pred)
    }

    /// A drain whose predicate receives each element, taken out of the
    /// vector, and answers with a `MoveFlag`.
    pub fn elem_move_drain<F: FnMut(MoveElement<T>) -> MoveFlag<T>>(self, pred: F) -> (r: ElementMoveDrain<'a, T, F>)
        ensures
            r.wf(),
            r@ == DrainState::start(self.target()@),
            r.pred() == pred,
            *final(r.target()) == *final(self.target()),
    {
        ElementMoveDrain::new(self.vec, pred)
    }

    /// A drain that hands out its elements one at a time.
    pub fn stream_drain(self) -> (r: StreamDrain<'a, T>)
        ensures
            r.wf(),
            r@ == DrainState::start(self.target()@),
            *final(r.target()) == *final(self.target()),
    {
        StreamDrain::new(self.vec)
    }
}

/// A filtering drain, to be turned into its iterator.
pub struct DrainFilterBuilder<'a, T, F: FnMut(&mut T) -> bool>(FilterDrain<'a, T, F>);

impl<'a, T, F: FnMut(&mut T) -> bool> DrainFilterBuilder<'a, T, F> {
    /// The drain.
    pub closed spec fn drain(&self) -> FilterDrain<'a, T, F> {
        self.0
    }

    pub fn into_iter(self) -> (r: FilterDrain<'a, T, F>)
        ensures
            r == self.drain(),
    {
        self.0
    }
}

/// A flag drain, to be turned into its iterator.
pub struct TryDrainBuilder<'a, T, F: FnMut(&mut T) -> Flag>(TryDrain<'a, T, F>);

impl<'a, T, F: FnMut(&mut T) -> Flag> TryDrainBuilder<'a, T, F> {
    /// The drain.
    pub closed spec fn drain(&self) -> TryDrain<'a, T, F> {
        self.0
    }

    pub fn into_iter(self) -> (r: TryDrain<'a, T, F>)
        ensures
            r == self.drain(),
    {
        self.0
    }
}

/// Drains and cursors over a vector.
pub trait VecExtend {
    type T;

    /// The vector's elements.
    spec fn elements(&self) -> Seq<Self::T>;

    /// A builder for draining the whole vector.
    fn drain_builder(&mut self) -> (r: DrainBuilder<Self::T>)
        ensures
            r.wf(),
            r.target()@ == old(self).elements(),
            r.start() == 0,
            r.end() == old(self).elements().len(),
            final(self).elements() == (*final(r.target()))@;

    /// A cursor at the vector's first element.
    fn cursor(&mut self) -> (r: Cursor<Self::T>)
        ensures
            r.wf(),
            r@ == DrainState::start(old(self).elements()),
            final(self).elements() == (*final(r.target()))@;
}

impl<T> VecExtend for Vec<T> {
    type T = T;

    open spec fn elements(&self) -> Seq<T> {
        self@
    }

    fn drain_builder(&mut self) -> (r: DrainBuilder<T>) {
        DrainBuilder::new(self)
    }

    fn cursor(&mut self) -> (r: Cursor<T>) {
        Cursor::new(self)
    }
}

} // verus!
