use vstd::prelude::*;
use crate::flag::Flag;
use crate::_try_drain::{_TryDrain, DrainState};

verus! {

/// A drain that hands out its elements one at a time as handles; an
/// element whose handle is not used to take it stays in the vector.
pub struct StreamDrain<'a, T> {
    drain: _TryDrain<'a, T>,
}

impl<'a, T> View for StreamDrain<'a, T> {
    type V = DrainState<T>;

    closed spec fn view(&self) -> DrainState<T> {
        self.drain@
    }
}

impl<'a, T> StreamDrain<'a, T> {
    /// The borrowed vector.
    pub closed spec fn target(&self) -> &'a mut Vec<T> {
        self.drain.target()
    }

    /// The drain state that a handle works on.
    pub closed spec fn state(&self) -> _TryDrain<'a, T> {
        self.drain
    }

    /// The drain's state describes the borrowed vector.
    pub open spec fn wf(&self) -> bool {
        &&& self@.wf()
        &&& !self@.finished
        &&& self@.items == self.target()@
        &&& self.state()@ == self@
        &&& self.state().target() == self.target()
    }

    /// Ends the drain: the vector keeps the kept elements followed by the
    /// elements not looked at, in order.
    pub fn finish(self)
        requires
            self.wf(),
        ensures
            (*final(self.target()))@ == self@.kept() + self@.unvisited(),
    {
        assert(self@.kept() + self@.unvisited() =~= self@.items);
        self.drain.finish();
    }

    /// A drain at the start of `vec`.
    /// `vec` is not emptied while the drain lives: it keeps every element
    /// that is not yielded or dropped (see `_TryDrain`).
    pub fn new(vec: &'a mut Vec<T>) -> (r: Self)
        ensures
            r.wf(),
            r@ == DrainState::start(old(vec)@),
            *final(vec) == *final(r.target()),
    {
        StreamDrain { drain: _TryDrain::new(vec) }
    }

    /// Moves on to the next unvisited element, which counts as kept until
    /// its handle takes it, and returns a handle to it; `None` once every
    /// element was looked at.
    pub fn streaming_next<'b>(&'b mut self) -> (r: Option<StreamElement<'a, 'b, T>>)
        requires
            old(self).wf(),
        ensures
            old(self)@.pos == old(self)@.items.len() ==> {
                &&& r is None
                &&& final(self).wf()
                &&& final(self)@ == old(self)@
                &&& *final(final(self).target()) == *final(old(self).target())
            },
            old(self)@.pos < old(self)@.items.len() ==> {
                &&& r matches Some(h)
                &&& h.wf()
                &&& (*h.owner())@ == DrainState { pos: old(self)@.pos + 1, ..old(self)@ }
                &&& *final((*h.owner()).target()) == *final(old(self).target())
                &&& final(self).state() == *final(h.owner())
                &&& final(self)@ == (*final(h.owner()))@
                &&& final(self).target() == (*final(h.owner())).target()
            },
    {
        if self.drain.is_active() {
            self.drain.settle(Flag::Continue);
            Some(StreamElement { drain: &mut self.drain })
        } else {
            None
        }
    }
}

/// A handle to the element a `StreamDrain` is at; the element stays in
/// the vector unless the handle takes it.
pub struct StreamElement<'a, 'b, T> {
    drain: &'b mut _TryDrain<'a, T>,
}

impl<'a, 'b, T> StreamElement<'a, 'b, T> {
    /// The drain state the handle works on.
    pub closed spec fn owner(&self) -> &'b mut _TryDrain<'a, T> {
        self.drain
    }

    /// The handle's drain has passed over an element, which it is at.
    pub open spec fn wf(&self) -> bool {
        &&& (*self.owner()).wf()
        &&& (*self.owner())@.pos >= 1
        &&& !(*self.owner())@.finished
    }

    /// The element the handle is at.
    pub open spec fn element(&self) -> T {
        (*self.owner())@.items[(*self.owner())@.pos - 1]
    }

    /// Reads the element.
    pub fn get(&self) -> (r: &T)
        requires
            self.wf(),
        ensures
            *r == self.element(),
    {
        self.drain.item(self.drain.tail_start() - 1)
    }

    /// Borrows the element mutably.
    pub fn get_mut(&mut self) -> (r: &mut T)
        requires
            old(self).wf(),
        ensures
            *r == old(self).element(),
            final(self).wf(),
            (*final(self).owner())@ == (DrainState {
                items: (*old(self).owner())@.items.update((*old(self).owner())@.pos - 1, *final(r)),
                ..(*old(self).owner())@
            }),
            *final(final(self).owner()) == *final(old(self).owner()),
            *final((*final(self).owner()).target()) == *final((*old(self).owner()).target()),
    {
        let i = self.drain.tail_start() - 1;
        self.drain.item_mut(i)
    }

    /// Lets go of the element, which stays in the vector as a kept one.
    pub fn release(self)
        ensures
            *final(self.owner()) == *self.owner(),
    {
    }

    /// Removes the element from the vector and returns it.
    pub fn take(self) -> (r: T)
        requires
            self.wf(),
        ensures
            r == self.element(),
            (*final(self.owner())).wf(),
            (*final(self.owner()))@ == (DrainState {
                items: (*self.owner())@.items.remove((*self.owner())@.pos - 1),
                pos: ((*self.owner())@.pos - 1) as nat,
                ..(*self.owner())@
            }),
            *final((*final(self.owner())).target()) == *final((*self.owner()).target()),
    {
        self.drain.take_back()
    }
}

} // verus!
