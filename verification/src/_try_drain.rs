use vstd::prelude::*;
use crate::flag::{Flag, MoveFlag};

verus! {

/// The abstract state of a drain over a vector: the vector's current
/// contents, the position of the first element not yet looked at (every
/// element before it was kept), and whether the iteration has stopped.
pub struct DrainState<T> {
    pub items: Seq<T>,
    pub pos: nat,
    pub finished: bool,
}

impl<T> DrainState<T> {
    /// A fresh drain over `items`.
    pub open spec fn start(items: Seq<T>) -> DrainState<T> {
        DrainState { items, pos: 0, finished: false }
    }

    /// The position is within the vector.
    pub open spec fn wf(self) -> bool {
        self.pos <= self.items.len()
    }

    /// The elements that were looked at and kept.
    pub open spec fn kept(self) -> Seq<T> {
        self.items.take(self.pos as int)
    }

    /// The elements not looked at yet, in vector order.
    pub open spec fn unvisited(self) -> Seq<T> {
        self.items.skip(self.pos as int)
    }

    /// The drain still has an element to look at.
    pub open spec fn is_active(self) -> bool {
        !self.finished && self.pos < self.items.len()
    }

    /// The number of elements a predicate may still be handed: none once
    /// the iteration has stopped, else one per unvisited element.
    pub open spec fn left(self) -> nat {
        if self.finished { 0 } else { self.unvisited().len() }
    }

    /// The number of elements one call of a drain's `next` handed to the
    /// predicate, going from `o` to `n` and returning `r`: those passed
    /// over, and the one that was removed or stopped at.
    pub open spec fn handed(o: DrainState<T>, n: DrainState<T>, r: Option<T>) -> nat {
        if !o.is_active() {
            0
        } else if r is Some || n.pos < n.items.len() {
            (n.pos - o.pos + 1) as nat
        } else {
            (n.pos - o.pos) as nat
        }
    }

    /// The element at the position: the next one to be looked at.
    pub open spec fn current(self) -> T {
        self.items[self.pos as int]
    }

    /// The state after the current element was judged with `flag`.
    pub open spec fn settle(self, flag: Flag) -> DrainState<T> {
        match flag {
            Flag::Yield => DrainState { items: self.items.remove(self.pos as int), ..self },
            Flag::Return => DrainState {
                items: self.items.remove(self.pos as int),
                finished: true,
                ..self
            },
            Flag::Continue => DrainState { pos: self.pos + 1, ..self },
            Flag::Break => DrainState { finished: true, ..self },
        }
    }

    /// The state once the current element has been taken out of the
    /// vector to be handed over.
    pub open spec fn hand_over(self) -> DrainState<T> {
        DrainState { items: self.items.remove(self.pos as int), ..self }
    }

    /// The state after an element taken out at `pos` came back as `slot`
    /// (`None` when it was taken for good) with the decision `flag`:
    /// an element that came back is put back in its place and passed
    /// over, unless the iteration stops at it.
    pub open spec fn settle_moved(self, slot: Option<T>, flag: MoveFlag<T>) -> DrainState<T> {
        let items = match slot {
            Some(e) => self.items.insert(self.pos as int, e),
            None => self.items,
        };
        let pos = if slot is Some && !(flag is Break) { self.pos + 1 } else { self.pos };
        DrainState { items, pos, finished: flag is Return || flag is Break }
    }

    /// What a moving decision yields.
    pub open spec fn moved_item(flag: MoveFlag<T>) -> Option<T> {
        match flag {
            MoveFlag::Yield(v) => Some(v),
            MoveFlag::Return(v) => Some(v),
            _ => None,
        }
    }

    /// One step of a moving drain: from the active state `s`, the current
    /// element is taken out, `step.0` comes back, `step.1` is the decision,
    /// and `t` is the state after.
    pub open spec fn is_move_step(s: DrainState<T>, step: (Option<T>, MoveFlag<T>), t: DrainState<T>) -> bool {
        &&& s.is_active()
        &&& t == s.hand_over().settle_moved(step.0, step.1)
    }

    /// `states` are the states a moving drain passes through while it
    /// takes out one element after another, gets back `steps[j].0` for
    /// the `j`-th and the decision `steps[j].1`, until a decision yields
    /// `r` or nothing is left to look at.
    pub open spec fn is_move_run(states: Seq<DrainState<T>>, steps: Seq<(Option<T>, MoveFlag<T>)>, r: Option<T>) -> bool {
        &&& steps.len() >= 1
        &&& states.len() == steps.len() + 1
        &&& forall|j: int| #![trigger steps[j]] 0 <= j < steps.len() ==>
            DrainState::is_move_step(states[j], steps[j], states[j + 1])
        &&& forall|j: int| #![trigger steps[j]] 0 <= j < steps.len() - 1 ==>
            DrainState::<T>::moved_item(steps[j].1) is None
        &&& r == DrainState::<T>::moved_item(steps.last().1)
        &&& r is None ==> !states.last().is_active()
    }

    /// What judging the current element with `flag` yields.
    pub open spec fn settled_item(self, flag: Flag) -> Option<T> {
        match flag {
            Flag::Yield | Flag::Return => Some(self.current()),
            _ => None,
        }
    }
}

/// Each step of a moving drain hands over one element and leaves at least
/// one element fewer that may still be handed over.
pub proof fn lemma_move_step_left<T>(s: DrainState<T>, step: (Option<T>, MoveFlag<T>), t: DrainState<T>)
    requires
        s.wf(),
        DrainState::is_move_step(s, step, t),
    ensures
        t.wf(),
        t.left() + 1 <= s.left(),
{
}

/// Splits a mutable slice in two at `mid`. (`<[T]>::split_at_mut`;
/// trusted: the two parts are the slice's first `mid` elements and the
/// rest, each keeps its length, and whatever is written through them is
/// what the slice holds afterwards.)
#[verifier::external_body]
fn split_slice_mut<T>(slice: &mut [T], mid: usize) -> (r: (&mut [T], &mut [T]))
    requires
        mid <= old(slice)@.len(),
    ensures
        r.0@ == old(slice)@.subrange(0, mid as int),
        r.1@ == old(slice)@.subrange(mid as int, old(slice)@.len() as int),
        final(r.0)@.len() == mid,
        final(r.1)@.len() == old(slice)@.len() - mid,
        final(slice)@ == final(r.0)@ + final(r.1)@,
{
    slice.split_at_mut(mid)
}

/// A value through which a predicate reaches one element of a drain's
/// vector by a mutable borrow.
pub trait Handle<'b, T> {
    /// The borrow of the element.
    spec fn element_ref(&self) -> &'b mut T;
}

impl<'b, T> Handle<'b, T> for &'b mut T {
    open spec fn element_ref(&self) -> &'b mut T {
        *self
    }
}

/// A record that the elements `a[start..start + len]` were handed to
/// `pred` one at a time, each through a handle, each left as the matching
/// element of `b` and judged `out`, carries over to `c` where `c` agrees
/// with `b` on that range.
pub(crate) proof fn lemma_record_frame<'b, T: 'b, H: Handle<'b, T>, O, F: FnMut(H) -> O>(pred: F, out: O, a: Seq<T>, b: Seq<T>, c: Seq<T>, start: int, len: int)
    requires
        exists|ms: Seq<H>| #![trigger ms.len()]
            ms.len() == len
            && forall|i: int| #![trigger ms[i]] 0 <= i < ms.len() ==> {
                &&& mut_ref_current(ms[i].element_ref()) == a[start + i]
                &&& mut_ref_future(ms[i].element_ref()) == b[start + i]
                &&& call_ensures(pred, (ms[i],), out)
            },
        forall|j: int| start <= j < start + len ==> c[j] == b[j],
    ensures
        exists|ms: Seq<H>| #![trigger ms.len()]
            ms.len() == len
            && forall|i: int| #![trigger ms[i]] 0 <= i < ms.len() ==> {
                &&& mut_ref_current(ms[i].element_ref()) == a[start + i]
                &&& mut_ref_future(ms[i].element_ref()) == c[start + i]
                &&& call_ensures(pred, (ms[i],), out)
            },
{
    let ms = choose|ms: Seq<H>| #![trigger ms.len()]
        ms.len() == len
        && forall|i: int| #![trigger ms[i]] 0 <= i < ms.len() ==> {
            &&& mut_ref_current(ms[i].element_ref()) == a[start + i]
            &&& mut_ref_future(ms[i].element_ref()) == b[start + i]
            &&& call_ensures(pred, (ms[i],), out)
        };
    assert(ms.len() == len);
}

/// Extends such a record by one more judged element.
pub(crate) proof fn lemma_record_push<'b, T: 'b, H: Handle<'b, T>, O, F: FnMut(H) -> O>(pred: F, out: O, a: Seq<T>, b: Seq<T>, start: int, len: int)
    requires
        exists|ms: Seq<H>| #![trigger ms.len()]
            ms.len() == len
            && forall|i: int| #![trigger ms[i]] 0 <= i < ms.len() ==> {
                &&& mut_ref_current(ms[i].element_ref()) == a[start + i]
                &&& mut_ref_future(ms[i].element_ref()) == b[start + i]
                &&& call_ensures(pred, (ms[i],), out)
            },
        exists|m: H| #![trigger call_ensures(pred, (m,), out)]
            mut_ref_current(m.element_ref()) == a[start + len]
            && mut_ref_future(m.element_ref()) == b[start + len]
            && call_ensures(pred, (m,), out),
        len >= 0,
    ensures
        exists|ms: Seq<H>| #![trigger ms.len()]
            ms.len() == len + 1
            && forall|i: int| #![trigger ms[i]] 0 <= i < ms.len() ==> {
                &&& mut_ref_current(ms[i].element_ref()) == a[start + i]
                &&& mut_ref_future(ms[i].element_ref()) == b[start + i]
                &&& call_ensures(pred, (ms[i],), out)
            },
{
    let ms = choose|ms: Seq<H>| #![trigger ms.len()]
        ms.len() == len
        && forall|i: int| #![trigger ms[i]] 0 <= i < ms.len() ==> {
            &&& mut_ref_current(ms[i].element_ref()) == a[start + i]
            &&& mut_ref_future(ms[i].element_ref()) == b[start + i]
            &&& call_ensures(pred, (ms[i],), out)
        };
    let m = choose|m: H|
        mut_ref_current(m.element_ref()) == a[start + len]
        && mut_ref_future(m.element_ref()) == b[start + len]
        && call_ensures(pred, (m,), out);
    let ms1 = ms.push(m);
    assert(ms1.len() == len + 1);
    assert(forall|i: int| #![trigger ms1[i]] 0 <= i < ms1.len() ==> {
        &&& mut_ref_current(ms1[i].element_ref()) == a[start + i]
        &&& mut_ref_future(ms1[i].element_ref()) == b[start + i]
        &&& call_ensures(pred, (ms1[i],), out)
    });
}

/// A new, empty record.
pub(crate) proof fn lemma_record_empty<'b, T: 'b, H: Handle<'b, T>, O, F: FnMut(H) -> O>(pred: F, out: O, a: Seq<T>, b: Seq<T>, start: int)
    ensures
        exists|ms: Seq<H>| #![trigger ms.len()]
            ms.len() == 0
            && forall|i: int| #![trigger ms[i]] 0 <= i < ms.len() ==> {
                &&& mut_ref_current(ms[i].element_ref()) == a[start + i]
                &&& mut_ref_future(ms[i].element_ref()) == b[start + i]
                &&& call_ensures(pred, (ms[i],), out)
            },
{
    let ms = Seq::<H>::empty();
    assert(ms.len() == 0);
}

/// The state shared by the drains: a mutable borrow of the vector, which
/// always holds the kept elements followed by the unvisited ones, the
/// number of kept elements, and whether the iteration has stopped.
///
/// The vector is never emptied while it is borrowed: at every point it
/// holds the kept elements followed by the unvisited ones, and an element
/// leaves it only when it is yielded or dropped. A drain that is leaked,
/// or dropped without `finish`, therefore leaves the vector holding every
/// element that was not yielded or dropped, in order; it is never left
/// empty on that account. This is a deliberate choice: Verus runs no
/// destructor, so a drain that held the elements outside the vector would
/// lose them whenever it went out of scope without `finish`.
pub struct _TryDrain<'a, T> {
    vec: &'a mut Vec<T>,
    pos: usize,
    finished: bool,
}

impl<'a, T> View for _TryDrain<'a, T> {
    type V = DrainState<T>;

    closed spec fn view(&self) -> DrainState<T> {
        DrainState { items: self.vec@, pos: self.pos as nat, finished: self.finished }
    }
}

impl<'a, T> _TryDrain<'a, T> {
    /// The borrowed vector.
    pub closed spec fn target(&self) -> &'a mut Vec<T> {
        self.vec
    }

    /// The state describes the borrowed vector.
    pub open spec fn wf(&self) -> bool {
        &&& self@.wf()
        &&& self@.items == self.target()@
    }

    /// A drain at the start of `vec`. The vector keeps all its elements;
    /// it is not emptied while the drain lives.
    pub fn new(vec: &'a mut Vec<T>) -> (r: Self)
        ensures
            r.wf(),
            r@ == DrainState::start(old(vec)@),
            *final(vec) == *final(r.target()),
    {
        _TryDrain { vec, pos: 0, finished: false }
    }

    /// Gives up the borrow of the vector, which holds the kept elements
    /// followed by the unvisited ones.
    pub fn finish(self)
        requires
            self.wf(),
        ensures
            (*final(self.target()))@ == self@.kept() + self@.unvisited(),
    {
        assert(self@.kept() + self@.unvisited() =~= self@.items);
    }

    /// The number of elements not looked at yet.
    pub fn tail_len(&self) -> (r: usize)
        requires
            self.wf(),
        ensures
            r == self@.unvisited().len(),
            self@.items.len() <= usize::MAX,
    {
        self.vec.len() - self.pos
    }

    /// The number of kept elements, which is the index of the current one.
    pub fn tail_start(&self) -> (r: usize)
        ensures
            r == self@.pos,
    {
        self.pos
    }

    /// Whether the iteration has stopped.
    pub fn finished(&self) -> (r: bool)
        ensures
            r == self@.finished,
    {
        self.finished
    }

    /// Whether there is an element to look at and the iteration goes on.
    pub fn is_active(&self) -> (r: bool)
        requires
            self.wf(),
        ensures
            r == self@.is_active(),
    {
        !self.finished && self.pos < self.vec.len()
    }

    /// A mutable borrow of the current element.
    pub fn current_mut(&mut self) -> (r: &mut T)
        requires
            old(self).wf(),
            old(self)@.pos < old(self)@.items.len(),
        ensures
            *r == old(self)@.current(),
            final(self).wf(),
            final(self)@ == (DrainState {
                items: old(self)@.items.update(old(self)@.pos as int, *final(r)),
                ..old(self)@
            }),
            *final(final(self).target()) == *final(old(self).target()),
    {
        &mut self.vec[self.pos]
    }

    /// Reads the element at index `i` of the vector.
    pub fn item(&self, i: usize) -> (r: &T)
        requires
            self.wf(),
            i < self@.items.len(),
        ensures
            *r == self@.items[i as int],
    {
        &self.vec[i]
    }

    /// Borrows the element at index `i` of the vector mutably.
    pub fn item_mut(&mut self, i: usize) -> (r: &mut T)
        requires
            old(self).wf(),
            i < old(self)@.items.len(),
        ensures
            *r == old(self)@.items[i as int],
            final(self).wf(),
            final(self)@ == (DrainState {
                items: old(self)@.items.update(i as int, *final(r)),
                ..old(self)@
            }),
            *final(final(self).target()) == *final(old(self).target()),
    {
        &mut self.vec[i]
    }

    /// Removes the last kept element from the vector.
    pub fn take_back(&mut self) -> (r: T)
        requires
            old(self).wf(),
            old(self)@.pos >= 1,
        ensures
            r == old(self)@.items[old(self)@.pos - 1],
            final(self).wf(),
            final(self)@ == (DrainState {
                items: old(self)@.items.remove(old(self)@.pos - 1),
                pos: (old(self)@.pos - 1) as nat,
                ..old(self)@
            }),
            *final(final(self).target()) == *final(old(self).target()),
    {
        self.pos = self.pos - 1;
        self.vec.remove(self.pos)
    }

    /// Drops every element from the current one on.
    pub fn truncate_unvisited(&mut self)
        requires
            old(self).wf(),
        ensures
            final(self).wf(),
            final(self)@ == (DrainState { items: old(self)@.kept(), ..old(self)@ }),
            *final(final(self).target()) == *final(old(self).target()),
    {
        self.vec.truncate(self.pos);
    }

    /// The kept elements and the unvisited ones, as two mutable slices.
    pub fn split_mut(&mut self) -> (r: (&mut [T], &mut [T]))
        requires
            old(self).wf(),
        ensures
            r.0@ == old(self)@.kept(),
            r.1@ == old(self)@.unvisited(),
            final(self).wf(),
            final(self)@ == (DrainState { items: final(r.0)@ + final(r.1)@, ..old(self)@ }),
            final(r.0)@.len() == r.0@.len(),
            final(r.1)@.len() == r.1@.len(),
            *final(final(self).target()) == *final(old(self).target()),
    {
        split_slice_mut(self.vec.as_mut_slice(), self.pos)
    }

    /// Takes the current element out of the vector.
    pub fn hand_over(&mut self) -> (r: T)
        requires
            old(self).wf(),
            old(self)@.pos < old(self)@.items.len(),
        ensures
            r == old(self)@.current(),
            final(self).wf(),
            final(self)@ == old(self)@.hand_over(),
            *final(final(self).target()) == *final(old(self).target()),
    {
        self.vec.remove(self.pos)
    }

    /// Takes back what became of an element taken out at the current
    /// position, and carries out the decision `flag`.
    pub fn settle_moved(&mut self, slot: Option<T>, flag: MoveFlag<T>) -> (r: Option<T>)
        requires
            old(self).wf(),
        ensures
            final(self).wf(),
            final(self)@ == old(self)@.settle_moved(slot, flag),
            r == DrainState::<T>::moved_item(flag),
            *final(final(self).target()) == *final(old(self).target()),
    {
        let stops = match flag {
            MoveFlag::Return(_) | MoveFlag::Break => true,
            _ => false,
        };
        match slot {
            Some(e) => {
                self.vec.insert(self.pos, e);
                if !stops || matches!(flag, MoveFlag::Return(_)) {
                    assert(self.pos < self.vec.len());
                    self.pos = self.pos + 1;
                }
            },
            None => {},
        }
        self.finished = stops;
        match flag {
            MoveFlag::Yield(v) => Some(v),
            MoveFlag::Return(v) => Some(v),
            _ => None,
        }
    }

    /// Carries out the decision `flag` on the current element.
    pub fn settle(&mut self, flag: Flag) -> (r: Option<T>)
        requires
            old(self).wf(),
            old(self)@.is_active(),
        ensures
            final(self).wf(),
            final(self)@ == old(self)@.settle(flag),
            r == old(self)@.settled_item(flag),
            *final(final(self).target()) == *final(old(self).target()),
    {
        match flag {
            Flag::Yield => Some(self.vec.remove(self.pos)),
            Flag::Return => {
                self.finished = true;
                Some(self.vec.remove(self.pos))
            },
            Flag::Continue => {
                assert(self.pos < self.vec.len());
                self.pos = self.pos + 1;
                None
            },
            Flag::Break => {
                self.finished = true;
                None
            },
        }
    }
}

} // verus!
