use vstd::prelude::*;

verus! {

/// What a drain does with the element that its predicate has just looked at.
#[derive(Debug, Clone, Copy, PartialEq, Eq, Structural)]
pub enum Flag {
    /// Remove the element and yield it.
    Yield,
    /// Remove the element, yield it and stop the iteration.
    Return,
    /// Keep the element.
    Continue,
    /// Keep the element and stop the iteration.
    Break,
}

/// The decision of a moving predicate; the variants that remove the
/// element carry it out of the vector.
#[derive(Debug)]
pub enum MoveFlag<T> {
    /// The element was removed and is yielded.
    Yield(T),
    /// The element was removed and is yielded; the iteration stops.
    Return(T),
    /// Keep the element.
    Continue,
    /// Keep the element and stop the iteration.
    Break,
}

} // verus!
