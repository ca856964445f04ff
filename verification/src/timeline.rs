use vstd::prelude::*;

verus! {

/// A timeline that has the same value at every time.
#[derive(Debug, Clone)]
pub struct ConstantTimeline<V> {
    value: V,
}

impl<V> ConstantTimeline<V> {
    /// The timeline that is `value` at every time.
    pub fn new(value: V) -> (r: Self)
        ensures
            r.value() == value,
    {
        ConstantTimeline { value }
    }

    /// The value of the timeline.
    pub closed spec fn value(&self) -> V {
        self.value
    }

    /// The value the timeline has at any time.
    pub fn at_any_time(&self) -> (r: &V)
        ensures
            *r == self.value(),
    {
        &self.value
    }
}

/// An interpolation that jumps from the start value to the end value at once.
#[derive(Debug, Clone, Copy)]
pub struct ImmediateInterp {}

impl ImmediateInterp {
    /// While the change is still pending (at or before its time) the value is `from`;
    /// after that it is `to`.
    pub fn select<V>(&self, from: V, to: V, pending: bool) -> (r: V)
        ensures
            pending ==> r == from,
            !pending ==> r == to,
    {
        if pending {
            from
        } else {
            to
        }
    }
}

} // verus!
