//! Slice descriptors: one dimension's selector.

use vstd::prelude::*;

verus! {

/// One dimension's selector inside an indexing operation.
#[derive(Debug, Clone, Copy, PartialEq, Eq)]
pub enum SliceDescriptor {
    /// Selects a single element along the axis and collapses the axis.
    Index(usize),
    /// Selects a half-open, steppable sub-range and preserves the axis.
    /// `end` may be `None`, meaning "until the axis's extent".
    Range { start: usize, step: usize, end: Option<usize> },
    /// Inserts a new axis of extent 1.
    NewAxis,
}

impl SliceDescriptor {
    /// The full-extent range: the default selector for a dimension that an
    /// indexing operation does not override.
    pub fn full() -> (r: SliceDescriptor)
        ensures
            r == (SliceDescriptor::Range { start: 0usize, step: 1usize, end: None::<usize> }),
    {
        SliceDescriptor::Range { start: 0, step: 1, end: None }
    }

    /// Whether the descriptor consumes an axis of the view it is applied
    /// to.  `NewAxis` consumes none; `Index` and `Range` consume one each.
    pub open spec fn consumes_axis(self) -> bool {
        !(self is NewAxis)
    }
}

/// The identity selector for an `ndim`-dimensional view: one
/// full-extent range per dimension.
pub open spec fn full_group_spec(ndim: nat) -> Seq<SliceDescriptor> {
    Seq::new(
        ndim,
        |i: int| SliceDescriptor::Range { start: 0usize, step: 1usize, end: None::<usize> },
    )
}

/// Builds the identity selector for an `ndim`-dimensional view.  The
/// in-place elementwise operators slice their left operand with this
/// before combining.
pub fn full_group(ndim: usize) -> (r: Vec<SliceDescriptor>)
    ensures
        r@ == full_group_spec(ndim as nat),
        r@.len() == ndim,
        forall|i: int|
            0 <= i < ndim ==> r@[i] == (SliceDescriptor::Range {
                start: 0usize,
                step: 1usize,
                end: None::<usize>,
            }),
{
    let mut r: Vec<SliceDescriptor> = Vec::new();
    let mut i: usize = 0;
    while i < ndim
        invariant
            i <= ndim,
            r@.len() == i,
            forall|j: int|
                0 <= j < i ==> r@[j] == (SliceDescriptor::Range {
                    start: 0usize,
                    step: 1usize,
                    end: None::<usize>,
                }),
        decreases ndim - i,
    {
        r.push(SliceDescriptor::full());
        i = i + 1;
    }
    proof {
        assert(r@ =~= full_group_spec(ndim as nat));
    }
    r
}

/// How many of the group's descriptors consume an axis: the group's
/// effective axis count, which must equal the dimensionality of the view
/// the group is applied to.
pub open spec fn consumed_axes(group: Seq<SliceDescriptor>) -> nat
    decreases group.len(),
{
    if group.len() == 0 {
        0
    } else {
        (if group[0].consumes_axis() {
            1nat
        } else {
            0nat
        }) + consumed_axes(group.skip(1))
    }
}

} // verus!
