//! Engine-wide laws, stated and proved over the models that the
//! operations' own contracts use.

use vstd::prelude::*;
use crate::error::ArrayError;
use crate::descriptor::{SliceDescriptor, full_group_spec};
use crate::view::{
    Slot, n_view, view_shape, compose_spec, lemma_compose_spec_wf,
    lemma_full_group_identity, lemma_index_group_consumes, lemma_index_walk_collapses,
};
use crate::value::GenericArrayData;
use crate::handle::{ArrayStore, SlicedArcArray, read_post};

verus! {

/// Scalar collapse: indexing a view with one integer selector per axis
/// collapses every axis, so the composed view is zero-dimensional —
/// and `getitem` therefore returns a plain scalar, never a 0-d array
/// handle.
pub proof fn lemma_scalar_collapse(
    base: Seq<usize>,
    chain: Seq<Seq<SliceDescriptor>>,
    group: Seq<SliceDescriptor>,
)
    requires
        compose_spec(base, chain) is Ok,
        forall|i: int| 0 <= i < group.len() ==> group[i] is Index,
        group.len() == n_view(compose_spec(base, chain)->Ok_0),
        compose_spec(base, chain.push(group)) is Ok,
    ensures
        view_shape(compose_spec(base, chain.push(group))->Ok_0).len() == 0,
{
    let slots = compose_spec(base, chain)->Ok_0;
    assert(chain.push(group).drop_last() =~= chain);
    assert(chain.push(group).last() == group);
    lemma_index_group_consumes(group);
    lemma_index_walk_collapses(slots, group, 0);
}

/// The in-place elementwise operators slice their left operand with the
/// identity selector — one full-extent range per axis — before
/// combining.  That selector really is an identity: appending it to any
/// chain that composes leaves the composed view exactly as it was, so
/// those operators act on the handle's current view, all of it and
/// nothing else.
pub proof fn lemma_identity_selector(base: Seq<usize>, chain: Seq<Seq<SliceDescriptor>>)
    requires
        compose_spec(base, chain) is Ok,
    ensures
        compose_spec(
            base,
            chain.push(full_group_spec(n_view(compose_spec(base, chain)->Ok_0))),
        ) == compose_spec(base, chain),
{
    let slots = compose_spec(base, chain)->Ok_0;
    let g = full_group_spec(n_view(slots));
    lemma_compose_spec_wf(base, chain);
    lemma_full_group_identity(slots, base);
    assert(chain.push(g).drop_last() =~= chain);
    assert(chain.push(g).last() == g);
}

/// Repeated reads of an unmodified handle return identical views: the
/// outcome of a read is a function of the target array and the
/// composed view alone, so two reads against the same store agree in
/// every way — same success or failure, same representation, shape and
/// elements.
pub proof fn lemma_read_idempotent(
    target: GenericArrayData,
    composed: Result<Seq<Slot>, ArrayError>,
    r1: Result<GenericArrayData, ArrayError>,
    r2: Result<GenericArrayData, ArrayError>,
)
    requires
        read_post(target, composed, r1),
        read_post(target, composed, r2),
    ensures
        r1 is Ok <==> r2 is Ok,
        r1 is Ok ==> {
            &&& r1->Ok_0.dtype_spec() == r2->Ok_0.dtype_spec()
            &&& r1->Ok_0.shape_spec() == r2->Ok_0.shape_spec()
            &&& r1->Ok_0.elems_spec() == r2->Ok_0.elems_spec()
        },
        r1 is Err ==> r1 == r2,
{
}

/// Aliased handles observe one another's writes: two handles over the
/// same storage slot read and write the very same array value, whatever
/// their slice chains — a sliced handle is a window, not a copy.
pub proof fn lemma_aliased_handles_share_target(
    store: &ArrayStore,
    a: &SlicedArcArray,
    b: &SlicedArcArray,
)
    requires
        a.aliased(b),
    ensures
        a.target(store) == b.target(store),
        a.in_store(store) ==> b.in_store(store),
{
}

} // verus!
