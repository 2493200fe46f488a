//! Shared storage and the user-facing array handle.
//!
//! A handle pairs a storage slot with an accumulated chain of
//! slice-descriptor groups.  Indexing appends one group and returns a
//! new handle over the *same* slot — no element is copied.  Reading or
//! writing composes the chain into a single view first, so validation
//! happens at every access.
//!
//! The store is the arena of storage slots; a slot is never resized or
//! removed, only its elements change.  Sharing one store between
//! threads, and the reader/writer locking that requires, is the
//! embedding host's concern: every operation here is call-and-return
//! on an explicit store reference.

use vstd::prelude::*;
use crate::dtype::DataType;
use crate::error::ArrayError;
use crate::descriptor::SliceDescriptor;
use crate::shape::{product, in_bounds, rm_flat, coords_of, lemma_rm_flat_bound};
use crate::view::{Slot, view_shape, flat_of, compose_spec, groups_view, lemma_flat_of_bound,
    lemma_compose_spec_wf};
use crate::value::{
    GenericArray, GenericArrayData, GenericScalar, view, view_model_elems, clone_shape,
};
use crate::buffer::covered_by;
use crate::fmt::{shape_str, shape_chars};
use vstd::string::StringExecFns;

verus! {

/// The arena of shared storage slots.  Every handle derived from the
/// same construction call points at the same slot.
pub struct ArrayStore {
    arrays: Vec<GenericArrayData>,
}

impl ArrayStore {
    /// The stored arrays, one per storage slot.
    pub closed spec fn arrays_spec(&self) -> Seq<GenericArrayData> {
        self.arrays@
    }

    /// Every stored array satisfies its structural invariant.
    pub open spec fn wf(&self) -> bool {
        forall|i: int|
            0 <= i < self.arrays_spec().len() ==> (#[trigger] self.arrays_spec()[i]).wf()
    }

    /// An empty store.
    pub fn new() -> (r: ArrayStore)
        ensures
            r.arrays_spec() == Seq::<GenericArrayData>::empty(),
            r.wf(),
    {
        ArrayStore { arrays: Vec::new() }
    }

    /// The array in slot `i`.
    pub fn array(&self, i: usize) -> (r: &GenericArrayData)
        requires
            i < self.arrays_spec().len(),
        ensures
            *r == self.arrays_spec()[i as int],
    {
        &self.arrays[i]
    }

    /// The number of storage slots.
    pub fn len(&self) -> (r: usize)
        ensures
            r == self.arrays_spec().len(),
    {
        self.arrays.len()
    }
}

/// What indexing a handle yields: a new handle sharing storage, or —
/// when the composed view is zero-dimensional — the single element as a
/// plain scalar, never a 0-d array object.
#[derive(Debug)]
pub enum GetItem {
    Array(SlicedArcArray),
    Scalar(GenericScalar),
}

/// The user-facing array value: a storage slot plus the ordered chain
/// of slice-descriptor groups still to be applied.  Slicing is
/// deferred: the chain is composed only when elements are read or
/// written.
#[derive(Debug, Clone)]
pub struct SlicedArcArray {
    storage: usize,
    slices: Vec<Vec<SliceDescriptor>>,
}

impl SlicedArcArray {
    /// The storage slot the handle points at.
    pub closed spec fn storage_spec(&self) -> int {
        self.storage as int
    }

    /// The accumulated slice chain.
    pub closed spec fn chain_spec(&self) -> Seq<Seq<SliceDescriptor>> {
        groups_view(self.slices@)
    }

    /// Two handles alias exactly when they wrap the same storage slot,
    /// irrespective of their slice chains.
    pub open spec fn aliased(&self, other: &SlicedArcArray) -> bool {
        self.storage_spec() == other.storage_spec()
    }

    /// Whether the handle's slot exists in the store.
    pub open spec fn in_store(&self, store: &ArrayStore) -> bool {
        0 <= self.storage_spec() < store.arrays_spec().len()
    }

    /// The array the handle's slot holds.
    pub open spec fn target(&self, store: &ArrayStore) -> GenericArrayData {
        store.arrays_spec()[self.storage_spec()]
    }

    /// The handle's chain composed onto its array's shape.
    pub open spec fn composed(&self, store: &ArrayStore) -> Result<Seq<Slot>, ArrayError> {
        compose_spec(self.target(store).shape_spec(), self.chain_spec())
    }

    /// A handle is valid for a store when its slot exists and its
    /// chain composes onto the slot's shape.
    pub open spec fn valid(&self, store: &ArrayStore) -> bool {
        self.in_store(store) && self.composed(store) is Ok
    }

    /// Wraps a fresh array value in a new storage slot and hands back a
    /// handle with an empty slice chain.
    pub fn from_array(store: &mut ArrayStore, data: GenericArrayData) -> (h: SlicedArcArray)
        requires
            old(store).wf(),
            data.wf(),
        ensures
            final(store).wf(),
            final(store).arrays_spec() == old(store).arrays_spec().push(data),
            h.storage_spec() == old(store).arrays_spec().len(),
            h.chain_spec() == Seq::<Seq<SliceDescriptor>>::empty(),
            h.valid(final(store)),
    {
        let storage = store.arrays.len();
        store.arrays.push(data);
        let h = SlicedArcArray { storage, slices: Vec::new() };
        proof {
            assert(h.chain_spec() =~= Seq::<Seq<SliceDescriptor>>::empty());
            assert forall|i: int| 0 <= i < store.arrays_spec().len() implies (
            #[trigger] store.arrays_spec()[i]).wf() by {
                if i < old(store).arrays_spec().len() {
                    assert(store.arrays_spec()[i] == old(store).arrays_spec()[i]);
                }
            }
        }
        h
    }

    /// Composes the chain and materializes the resulting view: the
    /// moment-in-time contents of the handle.  Fails exactly when the
    /// chain does not compose onto the array's shape.
    pub fn read(&self, store: &ArrayStore) -> (r: Result<GenericArrayData, ArrayError>)
        requires
            store.wf(),
            self.in_store(store),
        ensures
            read_post(self.target(store), self.composed(store), r),
    {
        view(store.array(self.storage), &self.slices)
    }

    /// Appends one more slice-descriptor group to a copy of the chain
    /// and returns a new handle sharing this handle's storage; the
    /// original handle is never changed.  The extended chain is
    /// validated against the array's current shape before the handle is
    /// handed out.
    pub fn append_slice(&self, store: &ArrayStore, group: Vec<SliceDescriptor>) -> (r: Result<
        SlicedArcArray,
        ArrayError,
    >)
        requires
            store.wf(),
            self.in_store(store),
        ensures
            match compose_spec(self.target(store).shape_spec(), self.chain_spec().push(group@)) {
                Ok(_) => r is Ok && {
                    let h = r->Ok_0;
                    &&& h.storage_spec() == self.storage_spec()
                    &&& h.chain_spec() == self.chain_spec().push(group@)
                    &&& h.valid(store)
                },
                Err(e) => r == Err::<SlicedArcArray, ArrayError>(e),
            },
    {
        let mut slices = clone_chain(&self.slices);
        slices.push(group);
        let ghost ext = self.chain_spec().push(group@);
        proof {
            assert(groups_view(slices@) =~= ext);
        }
        let h = SlicedArcArray { storage: self.storage, slices };
        match view(store.array(self.storage), &h.slices) {
            Ok(_) => Ok(h),
            Err(e) => Err(e),
        }
    }
}

/// The exact behaviour of [`SlicedArcArray::read`]: what the result is
/// for a given target array and composed view.
pub open spec fn read_post(
    target: GenericArrayData,
    composed: Result<Seq<Slot>, ArrayError>,
    r: Result<GenericArrayData, ArrayError>,
) -> bool {
    match composed {
        Ok(slots) => r is Ok && {
            let out = r->Ok_0;
            &&& out.wf()
            &&& out.dtype_spec() == target.dtype_spec()
            &&& out.shape_spec() == view_shape(slots)
            &&& out.elems_spec() == view_model_elems(target, slots)
        },
        Err(e) => r == Err::<GenericArrayData, ArrayError>(e),
    }
}

impl SlicedArcArray {
    /// Indexing: parses the selector group onto a copy of the chain
    /// and returns a new handle sharing this handle's storage — no
    /// element is copied.  When the composed view is zero-dimensional
    /// the single element is read eagerly and returned as a plain
    /// scalar instead of a handle.
    pub fn getitem(&self, store: &ArrayStore, group: Vec<SliceDescriptor>) -> (r: Result<
        GetItem,
        ArrayError,
    >)
        requires
            store.wf(),
            self.in_store(store),
        ensures
            match compose_spec(self.target(store).shape_spec(), self.chain_spec().push(group@)) {
                Ok(slots) => if view_shape(slots).len() == 0 {
                    &&& r matches Ok(GetItem::Scalar(s))
                    &&& r->Ok_0->Scalar_0.dtype_spec() == self.target(store).dtype_spec()
                    &&& r->Ok_0->Scalar_0.bits_spec() == view_model_elems(
                        self.target(store),
                        slots,
                    )[0]
                } else {
                    &&& r matches Ok(GetItem::Array(h2))
                    &&& r->Ok_0->Array_0.storage_spec() == self.storage_spec()
                    &&& r->Ok_0->Array_0.chain_spec() == self.chain_spec().push(group@)
                    &&& r->Ok_0->Array_0.valid(store)
                },
                Err(e) => r == Err::<GetItem, ArrayError>(e),
            },
    {
        let h2 = match self.append_slice(store, group) {
            Ok(h2) => h2,
            Err(e) => {
                return Err(e);
            },
        };
        let out = match h2.read(store) {
            Ok(v) => v,
            Err(_) => {
                proof {
                    assert(false);
                }
                return Err(ArrayError::InvalidSelector);
            },
        };
        if out.ndim() == 0 {
            proof {
                let slots = h2.composed(store)->Ok_0;
                assert(product(view_shape(slots)) == 1);
            }
            Ok(GetItem::Scalar(out.item()))
        } else {
            Ok(GetItem::Array(h2))
        }
    }

    /// Write access to the handle's composed view: assigns the given
    /// array's elements into it, validating shape and representation
    /// first.  On any failure the store is unchanged.
    pub fn write(&self, store: &mut ArrayStore, src: &GenericArrayData) -> (r: Result<
        (),
        ArrayError,
    >)
        requires
            old(store).wf(),
            self.in_store(old(store)),
            src.wf(),
        ensures
            final(store).wf(),
            final(store).arrays_spec().len() == old(store).arrays_spec().len(),
            forall|j: int|
                0 <= j < final(store).arrays_spec().len() && j != self.storage_spec()
                    ==> final(store).arrays_spec()[j] == old(store).arrays_spec()[j],
            r is Err ==> final(store).arrays_spec() == old(store).arrays_spec(),
            ({
                let pre = old(store).arrays_spec()[self.storage_spec()];
                let post = final(store).arrays_spec()[self.storage_spec()];
                &&& post.dtype_spec() == pre.dtype_spec()
                &&& post.shape_spec() == pre.shape_spec()
                &&& match compose_spec(pre.shape_spec(), self.chain_spec()) {
                    Err(e) => r == Err::<(), ArrayError>(e),
                    Ok(slots) => if pre.dtype_spec() != src.dtype_spec() {
                        r == Err::<(), ArrayError>(
                            ArrayError::TypeMismatch {
                                expected: pre.dtype_spec(),
                                actual: src.dtype_spec(),
                            },
                        )
                    } else if src.shape_spec() != view_shape(slots) {
                        &&& r matches Err(ArrayError::ShapeMismatch { expected: ex, actual: ac })
                        &&& ex@ == view_shape(slots)
                        &&& ac@ == src.shape_spec()
                    } else {
                        &&& r is Ok
                        &&& forall|c: Seq<usize>|
                            in_bounds(view_shape(slots), c) ==> post.elems_spec()[#[trigger] flat_of(
                                slots,
                                pre.shape_spec(),
                                c,
                            ) as int] == src.elems_spec()[rm_flat(view_shape(slots), c) as int]
                        &&& forall|i: int|
                            0 <= i < post.elems_spec().len() && !covered_by(
                                slots,
                                pre.shape_spec(),
                                i,
                            ) ==> post.elems_spec()[i] == pre.elems_spec()[i]
                    },
                }
            }),
    {
        let i = self.storage;
        let ghost pre = old(store).arrays_spec()[i as int];
        let a = &mut store.arrays[i];
        let r = a.set_array(&self.slices, src);
        proof {
            lemma_store_wf_after_update(old(store), store, i as int);
            if r is Err {
                assert(final(store).arrays_spec() =~= old(store).arrays_spec());
            }
        }
        r
    }

    /// Fills the view selected by the chain extended with one more
    /// group with a single scalar, validating bounds and representation
    /// first.  On any failure the store is unchanged.
    pub fn fill(&self, store: &mut ArrayStore, group: Vec<SliceDescriptor>, value: GenericScalar)
        -> (r: Result<(), ArrayError>)
        requires
            old(store).wf(),
            self.in_store(old(store)),
        ensures
            final(store).wf(),
            final(store).arrays_spec().len() == old(store).arrays_spec().len(),
            forall|j: int|
                0 <= j < final(store).arrays_spec().len() && j != self.storage_spec()
                    ==> final(store).arrays_spec()[j] == old(store).arrays_spec()[j],
            r is Err ==> final(store).arrays_spec() == old(store).arrays_spec(),
            ({
                let pre = old(store).arrays_spec()[self.storage_spec()];
                let post = final(store).arrays_spec()[self.storage_spec()];
                &&& post.dtype_spec() == pre.dtype_spec()
                &&& post.shape_spec() == pre.shape_spec()
                &&& match compose_spec(pre.shape_spec(), self.chain_spec().push(group@)) {
                    Err(e) => r == Err::<(), ArrayError>(e),
                    Ok(slots) => if pre.dtype_spec() != value.dtype_spec() {
                        r == Err::<(), ArrayError>(
                            ArrayError::TypeMismatch {
                                expected: pre.dtype_spec(),
                                actual: value.dtype_spec(),
                            },
                        )
                    } else {
                        &&& r is Ok
                        &&& forall|c: Seq<usize>|
                            in_bounds(view_shape(slots), c) ==> post.elems_spec()[#[trigger] flat_of(
                                slots,
                                pre.shape_spec(),
                                c,
                            ) as int] == value.bits_spec()
                        &&& forall|i: int|
                            0 <= i < post.elems_spec().len() && !covered_by(
                                slots,
                                pre.shape_spec(),
                                i,
                            ) ==> post.elems_spec()[i] == pre.elems_spec()[i]
                    },
                }
            }),
    {
        let mut ext = clone_chain(&self.slices);
        ext.push(group);
        proof {
            assert(groups_view(ext@) =~= self.chain_spec().push(ext@[ext@.len() - 1]@));
        }
        let i = self.storage;
        let a = &mut store.arrays[i];
        let r = a.fill(&ext, value);
        proof {
            lemma_store_wf_after_update(old(store), store, i as int);
            if r is Err {
                assert(final(store).arrays_spec() =~= old(store).arrays_spec());
            }
        }
        r
    }
}

/// After updating one slot of a well-formed store with a well-formed
/// array, the store is well-formed again and the other slots are
/// untouched.
proof fn lemma_store_wf_after_update(pre: &ArrayStore, post: &ArrayStore, i: int)
    requires
        pre.wf(),
        0 <= i < pre.arrays_spec().len(),
        post.arrays_spec() == pre.arrays_spec().update(i, post.arrays_spec()[i]),
        post.arrays_spec()[i].wf(),
    ensures
        post.wf(),
        post.arrays_spec().len() == pre.arrays_spec().len(),
        forall|j: int|
            0 <= j < post.arrays_spec().len() && j != i ==> post.arrays_spec()[j]
                == pre.arrays_spec()[j],
{
    assert forall|j: int| 0 <= j < post.arrays_spec().len() implies (
    #[trigger] post.arrays_spec()[j]).wf() by {
        if j != i {
            assert(post.arrays_spec()[j] == pre.arrays_spec()[j]);
        }
    }
}

impl SlicedArcArray {
    /// Assigns the composed view of another handle into the view this
    /// handle's chain extended by `group` selects.  The source view is
    /// materialized into an independent buffer *before* the destination
    /// is touched, so the assignment is correct even when both handles
    /// share one storage slot and their views overlap: every source
    /// element read is a pre-assignment value.  On any failure the
    /// store is unchanged.
    pub fn assign(
        &self,
        store: &mut ArrayStore,
        group: Vec<SliceDescriptor>,
        other: &SlicedArcArray,
    ) -> (r: Result<(), ArrayError>)
        requires
            old(store).wf(),
            self.in_store(old(store)),
            other.in_store(old(store)),
        ensures
            final(store).wf(),
            final(store).arrays_spec().len() == old(store).arrays_spec().len(),
            forall|j: int|
                0 <= j < final(store).arrays_spec().len() && j != self.storage_spec()
                    ==> final(store).arrays_spec()[j] == old(store).arrays_spec()[j],
            r is Err ==> final(store).arrays_spec() == old(store).arrays_spec(),
            ({
                let pre = old(store).arrays_spec()[self.storage_spec()];
                let post = final(store).arrays_spec()[self.storage_spec()];
                let oarr = old(store).arrays_spec()[other.storage_spec()];
                &&& post.dtype_spec() == pre.dtype_spec()
                &&& post.shape_spec() == pre.shape_spec()
                &&& match compose_spec(oarr.shape_spec(), other.chain_spec()) {
                    Err(e) => r == Err::<(), ArrayError>(e),
                    Ok(oslots) => match compose_spec(
                        pre.shape_spec(),
                        self.chain_spec().push(group@),
                    ) {
                        Err(e) => r == Err::<(), ArrayError>(e),
                        Ok(slots) => if pre.dtype_spec() != oarr.dtype_spec() {
                            r == Err::<(), ArrayError>(
                                ArrayError::TypeMismatch {
                                    expected: pre.dtype_spec(),
                                    actual: oarr.dtype_spec(),
                                },
                            )
                        } else if view_shape(oslots) != view_shape(slots) {
                            &&& r matches Err(
                                ArrayError::ShapeMismatch { expected: ex, actual: ac },
                            )
                            &&& ex@ == view_shape(slots)
                            &&& ac@ == view_shape(oslots)
                        } else {
                            &&& r is Ok
                            &&& forall|c: Seq<usize>|
                                in_bounds(view_shape(slots), c)
                                    ==> post.elems_spec()[#[trigger] flat_of(
                                    slots,
                                    pre.shape_spec(),
                                    c,
                                ) as int] == view_model_elems(oarr, oslots)[rm_flat(
                                    view_shape(slots),
                                    c,
                                ) as int]
                            &&& forall|i: int|
                                0 <= i < post.elems_spec().len() && !covered_by(
                                    slots,
                                    pre.shape_spec(),
                                    i,
                                ) ==> post.elems_spec()[i] == pre.elems_spec()[i]
                        },
                    },
                }
            }),
    {
        let src = match other.read(store) {
            Ok(v) => v,
            Err(e) => {
                return Err(e);
            },
        };
        let mut ext = clone_chain(&self.slices);
        ext.push(group);
        proof {
            assert(groups_view(ext@) =~= self.chain_spec().push(ext@[ext@.len() - 1]@));
        }
        let i = self.storage;
        let a = &mut store.arrays[i];
        let r = a.set_array(&ext, &src);
        proof {
            lemma_store_wf_after_update(old(store), store, i as int);
            if r is Err {
                assert(final(store).arrays_spec() =~= old(store).arrays_spec());
            }
        }
        r
    }

    /// Like [`Self::assign`], but each destination element is combined
    /// with the corresponding source element through the caller's
    /// kernel for the active representation, instead of being replaced:
    /// the in-place elementwise operators are this with their operator
    /// as the kernel.  The same materialize-before-write precaution
    /// applies to self-aliased operands.
    pub fn assign_fn<F32K: Fn(u32, u32) -> u32, F64K: Fn(u64, u64) -> u64>(
        &self,
        store: &mut ArrayStore,
        group: Vec<SliceDescriptor>,
        other: &SlicedArcArray,
        k32: &F32K,
        k64: &F64K,
    ) -> (r: Result<(), ArrayError>)
        requires
            old(store).wf(),
            self.in_store(old(store)),
            other.in_store(old(store)),
            forall|x: u32, y: u32| call_requires(*k32, (x, y)),
            forall|x: u64, y: u64| call_requires(*k64, (x, y)),
        ensures
            final(store).wf(),
            final(store).arrays_spec().len() == old(store).arrays_spec().len(),
            forall|j: int|
                0 <= j < final(store).arrays_spec().len() && j != self.storage_spec()
                    ==> final(store).arrays_spec()[j] == old(store).arrays_spec()[j],
            r is Err ==> final(store).arrays_spec() == old(store).arrays_spec(),
            ({
                let pre = old(store).arrays_spec()[self.storage_spec()];
                let post = final(store).arrays_spec()[self.storage_spec()];
                let oarr = old(store).arrays_spec()[other.storage_spec()];
                &&& post.dtype_spec() == pre.dtype_spec()
                &&& post.shape_spec() == pre.shape_spec()
                &&& match compose_spec(oarr.shape_spec(), other.chain_spec()) {
                    Err(e) => r == Err::<(), ArrayError>(e),
                    Ok(oslots) => match compose_spec(
                        pre.shape_spec(),
                        self.chain_spec().push(group@),
                    ) {
                        Err(e) => r == Err::<(), ArrayError>(e),
                        Ok(slots) => if pre.dtype_spec() != oarr.dtype_spec() {
                            r == Err::<(), ArrayError>(
                                ArrayError::TypeMismatch {
                                    expected: pre.dtype_spec(),
                                    actual: oarr.dtype_spec(),
                                },
                            )
                        } else if view_shape(oslots) != view_shape(slots) {
                            &&& r matches Err(
                                ArrayError::ShapeMismatch { expected: ex, actual: ac },
                            )
                            &&& ex@ == view_shape(slots)
                            &&& ac@ == view_shape(oslots)
                        } else {
                            &&& r is Ok
                            &&& pre.dtype_spec() == DataType::Float32 ==> forall|c: Seq<usize>|
                                in_bounds(view_shape(slots), c) ==> call_ensures(
                                    *k32,
                                    (
                                        (pre.elems_spec()[#[trigger] flat_of(
                                            slots,
                                            pre.shape_spec(),
                                            c,
                                        ) as int] as u32),
                                        (view_model_elems(oarr, oslots)[rm_flat(
                                            view_shape(slots),
                                            c,
                                        ) as int] as u32),
                                    ),
                                    (post.elems_spec()[flat_of(
                                        slots,
                                        pre.shape_spec(),
                                        c,
                                    ) as int] as u32),
                                )
                            &&& pre.dtype_spec() == DataType::Float64 ==> forall|c: Seq<usize>|
                                in_bounds(view_shape(slots), c) ==> call_ensures(
                                    *k64,
                                    (
                                        pre.elems_spec()[#[trigger] flat_of(
                                            slots,
                                            pre.shape_spec(),
                                            c,
                                        ) as int],
                                        view_model_elems(oarr, oslots)[rm_flat(
                                            view_shape(slots),
                                            c,
                                        ) as int],
                                    ),
                                    post.elems_spec()[flat_of(slots, pre.shape_spec(), c) as int],
                                )
                            &&& forall|i: int|
                                0 <= i < post.elems_spec().len() && !covered_by(
                                    slots,
                                    pre.shape_spec(),
                                    i,
                                ) ==> post.elems_spec()[i] == pre.elems_spec()[i]
                        },
                    },
                }
            }),
    {
        let src = match other.read(store) {
            Ok(v) => v,
            Err(e) => {
                return Err(e);
            },
        };
        let mut ext = clone_chain(&self.slices);
        ext.push(group);
        proof {
            assert(groups_view(ext@) =~= self.chain_spec().push(ext@[ext@.len() - 1]@));
        }
        let i = self.storage;
        let ghost pre = old(store).arrays_spec()[i as int];
        let a = &mut store.arrays[i];
        let r = a.combine_view(&ext, &src, k32, k64);
        proof {
            lemma_store_wf_after_update(old(store), store, i as int);
            if r is Err {
                assert(final(store).arrays_spec() =~= old(store).arrays_spec());
            }
            let oarr = old(store).arrays_spec()[other.storage_spec()];
            if other.composed(old(store)) is Ok && r is Ok {
                let oslots = other.composed(old(store))->Ok_0;
                let post = final(store).arrays_spec()[i as int];
                let chain = groups_view(ext@);
                if compose_spec(pre.shape_spec(), chain) is Ok {
                    let slots = compose_spec(pre.shape_spec(), chain)->Ok_0;
                    let vs = view_shape(slots);
                    lemma_compose_spec_wf(pre.shape_spec(), chain);
                    if pre.dtype_spec() == DataType::Float32 {
                        assert forall|c: Seq<usize>| in_bounds(vs, c) implies call_ensures(
                            *k32,
                            (
                                (pre.elems_spec()[#[trigger] flat_of(
                                    slots,
                                    pre.shape_spec(),
                                    c,
                                ) as int] as u32),
                                (view_model_elems(oarr, oslots)[rm_flat(vs, c) as int] as u32),
                            ),
                            (post.elems_spec()[flat_of(slots, pre.shape_spec(), c) as int] as u32),
                        ) by {
                            lemma_flat_of_bound(slots, pre.shape_spec(), c);
                            lemma_rm_flat_bound(vs, c);
                        }
                    }
                    if pre.dtype_spec() == DataType::Float64 {
                        assert forall|c: Seq<usize>| in_bounds(vs, c) implies call_ensures(
                            *k64,
                            (
                                pre.elems_spec()[#[trigger] flat_of(
                                    slots,
                                    pre.shape_spec(),
                                    c,
                                ) as int],
                                view_model_elems(oarr, oslots)[rm_flat(vs, c) as int],
                            ),
                            post.elems_spec()[flat_of(slots, pre.shape_spec(), c) as int],
                        ) by {
                            lemma_flat_of_bound(slots, pre.shape_spec(), c);
                            lemma_rm_flat_bound(vs, c);
                        }
                    }
                }
            }
        }
        r
    }

    /// Rewrites the handle's composed view element by element through
    /// the caller's kernel for the active representation (negation, or
    /// an operator with a scalar operand baked in).  On failure the
    /// store is unchanged.
    pub fn map_assign<F32K: Fn(u32) -> u32, F64K: Fn(u64) -> u64>(
        &self,
        store: &mut ArrayStore,
        k32: &F32K,
        k64: &F64K,
    ) -> (r: Result<(), ArrayError>)
        requires
            old(store).wf(),
            self.in_store(old(store)),
            forall|x: u32| call_requires(*k32, (x,)),
            forall|x: u64| call_requires(*k64, (x,)),
        ensures
            final(store).wf(),
            final(store).arrays_spec().len() == old(store).arrays_spec().len(),
            forall|j: int|
                0 <= j < final(store).arrays_spec().len() && j != self.storage_spec()
                    ==> final(store).arrays_spec()[j] == old(store).arrays_spec()[j],
            r is Err ==> final(store).arrays_spec() == old(store).arrays_spec(),
            ({
                let pre = old(store).arrays_spec()[self.storage_spec()];
                let post = final(store).arrays_spec()[self.storage_spec()];
                &&& post.dtype_spec() == pre.dtype_spec()
                &&& post.shape_spec() == pre.shape_spec()
                &&& match compose_spec(pre.shape_spec(), self.chain_spec()) {
                    Err(e) => r == Err::<(), ArrayError>(e),
                    Ok(slots) => {
                        &&& r is Ok
                        &&& pre.dtype_spec() == DataType::Float32 ==> forall|c: Seq<usize>|
                            in_bounds(view_shape(slots), c) ==> call_ensures(
                                *k32,
                                (
                                    (pre.elems_spec()[#[trigger] flat_of(
                                        slots,
                                        pre.shape_spec(),
                                        c,
                                    ) as int] as u32),
                                ),
                                (post.elems_spec()[flat_of(
                                    slots,
                                    pre.shape_spec(),
                                    c,
                                ) as int] as u32),
                            )
                        &&& pre.dtype_spec() == DataType::Float64 ==> forall|c: Seq<usize>|
                            in_bounds(view_shape(slots), c) ==> call_ensures(
                                *k64,
                                (
                                    pre.elems_spec()[#[trigger] flat_of(
                                        slots,
                                        pre.shape_spec(),
                                        c,
                                    ) as int],
                                ),
                                post.elems_spec()[flat_of(slots, pre.shape_spec(), c) as int],
                            )
                        &&& forall|i: int|
                            0 <= i < post.elems_spec().len() && !covered_by(
                                slots,
                                pre.shape_spec(),
                                i,
                            ) ==> post.elems_spec()[i] == pre.elems_spec()[i]
                    },
                }
            }),
    {
        let i = self.storage;
        let ghost pre = old(store).arrays_spec()[i as int];
        let a = &mut store.arrays[i];
        let r = a.map_view(&self.slices, k32, k64);
        proof {
            lemma_store_wf_after_update(old(store), store, i as int);
            if r is Err {
                assert(final(store).arrays_spec() =~= old(store).arrays_spec());
            }
            if compose_spec(pre.shape_spec(), self.chain_spec()) is Ok && r is Ok {
                let slots = compose_spec(pre.shape_spec(), self.chain_spec())->Ok_0;
                let vs = view_shape(slots);
                lemma_compose_spec_wf(pre.shape_spec(), self.chain_spec());
                let post = final(store).arrays_spec()[i as int];
                if pre.dtype_spec() == DataType::Float32 {
                    assert forall|c: Seq<usize>| in_bounds(vs, c) implies call_ensures(
                        *k32,
                        (
                            (pre.elems_spec()[#[trigger] flat_of(
                                slots,
                                pre.shape_spec(),
                                c,
                            ) as int] as u32),
                        ),
                        (post.elems_spec()[flat_of(slots, pre.shape_spec(), c) as int] as u32),
                    ) by {
                        lemma_flat_of_bound(slots, pre.shape_spec(), c);
                    }
                }
                if pre.dtype_spec() == DataType::Float64 {
                    assert forall|c: Seq<usize>| in_bounds(vs, c) implies call_ensures(
                        *k64,
                        (pre.elems_spec()[#[trigger] flat_of(slots, pre.shape_spec(), c) as int],),
                        post.elems_spec()[flat_of(slots, pre.shape_spec(), c) as int],
                    ) by {
                        lemma_flat_of_bound(slots, pre.shape_spec(), c);
                    }
                }
            }
        }
        r
    }

    /// The number of dimensions of the composed view.
    pub fn ndim(&self, store: &ArrayStore) -> (r: usize)
        requires
            store.wf(),
            self.valid(store),
        ensures
            r == view_shape(self.composed(store)->Ok_0).len(),
    {
        match crate::view::compose(self.target_ref(store).shape(), &self.slices) {
            Ok(plan) => crate::view::plan_shape(&plan).len(),
            Err(_) => {
                proof {
                    assert(false);
                }
                0
            },
        }
    }

    /// The shape of the composed view, recomputed from the chain.
    pub fn shape(&self, store: &ArrayStore) -> (r: Vec<usize>)
        requires
            store.wf(),
            self.valid(store),
        ensures
            r@ == view_shape(self.composed(store)->Ok_0),
    {
        match crate::view::compose(self.target_ref(store).shape(), &self.slices) {
            Ok(plan) => crate::view::plan_shape(&plan),
            Err(_) => {
                proof {
                    assert(false);
                }
                Vec::new()
            },
        }
    }

    /// The extent of axis 0 of the composed view, or 1 when the view
    /// is zero-dimensional.
    pub fn length(&self, store: &ArrayStore) -> (r: usize)
        requires
            store.wf(),
            self.valid(store),
        ensures
            view_shape(self.composed(store)->Ok_0).len() == 0 ==> r == 1,
            view_shape(self.composed(store)->Ok_0).len() > 0 ==> r == view_shape(
                self.composed(store)->Ok_0,
            )[0],
    {
        let s = self.shape(store);
        if s.len() == 0 {
            1
        } else {
            s[0]
        }
    }

    /// Deep-copies the composed view into a brand-new storage slot and
    /// returns a fresh handle to it with an empty chain.
    pub fn sliced_copy(&self, store: &mut ArrayStore) -> (h: SlicedArcArray)
        requires
            old(store).wf(),
            self.valid(old(store)),
        ensures
            final(store).wf(),
            final(store).arrays_spec().len() == old(store).arrays_spec().len() + 1,
            forall|j: int|
                0 <= j < old(store).arrays_spec().len() ==> final(store).arrays_spec()[j] == old(
                    store,
                ).arrays_spec()[j],
            h.storage_spec() == old(store).arrays_spec().len(),
            h.chain_spec() == Seq::<Seq<SliceDescriptor>>::empty(),
            h.valid(final(store)),
            ({
                let copy = final(store).arrays_spec()[h.storage_spec()];
                let slots = self.composed(old(store))->Ok_0;
                &&& copy.dtype_spec() == self.target(old(store)).dtype_spec()
                &&& copy.shape_spec() == view_shape(slots)
                &&& copy.elems_spec() == view_model_elems(self.target(old(store)), slots)
            }),
    {
        let v = match self.read(store) {
            Ok(v) => v,
            Err(_) => {
                proof {
                    assert(false);
                }
                return SlicedArcArray { storage: 0, slices: Vec::new() };
            },
        };
        SlicedArcArray::from_array(store, v)
    }

    /// Subscript deletion.  Arrays hold one element per coordinate of
    /// their shape for their whole lifetime, so deleting an element is
    /// unsupported and always fails.
    pub fn delitem(&self, _group: Vec<SliceDescriptor>) -> (r: Result<(), ArrayError>)
        ensures
            r == Err::<(), ArrayError>(ArrayError::UnsupportedOperation),
    {
        Err(ArrayError::UnsupportedOperation)
    }

    /// Renders the composed view's representation tag and shape.  The
    /// numeric text of the elements themselves is the embedding host's
    /// concern — only it interprets element bits as numbers.
    pub fn repr(&self, store: &ArrayStore) -> (r: String)
        requires
            store.wf(),
            self.valid(store),
        ensures
            ({
                let key = if self.target(store).dtype_spec() == DataType::Float32 {
                    "float32"@
                } else {
                    "float64"@
                };
                r@ == "array(dtype='"@ + key + "', shape="@ + shape_chars(
                    view_shape(self.composed(store)->Ok_0),
                ) + ")"@
            }),
    {
        let mut s = String::from_str("array(dtype='");
        s.append(self.target_ref(store).dtype().stringy_key());
        s.append("', shape=");
        let sh = self.shape(store);
        let sh_text = shape_str(&sh);
        s.append(sh_text.as_str());
        s.append(")");
        proof {
            let key = if self.target(store).dtype_spec() == DataType::Float32 {
                "float32"@
            } else {
                "float64"@
            };
            assert(s@ =~= "array(dtype='"@ + key + "', shape="@ + shape_chars(
                view_shape(self.composed(store)->Ok_0),
            ) + ")"@);
        }
        s
    }

    /// The array the handle's slot holds.
    fn target_ref<'a>(&self, store: &'a ArrayStore) -> (r: &'a GenericArrayData)
        requires
            self.in_store(store),
        ensures
            *r == self.target(store),
    {
        store.array(self.storage)
    }
}

/// Builds a fresh array of zeros — the all-zero bit pattern of the
/// chosen representation — in a new storage slot.
pub fn zeros(store: &mut ArrayStore, shape: Vec<usize>, dtype: DataType) -> (h: SlicedArcArray)
    requires
        old(store).wf(),
        product(shape@) <= usize::MAX,
    ensures
        final(store).wf(),
        final(store).arrays_spec().len() == old(store).arrays_spec().len() + 1,
        forall|j: int|
            0 <= j < old(store).arrays_spec().len() ==> final(store).arrays_spec()[j] == old(
                store,
            ).arrays_spec()[j],
        h.storage_spec() == old(store).arrays_spec().len(),
        h.chain_spec() == Seq::<Seq<SliceDescriptor>>::empty(),
        h.valid(final(store)),
        ({
            let arr = final(store).arrays_spec()[h.storage_spec()];
            &&& arr.dtype_spec() == dtype
            &&& arr.shape_spec() == shape@
            &&& arr.elems_spec().len() == product(shape@)
            &&& forall|i: int| 0 <= i < arr.elems_spec().len() ==> arr.elems_spec()[i] == 0
        }),
{
    let data = GenericArrayData::zeros(shape, dtype);
    SlicedArcArray::from_array(store, data)
}

/// Builds an array from flat values and a shape in a new storage slot.
/// Succeeds exactly when the flat store holds one value per coordinate
/// of the shape — `product(shape)` many — and then the handle's shape
/// is the requested one; otherwise nothing is stored and the
/// `ShapeMismatch` carries the requested shape and the offered length.
pub fn from_flat(store: &mut ArrayStore, data: crate::value::GenericFlat, shape: Vec<usize>) -> (r:
    Result<SlicedArcArray, ArrayError>)
    requires
        old(store).wf(),
    ensures
        final(store).wf(),
        r is Ok <==> data.elems_spec().len() == product(shape@),
        r is Err ==> final(store).arrays_spec() == old(store).arrays_spec(),
        data.elems_spec().len() != product(shape@) ==> (r matches Err(
            ArrayError::ShapeMismatch { expected: ex, actual: ac },
        ) && ex@ == shape@ && ac@ == seq![data.elems_spec().len() as usize]),
        r is Ok ==> {
            let h = r->Ok_0;
            &&& final(store).arrays_spec().len() == old(store).arrays_spec().len() + 1
            &&& forall|j: int|
                0 <= j < old(store).arrays_spec().len() ==> final(store).arrays_spec()[j] == old(
                    store,
                ).arrays_spec()[j]
            &&& h.storage_spec() == old(store).arrays_spec().len()
            &&& h.chain_spec() == Seq::<Seq<SliceDescriptor>>::empty()
            &&& h.valid(final(store))
            &&& {
                let arr = final(store).arrays_spec()[h.storage_spec()];
                &&& arr.dtype_spec() == data.dtype_spec()
                &&& arr.shape_spec() == shape@
                &&& arr.elems_spec() == data.elems_spec()
            }
        },
{
    match GenericArrayData::from_array(data, shape) {
        Ok(v) => Ok(SlicedArcArray::from_array(store, v)),
        Err(e) => Err(e),
    }
}

/// Copies a slice chain, group by group.
pub fn clone_chain(chain: &Vec<Vec<SliceDescriptor>>) -> (r: Vec<Vec<SliceDescriptor>>)
    ensures
        groups_view(r@) == groups_view(chain@),
{
    let mut r: Vec<Vec<SliceDescriptor>> = Vec::new();
    let mut i: usize = 0;
    let n = chain.len();
    while i < n
        invariant
            n == chain@.len(),
            i <= n,
            r@.len() == i,
            forall|j: int| 0 <= j < i ==> r@[j]@ == chain@[j]@,
        decreases n - i,
    {
        let mut g: Vec<SliceDescriptor> = Vec::new();
        let m = chain[i].len();
        let mut k: usize = 0;
        while k < m
            invariant
                i < chain@.len(),
                m == chain@[i as int]@.len(),
                k <= m,
                g@ == chain@[i as int]@.take(k as int),
            decreases m - k,
        {
            let d = chain[i][k];
            g.push(d);
            proof {
                assert(g@ =~= chain@[i as int]@.take(k as int + 1));
            }
            k = k + 1;
        }
        proof {
            assert(g@ =~= chain@[i as int]@);
        }
        r.push(g);
        i = i + 1;
    }
    proof {
        assert(groups_view(r@) =~= groups_view(chain@));
    }
    r
}

} // verus!
