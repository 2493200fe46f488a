//! The dtype-erased array value: a tagged union over the two supported
//! element representations, dispatching every operation through the tag.
//!
//! One generic implementation ([`TypedBuffer`]) is reused by both tags;
//! mixing representations between two operands is a `TypeMismatch`
//! error, never an implicit cast.  Contracts speak of a uniform model:
//! the elements as 64-bit words (32-bit elements are zero-extended).

use vstd::prelude::*;
use crate::dtype::DataType;
use crate::error::ArrayError;
use crate::descriptor::SliceDescriptor;
use crate::shape::{product, in_bounds, rm_flat, coords_of, lemma_coords_of, lemma_rm_flat_bound, lemma_coords_of_rm_flat};
use crate::view::{
    Slot, ViewPlan, slots_wf, view_shape, flat_of, compose, compose_spec, groups_view,
    lemma_flat_of_bound, plan_shape,
};
use crate::buffer::{TypedBuffer, covered_by, zip_with, map_with};

verus! {

/// A value tagged by its element representation.
#[derive(Debug, Clone)]
pub enum GenericArray<F32, F64> {
    Float32(F32),
    Float64(F64),
}

/// A dtype-erased array: one typed buffer behind the tag.
pub type GenericArrayData = GenericArray<TypedBuffer<u32>, TypedBuffer<u64>>;

/// A dtype-erased scalar: one element's bit pattern behind the tag.
pub type GenericScalar = GenericArray<u32, u64>;

/// A dtype-erased flat store, for construction.
pub type GenericFlat = GenericArray<Vec<u32>, Vec<u64>>;

/// 32-bit words seen through the uniform 64-bit model.
pub open spec fn widen(s: Seq<u32>) -> Seq<u64> {
    s.map_values(|x: u32| x as u64)
}

impl GenericScalar {
    /// The representation the scalar belongs to.
    pub open spec fn dtype_spec(&self) -> DataType {
        match self {
            GenericArray::Float32(_) => DataType::Float32,
            GenericArray::Float64(_) => DataType::Float64,
        }
    }

    /// The scalar's bit pattern, zero-extended to 64 bits.
    pub open spec fn bits_spec(&self) -> u64 {
        match self {
            GenericArray::Float32(x) => *x as u64,
            GenericArray::Float64(x) => *x,
        }
    }

    /// The representation the scalar belongs to.
    pub fn dtype(&self) -> (r: DataType)
        ensures
            r == self.dtype_spec(),
    {
        match self {
            GenericArray::Float32(_) => DataType::Float32,
            GenericArray::Float64(_) => DataType::Float64,
        }
    }
}

impl GenericFlat {
    /// The representation of the flat store's elements.
    pub open spec fn dtype_spec(&self) -> DataType {
        match self {
            GenericArray::Float32(_) => DataType::Float32,
            GenericArray::Float64(_) => DataType::Float64,
        }
    }

    /// The flat elements, zero-extended to 64 bits.
    pub open spec fn elems_spec(&self) -> Seq<u64> {
        match self {
            GenericArray::Float32(v) => widen(v@),
            GenericArray::Float64(v) => v@,
        }
    }
}

impl GenericArrayData {
    /// The representation the array's elements belong to.
    pub open spec fn dtype_spec(&self) -> DataType {
        match self {
            GenericArray::Float32(_) => DataType::Float32,
            GenericArray::Float64(_) => DataType::Float64,
        }
    }

    /// The array's shape.
    pub open spec fn shape_spec(&self) -> Seq<usize> {
        match self {
            GenericArray::Float32(b) => b.shape_spec(),
            GenericArray::Float64(b) => b.shape_spec(),
        }
    }

    /// The flat, row-major elements, zero-extended to 64 bits.
    pub open spec fn elems_spec(&self) -> Seq<u64> {
        match self {
            GenericArray::Float32(b) => widen(b.data_spec()),
            GenericArray::Float64(b) => b.data_spec(),
        }
    }

    /// The structural invariant, inherited from the typed buffer.
    pub open spec fn wf(&self) -> bool {
        match self {
            GenericArray::Float32(b) => b.wf(),
            GenericArray::Float64(b) => b.wf(),
        }
    }

    /// The representation tag.
    pub fn dtype(&self) -> (r: DataType)
        ensures
            r == self.dtype_spec(),
    {
        match self {
            GenericArray::Float32(_) => DataType::Float32,
            GenericArray::Float64(_) => DataType::Float64,
        }
    }

    /// Builds an array from a flat store and a shape.  The element
    /// representation is the store's own; the construction fails with
    /// `ShapeMismatch` exactly when the store's length is not the
    /// product of the extents.
    pub fn from_array(data: GenericFlat, shape: Vec<usize>) -> (r: Result<
        GenericArrayData,
        ArrayError,
    >)
        ensures
            data.elems_spec().len() == product(shape@) ==> r is Ok,
            r is Ok ==> r->Ok_0.wf() && r->Ok_0.dtype_spec() == data.dtype_spec()
                && r->Ok_0.shape_spec() == shape@ && r->Ok_0.elems_spec() == data.elems_spec(),
            data.elems_spec().len() != product(shape@) ==> (r matches Err(
                ArrayError::ShapeMismatch { expected: ex, actual: ac },
            ) && ex@ == shape@ && ac@ == seq![data.elems_spec().len() as usize]),
    {
        match data {
            GenericArray::Float32(v) => {
                proof {
                    assert(widen(v@).len() == v@.len());
                }
                match TypedBuffer::from_flat(v, shape) {
                    Ok(b) => {
                        proof {
                            assert(widen(b.data_spec()) =~= widen(b.data_spec()));
                        }
                        Ok(GenericArray::Float32(b))
                    },
                    Err(e) => Err(e),
                }
            },
            GenericArray::Float64(v) => {
                match TypedBuffer::from_flat(v, shape) {
                    Ok(b) => Ok(GenericArray::Float64(b)),
                    Err(e) => Err(e),
                }
            },
        }
    }

    /// A fresh array of the given shape and representation with every
    /// element zero — the all-zero bit pattern.
    pub fn zeros(shape: Vec<usize>, dtype: DataType) -> (r: GenericArrayData)
        requires
            product(shape@) <= usize::MAX,
        ensures
            r.wf(),
            r.dtype_spec() == dtype,
            r.shape_spec() == shape@,
            r.elems_spec().len() == product(shape@),
            forall|i: int| 0 <= i < r.elems_spec().len() ==> r.elems_spec()[i] == 0,
    {
        match dtype {
            DataType::Float32 => {
                let b = TypedBuffer::<u32>::filled(shape, 0);
                proof {
                    assert(widen(b.data_spec()).len() == b.data_spec().len());
                }
                GenericArray::Float32(b)
            },
            DataType::Float64 => GenericArray::Float64(TypedBuffer::<u64>::filled(shape, 0)),
        }
    }

    /// The number of dimensions.
    pub fn ndim(&self) -> (r: usize)
        ensures
            r == self.shape_spec().len(),
    {
        match self {
            GenericArray::Float32(b) => b.ndim(),
            GenericArray::Float64(b) => b.ndim(),
        }
    }

    /// The shape, one extent per axis.
    pub fn shape(&self) -> (r: &Vec<usize>)
        ensures
            r@ == self.shape_spec(),
    {
        match self {
            GenericArray::Float32(b) => b.shape(),
            GenericArray::Float64(b) => b.shape(),
        }
    }

    /// The single element of a zero-dimensional array, as a scalar of
    /// the same representation.
    pub fn item(&self) -> (r: GenericScalar)
        requires
            self.wf(),
            self.shape_spec().len() == 0,
        ensures
            r.dtype_spec() == self.dtype_spec(),
            r.bits_spec() == self.elems_spec()[0],
    {
        match self {
            GenericArray::Float32(b) => {
                proof {
                    assert(product(b.shape_spec()) == 1);
                }
                GenericArray::Float32(b.item())
            },
            GenericArray::Float64(b) => {
                proof {
                    assert(product(b.shape_spec()) == 1);
                }
                GenericArray::Float64(b.item())
            },
        }
    }
}

/// Whether two shapes are equal, axis by axis.
pub fn shapes_equal(a: &Vec<usize>, b: &Vec<usize>) -> (r: bool)
    ensures
        r == (a@ == b@),
{
    if a.len() != b.len() {
        proof {
            assert(a@ != b@);
        }
        return false;
    }
    let n = a.len();
    let mut i: usize = 0;
    while i < n
        invariant
            n == a@.len(),
            a@.len() == b@.len(),
            i <= n,
            forall|j: int| 0 <= j < i ==> a@[j] == b@[j],
        decreases n - i,
    {
        if a[i] != b[i] {
            proof {
                assert(a@ != b@);
            }
            return false;
        }
        i = i + 1;
    }
    proof {
        assert(a@ =~= b@);
    }
    true
}

/// Copies a shape.
pub fn clone_shape(v: &Vec<usize>) -> (r: Vec<usize>)
    ensures
        r@ == v@,
{
    let mut r: Vec<usize> = Vec::new();
    let mut i: usize = 0;
    let n = v.len();
    while i < n
        invariant
            n == v@.len(),
            i <= n,
            r@ == v@.take(i as int),
        decreases n - i,
    {
        let e = v[i];
        r.push(e);
        proof {
            assert(r@ =~= v@.take(i as int + 1));
        }
        i = i + 1;
    }
    proof {
        assert(r@ =~= v@);
    }
    r
}

/// The elements of the composed view of an array, flat and row-major:
/// entry `k` is the base element that the view's `k`-th coordinate
/// selects.
pub open spec fn view_model_elems(a: GenericArrayData, slots: Seq<Slot>) -> Seq<u64> {
    Seq::new(
        product(view_shape(slots)),
        |k: int| a.elems_spec()[flat_of(slots, a.shape_spec(), coords_of(view_shape(slots), k)) as int],
    )
}

/// Applies an ordered slice chain to an array and materializes the
/// composed view into a fresh contiguous array of the same
/// representation: the view's `k`-th element (row-major) is the base
/// element its `k`-th coordinate selects.
pub fn view(data: &GenericArrayData, slices: &Vec<Vec<SliceDescriptor>>) -> (r: Result<
    GenericArrayData,
    ArrayError,
>)
    requires
        data.wf(),
    ensures
        match compose_spec(data.shape_spec(), groups_view(slices@)) {
            Ok(slots) => r is Ok && {
                let out = r->Ok_0;
                &&& out.wf()
                &&& out.dtype_spec() == data.dtype_spec()
                &&& out.shape_spec() == view_shape(slots)
                &&& out.elems_spec().len() == product(view_shape(slots))
                &&& forall|k: int|
                    0 <= k < out.elems_spec().len() ==> out.elems_spec()[k]
                        == data.elems_spec()[flat_of(
                        slots,
                        data.shape_spec(),
                        coords_of(view_shape(slots), k),
                    ) as int]
                &&& out.elems_spec() == view_model_elems(*data, slots)
            },
            Err(e) => r == Err::<GenericArrayData, ArrayError>(e),
        },
{
    match data {
        GenericArray::Float32(b) => {
            match compose(b.shape(), slices) {
                Ok(plan) => {
                    let out = b.materialize(&plan);
                    proof {
                        let slots = plan.slots@;
                        let base = b.shape_spec();
                        let vs = view_shape(slots);
                        assert forall|k: int| 0 <= k < widen(out.data_spec()).len() implies widen(
                            out.data_spec(),
                        )[k] == widen(b.data_spec())[flat_of(slots, base, coords_of(vs, k)) as int] by {
                            lemma_coords_of(vs, k);
                            lemma_flat_of_bound(slots, base, coords_of(vs, k));
                            assert(widen(out.data_spec())[k] == (out.data_spec()[k] as u64));
                            assert(widen(b.data_spec())[flat_of(slots, base, coords_of(vs, k)) as int]
                                == (b.data_spec()[flat_of(slots, base, coords_of(vs, k)) as int]
                                as u64));
                        }
                        assert(widen(out.data_spec()) =~= view_model_elems(*data, slots));
                    }
                    Ok(GenericArray::Float32(out))
                },
                Err(e) => Err(e),
            }
        },
        GenericArray::Float64(b) => {
            match compose(b.shape(), slices) {
                Ok(plan) => {
                    let out = b.materialize(&plan);
                    proof {
                        assert(out.data_spec() =~= view_model_elems(*data, plan.slots@));
                    }
                    Ok(GenericArray::Float64(out))
                },
                Err(e) => Err(e),
            }
        },
    }
}

impl GenericArrayData {
    /// Assigns another array's elements into the view that `slices`
    /// selects of this one.  The representations must match and the
    /// source's shape must equal the composed view's shape; on any
    /// failure nothing is mutated.
    pub fn set_array(&mut self, slices: &Vec<Vec<SliceDescriptor>>, src: &GenericArrayData) -> (r:
        Result<(), ArrayError>)
        requires
            old(self).wf(),
            src.wf(),
        ensures
            final(self).wf(),
            final(self).dtype_spec() == old(self).dtype_spec(),
            final(self).shape_spec() == old(self).shape_spec(),
            r is Err ==> *final(self) == *old(self),
            match compose_spec(old(self).shape_spec(), groups_view(slices@)) {
                Err(e) => r == Err::<(), ArrayError>(e),
                Ok(slots) => if old(self).dtype_spec() != src.dtype_spec() {
                    r == Err::<(), ArrayError>(
                        ArrayError::TypeMismatch {
                            expected: old(self).dtype_spec(),
                            actual: src.dtype_spec(),
                        },
                    )
                } else if src.shape_spec() != view_shape(slots) {
                    &&& r matches Err(ArrayError::ShapeMismatch { expected: ex, actual: ac })
                    &&& ex@ == view_shape(slots)
                    &&& ac@ == src.shape_spec()
                } else {
                    &&& r is Ok
                    &&& forall|c: Seq<usize>|
                        in_bounds(view_shape(slots), c) ==> final(self).elems_spec()[#[trigger] flat_of(
                            slots,
                            old(self).shape_spec(),
                            c,
                        ) as int] == src.elems_spec()[rm_flat(view_shape(slots), c) as int]
                    &&& forall|i: int|
                        0 <= i < final(self).elems_spec().len() && !covered_by(
                            slots,
                            old(self).shape_spec(),
                            i,
                        ) ==> final(self).elems_spec()[i] == old(self).elems_spec()[i]
                },
            },
    {
        let ghost base = old(self).shape_spec();
        let plan = match compose(self.shape(), slices) {
            Ok(p) => p,
            Err(e) => {
                return Err(e);
            },
        };
        let ghost slots = plan.slots@;
        let dt = self.dtype();
        let st = src.dtype();
        if dt != st {
            return Err(ArrayError::TypeMismatch { expected: dt, actual: st });
        }
        let vshape = plan_shape(&plan);
        if !shapes_equal(src.shape(), &vshape) {
            return Err(
                ArrayError::ShapeMismatch { expected: vshape, actual: clone_shape(src.shape()) },
            );
        }
        let ghost vs = view_shape(slots);
        match (&mut *self, src) {
            (GenericArray::Float32(b), GenericArray::Float32(s)) => {
                let ghost olddata = b.data_spec();
                b.write_view(&plan, s.flat());
                proof {
                    assert forall|c: Seq<usize>| in_bounds(vs, c) implies widen(b.data_spec())[#[trigger] flat_of(
                        slots,
                        base,
                        c,
                    ) as int] == widen(s.data_spec())[rm_flat(vs, c) as int] by {
                        lemma_flat_of_bound(slots, base, c);
                        lemma_rm_flat_bound(vs, c);
                    }
                    assert forall|i: int|
                        0 <= i < widen(b.data_spec()).len() && !covered_by(slots, base, i) implies
                        widen(b.data_spec())[i] == widen(olddata)[i] by {}
                }
                Ok(())
            },
            (GenericArray::Float64(b), GenericArray::Float64(s)) => {
                b.write_view(&plan, s.flat());
                Ok(())
            },
            _ => {
                proof {
                    assert(false);
                }
                Err(ArrayError::InvalidSelector)
            },
        }
    }

    /// Fills the view that `slices` selects with one scalar of the same
    /// representation; every element outside the view is untouched.  On
    /// any failure nothing is mutated.
    pub fn fill(&mut self, slices: &Vec<Vec<SliceDescriptor>>, value: GenericScalar) -> (r: Result<
        (),
        ArrayError,
    >)
        requires
            old(self).wf(),
        ensures
            final(self).wf(),
            final(self).dtype_spec() == old(self).dtype_spec(),
            final(self).shape_spec() == old(self).shape_spec(),
            r is Err ==> *final(self) == *old(self),
            match compose_spec(old(self).shape_spec(), groups_view(slices@)) {
                Err(e) => r == Err::<(), ArrayError>(e),
                Ok(slots) => if old(self).dtype_spec() != value.dtype_spec() {
                    r == Err::<(), ArrayError>(
                        ArrayError::TypeMismatch {
                            expected: old(self).dtype_spec(),
                            actual: value.dtype_spec(),
                        },
                    )
                } else {
                    &&& r is Ok
                    &&& forall|c: Seq<usize>|
                        in_bounds(view_shape(slots), c) ==> final(self).elems_spec()[#[trigger] flat_of(
                            slots,
                            old(self).shape_spec(),
                            c,
                        ) as int] == value.bits_spec()
                    &&& forall|i: int|
                        0 <= i < final(self).elems_spec().len() && !covered_by(
                            slots,
                            old(self).shape_spec(),
                            i,
                        ) ==> final(self).elems_spec()[i] == old(self).elems_spec()[i]
                },
            },
    {
        let ghost base = old(self).shape_spec();
        let plan = match compose(self.shape(), slices) {
            Ok(p) => p,
            Err(e) => {
                return Err(e);
            },
        };
        let ghost slots = plan.slots@;
        let dt = self.dtype();
        let vt = value.dtype();
        if dt != vt {
            return Err(ArrayError::TypeMismatch { expected: dt, actual: vt });
        }
        let ghost vs = view_shape(slots);
        match (&mut *self, value) {
            (GenericArray::Float32(b), GenericArray::Float32(x)) => {
                let ghost olddata = b.data_spec();
                b.fill(&plan, x);
                proof {
                    assert forall|c: Seq<usize>| in_bounds(vs, c) implies widen(b.data_spec())[#[trigger] flat_of(
                        slots,
                        base,
                        c,
                    ) as int] == (x as u64) by {
                        lemma_flat_of_bound(slots, base, c);
                    }
                }
                Ok(())
            },
            (GenericArray::Float64(b), GenericArray::Float64(x)) => {
                b.fill(&plan, x);
                Ok(())
            },
            _ => {
                proof {
                    assert(false);
                }
                Err(ArrayError::InvalidSelector)
            },
        }
    }

    /// Combines the view that `slices` selects with another array,
    /// element by element, through the caller's kernel for the active
    /// representation: each selected element becomes
    /// `kernel(old element, source element)`.  The source is read in
    /// full before the first element is written.  On any failure
    /// nothing is mutated.
    pub fn combine_view<F32K: Fn(u32, u32) -> u32, F64K: Fn(u64, u64) -> u64>(
        &mut self,
        slices: &Vec<Vec<SliceDescriptor>>,
        src: &GenericArrayData,
        k32: &F32K,
        k64: &F64K,
    ) -> (r: Result<(), ArrayError>)
        requires
            old(self).wf(),
            src.wf(),
            forall|x: u32, y: u32| call_requires(*k32, (x, y)),
            forall|x: u64, y: u64| call_requires(*k64, (x, y)),
        ensures
            final(self).wf(),
            final(self).dtype_spec() == old(self).dtype_spec(),
            final(self).shape_spec() == old(self).shape_spec(),
            r is Err ==> *final(self) == *old(self),
            match compose_spec(old(self).shape_spec(), groups_view(slices@)) {
                Err(e) => r == Err::<(), ArrayError>(e),
                Ok(slots) => if old(self).dtype_spec() != src.dtype_spec() {
                    r == Err::<(), ArrayError>(
                        ArrayError::TypeMismatch {
                            expected: old(self).dtype_spec(),
                            actual: src.dtype_spec(),
                        },
                    )
                } else if src.shape_spec() != view_shape(slots) {
                    &&& r matches Err(ArrayError::ShapeMismatch { expected: ex, actual: ac })
                    &&& ex@ == view_shape(slots)
                    &&& ac@ == src.shape_spec()
                } else {
                    &&& r is Ok
                    &&& *old(self) is Float32 ==> forall|c: Seq<usize>|
                        in_bounds(view_shape(slots), c) ==> call_ensures(
                            *k32,
                            (
                                old(self)->Float32_0.data_spec()[#[trigger] flat_of(
                                    slots,
                                    old(self).shape_spec(),
                                    c,
                                ) as int],
                                src->Float32_0.data_spec()[rm_flat(view_shape(slots), c) as int],
                            ),
                            final(self)->Float32_0.data_spec()[flat_of(
                                slots,
                                old(self).shape_spec(),
                                c,
                            ) as int],
                        )
                    &&& *old(self) is Float64 ==> forall|c: Seq<usize>|
                        in_bounds(view_shape(slots), c) ==> call_ensures(
                            *k64,
                            (
                                old(self)->Float64_0.data_spec()[#[trigger] flat_of(
                                    slots,
                                    old(self).shape_spec(),
                                    c,
                                ) as int],
                                src->Float64_0.data_spec()[rm_flat(view_shape(slots), c) as int],
                            ),
                            final(self)->Float64_0.data_spec()[flat_of(
                                slots,
                                old(self).shape_spec(),
                                c,
                            ) as int],
                        )
                    &&& forall|i: int|
                        0 <= i < final(self).elems_spec().len() && !covered_by(
                            slots,
                            old(self).shape_spec(),
                            i,
                        ) ==> final(self).elems_spec()[i] == old(self).elems_spec()[i]
                },
            },
    {
        let ghost base = old(self).shape_spec();
        let plan = match compose(self.shape(), slices) {
            Ok(p) => p,
            Err(e) => {
                return Err(e);
            },
        };
        let ghost slots = plan.slots@;
        let dt = self.dtype();
        let st = src.dtype();
        if dt != st {
            return Err(ArrayError::TypeMismatch { expected: dt, actual: st });
        }
        let vshape = plan_shape(&plan);
        if !shapes_equal(src.shape(), &vshape) {
            return Err(
                ArrayError::ShapeMismatch { expected: vshape, actual: clone_shape(src.shape()) },
            );
        }
        let ghost vs = view_shape(slots);
        match (&mut *self, src) {
            (GenericArray::Float32(b), GenericArray::Float32(s)) => {
                let ghost olddata = b.data_spec();
                let dest_m = b.materialize(&plan);
                let zipped = zip_with(dest_m.flat(), s.flat(), k32);
                b.write_view(&plan, &zipped);
                proof {
                    assert forall|c: Seq<usize>| in_bounds(vs, c) implies call_ensures(
                        *k32,
                        (
                            olddata[#[trigger] flat_of(slots, base, c) as int],
                            s.data_spec()[rm_flat(vs, c) as int],
                        ),
                        b.data_spec()[flat_of(slots, base, c) as int],
                    ) by {
                        lemma_rm_flat_bound(vs, c);
                        lemma_coords_of_rm_flat(vs, c);
                        let j = rm_flat(vs, c) as int;
                        assert(coords_of(vs, j) == c);
                        assert(dest_m.data_spec()[j] == olddata[flat_of(slots, base, c) as int]);
                        assert(b.data_spec()[flat_of(slots, base, c) as int] == zipped@[j]);
                        assert(call_ensures(*k32, (dest_m.data_spec()[j], s.data_spec()[j]), zipped@[j]));
                    }
                }
                Ok(())
            },
            (GenericArray::Float64(b), GenericArray::Float64(s)) => {
                let ghost olddata = b.data_spec();
                let dest_m = b.materialize(&plan);
                let zipped = zip_with(dest_m.flat(), s.flat(), k64);
                b.write_view(&plan, &zipped);
                proof {
                    assert forall|c: Seq<usize>| in_bounds(vs, c) implies call_ensures(
                        *k64,
                        (
                            olddata[#[trigger] flat_of(slots, base, c) as int],
                            s.data_spec()[rm_flat(vs, c) as int],
                        ),
                        b.data_spec()[flat_of(slots, base, c) as int],
                    ) by {
                        lemma_rm_flat_bound(vs, c);
                        lemma_coords_of_rm_flat(vs, c);
                        let j = rm_flat(vs, c) as int;
                        assert(coords_of(vs, j) == c);
                        assert(dest_m.data_spec()[j] == olddata[flat_of(slots, base, c) as int]);
                        assert(b.data_spec()[flat_of(slots, base, c) as int] == zipped@[j]);
                        assert(call_ensures(*k64, (dest_m.data_spec()[j], s.data_spec()[j]), zipped@[j]));
                    }
                }
                Ok(())
            },
            _ => {
                proof {
                    assert(false);
                }
                Err(ArrayError::InvalidSelector)
            },
        }
    }

    /// Rewrites the view that `slices` selects element by element
    /// through the caller's kernel for the active representation: each
    /// selected element becomes `kernel(old element)`.  On failure
    /// nothing is mutated.
    pub fn map_view<F32K: Fn(u32) -> u32, F64K: Fn(u64) -> u64>(
        &mut self,
        slices: &Vec<Vec<SliceDescriptor>>,
        k32: &F32K,
        k64: &F64K,
    ) -> (r: Result<(), ArrayError>)
        requires
            old(self).wf(),
            forall|x: u32| call_requires(*k32, (x,)),
            forall|x: u64| call_requires(*k64, (x,)),
        ensures
            final(self).wf(),
            final(self).dtype_spec() == old(self).dtype_spec(),
            final(self).shape_spec() == old(self).shape_spec(),
            r is Err ==> *final(self) == *old(self),
            match compose_spec(old(self).shape_spec(), groups_view(slices@)) {
                Err(e) => r == Err::<(), ArrayError>(e),
                Ok(slots) => {
                    &&& r is Ok
                    &&& *old(self) is Float32 ==> forall|c: Seq<usize>|
                        in_bounds(view_shape(slots), c) ==> call_ensures(
                            *k32,
                            (
                                old(self)->Float32_0.data_spec()[#[trigger] flat_of(
                                    slots,
                                    old(self).shape_spec(),
                                    c,
                                ) as int],
                            ),
                            final(self)->Float32_0.data_spec()[flat_of(
                                slots,
                                old(self).shape_spec(),
                                c,
                            ) as int],
                        )
                    &&& *old(self) is Float64 ==> forall|c: Seq<usize>|
                        in_bounds(view_shape(slots), c) ==> call_ensures(
                            *k64,
                            (
                                old(self)->Float64_0.data_spec()[#[trigger] flat_of(
                                    slots,
                                    old(self).shape_spec(),
                                    c,
                                ) as int],
                            ),
                            final(self)->Float64_0.data_spec()[flat_of(
                                slots,
                                old(self).shape_spec(),
                                c,
                            ) as int],
                        )
                    &&& forall|i: int|
                        0 <= i < final(self).elems_spec().len() && !covered_by(
                            slots,
                            old(self).shape_spec(),
                            i,
                        ) ==> final(self).elems_spec()[i] == old(self).elems_spec()[i]
                },
            },
    {
        let ghost base = old(self).shape_spec();
        let plan = match compose(self.shape(), slices) {
            Ok(p) => p,
            Err(e) => {
                return Err(e);
            },
        };
        let ghost slots = plan.slots@;
        let ghost vs = view_shape(slots);
        match &mut *self {
            GenericArray::Float32(b) => {
                let ghost olddata = b.data_spec();
                let dest_m = b.materialize(&plan);
                let mapped = map_with(dest_m.flat(), k32);
                b.write_view(&plan, &mapped);
                proof {
                    assert forall|c: Seq<usize>| in_bounds(vs, c) implies call_ensures(
                        *k32,
                        (olddata[#[trigger] flat_of(slots, base, c) as int],),
                        b.data_spec()[flat_of(slots, base, c) as int],
                    ) by {
                        lemma_rm_flat_bound(vs, c);
                        lemma_coords_of_rm_flat(vs, c);
                        let j = rm_flat(vs, c) as int;
                        assert(coords_of(vs, j) == c);
                        assert(dest_m.data_spec()[j] == olddata[flat_of(slots, base, c) as int]);
                        assert(b.data_spec()[flat_of(slots, base, c) as int] == mapped@[j]);
                        assert(call_ensures(*k32, (dest_m.data_spec()[j],), mapped@[j]));
                    }
                }
                Ok(())
            },
            GenericArray::Float64(b) => {
                let ghost olddata = b.data_spec();
                let dest_m = b.materialize(&plan);
                let mapped = map_with(dest_m.flat(), k64);
                b.write_view(&plan, &mapped);
                proof {
                    assert forall|c: Seq<usize>| in_bounds(vs, c) implies call_ensures(
                        *k64,
                        (olddata[#[trigger] flat_of(slots, base, c) as int],),
                        b.data_spec()[flat_of(slots, base, c) as int],
                    ) by {
                        lemma_rm_flat_bound(vs, c);
                        lemma_coords_of_rm_flat(vs, c);
                        let j = rm_flat(vs, c) as int;
                        assert(coords_of(vs, j) == c);
                        assert(dest_m.data_spec()[j] == olddata[flat_of(slots, base, c) as int]);
                        assert(b.data_spec()[flat_of(slots, base, c) as int] == mapped@[j]);
                        assert(call_ensures(*k64, (dest_m.data_spec()[j],), mapped@[j]));
                    }
                }
                Ok(())
            },
        }
    }
}

} // verus!
