//! The typed buffer: the only entity that owns raw elements.
//!
//! A buffer is a flat, contiguous, row-major store plus a shape.  It is
//! created once per independent array and never resized afterwards; only
//! its elements are mutated in place.  The element type is a plain
//! `Copy` word — the engine moves elements without interpreting them.

use vstd::prelude::*;
use vstd::pervasive::VecAdditionalExecFns;
use crate::error::ArrayError;
use crate::shape::{
    product, in_bounds, rm_flat, coords_of, checked_product, suffix_products, unflatten_index,
    lemma_coords_of, lemma_coords_of_rm_flat, lemma_rm_flat_bound, lemma_product_pos_extents,
};
use crate::view::{
    Slot, ViewPlan, slots_wf, view_shape, flat_of, plan_shape, flat_index_of, lemma_flat_of_bound,
    lemma_flat_of_inj, lemma_view_product_le, lemma_base_extents_pos,
};

verus! {

/// A contiguous N-dimensional array of one element representation.
#[derive(Debug, Clone)]
pub struct TypedBuffer<T> {
    data: Vec<T>,
    shape: Vec<usize>,
}

/// Whether flat offset `i` of the base buffer is selected by some
/// in-bounds coordinate of the view.
pub open spec fn covered_by(slots: Seq<Slot>, base: Seq<usize>, i: int) -> bool {
    exists|c: Seq<usize>| in_bounds(view_shape(slots), c) && flat_of(slots, base, c) == i
}

impl<T: Copy> TypedBuffer<T> {
    /// The buffer's elements, flat and row-major.
    pub closed spec fn data_spec(&self) -> Seq<T> {
        self.data@
    }

    /// The buffer's shape.
    pub closed spec fn shape_spec(&self) -> Seq<usize> {
        self.shape@
    }

    /// The structural invariant: the flat store holds exactly one
    /// element per coordinate of the shape.
    pub open spec fn wf(&self) -> bool {
        self.data_spec().len() == product(self.shape_spec())
    }

    /// Builds a buffer from a flat store and a shape; fails with
    /// `ShapeMismatch` exactly when the store's length is not the
    /// product of the extents.
    pub fn from_flat(data: Vec<T>, shape: Vec<usize>) -> (r: Result<TypedBuffer<T>, ArrayError>)
        ensures
            data@.len() == product(shape@) ==> r is Ok,
            r is Ok ==> r->Ok_0.wf() && r->Ok_0.data_spec() == data@ && r->Ok_0.shape_spec()
                == shape@,
            data@.len() != product(shape@) ==> (r matches Err(
                ArrayError::ShapeMismatch { expected: ex, actual: ac },
            ) && ex@ == shape@ && ac@ == seq![data@.len() as usize]),
    {
        let n = data.len();
        match checked_product(&shape) {
            Some(p) if p == n => Ok(TypedBuffer { data, shape }),
            _ => Err(ArrayError::ShapeMismatch { expected: shape, actual: vec![n] }),
        }
    }

    /// Builds a buffer of the given shape with every element `value`.
    pub fn filled(shape: Vec<usize>, value: T) -> (r: TypedBuffer<T>)
        requires
            product(shape@) <= usize::MAX,
        ensures
            r.wf(),
            r.shape_spec() == shape@,
            forall|i: int| 0 <= i < r.data_spec().len() ==> r.data_spec()[i] == value,
    {
        let p = match checked_product(&shape) {
            Some(p) => p,
            None => {
                proof {
                    assert(false);
                }
                0
            },
        };
        let mut data: Vec<T> = Vec::new();
        let mut i: usize = 0;
        while i < p
            invariant
                i <= p,
                data@.len() == i,
                forall|j: int| 0 <= j < i ==> data@[j] == value,
            decreases p - i,
        {
            data.push(value);
            i = i + 1;
        }
        TypedBuffer { data, shape }
    }

    /// The number of dimensions.
    pub fn ndim(&self) -> (r: usize)
        ensures
            r == self.shape_spec().len(),
    {
        self.shape.len()
    }

    /// The shape, one extent per axis.
    pub fn shape(&self) -> (r: &Vec<usize>)
        ensures
            r@ == self.shape_spec(),
    {
        &self.shape
    }

    /// The single element of a zero-dimensional buffer.
    pub fn item(&self) -> (r: T)
        requires
            self.wf(),
            self.shape_spec().len() == 0,
        ensures
            r == self.data_spec()[0],
    {
        proof {
            assert(product(self.shape_spec()) == 1);
        }
        self.data[0]
    }

    /// The flat elements, for reading out a materialized view.
    pub fn flat(&self) -> (r: &Vec<T>)
        ensures
            r@ == self.data_spec(),
    {
        &self.data
    }

    /// Copies the view that `plan` describes out of this buffer into a
    /// fresh, contiguous one: element `k` (row-major in the view's
    /// shape) is the base element the view's `k`-th coordinate selects.
    pub fn materialize(&self, plan: &ViewPlan) -> (r: TypedBuffer<T>)
        requires
            self.wf(),
            slots_wf(plan.slots@, self.shape_spec()),
        ensures
            r.wf(),
            r.shape_spec() == view_shape(plan.slots@),
            r.data_spec().len() == product(view_shape(plan.slots@)),
            forall|k: int|
                0 <= k < r.data_spec().len() ==> r.data_spec()[k] == self.data_spec()[flat_of(
                    plan.slots@,
                    self.shape_spec(),
                    coords_of(view_shape(plan.slots@), k),
                ) as int],
    {
        let ghost slots = plan.slots@;
        let ghost base = self.shape_spec();
        let dl = self.data.len();
        let vshape = plan_shape(plan);
        proof {
            assert(product(base) <= usize::MAX);
            lemma_view_product_le(slots, base);
        }
        let vp = match checked_product(&vshape) {
            Some(p) => p,
            None => {
                proof {
                    assert(false);
                }
                0
            },
        };
        if vp == 0 {
            let out: Vec<T> = Vec::new();
            return TypedBuffer { data: out, shape: vshape };
        }
        proof {
            lemma_base_extents_pos(slots, base);
            lemma_product_pos_extents(vshape@);
        }
        let bsp = suffix_products(&self.shape);
        let vsp = suffix_products(&vshape);
        let mut out: Vec<T> = Vec::new();
        let mut k: usize = 0;
        while k < vp
            invariant
                self.wf(),
                slots_wf(slots, base),
                slots == plan.slots@,
                base == self.shape_spec(),
                vshape@ == view_shape(slots),
                vp == product(vshape@),
                product(base) <= usize::MAX,
                bsp@.len() == base.len() + 1,
                forall|i: int| 0 <= i <= base.len() ==> bsp@[i] == product(base.skip(i)),
                vsp@.len() == vshape@.len() + 1,
                forall|i: int| 0 <= i <= vshape@.len() ==> vsp@[i] == product(vshape@.skip(i)),
                k <= vp,
                out@.len() == k,
                forall|j: int|
                    0 <= j < k ==> out@[j] == self.data_spec()[flat_of(
                        slots,
                        base,
                        coords_of(vshape@, j),
                    ) as int],
            decreases vp - k,
        {
            let coords = unflatten_index(&vshape, &vsp, k);
            let f = flat_index_of(plan, &bsp, &coords, Ghost(base));
            out.push(self.data[f]);
            k = k + 1;
        }
        TypedBuffer { data: out, shape: vshape }
    }

    /// Fills every element the view selects with `value`; every other
    /// element keeps its old value.
    pub fn fill(&mut self, plan: &ViewPlan, value: T)
        requires
            old(self).wf(),
            slots_wf(plan.slots@, old(self).shape_spec()),
        ensures
            final(self).wf(),
            final(self).shape_spec() == old(self).shape_spec(),
            final(self).data_spec().len() == old(self).data_spec().len(),
            forall|c: Seq<usize>|
                in_bounds(view_shape(plan.slots@), c) ==> final(self).data_spec()[#[trigger] flat_of(
                    plan.slots@,
                    old(self).shape_spec(),
                    c,
                ) as int] == value,
            forall|i: int|
                0 <= i < final(self).data_spec().len() && !covered_by(
                    plan.slots@,
                    old(self).shape_spec(),
                    i,
                ) ==> final(self).data_spec()[i] == old(self).data_spec()[i],
    {
        let ghost slots = plan.slots@;
        let ghost base = old(self).shape_spec();
        let ghost vs = view_shape(slots);
        let ghost olddata = old(self).data_spec();
        let dl = self.data.len();
        let vshape = plan_shape(plan);
        proof {
            assert(product(base) <= usize::MAX);
            lemma_view_product_le(slots, base);
        }
        let vp = match checked_product(&vshape) {
            Some(p) => p,
            None => {
                proof {
                    assert(false);
                }
                0
            },
        };
        if vp == 0 {
            proof {
                assert forall|c: Seq<usize>| in_bounds(vs, c) implies false by {
                    lemma_rm_flat_bound(vs, c);
                }
            }
            return ;
        }
        proof {
            lemma_base_extents_pos(slots, base);
            lemma_product_pos_extents(vshape@);
        }
        let bsp = suffix_products(&self.shape);
        let vsp = suffix_products(&vshape);
        let mut k: usize = 0;
        while k < vp
            invariant
                slots_wf(slots, base),
                slots == plan.slots@,
                base == self.shape_spec(),
                self.data_spec().len() == olddata.len(),
                self.wf(),
                vshape@ == vs,
                vs == view_shape(slots),
                vp == product(vshape@),
                product(base) <= usize::MAX,
                bsp@.len() == base.len() + 1,
                forall|i: int| 0 <= i <= base.len() ==> bsp@[i] == product(base.skip(i)),
                vsp@.len() == vshape@.len() + 1,
                forall|i: int| 0 <= i <= vshape@.len() ==> vsp@[i] == product(vshape@.skip(i)),
                k <= vp,
                forall|j: int|
                    0 <= j < k ==> self.data_spec()[#[trigger] flat_of(
                        slots,
                        base,
                        coords_of(vs, j),
                    ) as int] == value,
                forall|i: int|
                    0 <= i < self.data_spec().len() && (forall|j: int|
                        0 <= j < k ==> flat_of(slots, base, #[trigger] coords_of(vs, j))
                            != i) ==> self.data_spec()[i] == olddata[i],
            decreases vp - k,
        {
            let coords = unflatten_index(&vshape, &vsp, k);
            let f = flat_index_of(plan, &bsp, &coords, Ghost(base));
            let ghost prev = self.data_spec();
            self.data.set(f, value);
            proof {
                assert(coords@ == coords_of(vs, k as int));
                assert(f == flat_of(slots, base, coords_of(vs, k as int)));
                assert(self.data_spec() == prev.update(f as int, value));
                assert(f < prev.len());
                assert(prev.update(f as int, value)[f as int] == value);
                assert forall|j: int|
                    0 <= j < k + 1 implies self.data_spec()[#[trigger] flat_of(
                        slots,
                        base,
                        coords_of(vs, j),
                    ) as int] == value by {
                    if j < k {
                        assert(prev[flat_of(slots, base, coords_of(vs, j)) as int] == value);
                        lemma_coords_of(vs, j);
                        lemma_coords_of(vs, k as int);
                        lemma_flat_of_bound(slots, base, coords_of(vs, j));
                        if coords_of(vs, j) != coords_of(vs, k as int) {
                            lemma_flat_of_inj(
                                slots,
                                base,
                                coords_of(vs, j),
                                coords_of(vs, k as int),
                            );
                        }
                        assert(self.data_spec()[flat_of(slots, base, coords_of(vs, j)) as int]
                            == value);
                    } else {
                        assert(j == k);
                        assert(coords_of(vs, j) == coords_of(vs, k as int));
                        assert(flat_of(slots, base, coords_of(vs, j)) == f);
                        assert(self.data_spec()[f as int] == value);
                    }
                }
                assert forall|i: int|
                    0 <= i < self.data_spec().len() && (forall|j: int|
                        0 <= j < k + 1 ==> flat_of(slots, base, #[trigger] coords_of(vs, j))
                            != i) implies self.data_spec()[i] == olddata[i] by {
                    assert(flat_of(slots, base, coords_of(vs, k as int)) != i);
                    assert(i != f);
                }
            }
            k = k + 1;
        }
        proof {
            assert forall|c: Seq<usize>| in_bounds(vs, c) implies self.data_spec()[flat_of(
                slots,
                base,
                c,
            ) as int] == value by {
                lemma_rm_flat_bound(vs, c);
                lemma_coords_of_rm_flat(vs, c);
                let j = rm_flat(vs, c) as int;
                assert(coords_of(vs, j) == c);
                assert(self.data_spec()[flat_of(slots, base, coords_of(vs, j)) as int]
                    == value);
            }
            assert forall|i: int|
                0 <= i < self.data_spec().len() && !covered_by(slots, base, i) implies self
                .data_spec()[i] == olddata[i] by {
                assert forall|j: int| 0 <= j < vp implies flat_of(
                    slots,
                    base,
                    #[trigger] coords_of(vs, j),
                ) != i by {
                    lemma_coords_of(vs, j);
                    assert(in_bounds(vs, coords_of(vs, j)));
                }
            }
        }
    }

    /// Writes the flat, row-major elements of `src` into the view that
    /// `plan` describes: the view's `k`-th coordinate receives
    /// `src[k]`.  Every element outside the view keeps its old value.
    pub fn write_view(&mut self, plan: &ViewPlan, src: &Vec<T>)
        requires
            old(self).wf(),
            slots_wf(plan.slots@, old(self).shape_spec()),
            src@.len() == product(view_shape(plan.slots@)),
        ensures
            final(self).wf(),
            final(self).shape_spec() == old(self).shape_spec(),
            final(self).data_spec().len() == old(self).data_spec().len(),
            forall|c: Seq<usize>|
                in_bounds(view_shape(plan.slots@), c) ==> final(self).data_spec()[#[trigger] flat_of(
                    plan.slots@,
                    old(self).shape_spec(),
                    c,
                ) as int] == src@[rm_flat(view_shape(plan.slots@), c) as int],
            forall|i: int|
                0 <= i < final(self).data_spec().len() && !covered_by(
                    plan.slots@,
                    old(self).shape_spec(),
                    i,
                ) ==> final(self).data_spec()[i] == old(self).data_spec()[i],
    {
        let ghost slots = plan.slots@;
        let ghost base = old(self).shape_spec();
        let ghost vs = view_shape(slots);
        let ghost olddata = old(self).data_spec();
        let dl = self.data.len();
        let vshape = plan_shape(plan);
        proof {
            assert(product(base) <= usize::MAX);
            lemma_view_product_le(slots, base);
        }
        let vp = match checked_product(&vshape) {
            Some(p) => p,
            None => {
                proof {
                    assert(false);
                }
                0
            },
        };
        if vp == 0 {
            proof {
                assert forall|c: Seq<usize>| in_bounds(vs, c) implies false by {
                    lemma_rm_flat_bound(vs, c);
                }
            }
            return ;
        }
        proof {
            lemma_base_extents_pos(slots, base);
            lemma_product_pos_extents(vshape@);
        }
        let bsp = suffix_products(&self.shape);
        let vsp = suffix_products(&vshape);
        let mut k: usize = 0;
        while k < vp
            invariant
                slots_wf(slots, base),
                slots == plan.slots@,
                base == self.shape_spec(),
                self.data_spec().len() == olddata.len(),
                self.wf(),
                vshape@ == vs,
                vs == view_shape(slots),
                vp == product(vshape@),
                vp == src@.len(),
                product(base) <= usize::MAX,
                bsp@.len() == base.len() + 1,
                forall|i: int| 0 <= i <= base.len() ==> bsp@[i] == product(base.skip(i)),
                vsp@.len() == vshape@.len() + 1,
                forall|i: int| 0 <= i <= vshape@.len() ==> vsp@[i] == product(vshape@.skip(i)),
                k <= vp,
                forall|j: int|
                    0 <= j < k ==> self.data_spec()[#[trigger] flat_of(
                        slots,
                        base,
                        coords_of(vs, j),
                    ) as int] == src@[j],
                forall|i: int|
                    0 <= i < self.data_spec().len() && (forall|j: int|
                        0 <= j < k ==> flat_of(slots, base, #[trigger] coords_of(vs, j))
                            != i) ==> self.data_spec()[i] == olddata[i],
            decreases vp - k,
        {
            let coords = unflatten_index(&vshape, &vsp, k);
            let f = flat_index_of(plan, &bsp, &coords, Ghost(base));
            let v = src[k];
            let ghost prev = self.data_spec();
            self.data.set(f, v);
            proof {
                assert(coords@ == coords_of(vs, k as int));
                assert(f == flat_of(slots, base, coords_of(vs, k as int)));
                assert(self.data_spec() == prev.update(f as int, v));
                assert forall|j: int|
                    0 <= j < k + 1 implies self.data_spec()[#[trigger] flat_of(
                        slots,
                        base,
                        coords_of(vs, j),
                    ) as int] == src@[j] by {
                    if j < k {
                        lemma_coords_of(vs, j);
                        lemma_coords_of(vs, k as int);
                        lemma_flat_of_bound(slots, base, coords_of(vs, j));
                        assert(rm_flat(vs, coords_of(vs, j)) == j);
                        assert(rm_flat(vs, coords_of(vs, k as int)) == k);
                        lemma_flat_of_inj(
                            slots,
                            base,
                            coords_of(vs, j),
                            coords_of(vs, k as int),
                        );
                    } else {
                        assert(j == k);
                        assert(coords_of(vs, j) == coords_of(vs, k as int));
                    }
                }
                assert forall|i: int|
                    0 <= i < self.data_spec().len() && (forall|j: int|
                        0 <= j < k + 1 ==> flat_of(slots, base, #[trigger] coords_of(vs, j))
                            != i) implies self.data_spec()[i] == olddata[i] by {
                    assert(flat_of(slots, base, coords_of(vs, k as int)) != i);
                    assert(i != f);
                }
            }
            k = k + 1;
        }
        proof {
            assert forall|c: Seq<usize>| in_bounds(vs, c) implies self.data_spec()[flat_of(
                slots,
                base,
                c,
            ) as int] == src@[rm_flat(vs, c) as int] by {
                lemma_rm_flat_bound(vs, c);
                lemma_coords_of_rm_flat(vs, c);
                let j = rm_flat(vs, c) as int;
                assert(coords_of(vs, j) == c);
                assert(self.data_spec()[flat_of(slots, base, coords_of(vs, j)) as int]
                    == src@[j as int]);
            }
            assert forall|i: int|
                0 <= i < self.data_spec().len() && !covered_by(slots, base, i) implies self
                .data_spec()[i] == olddata[i] by {
                assert forall|j: int| 0 <= j < vp implies flat_of(
                    slots,
                    base,
                    #[trigger] coords_of(vs, j),
                ) != i by {
                    lemma_coords_of(vs, j);
                    assert(in_bounds(vs, coords_of(vs, j)));
                }
            }
        }
    }
}

/// Combines two equally long flat stores element by element with the
/// caller's kernel `f`.
pub fn zip_with<T: Copy, F: Fn(T, T) -> T>(a: &Vec<T>, b: &Vec<T>, f: &F) -> (r: Vec<T>)
    requires
        a@.len() == b@.len(),
        forall|x: T, y: T| call_requires(*f, (x, y)),
    ensures
        r@.len() == a@.len(),
        forall|i: int| 0 <= i < r@.len() ==> call_ensures(*f, (a@[i], b@[i]), #[trigger] r@[i]),
{
    let mut r: Vec<T> = Vec::new();
    let mut i: usize = 0;
    let n = a.len();
    while i < n
        invariant
            n == a@.len(),
            a@.len() == b@.len(),
            i <= n,
            r@.len() == i,
            forall|x: T, y: T| call_requires(*f, (x, y)),
            forall|j: int| 0 <= j < i ==> call_ensures(*f, (a@[j], b@[j]), #[trigger] r@[j]),
        decreases n - i,
    {
        let v = f(a[i], b[i]);
        r.push(v);
        i = i + 1;
    }
    r
}

/// Maps a flat store element by element with the caller's kernel `f`.
pub fn map_with<T: Copy, F: Fn(T) -> T>(a: &Vec<T>, f: &F) -> (r: Vec<T>)
    requires
        forall|x: T| call_requires(*f, (x,)),
    ensures
        r@.len() == a@.len(),
        forall|i: int| 0 <= i < r@.len() ==> call_ensures(*f, (a@[i],), #[trigger] r@[i]),
{
    let mut r: Vec<T> = Vec::new();
    let mut i: usize = 0;
    let n = a.len();
    while i < n
        invariant
            n == a@.len(),
            i <= n,
            r@.len() == i,
            forall|x: T| call_requires(*f, (x,)),
            forall|j: int| 0 <= j < i ==> call_ensures(*f, (a@[j],), #[trigger] r@[j]),
        decreases n - i,
    {
        let v = f(a[i]);
        r.push(v);
        i = i + 1;
    }
    r
}

} // verus!
