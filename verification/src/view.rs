//! The View Composer: folds an ordered chain of slice-descriptor groups
//! onto a buffer's shape, producing the effective sub-view.
//!
//! A composed view is kept as a sequence of slots, one per axis of the
//! *base* buffer plus one per inserted axis, in order:
//!
//! * `Free` — a still-visible base axis, narrowed to the arithmetic
//!   progression `start, start + step, ...` of `len` positions;
//! * `Fixed` — a base axis collapsed by an `Index` selector to one
//!   position;
//! * `Unit` — an inserted extent-1 axis with no base axis behind it.
//!
//! The slots restricted to `Free` and `Fixed` correspond one-to-one, in
//! order, to the base axes.  The view's own axes are the `Free` and
//! `Unit` slots in order.  Composing a further group stays inside this
//! family because arithmetic progressions compose.

use vstd::prelude::*;
use vstd::arithmetic::div_mod::{
    lemma_fundamental_div_mod, lemma_mod_division_less_than_divisor, lemma_div_nonincreasing,
};
use crate::shape::{product, in_bounds, rm_flat, lemma_rm_flat_bound, lemma_rm_flat_inj};
use crate::descriptor::{SliceDescriptor, consumed_axes, full_group_spec};
use crate::error::ArrayError;

verus! {

/// One axis of a composed view.
#[derive(Debug, Clone, Copy, PartialEq, Eq)]
pub enum Slot {
    /// A visible base axis: positions `start + k * step` for `k < len`.
    /// Normalized so that `len == 0` implies `start == 0`, and `len <= 1`
    /// implies `step == 1`.
    Free { start: usize, step: usize, len: usize },
    /// A base axis collapsed to the single position `pos`.
    Fixed { pos: usize },
    /// An inserted axis of extent `len <= 1`, with no base axis.
    Unit { len: usize },
}

/// A composed view of a buffer: the slots, in base-axis order.
#[derive(Debug, Clone, PartialEq, Eq)]
pub struct ViewPlan {
    pub slots: Vec<Slot>,
}

/// How many view axes a slot sequence exposes.
pub open spec fn n_view(slots: Seq<Slot>) -> nat
    decreases slots.len(),
{
    if slots.len() == 0 {
        0
    } else {
        (if slots[0] is Fixed {
            0nat
        } else {
            1nat
        }) + n_view(slots.skip(1))
    }
}

/// The shape of the view the slots describe: the extents of the `Free`
/// and `Unit` slots, in order.
pub open spec fn view_shape(slots: Seq<Slot>) -> Seq<usize>
    decreases slots.len(),
{
    if slots.len() == 0 {
        Seq::empty()
    } else {
        match slots[0] {
            Slot::Fixed { .. } => view_shape(slots.skip(1)),
            Slot::Free { len, .. } => seq![len] + view_shape(slots.skip(1)),
            Slot::Unit { len } => seq![len] + view_shape(slots.skip(1)),
        }
    }
}

/// Well-formedness of a slot sequence against the base shape it views:
/// the non-`Unit` slots pair off with the base axes in order, and every
/// selected position lies inside its axis's extent.
pub open spec fn slots_wf(slots: Seq<Slot>, base: Seq<usize>) -> bool
    decreases slots.len(),
{
    if slots.len() == 0 {
        base.len() == 0
    } else {
        match slots[0] {
            Slot::Fixed { pos } => base.len() > 0 && pos < base[0] && slots_wf(
                slots.skip(1),
                base.skip(1),
            ),
            Slot::Free { start, step, len } => base.len() > 0 && step >= 1 && (len == 0
                ==> start == 0) && (len <= 1 ==> step == 1) && (len >= 1 ==> start + (len - 1)
                * step < base[0]) && slots_wf(slots.skip(1), base.skip(1)),
            Slot::Unit { len } => len <= 1 && slots_wf(slots.skip(1), base),
        }
    }
}

/// The base coordinate a view coordinate `c` selects, axis by axis.
pub open spec fn base_coords(slots: Seq<Slot>, c: Seq<usize>) -> Seq<usize>
    decreases slots.len(),
{
    if slots.len() == 0 {
        Seq::empty()
    } else {
        match slots[0] {
            Slot::Fixed { pos } => seq![pos] + base_coords(slots.skip(1), c),
            Slot::Free { start, step, len } => seq![(start + c[0] * step) as usize] + base_coords(
                slots.skip(1),
                c.skip(1),
            ),
            Slot::Unit { .. } => base_coords(slots.skip(1), c.skip(1)),
        }
    }
}

/// The flat offset inside the base buffer that view coordinate `c`
/// denotes.
pub open spec fn flat_of(slots: Seq<Slot>, base: Seq<usize>, c: Seq<usize>) -> nat {
    rm_flat(base, base_coords(slots, c))
}

/// The full-extent view of a base shape: every axis free, untouched.
pub open spec fn initial_slots(base: Seq<usize>) -> Seq<Slot> {
    Seq::new(base.len(), |i: int| Slot::Free { start: 0usize, step: 1usize, len: base[i] })
}

/// The full-extent view is well-formed and shows the base shape itself.
pub proof fn lemma_initial_slots(base: Seq<usize>)
    ensures
        slots_wf(initial_slots(base), base),
        view_shape(initial_slots(base)) == base,
        n_view(initial_slots(base)) == base.len(),
    decreases base.len(),
{
    let slots = initial_slots(base);
    if base.len() > 0 {
        lemma_initial_slots(base.skip(1));
        assert(slots.skip(1) =~= initial_slots(base.skip(1)));
        assert(view_shape(slots) =~= seq![base[0]] + view_shape(slots.skip(1)));
        assert(seq![base[0]] + base.skip(1) =~= base);
    } else {
        assert(view_shape(slots) =~= Seq::<usize>::empty());
    }
}

/// A well-formed view of an in-bounds view coordinate selects an
/// in-bounds base coordinate.
pub proof fn lemma_base_coords_in_bounds(slots: Seq<Slot>, base: Seq<usize>, c: Seq<usize>)
    requires
        slots_wf(slots, base),
        in_bounds(view_shape(slots), c),
    ensures
        in_bounds(base, base_coords(slots, c)),
    decreases slots.len(),
{
    if slots.len() == 0 {
        assert(base_coords(slots, c) =~= Seq::<usize>::empty());
    } else {
        match slots[0] {
            Slot::Fixed { pos } => {
                lemma_base_coords_in_bounds(slots.skip(1), base.skip(1), c);
                let bc = base_coords(slots, c);
                let rest = base_coords(slots.skip(1), c);
                assert(bc =~= seq![pos] + rest);
                assert forall|i: int| 0 <= i < bc.len() implies bc[i] < base[i] by {
                    if i > 0 {
                        assert(bc[i] == rest[i - 1]);
                        assert(base[i] == base.skip(1)[i - 1]);
                    }
                }
            },
            Slot::Free { start, step, len } => {
                assert(view_shape(slots)[0] == len);
                assert(in_bounds(view_shape(slots.skip(1)), c.skip(1))) by {
                    let vs = view_shape(slots);
                    let vs1 = view_shape(slots.skip(1));
                    assert(vs =~= seq![len] + vs1);
                    assert forall|i: int| 0 <= i < c.skip(1).len() implies c.skip(1)[i]
                        < vs1[i] by {
                        assert(c.skip(1)[i] == c[i + 1]);
                        assert(vs1[i] == vs[i + 1]);
                    }
                }
                lemma_base_coords_in_bounds(slots.skip(1), base.skip(1), c.skip(1));
                let hd = (start + c[0] * step) as usize;
                assert(c[0] < len);
                assert(start + c[0] * step < base[0]) by (nonlinear_arith)
                    requires
                        c[0] < len,
                        step >= 1,
                        len >= 1 ==> start + (len - 1) * step < base[0],
                ;
                let bc = base_coords(slots, c);
                let rest = base_coords(slots.skip(1), c.skip(1));
                assert(bc =~= seq![hd] + rest);
                assert forall|i: int| 0 <= i < bc.len() implies bc[i] < base[i] by {
                    if i > 0 {
                        assert(bc[i] == rest[i - 1]);
                        assert(base[i] == base.skip(1)[i - 1]);
                    }
                }
            },
            Slot::Unit { len } => {
                assert(in_bounds(view_shape(slots.skip(1)), c.skip(1))) by {
                    let vs = view_shape(slots);
                    let vs1 = view_shape(slots.skip(1));
                    assert(vs =~= seq![len] + vs1);
                    assert forall|i: int| 0 <= i < c.skip(1).len() implies c.skip(1)[i]
                        < vs1[i] by {
                        assert(c.skip(1)[i] == c[i + 1]);
                        assert(vs1[i] == vs[i + 1]);
                    }
                }
                lemma_base_coords_in_bounds(slots.skip(1), base, c.skip(1));
            },
        }
    }
}

/// Distinct in-bounds view coordinates of a well-formed view select
/// distinct base coordinates.
pub proof fn lemma_base_coords_inj(slots: Seq<Slot>, base: Seq<usize>, a: Seq<usize>, b: Seq<usize>)
    requires
        slots_wf(slots, base),
        in_bounds(view_shape(slots), a),
        in_bounds(view_shape(slots), b),
        a != b,
    ensures
        base_coords(slots, a) != base_coords(slots, b),
    decreases slots.len(),
{
    let vs = view_shape(slots);
    if slots.len() == 0 {
        assert(a =~= b);
    } else {
        match slots[0] {
            Slot::Fixed { pos } => {
                lemma_base_coords_inj(slots.skip(1), base.skip(1), a, b);
                let ra = base_coords(slots.skip(1), a);
                let rb = base_coords(slots.skip(1), b);
                assert(base_coords(slots, a) =~= seq![pos] + ra);
                assert(base_coords(slots, b) =~= seq![pos] + rb);
                if seq![pos] + ra == seq![pos] + rb {
                    assert forall|i: int| 0 <= i < ra.len() implies ra[i] == rb[i] by {
                        assert((seq![pos] + ra)[i + 1] == ra[i]);
                        assert((seq![pos] + rb)[i + 1] == rb[i]);
                    }
                    assert(ra =~= rb);
                }
            },
            Slot::Free { start, step, len } => {
                let vs1 = view_shape(slots.skip(1));
                assert(vs =~= seq![len] + vs1);
                assert(in_bounds(vs1, a.skip(1)) && in_bounds(vs1, b.skip(1))) by {
                    assert forall|i: int| 0 <= i < a.skip(1).len() implies a.skip(1)[i] < vs1[i]
                        && b.skip(1)[i] < vs1[i] by {
                        assert(a.skip(1)[i] == a[i + 1]);
                        assert(b.skip(1)[i] == b[i + 1]);
                        assert(vs1[i] == vs[i + 1]);
                    }
                }
                let ha = (start + a[0] * step) as usize;
                let hb = (start + b[0] * step) as usize;
                assert(a[0] < len && b[0] < len);
                assert(start + a[0] * step < base[0] && start + b[0] * step < base[0])
                    by (nonlinear_arith)
                    requires
                        a[0] < len,
                        b[0] < len,
                        step >= 1,
                        len >= 1 ==> start + (len - 1) * step < base[0],
                ;
                let ra = base_coords(slots.skip(1), a.skip(1));
                let rb = base_coords(slots.skip(1), b.skip(1));
                assert(base_coords(slots, a) =~= seq![ha] + ra);
                assert(base_coords(slots, b) =~= seq![hb] + rb);
                if a[0] == b[0] {
                    assert(a.skip(1) != b.skip(1)) by {
                        if a.skip(1) == b.skip(1) {
                            assert forall|i: int| 0 <= i < a.len() implies a[i] == b[i] by {
                                if i > 0 {
                                    assert(a[i] == a.skip(1)[i - 1]);
                                    assert(b[i] == b.skip(1)[i - 1]);
                                }
                            }
                            assert(a =~= b);
                        }
                    }
                    lemma_base_coords_inj(slots.skip(1), base.skip(1), a.skip(1), b.skip(1));
                    assert(ra != rb);
                    if seq![ha] + ra == seq![hb] + rb {
                        assert forall|i: int| 0 <= i < ra.len() implies ra[i] == rb[i] by {
                            assert((seq![ha] + ra)[i + 1] == ra[i]);
                            assert((seq![hb] + rb)[i + 1] == rb[i]);
                        }
                        assert(ra =~= rb);
                    }
                } else {
                    assert(start + a[0] * step != start + b[0] * step) by (nonlinear_arith)
                        requires
                            a[0] != b[0],
                            step >= 1,
                    ;
                    assert(ha != hb);
                    assert((seq![ha] + ra)[0] == ha);
                    assert((seq![hb] + rb)[0] == hb);
                }
            },
            Slot::Unit { len } => {
                let vs1 = view_shape(slots.skip(1));
                assert(vs =~= seq![len] + vs1);
                assert(in_bounds(vs1, a.skip(1)) && in_bounds(vs1, b.skip(1))) by {
                    assert forall|i: int| 0 <= i < a.skip(1).len() implies a.skip(1)[i] < vs1[i]
                        && b.skip(1)[i] < vs1[i] by {
                        assert(a.skip(1)[i] == a[i + 1]);
                        assert(b.skip(1)[i] == b[i + 1]);
                        assert(vs1[i] == vs[i + 1]);
                    }
                }
                assert(a[0] < len && b[0] < len && len <= 1);
                assert(a[0] == 0 && b[0] == 0);
                assert(a.skip(1) != b.skip(1)) by {
                    if a.skip(1) == b.skip(1) {
                        assert forall|i: int| 0 <= i < a.len() implies a[i] == b[i] by {
                            if i > 0 {
                                assert(a[i] == a.skip(1)[i - 1]);
                                assert(b[i] == b.skip(1)[i - 1]);
                            }
                        }
                        assert(a =~= b);
                    }
                }
                lemma_base_coords_inj(slots.skip(1), base, a.skip(1), b.skip(1));
            },
        }
    }
}

/// The extent that a `Range` or `Index` selector, applied one step into
/// the walk, is narrowing: the number of positions the new slot keeps.
/// `eff` is the effective end of the range and `step >= 1` its stride.
pub open spec fn range_len(start: int, step: int, eff: int) -> int {
    if eff > start {
        1 + (eff - start - 1) / step
    } else {
        0
    }
}

/// One step of the View Composer's fold: applies the descriptors of
/// `group` to the slots, in order.  `axis` numbers the descriptors for
/// error reporting.  Collapsed (`Fixed`) slots are invisible to the
/// group and are carried over; each `Index` or `Range` descriptor
/// consumes the next visible slot; `NewAxis` inserts a `Unit` slot.
pub open spec fn walk(slots: Seq<Slot>, group: Seq<SliceDescriptor>, axis: int) -> Result<
    Seq<Slot>,
    ArrayError,
>
    decreases slots.len() + group.len(),
{
    if slots.len() > 0 && slots[0] is Fixed {
        match walk(slots.skip(1), group, axis) {
            Ok(rest) => Ok(seq![slots[0]] + rest),
            Err(e) => Err(e),
        }
    } else if group.len() == 0 {
        Ok(slots)
    } else {
        match group[0] {
            SliceDescriptor::NewAxis => match walk(slots, group.skip(1), axis + 1) {
                Ok(rest) => Ok(seq![Slot::Unit { len: 1usize }] + rest),
                Err(e) => Err(e),
            },
            SliceDescriptor::Index(i) => {
                if slots.len() == 0 {
                    Err(
                        ArrayError::DimensionMismatch {
                            expected: 0usize,
                            actual: consumed_axes(group) as usize,
                        },
                    )
                } else {
                    match slots[0] {
                        Slot::Free { start, step, len } => {
                            if i < len {
                                match walk(slots.skip(1), group.skip(1), axis + 1) {
                                    Ok(rest) => Ok(
                                        seq![Slot::Fixed { pos: (start + i * step) as usize }]
                                            + rest,
                                    ),
                                    Err(e) => Err(e),
                                }
                            } else {
                                Err(
                                    ArrayError::IndexOutOfBounds {
                                        axis: axis as usize,
                                        bound: i,
                                        extent: len,
                                    },
                                )
                            }
                        },
                        Slot::Unit { len } => {
                            if i < len {
                                walk(slots.skip(1), group.skip(1), axis + 1)
                            } else {
                                Err(
                                    ArrayError::IndexOutOfBounds {
                                        axis: axis as usize,
                                        bound: i,
                                        extent: len,
                                    },
                                )
                            }
                        },
                        Slot::Fixed { .. } => Err(ArrayError::InvalidSelector),  // unreachable: handled above
                    }
                }
            },
            SliceDescriptor::Range { start, step, end } => {
                if slots.len() == 0 {
                    Err(
                        ArrayError::DimensionMismatch {
                            expected: 0usize,
                            actual: consumed_axes(group) as usize,
                        },
                    )
                } else if step == 0 {
                    Err(ArrayError::InvalidSelector)
                } else {
                    let len = match slots[0] {
                        Slot::Free { len, .. } => len,
                        Slot::Unit { len } => len,
                        Slot::Fixed { .. } => 0usize,
                    };
                    if start > len {
                        Err(
                            ArrayError::IndexOutOfBounds {
                                axis: axis as usize,
                                bound: start,
                                extent: len,
                            },
                        )
                    } else if end is Some && end->0 > len {
                        Err(
                            ArrayError::IndexOutOfBounds {
                                axis: axis as usize,
                                bound: end->0,
                                extent: len,
                            },
                        )
                    } else {
                        let eff = if end is Some {
                            end->0 as int
                        } else {
                            len as int
                        };
                        let nl = range_len(start as int, step as int, eff);
                        match walk(slots.skip(1), group.skip(1), axis + 1) {
                            Ok(rest) => match slots[0] {
                                Slot::Free { start: s0, step: st0, len: _ } => {
                                    let new_slot = if nl == 0 {
                                        Slot::Free { start: 0usize, step: 1usize, len: 0usize }
                                    } else if nl == 1 {
                                        Slot::Free {
                                            start: (s0 + start * st0) as usize,
                                            step: 1usize,
                                            len: 1usize,
                                        }
                                    } else {
                                        Slot::Free {
                                            start: (s0 + start * st0) as usize,
                                            step: (st0 * step) as usize,
                                            len: nl as usize,
                                        }
                                    };
                                    Ok(seq![new_slot] + rest)
                                },
                                _ => Ok(seq![Slot::Unit { len: nl as usize }] + rest),
                            },
                            Err(e) => Err(e),
                        }
                    }
                }
            },
        }
    }
}

/// Applying an empty group changes nothing.
pub proof fn lemma_walk_empty(slots: Seq<Slot>, axis: int)
    ensures
        walk(slots, Seq::empty(), axis) == Ok::<Seq<Slot>, ArrayError>(slots),
    decreases slots.len(),
{
    let g = Seq::<SliceDescriptor>::empty();
    if slots.len() > 0 && slots[0] is Fixed {
        lemma_walk_empty(slots.skip(1), axis);
        assert(seq![slots[0]] + slots.skip(1) =~= slots);
    }
}

/// A successful walk yields a well-formed view of the same base.
pub proof fn lemma_walk_wf(slots: Seq<Slot>, base: Seq<usize>, group: Seq<SliceDescriptor>, axis: int)
    requires
        slots_wf(slots, base),
    ensures
        walk(slots, group, axis) is Ok ==> slots_wf(walk(slots, group, axis)->Ok_0, base),
    decreases slots.len() + group.len(),
{
    if slots.len() > 0 && slots[0] is Fixed {
        lemma_walk_wf(slots.skip(1), base.skip(1), group, axis);
        if walk(slots.skip(1), group, axis) is Ok {
            let rest = walk(slots.skip(1), group, axis)->Ok_0;
            let out = seq![slots[0]] + rest;
            assert(out.skip(1) =~= rest);
        }
    } else if group.len() == 0 {
    } else {
        match group[0] {
            SliceDescriptor::NewAxis => {
                lemma_walk_wf(slots, base, group.skip(1), axis + 1);
                if walk(slots, group.skip(1), axis + 1) is Ok {
                    let rest = walk(slots, group.skip(1), axis + 1)->Ok_0;
                    let out = seq![Slot::Unit { len: 1usize }] + rest;
                    assert(out.skip(1) =~= rest);
                }
            },
            SliceDescriptor::Index(i) => {
                if slots.len() > 0 {
                    match slots[0] {
                        Slot::Free { start, step, len } => {
                            if i < len {
                                lemma_walk_wf(slots.skip(1), base.skip(1), group.skip(1), axis + 1);
                                if walk(slots.skip(1), group.skip(1), axis + 1) is Ok {
                                    let rest = walk(slots.skip(1), group.skip(1), axis + 1)->Ok_0;
                                    assert(start + i * step < base[0]) by (nonlinear_arith)
                                        requires
                                            i < len,
                                            step >= 1,
                                            len >= 1 ==> start + (len - 1) * step < base[0],
                                    ;
                                    let out = seq![Slot::Fixed { pos: (start + i * step) as usize }]
                                        + rest;
                                    assert(out.skip(1) =~= rest);
                                }
                            }
                        },
                        Slot::Unit { len } => {
                            if i < len {
                                lemma_walk_wf(slots.skip(1), base, group.skip(1), axis + 1);
                            }
                        },
                        Slot::Fixed { .. } => {},
                    }
                }
            },
            SliceDescriptor::Range { start, step, end } => {
                if slots.len() > 0 && step >= 1 {
                    let len = match slots[0] {
                        Slot::Free { len, .. } => len,
                        Slot::Unit { len } => len,
                        Slot::Fixed { .. } => 0usize,
                    };
                    if start <= len && !(end is Some && end->0 > len) {
                        let eff = if end is Some {
                            end->0 as int
                        } else {
                            len as int
                        };
                        let nl = range_len(start as int, step as int, eff);
                        assert(0 <= nl <= len) by {
                            if eff > start {
                                lemma_div_nonincreasing(eff - start - 1, step as int);
                                assert((eff - start - 1) / (step as int) >= 0) by (nonlinear_arith)
                                    requires
                                        eff - start - 1 >= 0,
                                        step >= 1,
                                ;
                            }
                        }
                        // the largest selected view position stays below eff
                        assert(nl >= 1 ==> start + (nl - 1) * step <= eff - 1) by {
                            if nl >= 1 && eff > start {
                                lemma_fundamental_div_mod(eff - start - 1, step as int);
                                lemma_mod_division_less_than_divisor(eff - start - 1, step as int);
                                assert((nl - 1) * step == ((eff - start - 1) / (step as int)) * step);
                                assert(((eff - start - 1) / (step as int)) * step <= eff - start - 1);
                            }
                        }
                        match slots[0] {
                            Slot::Free { start: s0, step: st0, len: l0 } => {
                                lemma_walk_wf(slots.skip(1), base.skip(1), group.skip(1), axis + 1);
                                if walk(slots.skip(1), group.skip(1), axis + 1) is Ok {
                                    let rest = walk(slots.skip(1), group.skip(1), axis + 1)->Ok_0;
                                    if nl == 0 {
                                        let out = seq![Slot::Free {
                                            start: 0usize,
                                            step: 1usize,
                                            len: 0usize,
                                        }] + rest;
                                        assert(out.skip(1) =~= rest);
                                    } else {
                                        assert(start + (nl - 1) * step <= len - 1);
                                        assert(s0 + (start + (nl - 1) * step) * st0 < base[0])
                                            by (nonlinear_arith)
                                            requires
                                                st0 >= 1,
                                                0 <= start + (nl - 1) * step <= len - 1,
                                                len >= 1 ==> s0 + (len - 1) * st0 < base[0],
                                                nl >= 1,
                                                len as int >= nl,
                                        ;
                                        assert(s0 + start * st0 + (nl - 1) * (st0 * step) == s0 + (
                                        start + (nl - 1) * step) * st0) by (nonlinear_arith);
                                        assert(s0 + start * st0 < base[0]) by (nonlinear_arith)
                                            requires
                                                st0 >= 1,
                                                0 <= start,
                                                start + (nl - 1) * step <= len - 1,
                                                nl >= 1,
                                                step >= 1,
                                                len >= 1 ==> s0 + (len - 1) * st0 < base[0],
                                        ;
                                        if nl == 1 {
                                            let out = seq![Slot::Free {
                                                start: (s0 + start * st0) as usize,
                                                step: 1usize,
                                                len: 1usize,
                                            }] + rest;
                                            assert(out.skip(1) =~= rest);
                                        } else {
                                            assert(st0 * step <= (start + step) * st0)
                                                by (nonlinear_arith)
                                                requires
                                                    st0 >= 1,
                                                    step >= 1,
                                                    start >= 0,
                                            ;
                                            assert(start + step <= start + (nl - 1) * step)
                                                by (nonlinear_arith)
                                                requires
                                                    nl >= 2,
                                                    step >= 1,
                                            ;
                                            assert((start + step) * st0 <= (start + (nl - 1) * step)
                                                * st0) by (nonlinear_arith)
                                                requires
                                                    start + step <= start + (nl - 1) * step,
                                                    st0 >= 1,
                                            ;
                                            assert(st0 * step >= 1) by (nonlinear_arith)
                                                requires
                                                    st0 >= 1,
                                                    step >= 1,
                                            ;
                                            let ns = (s0 + start * st0) as usize;
                                            let nst = (st0 * step) as usize;
                                            assert(ns == s0 + start * st0);
                                            assert(nst == st0 * step);
                                            assert(ns + (nl - 1) * nst < base[0]);
                                            let out = seq![Slot::Free {
                                                start: ns,
                                                step: nst,
                                                len: nl as usize,
                                            }] + rest;
                                            assert(out.skip(1) =~= rest);
                                        }
                                    }
                                }
                            },
                            Slot::Unit { len: l0 } => {
                                lemma_walk_wf(slots.skip(1), base, group.skip(1), axis + 1);
                                if walk(slots.skip(1), group.skip(1), axis + 1) is Ok {
                                    let rest = walk(slots.skip(1), group.skip(1), axis + 1)->Ok_0;
                                    let out = seq![Slot::Unit { len: nl as usize }] + rest;
                                    assert(out.skip(1) =~= rest);
                                }
                            },
                            Slot::Fixed { .. } => {},
                        }
                    }
                }
            },
        }
    }
}

/// Peels one slot off an in-bounds view coordinate: what remains is in
/// bounds for the remaining slots, and the head coordinate (when the
/// slot is visible) lies inside the slot's extent.
pub proof fn lemma_in_bounds_tail(slots: Seq<Slot>, c: Seq<usize>)
    requires
        slots.len() > 0,
        in_bounds(view_shape(slots), c),
    ensures
        slots[0] is Fixed ==> in_bounds(view_shape(slots.skip(1)), c),
        !(slots[0] is Fixed) ==> c.len() > 0 && in_bounds(view_shape(slots.skip(1)), c.skip(1)),
        slots[0] matches Slot::Free { len, .. } ==> c.len() > 0 && c[0] < len,
        slots[0] matches Slot::Unit { len } ==> c.len() > 0 && c[0] < len,
{
    match slots[0] {
        Slot::Fixed { .. } => {},
        Slot::Free { len, .. } => {
            let vs = view_shape(slots);
            let vs1 = view_shape(slots.skip(1));
            assert(vs =~= seq![len] + vs1);
            assert(c[0] < vs[0]);
            assert forall|i: int| 0 <= i < c.skip(1).len() implies c.skip(1)[i] < vs1[i] by {
                assert(c.skip(1)[i] == c[i + 1]);
                assert(vs1[i] == vs[i + 1]);
            }
        },
        Slot::Unit { len } => {
            let vs = view_shape(slots);
            let vs1 = view_shape(slots.skip(1));
            assert(vs =~= seq![len] + vs1);
            assert(c[0] < vs[0]);
            assert forall|i: int| 0 <= i < c.skip(1).len() implies c.skip(1)[i] < vs1[i] by {
                assert(c.skip(1)[i] == c[i + 1]);
                assert(vs1[i] == vs[i + 1]);
            }
        },
    }
}

/// The flat offset of an in-bounds view coordinate lies inside the base
/// buffer.
pub proof fn lemma_flat_of_bound(slots: Seq<Slot>, base: Seq<usize>, c: Seq<usize>)
    requires
        slots_wf(slots, base),
        in_bounds(view_shape(slots), c),
    ensures
        flat_of(slots, base, c) < product(base),
{
    lemma_base_coords_in_bounds(slots, base, c);
    lemma_rm_flat_bound(base, base_coords(slots, c));
}

/// The identity selector consumes one axis per descriptor.
pub proof fn lemma_full_group_consumes(n: nat)
    ensures
        consumed_axes(full_group_spec(n)) == n,
    decreases n,
{
    if n > 0 {
        assert(full_group_spec(n).skip(1) =~= full_group_spec((n - 1) as nat));
        lemma_full_group_consumes((n - 1) as nat);
    } else {
        assert(full_group_spec(0) =~= Seq::<SliceDescriptor>::empty());
    }
}

/// Walking the identity selector over a well-formed view reproduces the
/// view unchanged.
pub proof fn lemma_walk_full_identity(slots: Seq<Slot>, base: Seq<usize>, axis: int)
    requires
        slots_wf(slots, base),
    ensures
        walk(slots, full_group_spec(n_view(slots)), axis) == Ok::<Seq<Slot>, ArrayError>(slots),
    decreases slots.len(),
{
    let g = full_group_spec(n_view(slots));
    if slots.len() == 0 {
        assert(g =~= Seq::<SliceDescriptor>::empty());
    } else {
        match slots[0] {
            Slot::Fixed { pos } => {
                lemma_walk_full_identity(slots.skip(1), base.skip(1), axis);
                assert(n_view(slots) == n_view(slots.skip(1)));
                assert(seq![slots[0]] + slots.skip(1) =~= slots);
            },
            Slot::Free { start: s, step: st, len: l } => {
                assert(g.len() == n_view(slots) >= 1);
                assert(g[0] == (SliceDescriptor::Range {
                    start: 0usize,
                    step: 1usize,
                    end: None::<usize>,
                }));
                assert(g.skip(1) =~= full_group_spec(n_view(slots.skip(1))));
                lemma_walk_full_identity(slots.skip(1), base.skip(1), axis + 1);
                assert(range_len(0, 1, l as int) == l as int) by {
                    if l > 0 {
                        lemma_fundamental_div_mod(l - 1, 1);
                        lemma_mod_division_less_than_divisor(l - 1, 1);
                    }
                }
                assert(0 * st == 0) by (nonlinear_arith);
                assert(st * 1 == st) by (nonlinear_arith);
                assert(seq![slots[0]] + slots.skip(1) =~= slots);
            },
            Slot::Unit { len: l } => {
                assert(g.len() == n_view(slots) >= 1);
                assert(g[0] == (SliceDescriptor::Range {
                    start: 0usize,
                    step: 1usize,
                    end: None::<usize>,
                }));
                assert(g.skip(1) =~= full_group_spec(n_view(slots.skip(1))));
                lemma_walk_full_identity(slots.skip(1), base, axis + 1);
                assert(range_len(0, 1, l as int) == l as int) by {
                    if l > 0 {
                        lemma_fundamental_div_mod(l - 1, 1);
                        lemma_mod_division_less_than_divisor(l - 1, 1);
                    }
                }
                assert(seq![slots[0]] + slots.skip(1) =~= slots);
            },
        }
    }
}

/// A view has one shape entry per visible axis.
pub proof fn lemma_view_shape_len(slots: Seq<Slot>)
    ensures
        view_shape(slots).len() == n_view(slots),
    decreases slots.len(),
{
    if slots.len() > 0 {
        lemma_view_shape_len(slots.skip(1));
    } else {
        assert(view_shape(slots) =~= Seq::<usize>::empty());
    }
}

/// An all-`Index` group consumes one axis per descriptor.
pub proof fn lemma_index_group_consumes(group: Seq<SliceDescriptor>)
    requires
        forall|i: int| 0 <= i < group.len() ==> group[i] is Index,
    ensures
        consumed_axes(group) == group.len(),
    decreases group.len(),
{
    if group.len() > 0 {
        assert forall|i: int| 0 <= i < group.skip(1).len() implies group.skip(1)[i] is Index by {
            assert(group.skip(1)[i] == group[i + 1]);
        }
        lemma_index_group_consumes(group.skip(1));
    }
}

/// Walking a group of nothing but `Index` selectors, one per visible
/// axis, collapses every axis: the resulting view is zero-dimensional.
pub proof fn lemma_index_walk_collapses(slots: Seq<Slot>, group: Seq<SliceDescriptor>, axis: int)
    requires
        forall|i: int| 0 <= i < group.len() ==> group[i] is Index,
        n_view(slots) == consumed_axes(group),
        walk(slots, group, axis) is Ok,
    ensures
        view_shape(walk(slots, group, axis)->Ok_0).len() == 0,
    decreases slots.len() + group.len(),
{
    if slots.len() > 0 && slots[0] is Fixed {
        lemma_index_walk_collapses(slots.skip(1), group, axis);
        let rest = walk(slots.skip(1), group, axis)->Ok_0;
        let out = seq![slots[0]] + rest;
        assert(out.skip(1) =~= rest);
    } else if group.len() == 0 {
        lemma_view_shape_len(slots);
    } else {
        assert(group[0] is Index);
        let i = group[0]->Index_0;
        assert forall|j: int| 0 <= j < group.skip(1).len() implies group.skip(1)[j] is Index by {
            assert(group.skip(1)[j] == group[j + 1]);
        }
        if slots.len() > 0 {
            match slots[0] {
                Slot::Free { start, step, len } => {
                    if i < len {
                        lemma_index_walk_collapses(slots.skip(1), group.skip(1), axis + 1);
                        let rest = walk(slots.skip(1), group.skip(1), axis + 1)->Ok_0;
                        let out = seq![Slot::Fixed { pos: (start + i * step) as usize }] + rest;
                        assert(out.skip(1) =~= rest);
                    }
                },
                Slot::Unit { len } => {
                    if i < len {
                        lemma_index_walk_collapses(slots.skip(1), group.skip(1), axis + 1);
                    }
                },
                Slot::Fixed { .. } => {},
            }
        }
    }
}

/// Applying the identity selector — one full-extent range per axis of
/// the view, as the in-place elementwise operators do — changes
/// nothing about a well-formed composed view.
pub proof fn lemma_full_group_identity(slots: Seq<Slot>, base: Seq<usize>)
    requires
        slots_wf(slots, base),
    ensures
        apply_group_spec(slots, full_group_spec(n_view(slots))) == Ok::<Seq<Slot>, ArrayError>(
            slots,
        ),
{
    lemma_full_group_consumes(n_view(slots));
    lemma_walk_full_identity(slots, base, 0);
}

/// A view never exposes more elements than its base buffer holds.
pub proof fn lemma_view_product_le(slots: Seq<Slot>, base: Seq<usize>)
    requires
        slots_wf(slots, base),
    ensures
        product(view_shape(slots)) <= product(base),
    decreases slots.len(),
{
    if slots.len() == 0 {
        assert(view_shape(slots) =~= Seq::<usize>::empty());
    } else {
        match slots[0] {
            Slot::Fixed { pos } => {
                lemma_view_product_le(slots.skip(1), base.skip(1));
                assert(product(base.skip(1)) <= (base[0] as nat) * product(base.skip(1)))
                    by (nonlinear_arith)
                    requires
                        base[0] >= 1,
                ;
            },
            Slot::Free { start, step, len } => {
                lemma_view_product_le(slots.skip(1), base.skip(1));
                let vs = view_shape(slots);
                let vs1 = view_shape(slots.skip(1));
                assert(vs =~= seq![len] + vs1);
                assert(vs.skip(1) =~= vs1);
                assert(len <= base[0]) by (nonlinear_arith)
                    requires
                        step >= 1,
                        len >= 1 ==> start + (len - 1) * step < base[0],
                        len >= 0,
                ;
                assert((len as nat) * product(vs1) <= (base[0] as nat) * product(base.skip(1)))
                    by (nonlinear_arith)
                    requires
                        len <= base[0],
                        product(vs1) <= product(base.skip(1)),
                ;
            },
            Slot::Unit { len } => {
                lemma_view_product_le(slots.skip(1), base);
                let vs = view_shape(slots);
                let vs1 = view_shape(slots.skip(1));
                assert(vs =~= seq![len] + vs1);
                assert(vs.skip(1) =~= vs1);
                assert((len as nat) * product(vs1) <= product(vs1)) by (nonlinear_arith)
                    requires
                        len <= 1,
                ;
            },
        }
    }
}

/// A view that still exposes at least one element can only sit over a
/// base whose every extent is positive.
pub proof fn lemma_base_extents_pos(slots: Seq<Slot>, base: Seq<usize>)
    requires
        slots_wf(slots, base),
        product(view_shape(slots)) > 0,
    ensures
        forall|i: int| 0 <= i < base.len() ==> base[i] >= 1,
    decreases slots.len(),
{
    if slots.len() == 0 {
    } else {
        let vs = view_shape(slots);
        match slots[0] {
            Slot::Fixed { pos } => {
                lemma_base_extents_pos(slots.skip(1), base.skip(1));
                assert forall|i: int| 0 <= i < base.len() implies base[i] >= 1 by {
                    if i > 0 {
                        assert(base[i] == base.skip(1)[i - 1]);
                    }
                }
            },
            Slot::Free { start, step, len } => {
                let vs1 = view_shape(slots.skip(1));
                assert(vs =~= seq![len] + vs1);
                assert(vs.skip(1) =~= vs1);
                assert(product(vs) == (len as nat) * product(vs1));
                assert(len >= 1 && product(vs1) > 0) by (nonlinear_arith)
                    requires
                        (len as nat) * product(vs1) > 0,
                ;
                lemma_base_extents_pos(slots.skip(1), base.skip(1));
                assert forall|i: int| 0 <= i < base.len() implies base[i] >= 1 by {
                    if i > 0 {
                        assert(base[i] == base.skip(1)[i - 1]);
                    }
                }
            },
            Slot::Unit { len } => {
                let vs1 = view_shape(slots.skip(1));
                assert(vs =~= seq![len] + vs1);
                assert(vs.skip(1) =~= vs1);
                assert(product(vs) == (len as nat) * product(vs1));
                assert(product(vs1) > 0) by (nonlinear_arith)
                    requires
                        (len as nat) * product(vs1) > 0,
                ;
                lemma_base_extents_pos(slots.skip(1), base);
            },
        }
    }
}

/// Copies the slots from `si` on.
fn copy_tail(slots: &Vec<Slot>, si: usize) -> (r: Vec<Slot>)
    requires
        si <= slots@.len(),
    ensures
        r@ == slots@.skip(si as int),
{
    let mut out: Vec<Slot> = Vec::new();
    let mut j: usize = si;
    while j < slots.len()
        invariant
            si <= j <= slots@.len(),
            out@ == slots@.subrange(si as int, j as int),
        decreases slots@.len() - j,
    {
        let s = slots[j];
        out.push(s);
        proof {
            assert(out@ =~= slots@.subrange(si as int, j as int + 1));
        }
        j = j + 1;
    }
    proof {
        assert(out@ =~= slots@.skip(si as int));
    }
    out
}

/// The recursive worker behind [`apply_group`]: processes slots from
/// `si` and descriptors from `di` on, exactly as [`walk`] describes.
#[verifier::rlimit(60)]
fn walk_exec(
    slots: &Vec<Slot>,
    si: usize,
    group: &Vec<SliceDescriptor>,
    di: usize,
    Ghost(base): Ghost<Seq<usize>>,
) -> (r: Result<Vec<Slot>, ArrayError>)
    requires
        si <= slots@.len(),
        di <= group@.len(),
        slots_wf(slots@.skip(si as int), base),
        n_view(slots@.skip(si as int)) == consumed_axes(group@.skip(di as int)),
    ensures
        match walk(slots@.skip(si as int), group@.skip(di as int), di as int) {
            Ok(s) => r is Ok && r->Ok_0@ == s,
            Err(e) => r == Err::<Vec<Slot>, ArrayError>(e),
        },
    decreases slots@.len() - si + group@.len() - di,
{
    let ghost sl = slots@.skip(si as int);
    let ghost gr = group@.skip(di as int);
    proof {
        if si < slots@.len() {
            assert(sl[0] == slots@[si as int]);
            assert(sl.skip(1) =~= slots@.skip(si as int + 1));
        }
        if di < group@.len() {
            assert(gr[0] == group@[di as int]);
            assert(gr.skip(1) =~= group@.skip(di as int + 1));
        }
    }
    if si < slots.len() && matches!(slots[si], Slot::Fixed { .. }) {
        let s = slots[si];
        match walk_exec(slots, si + 1, group, di, Ghost(base.skip(1))) {
            Ok(mut v) => {
                v.insert(0, s);
                proof {
                    assert(v@ =~= seq![sl[0]] + v@.skip(1));
                }
                Ok(v)
            },
            Err(e) => Err(e),
        }
    } else if di == group.len() {
        proof {
            assert(gr =~= Seq::<SliceDescriptor>::empty());
            lemma_walk_empty(sl, di as int);
        }
        Ok(copy_tail(slots, si))
    } else {
        let d = group[di];
        match d {
            SliceDescriptor::NewAxis => {
                match walk_exec(slots, si, group, di + 1, Ghost(base)) {
                    Ok(mut v) => {
                        v.insert(0, Slot::Unit { len: 1 });
                        proof {
                            assert(v@ =~= seq![Slot::Unit { len: 1usize }] + v@.skip(1));
                        }
                        Ok(v)
                    },
                    Err(e) => Err(e),
                }
            },
            SliceDescriptor::Index(i) => {
                if si == slots.len() {
                    proof {
                        assert(sl =~= Seq::<Slot>::empty());
                        assert(false);
                    }
                    Err(ArrayError::InvalidSelector)
                } else {
                    let s = slots[si];
                    match s {
                        Slot::Free { start, step, len } => {
                            if i < len {
                                proof {
                                    assert(start + i * step < base[0]) by (nonlinear_arith)
                                        requires
                                            i < len,
                                            step >= 1,
                                            len >= 1 ==> start + (len - 1) * step < base[0],
                                    ;
                                }
                                let pos = start + i * step;
                                match walk_exec(slots, si + 1, group, di + 1, Ghost(base.skip(1))) {
                                    Ok(mut v) => {
                                        v.insert(0, Slot::Fixed { pos });
                                        proof {
                                            assert(v@ =~= seq![Slot::Fixed { pos }] + v@.skip(1));
                                        }
                                        Ok(v)
                                    },
                                    Err(e) => Err(e),
                                }
                            } else {
                                Err(ArrayError::IndexOutOfBounds { axis: di, bound: i, extent: len })
                            }
                        },
                        Slot::Unit { len } => {
                            if i < len {
                                walk_exec(slots, si + 1, group, di + 1, Ghost(base))
                            } else {
                                Err(ArrayError::IndexOutOfBounds { axis: di, bound: i, extent: len })
                            }
                        },
                        Slot::Fixed { .. } => {
                            proof {
                                assert(false);
                            }
                            Err(ArrayError::InvalidSelector)
                        },
                    }
                }
            },
            SliceDescriptor::Range { start, step, end } => {
                if si == slots.len() {
                    proof {
                        assert(sl =~= Seq::<Slot>::empty());
                        assert(false);
                    }
                    Err(ArrayError::InvalidSelector)
                } else if step == 0 {
                    Err(ArrayError::InvalidSelector)
                } else {
                    let s = slots[si];
                    let len = match s {
                        Slot::Free { len, .. } => len,
                        Slot::Unit { len } => len,
                        Slot::Fixed { .. } => {
                            proof {
                                assert(false);
                            }
                            0
                        },
                    };
                    if start > len {
                        Err(ArrayError::IndexOutOfBounds { axis: di, bound: start, extent: len })
                    } else if matches!(end, Some(e) if e > len) {
                        let e = match end {
                            Some(e) => e,
                            None => 0,
                        };
                        Err(ArrayError::IndexOutOfBounds { axis: di, bound: e, extent: len })
                    } else {
                        let eff = match end {
                            Some(e) => e,
                            None => len,
                        };
                        let nl: usize = if eff > start {
                            proof {
                                lemma_div_nonincreasing(eff - start - 1, step as int);
                            }
                            1 + (eff - start - 1) / step
                        } else {
                            0
                        };
                        proof {
                            assert(nl == range_len(start as int, step as int, eff as int));
                            assert(nl >= 1 ==> start + (nl - 1) * step <= eff - 1) by {
                                if nl >= 1 && eff > start {
                                    lemma_fundamental_div_mod(eff - start - 1, step as int);
                                    lemma_mod_division_less_than_divisor(
                                        eff - start - 1,
                                        step as int,
                                    );
                                    assert((nl - 1) * step == ((eff - start - 1) as int / (
                                    step as int)) * step);
                                    assert(((eff - start - 1) as int / (step as int)) * (
                                    step as int) <= eff - start - 1);
                                }
                            }
                        }
                        match s {
                            Slot::Free { start: s0, step: st0, len: l0 } => {
                                let new_slot = if nl == 0 {
                                    Slot::Free { start: 0, step: 1, len: 0 }
                                } else {
                                    proof {
                                        assert(s0 + start * st0 < base[0]) by (nonlinear_arith)
                                            requires
                                                st0 >= 1,
                                                0 <= start,
                                                start + (nl - 1) * step <= len - 1,
                                                nl >= 1,
                                                step >= 1,
                                                len == l0,
                                                l0 >= 1 ==> s0 + (l0 - 1) * st0 < base[0],
                                        ;
                                    }
                                    let ns = s0 + start * st0;
                                    if nl == 1 {
                                        Slot::Free { start: ns, step: 1, len: 1 }
                                    } else {
                                        proof {
                                            assert(st0 * step <= (start + (nl - 1) * step) * st0
                                                && (start + (nl - 1) * step) * st0 < base[0])
                                                by (nonlinear_arith)
                                                requires
                                                    st0 >= 1,
                                                    step >= 1,
                                                    0 <= start,
                                                    nl >= 2,
                                                    start + (nl - 1) * step <= len - 1,
                                                    len == l0,
                                                    l0 >= 1 ==> s0 + (l0 - 1) * st0 < base[0],
                                                    s0 >= 0,
                                            ;
                                        }
                                        let nst = st0 * step;
                                        Slot::Free { start: ns, step: nst, len: nl }
                                    }
                                };
                                match walk_exec(slots, si + 1, group, di + 1, Ghost(base.skip(1))) {
                                    Ok(mut v) => {
                                        v.insert(0, new_slot);
                                        proof {
                                            assert(v@ =~= seq![new_slot] + v@.skip(1));
                                        }
                                        Ok(v)
                                    },
                                    Err(e) => Err(e),
                                }
                            },
                            Slot::Unit { .. } => {
                                match walk_exec(slots, si + 1, group, di + 1, Ghost(base)) {
                                    Ok(mut v) => {
                                        v.insert(0, Slot::Unit { len: nl });
                                        proof {
                                            assert(v@ =~= seq![Slot::Unit { len: nl }] + v@.skip(
                                                1,
                                            ));
                                        }
                                        Ok(v)
                                    },
                                    Err(e) => Err(e),
                                }
                            },
                            Slot::Fixed { .. } => {
                                proof {
                                    assert(false);
                                }
                                Err(ArrayError::InvalidSelector)
                            },
                        }
                    }
                }
            },
        }
    }
}

/// The number of axes the composed view exposes.
pub fn count_view_axes(slots: &Vec<Slot>) -> (r: usize)
    ensures
        r == n_view(slots@),
{
    let mut cnt: usize = 0;
    let mut i: usize = 0;
    proof {
        assert(slots@.skip(0) =~= slots@);
    }
    while i < slots.len()
        invariant
            i <= slots@.len(),
            cnt <= i,
            cnt + n_view(slots@.skip(i as int)) == n_view(slots@),
        decreases slots@.len() - i,
    {
        proof {
            assert(slots@.skip(i as int)[0] == slots@[i as int]);
            assert(slots@.skip(i as int).skip(1) =~= slots@.skip(i as int + 1));
        }
        if !matches!(slots[i], Slot::Fixed { .. }) {
            cnt = cnt + 1;
        }
        i = i + 1;
    }
    proof {
        assert(slots@.skip(slots@.len() as int) =~= Seq::<Slot>::empty());
    }
    cnt
}

/// The number of axes a group's descriptors consume.
pub fn count_consumed_axes(group: &Vec<SliceDescriptor>) -> (r: usize)
    ensures
        r == consumed_axes(group@),
{
    let mut cnt: usize = 0;
    let mut i: usize = 0;
    proof {
        assert(group@.skip(0) =~= group@);
    }
    while i < group.len()
        invariant
            i <= group@.len(),
            cnt <= i,
            cnt + consumed_axes(group@.skip(i as int)) == consumed_axes(group@),
        decreases group@.len() - i,
    {
        proof {
            assert(group@.skip(i as int)[0] == group@[i as int]);
            assert(group@.skip(i as int).skip(1) =~= group@.skip(i as int + 1));
        }
        if !matches!(group[i], SliceDescriptor::NewAxis) {
            cnt = cnt + 1;
        }
        i = i + 1;
    }
    proof {
        assert(group@.skip(group@.len() as int) =~= Seq::<SliceDescriptor>::empty());
    }
    cnt
}

/// Applying one group to a composed view: the group's axis count must
/// equal the view's dimensionality, then the descriptors are folded on
/// in order.
pub open spec fn apply_group_spec(slots: Seq<Slot>, group: Seq<SliceDescriptor>) -> Result<
    Seq<Slot>,
    ArrayError,
> {
    if consumed_axes(group) != n_view(slots) {
        Err(
            ArrayError::DimensionMismatch {
                expected: n_view(slots) as usize,
                actual: consumed_axes(group) as usize,
            },
        )
    } else {
        walk(slots, group, 0)
    }
}

/// Applies one slice-descriptor group to a composed view.
pub fn apply_group(
    slots: &Vec<Slot>,
    group: &Vec<SliceDescriptor>,
    Ghost(base): Ghost<Seq<usize>>,
) -> (r: Result<Vec<Slot>, ArrayError>)
    requires
        slots_wf(slots@, base),
    ensures
        match apply_group_spec(slots@, group@) {
            Ok(s) => r is Ok && r->Ok_0@ == s && slots_wf(s, base),
            Err(e) => r == Err::<Vec<Slot>, ArrayError>(e),
        },
{
    let nv = count_view_axes(slots);
    let ca = count_consumed_axes(group);
    if ca != nv {
        return Err(ArrayError::DimensionMismatch { expected: nv, actual: ca });
    }
    proof {
        assert(slots@.skip(0) =~= slots@);
        assert(group@.skip(0) =~= group@);
        lemma_walk_wf(slots@, base, group@, 0);
    }
    walk_exec(slots, 0, group, 0, Ghost(base))
}

/// The deep view of a chain of descriptor groups.
pub open spec fn groups_view(chain: Seq<Vec<SliceDescriptor>>) -> Seq<Seq<SliceDescriptor>> {
    chain.map_values(|g: Vec<SliceDescriptor>| g@)
}

/// The View Composer's fold: the full-extent view of the base shape,
/// then each group of the chain applied in order.
pub open spec fn compose_spec(base: Seq<usize>, chain: Seq<Seq<SliceDescriptor>>) -> Result<
    Seq<Slot>,
    ArrayError,
>
    decreases chain.len(),
{
    if chain.len() == 0 {
        Ok(initial_slots(base))
    } else {
        match compose_spec(base, chain.drop_last()) {
            Ok(slots) => apply_group_spec(slots, chain.last()),
            Err(e) => Err(e),
        }
    }
}

/// A successfully composed chain yields a well-formed view of the base.
pub proof fn lemma_compose_spec_wf(base: Seq<usize>, chain: Seq<Seq<SliceDescriptor>>)
    ensures
        compose_spec(base, chain) is Ok ==> slots_wf(compose_spec(base, chain)->Ok_0, base),
    decreases chain.len(),
{
    if chain.len() == 0 {
        lemma_initial_slots(base);
    } else {
        lemma_compose_spec_wf(base, chain.drop_last());
        if compose_spec(base, chain.drop_last()) is Ok {
            let s = compose_spec(base, chain.drop_last())->Ok_0;
            lemma_walk_wf(s, base, chain.last(), 0);
        }
    }
}

/// Once a prefix of the chain fails, the whole chain fails the same way.
pub proof fn lemma_compose_prefix_err(base: Seq<usize>, chain: Seq<Seq<SliceDescriptor>>, j: int)
    requires
        0 <= j <= chain.len(),
        compose_spec(base, chain.take(j)) is Err,
    ensures
        compose_spec(base, chain) == compose_spec(base, chain.take(j)),
    decreases chain.len() - j,
{
    if j < chain.len() {
        assert(chain.take(j + 1).drop_last() =~= chain.take(j));
        lemma_compose_prefix_err(base, chain, j + 1);
    } else {
        assert(chain.take(j) =~= chain);
    }
}

/// Composes a whole slice chain onto a base shape, as the read and
/// write paths do before touching any element.
pub fn compose(base_shape: &Vec<usize>, chain: &Vec<Vec<SliceDescriptor>>) -> (r: Result<
    ViewPlan,
    ArrayError,
>)
    ensures
        match compose_spec(base_shape@, groups_view(chain@)) {
            Ok(s) => r is Ok && r->Ok_0.slots@ == s && slots_wf(s, base_shape@),
            Err(e) => r == Err::<ViewPlan, ArrayError>(e),
        },
{
    let ghost chainv = groups_view(chain@);
    let mut cur: Vec<Slot> = Vec::new();
    let mut i: usize = 0;
    while i < base_shape.len()
        invariant
            i <= base_shape@.len(),
            cur@ == initial_slots(base_shape@).take(i as int),
        decreases base_shape@.len() - i,
    {
        let e = base_shape[i];
        cur.push(Slot::Free { start: 0, step: 1, len: e });
        proof {
            assert(cur@ =~= initial_slots(base_shape@).take(i as int + 1));
        }
        i = i + 1;
    }
    proof {
        assert(cur@ =~= initial_slots(base_shape@));
        lemma_initial_slots(base_shape@);
        assert(chainv.take(0) =~= Seq::<Seq<SliceDescriptor>>::empty());
    }
    let mut gi: usize = 0;
    while gi < chain.len()
        invariant
            gi <= chain@.len(),
            chainv == groups_view(chain@),
            compose_spec(base_shape@, chainv.take(gi as int)) == Ok::<Seq<Slot>, ArrayError>(cur@),
            slots_wf(cur@, base_shape@),
        decreases chain@.len() - gi,
    {
        proof {
            assert(chainv.take(gi as int + 1).drop_last() =~= chainv.take(gi as int));
            assert(chainv.take(gi as int + 1).last() == chain@[gi as int]@);
        }
        match apply_group(&cur, &chain[gi], Ghost(base_shape@)) {
            Ok(v) => {
                cur = v;
            },
            Err(e) => {
                proof {
                    lemma_compose_prefix_err(base_shape@, chainv, gi as int + 1);
                }
                return Err(e);
            },
        }
        gi = gi + 1;
    }
    proof {
        assert(chainv.take(chain@.len() as int) =~= chainv);
    }
    Ok(ViewPlan { slots: cur })
}

/// The shape of the view a plan describes.
pub fn plan_shape(plan: &ViewPlan) -> (r: Vec<usize>)
    ensures
        r@ == view_shape(plan.slots@),
{
    let slots = &plan.slots;
    let mut out: Vec<usize> = Vec::new();
    let mut i: usize = 0;
    proof {
        assert(slots@.skip(0) =~= slots@);
        assert(Seq::<usize>::empty() + view_shape(slots@) =~= view_shape(slots@));
    }
    while i < slots.len()
        invariant
            i <= slots@.len(),
            view_shape(slots@) == out@ + view_shape(slots@.skip(i as int)),
        decreases slots@.len() - i,
    {
        proof {
            assert(slots@.skip(i as int)[0] == slots@[i as int]);
            assert(slots@.skip(i as int).skip(1) =~= slots@.skip(i as int + 1));
        }
        match slots[i] {
            Slot::Free { len, .. } => {
                out.push(len);
                proof {
                    assert(out@ + view_shape(slots@.skip(i as int + 1)) =~= out@.drop_last() + (
                    seq![len] + view_shape(slots@.skip(i as int + 1))));
                }
            },
            Slot::Unit { len } => {
                out.push(len);
                proof {
                    assert(out@ + view_shape(slots@.skip(i as int + 1)) =~= out@.drop_last() + (
                    seq![len] + view_shape(slots@.skip(i as int + 1))));
                }
            },
            Slot::Fixed { .. } => {},
        }
        i = i + 1;
    }
    proof {
        assert(slots@.skip(slots@.len() as int) =~= Seq::<Slot>::empty());
        assert(out@ + Seq::<usize>::empty() =~= out@);
    }
    out
}

/// The flat offset inside the base buffer that an in-bounds view
/// coordinate denotes, computed through the base shape's suffix
/// products.
pub fn flat_index_of(
    plan: &ViewPlan,
    bsp: &Vec<usize>,
    c: &Vec<usize>,
    Ghost(base): Ghost<Seq<usize>>,
) -> (r: usize)
    requires
        slots_wf(plan.slots@, base),
        in_bounds(view_shape(plan.slots@), c@),
        bsp@.len() == base.len() + 1,
        forall|i: int| 0 <= i <= base.len() ==> bsp@[i] == product(base.skip(i)),
        product(base) <= usize::MAX,
    ensures
        r == flat_of(plan.slots@, base, c@),
        r < product(base),
{
    proof {
        lemma_flat_of_bound(plan.slots@, base, c@);
    }
    let ghost total = flat_of(plan.slots@, base, c@);
    let slots = &plan.slots;
    let n = slots.len();
    let bl = bsp.len();
    let cl = c.len();
    let mut acc: usize = 0;
    let mut si: usize = 0;
    let mut bi: usize = 0;
    let mut vi: usize = 0;
    proof {
        assert(slots@.skip(0) =~= slots@);
        assert(base.skip(0) =~= base);
        assert(c@.skip(0) =~= c@);
    }
    while si < n
        invariant
            n == slots@.len(),
            si <= n,
            bi <= base.len(),
            vi <= c@.len(),
            bsp@.len() == base.len() + 1,
            bsp@.len() == bl,
            c@.len() == cl,
            forall|i: int| 0 <= i <= base.len() ==> bsp@[i] == product(base.skip(i)),
            slots_wf(slots@.skip(si as int), base.skip(bi as int)),
            in_bounds(view_shape(slots@.skip(si as int)), c@.skip(vi as int)),
            acc + rm_flat(base.skip(bi as int), base_coords(slots@.skip(si as int), c@.skip(vi as int)))
                == total,
            total < product(base),
            product(base) <= usize::MAX,
            total == flat_of(plan.slots@, base, c@),
        decreases n - si,
    {
        let ghost sl = slots@.skip(si as int);
        let ghost cc = c@.skip(vi as int);
        let ghost bb = base.skip(bi as int);
        proof {
            assert(sl[0] == slots@[si as int]);
            assert(sl.skip(1) =~= slots@.skip(si as int + 1));
            lemma_in_bounds_tail(sl, cc);
        }
        let s = slots[si];
        match s {
            Slot::Fixed { pos } => {
                proof {
                    assert(bb.skip(1) =~= base.skip(bi as int + 1));
                    assert(base_coords(sl, cc) == seq![pos] + base_coords(sl.skip(1), cc));
                    assert(rm_flat(bb, base_coords(sl, cc)) == (pos as nat) * product(bb.skip(1))
                        + rm_flat(bb.skip(1), base_coords(sl.skip(1), cc))) by {
                        assert((seq![pos] + base_coords(sl.skip(1), cc))[0] == pos);
                        assert((seq![pos] + base_coords(sl.skip(1), cc)).skip(1) =~= base_coords(
                            sl.skip(1),
                            cc,
                        ));
                    }
                    assert(bb.len() > 0);
                    assert(bi < base.len());
                    assert((pos as nat) * product(bb.skip(1)) <= total);
                }
                let stride = bsp[bi + 1];
                proof {
                    assert(stride == product(bb.skip(1)));
                }
                let add = pos * stride;
                acc = acc + add;
                bi = bi + 1;
            },
            Slot::Free { start, step, len } => {
                proof {
                    assert(bb.skip(1) =~= base.skip(bi as int + 1));
                    assert(cc.skip(1) =~= c@.skip(vi as int + 1));
                    assert(start + cc[0] * step < bb[0]) by (nonlinear_arith)
                        requires
                            cc[0] < len,
                            step >= 1,
                            len >= 1 ==> start + (len - 1) * step < bb[0],
                    ;
                }
                let cv = c[vi];
                let pos = start + cv * step;
                proof {
                    assert(cv == cc[0]);
                    assert(base_coords(sl, cc) == seq![pos] + base_coords(sl.skip(1), cc.skip(1)));
                    assert(rm_flat(bb, base_coords(sl, cc)) == (pos as nat) * product(bb.skip(1))
                        + rm_flat(bb.skip(1), base_coords(sl.skip(1), cc.skip(1)))) by {
                        assert((seq![pos] + base_coords(sl.skip(1), cc.skip(1)))[0] == pos);
                        assert((seq![pos] + base_coords(sl.skip(1), cc.skip(1))).skip(1)
                            =~= base_coords(sl.skip(1), cc.skip(1)));
                    }
                    assert(bb.len() > 0);
                    assert(bi < base.len());
                    assert((pos as nat) * product(bb.skip(1)) <= total);
                }
                let stride = bsp[bi + 1];
                proof {
                    assert(stride == product(bb.skip(1)));
                }
                let add = pos * stride;
                acc = acc + add;
                bi = bi + 1;
                vi = vi + 1;
            },
            Slot::Unit { .. } => {
                proof {
                    assert(cc.skip(1) =~= c@.skip(vi as int + 1));
                    assert(base_coords(sl, cc) == base_coords(sl.skip(1), cc.skip(1)));
                }
                vi = vi + 1;
            },
        }
        si = si + 1;
    }
    proof {
        assert(slots@.skip(n as int) =~= Seq::<Slot>::empty());
        assert(base_coords(Seq::<Slot>::empty(), c@.skip(vi as int)) =~= Seq::<usize>::empty());
    }
    acc
}

/// Distinct in-bounds view coordinates of a well-formed view denote
/// distinct flat offsets: a sliced view never aliases itself.
pub proof fn lemma_flat_of_inj(slots: Seq<Slot>, base: Seq<usize>, a: Seq<usize>, b: Seq<usize>)
    requires
        slots_wf(slots, base),
        in_bounds(view_shape(slots), a),
        in_bounds(view_shape(slots), b),
        a != b,
    ensures
        flat_of(slots, base, a) != flat_of(slots, base, b),
{
    lemma_base_coords_in_bounds(slots, base, a);
    lemma_base_coords_in_bounds(slots, base, b);
    lemma_base_coords_inj(slots, base, a, b);
    lemma_rm_flat_inj(base, base_coords(slots, a), base_coords(slots, b));
}

} // verus!
