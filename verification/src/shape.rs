//! Row-major shape arithmetic: extent products, flattening a
//! multi-dimensional coordinate to a flat offset, and recovering the
//! coordinate from the offset.
//!
//! A shape is an ordered sequence of non-negative extents; the number of
//! dimensions is its length.  Elements are stored row-major: the last
//! axis varies fastest.

use vstd::prelude::*;
use vstd::arithmetic::div_mod::{
    lemma_fundamental_div_mod, lemma_mod_division_less_than_divisor, lemma_multiply_divide_lt,
};

verus! {

/// The number of elements a shape holds: the product of its extents.
/// The empty (zero-dimensional) shape holds exactly one element.
pub open spec fn product(s: Seq<usize>) -> nat
    decreases s.len(),
{
    if s.len() == 0 {
        1
    } else {
        (s[0] as nat) * product(s.skip(1))
    }
}

/// Whether `c` is a coordinate inside `shape`: one entry per axis, each
/// below that axis's extent.
pub open spec fn in_bounds(shape: Seq<usize>, c: Seq<usize>) -> bool {
    c.len() == shape.len() && forall|i: int| 0 <= i < c.len() ==> c[i] < shape[i]
}

/// The row-major flat offset of coordinate `c` inside `shape`.
pub open spec fn rm_flat(shape: Seq<usize>, c: Seq<usize>) -> nat
    decreases c.len(),
{
    if c.len() == 0 {
        0
    } else {
        (c[0] as nat) * product(shape.skip(1)) + rm_flat(shape.skip(1), c.skip(1))
    }
}

/// The coordinate whose row-major flat offset inside `shape` is `k`.
pub open spec fn coords_of(shape: Seq<usize>, k: int) -> Seq<usize>
    decreases shape.len(),
{
    if shape.len() == 0 {
        Seq::empty()
    } else {
        seq![(k / (product(shape.skip(1)) as int)) as usize] + coords_of(
            shape.skip(1),
            k % (product(shape.skip(1)) as int),
        )
    }
}

/// A shape holding at least one element has every extent positive.
pub proof fn lemma_product_pos_extents(s: Seq<usize>)
    requires
        product(s) > 0,
    ensures
        forall|i: int| 0 <= i < s.len() ==> s[i] >= 1,
    decreases s.len(),
{
    if s.len() > 0 {
        assert(s[0] >= 1 && product(s.skip(1)) > 0) by (nonlinear_arith)
            requires
                (s[0] as nat) * product(s.skip(1)) > 0,
        ;
        lemma_product_pos_extents(s.skip(1));
        assert forall|i: int| 0 <= i < s.len() implies s[i] >= 1 by {
            if i > 0 {
                assert(s[i] == s.skip(1)[i - 1]);
            }
        }
    }
}

/// A shape with a zero extent holds no element.
pub proof fn lemma_product_zero(s: Seq<usize>, i: int)
    requires
        0 <= i < s.len(),
        s[i] == 0,
    ensures
        product(s) == 0,
    decreases s.len(),
{
    if i == 0 {
        assert((s[0] as nat) * product(s.skip(1)) == 0) by (nonlinear_arith)
            requires
                s[0] == 0,
        ;
    } else {
        lemma_product_zero(s.skip(1), i - 1);
        assert((s[0] as nat) * 0 == 0) by (nonlinear_arith);
    }
}

/// Unfolds the product of a tail of `s` by one axis.
pub proof fn lemma_product_skip_step(s: Seq<usize>, i: int)
    requires
        0 <= i < s.len(),
    ensures
        product(s.skip(i)) == (s[i] as nat) * product(s.skip(i + 1)),
{
    assert(s.skip(i).skip(1) =~= s.skip(i + 1));
    assert(s.skip(i)[0] == s[i]);
}

/// Dropping leading axes of positive extent never enlarges the product.
pub proof fn lemma_product_skip_le(s: Seq<usize>, i: int)
    requires
        0 <= i <= s.len(),
        forall|j: int| 0 <= j < i ==> s[j] >= 1,
    ensures
        product(s.skip(i)) <= product(s),
    decreases i,
{
    if i > 0 {
        lemma_product_skip_le(s, i - 1);
        lemma_product_skip_step(s, i - 1);
        assert(product(s.skip(i)) <= (s[i - 1] as nat) * product(s.skip(i))) by (nonlinear_arith)
            requires
                s[i - 1] >= 1,
        ;
    } else {
        assert(s.skip(0) =~= s);
    }
}

/// The flat offset of an in-bounds coordinate lies below the product.
pub proof fn lemma_rm_flat_bound(shape: Seq<usize>, c: Seq<usize>)
    requires
        in_bounds(shape, c),
    ensures
        rm_flat(shape, c) < product(shape),
    decreases c.len(),
{
    if c.len() > 0 {
        assert(in_bounds(shape.skip(1), c.skip(1)));
        lemma_rm_flat_bound(shape.skip(1), c.skip(1));
        assert((c[0] as nat) * product(shape.skip(1)) + rm_flat(shape.skip(1), c.skip(1)) < (
        shape[0] as nat) * product(shape.skip(1))) by (nonlinear_arith)
            requires
                c[0] < shape[0],
                rm_flat(shape.skip(1), c.skip(1)) < product(shape.skip(1)),
        ;
    }
}

/// Distinct in-bounds coordinates have distinct flat offsets.
pub proof fn lemma_rm_flat_inj(shape: Seq<usize>, a: Seq<usize>, b: Seq<usize>)
    requires
        in_bounds(shape, a),
        in_bounds(shape, b),
        a != b,
    ensures
        rm_flat(shape, a) != rm_flat(shape, b),
    decreases shape.len(),
{
    if shape.len() == 0 {
        assert(a =~= b);
    } else if a[0] == b[0] {
        assert(in_bounds(shape.skip(1), a.skip(1)));
        assert(in_bounds(shape.skip(1), b.skip(1)));
        assert(a.skip(1) != b.skip(1)) by {
            if a.skip(1) == b.skip(1) {
                assert forall|i: int| 0 <= i < a.len() implies a[i] == b[i] by {
                    if i > 0 {
                        assert(a[i] == a.skip(1)[i - 1]);
                        assert(b[i] == b.skip(1)[i - 1]);
                    }
                }
                assert(a =~= b);
            }
        }
        lemma_rm_flat_inj(shape.skip(1), a.skip(1), b.skip(1));
    } else {
        let p = product(shape.skip(1));
        assert(in_bounds(shape.skip(1), a.skip(1)));
        assert(in_bounds(shape.skip(1), b.skip(1)));
        lemma_rm_flat_bound(shape.skip(1), a.skip(1));
        lemma_rm_flat_bound(shape.skip(1), b.skip(1));
        let ra = rm_flat(shape.skip(1), a.skip(1));
        let rb = rm_flat(shape.skip(1), b.skip(1));
        assert((a[0] as nat) * p + ra != (b[0] as nat) * p + rb) by (nonlinear_arith)
            requires
                a[0] != b[0],
                ra < p,
                rb < p,
        ;
    }
}

/// Every flat offset below the product corresponds to an in-bounds
/// coordinate, and flattening that coordinate gives the offset back.
pub proof fn lemma_coords_of(shape: Seq<usize>, k: int)
    requires
        0 <= k < product(shape),
    ensures
        in_bounds(shape, coords_of(shape, k)),
        rm_flat(shape, coords_of(shape, k)) == k,
    decreases shape.len(),
{
    if shape.len() == 0 {
        assert(coords_of(shape, k) =~= Seq::<usize>::empty());
    } else {
        let p = product(shape.skip(1));
        assert(p > 0) by {
            if p == 0 {
                assert((shape[0] as nat) * 0 == 0) by (nonlinear_arith);
            }
        }
        lemma_fundamental_div_mod(k as int, p as int);
        lemma_mod_division_less_than_divisor(k as int, p as int);
        lemma_multiply_divide_lt(k as int, p as int, shape[0] as int);
        assert(k < (shape[0] as nat) * p);
        assert((k as int) < (p as int) * (shape[0] as int)) by (nonlinear_arith)
            requires
                (k as int) < (shape[0] as int) * (p as int),
        ;
        let q = k / (p as int);
        let r = k % (p as int);
        assert(q < shape[0]);
        lemma_coords_of(shape.skip(1), r);
        let c = coords_of(shape, k);
        assert(c[0] == q as usize);
        assert(c.skip(1) =~= coords_of(shape.skip(1), r));
        assert(rm_flat(shape, c) == q * p + r);
    }
}

/// Flattening then unflattening an in-bounds coordinate is the identity.
pub proof fn lemma_coords_of_rm_flat(shape: Seq<usize>, c: Seq<usize>)
    requires
        in_bounds(shape, c),
    ensures
        coords_of(shape, rm_flat(shape, c) as int) == c,
{
    lemma_rm_flat_bound(shape, c);
    let k = rm_flat(shape, c) as int;
    lemma_coords_of(shape, k);
    if coords_of(shape, k) != c {
        lemma_rm_flat_inj(shape, coords_of(shape, k), c);
    }
}

/// Computes the product of a shape's extents, reporting `None` when it
/// does not fit in `usize`.
pub fn checked_product(shape: &Vec<usize>) -> (r: Option<usize>)
    ensures
        match r {
            Some(p) => p == product(shape@),
            None => product(shape@) > usize::MAX,
        },
{
    let n = shape.len();
    let mut i: usize = 0;
    while i < n
        invariant
            n == shape@.len(),
            i <= n,
            forall|j: int| 0 <= j < i ==> shape@[j] >= 1,
        decreases n - i,
    {
        if shape[i] == 0 {
            proof {
                lemma_product_zero(shape@, i as int);
            }
            return Some(0);
        }
        i = i + 1;
    }
    let mut acc: usize = 1;
    let mut j: usize = n;
    proof {
        assert(shape@.skip(n as int) =~= Seq::<usize>::empty());
    }
    while j > 0
        invariant
            n == shape@.len(),
            j <= n,
            forall|t: int| 0 <= t < n ==> shape@[t] >= 1,
            acc == product(shape@.skip(j as int)),
        decreases j,
    {
        proof {
            lemma_product_skip_step(shape@, j - 1);
        }
        match shape[j - 1].checked_mul(acc) {
            Some(next) => {
                acc = next;
            },
            None => {
                proof {
                    lemma_product_skip_le(shape@, j - 1);
                }
                return None;
            },
        }
        j = j - 1;
    }
    proof {
        assert(shape@.skip(0) =~= shape@);
    }
    Some(acc)
}

/// The suffix products of a shape: entry `i` is the number of elements
/// one step along axis `i - 1` spans, i.e. the product of the extents of
/// axes `i..`.  Entry `n` is 1.
pub fn suffix_products(shape: &Vec<usize>) -> (r: Vec<usize>)
    requires
        forall|i: int| 0 <= i < shape@.len() ==> shape@[i] >= 1,
        product(shape@) <= usize::MAX,
    ensures
        r@.len() == shape@.len() + 1,
        forall|i: int| 0 <= i <= shape@.len() ==> r@[i] == product(shape@.skip(i)),
{
    let n = shape.len();
    let mut r: Vec<usize> = Vec::new();
    let mut i: usize = 0;
    while i < n
        invariant
            i <= n,
            r@.len() == i,
            forall|t: int| 0 <= t < i ==> r@[t] == 1,
        decreases n - i,
    {
        r.push(1);
        i = i + 1;
    }
    r.push(1);
    let mut j: usize = n;
    proof {
        assert(shape@.skip(n as int) =~= Seq::<usize>::empty());
    }
    while j > 0
        invariant
            n == shape@.len(),
            j <= n,
            r@.len() == n + 1,
            forall|i2: int| 0 <= i2 < shape@.len() ==> shape@[i2] >= 1,
            product(shape@) <= usize::MAX,
            forall|t: int| j <= t <= n ==> r@[t] == product(shape@.skip(t)),
        decreases j,
    {
        proof {
            lemma_product_skip_step(shape@, j - 1);
            lemma_product_skip_le(shape@, j - 1);
        }
        let next = shape[j - 1] * r[j];
        r[j - 1] = next;
        j = j - 1;
    }
    r
}

/// Recovers the row-major coordinate of flat offset `k` inside `shape`,
/// given the shape's suffix products.
pub fn unflatten_index(shape: &Vec<usize>, sp: &Vec<usize>, k: usize) -> (r: Vec<usize>)
    requires
        sp@.len() == shape@.len() + 1,
        forall|i: int| 0 <= i <= shape@.len() ==> sp@[i] == product(shape@.skip(i)),
        k < product(shape@),
    ensures
        r@ == coords_of(shape@, k as int),
        in_bounds(shape@, r@),
        rm_flat(shape@, r@) == k,
{
    proof {
        lemma_coords_of(shape@, k as int);
    }
    let n = shape.len();
    let mut r: Vec<usize> = Vec::new();
    let mut rem: usize = k;
    let mut i: usize = 0;
    proof {
        assert(shape@.skip(0) =~= shape@);
        assert(r@ + coords_of(shape@, k as int) =~= coords_of(shape@, k as int));
    }
    while i < n
        invariant
            n == shape@.len(),
            sp@.len() == n + 1,
            forall|t: int| 0 <= t <= n ==> sp@[t] == product(shape@.skip(t)),
            i <= n,
            r@.len() == i,
            rem < product(shape@.skip(i as int)),
            coords_of(shape@, k as int) == r@ + coords_of(shape@.skip(i as int), rem as int),
        decreases n - i,
    {
        let p = sp[i + 1];
        proof {
            assert(p > 0) by {
                if product(shape@.skip(i as int + 1)) == 0 {
                    lemma_product_skip_step(shape@, i as int);
                    assert((shape@[i as int] as nat) * 0 == 0) by (nonlinear_arith);
                }
            }
            lemma_fundamental_div_mod(rem as int, p as int);
            lemma_mod_division_less_than_divisor(rem as int, p as int);
        }
        let c = rem / p;
        let new_rem = rem % p;
        proof {
            let tail = shape@.skip(i as int);
            assert(tail.skip(1) =~= shape@.skip(i as int + 1));
            assert(coords_of(tail, rem as int) == seq![c] + coords_of(
                shape@.skip(i as int + 1),
                new_rem as int,
            ));
            assert(r@.push(c) + coords_of(shape@.skip(i as int + 1), new_rem as int) =~= r@ + (
            seq![c] + coords_of(shape@.skip(i as int + 1), new_rem as int)));
        }
        r.push(c);
        rem = new_rem;
        i = i + 1;
    }
    proof {
        assert(shape@.skip(n as int) =~= Seq::<usize>::empty());
        assert(r@ + coords_of(shape@.skip(n as int), rem as int) =~= r@);
    }
    r
}

} // verus!
