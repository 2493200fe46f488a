use ndlazy::descriptor::SliceDescriptor;
use ndlazy::dtype::DataType;
use ndlazy::error::ArrayError;
use ndlazy::handle::{from_flat, zeros, ArrayStore, GetItem, SlicedArcArray};
use ndlazy::value::GenericArray;

fn f32_flat(vals: &[f32]) -> GenericArray<Vec<u32>, Vec<u64>> {
    GenericArray::Float32(vals.iter().map(|v| v.to_bits()).collect())
}

fn f64_flat(vals: &[f64]) -> GenericArray<Vec<u32>, Vec<u64>> {
    GenericArray::Float64(vals.iter().map(|v| v.to_bits()).collect())
}

fn read_f32(store: &ArrayStore, h: &SlicedArcArray) -> Vec<f32> {
    match h.read(store).unwrap() {
        GenericArray::Float32(b) => b.flat().iter().map(|x| f32::from_bits(*x)).collect(),
        GenericArray::Float64(_) => panic!("expected a 32-bit array"),
    }
}

fn read_f64(store: &ArrayStore, h: &SlicedArcArray) -> Vec<f64> {
    match h.read(store).unwrap() {
        GenericArray::Float64(b) => b.flat().iter().map(|x| f64::from_bits(*x)).collect(),
        GenericArray::Float32(_) => panic!("expected a 64-bit array"),
    }
}

fn idx(i: usize) -> SliceDescriptor {
    SliceDescriptor::Index(i)
}

fn range(start: usize, end: Option<usize>) -> SliceDescriptor {
    SliceDescriptor::Range {
        start,
        step: 1,
        end,
    }
}

#[test]
fn basic() {
    let mut store = ArrayStore::new();
    let h = zeros(&mut store, vec![2, 2], DataType::Float32);
    assert_eq!(h.ndim(&store), 2);
    assert_eq!(read_f32(&store, &h), vec![0.0; 4]);
}

#[test]
#[should_panic]
fn basicer() {
    let mut store = ArrayStore::new();
    let h = zeros(&mut store, vec![2, 2], DataType::Float32);
    // indexing far out of bounds must fail, and unwrapping that failure panics
    h.getitem(&store, vec![idx(7), idx(7)]).unwrap();
}

#[test]
fn imported() {
    // the engine is reachable under its own name, as a host would embed it
    let mut store = ndlazy::handle::ArrayStore::new();
    let h = ndlazy::handle::zeros(&mut store, vec![3], DataType::Float64);
    assert_eq!(h.length(&store), 3);
}

#[test]
fn array_from_list() {
    let mut store = ArrayStore::new();
    let a = from_flat(&mut store, f32_flat(&[1.0]), vec![]).unwrap();
    assert_eq!(a.ndim(&store), 0);
    let a = from_flat(&mut store, f32_flat(&[1.0]), vec![1]).unwrap();
    assert_eq!(a.shape(&store), vec![1]);
    let a = from_flat(&mut store, f32_flat(&[1.0]), vec![1, 1, 1]).unwrap();
    assert_eq!(a.shape(&store), vec![1, 1, 1]);
}

#[test]
fn construction_matches_shape() {
    let mut store = ArrayStore::new();
    let h = from_flat(&mut store, f32_flat(&[1.0, 2.0, 3.0, 4.0, 5.0, 6.0]), vec![2, 3]).unwrap();
    assert_eq!(h.shape(&store), vec![2, 3]);
    assert_eq!(h.length(&store), 2);
}

#[test]
fn construction_shape_mismatch() {
    let mut store = ArrayStore::new();
    let r = from_flat(&mut store, f32_flat(&[1.0, 2.0, 3.0]), vec![2, 2]);
    match r {
        Err(ArrayError::ShapeMismatch { expected, actual }) => {
            assert_eq!(expected, vec![2, 2]);
            assert_eq!(actual, vec![3]);
        }
        _ => panic!("expected a shape mismatch"),
    }
}

#[test]
fn slicing_does_not_copy() {
    let mut store = ArrayStore::new();
    let h = from_flat(&mut store, f32_flat(&[1.0, 2.0, 3.0, 4.0]), vec![4]).unwrap();
    let tail = match h.getitem(&store, vec![range(1, None)]).unwrap() {
        GetItem::Array(t) => t,
        GetItem::Scalar(_) => panic!("expected a handle"),
    };
    // writing through the original handle is visible through the slice
    h.fill(&mut store, vec![idx(1)], GenericArray::Float32(9.0f32.to_bits()))
        .unwrap();
    assert_eq!(read_f32(&store, &tail), vec![9.0, 3.0, 4.0]);
}

#[test]
fn scalar_collapse() {
    let mut store = ArrayStore::new();
    let h = from_flat(&mut store, f32_flat(&[1.0, 2.0, 3.0, 4.0, 5.0, 6.0]), vec![2, 3]).unwrap();
    match h.getitem(&store, vec![idx(1), idx(2)]).unwrap() {
        GetItem::Scalar(GenericArray::Float32(bits)) => {
            assert_eq!(f32::from_bits(bits), 6.0);
        }
        _ => panic!("indexing with one integer per dimension must collapse to a scalar"),
    }
    // a partial selection keeps a handle
    match h.getitem(&store, vec![idx(0), range(0, None)]).unwrap() {
        GetItem::Array(row) => assert_eq!(read_f32(&store, &row), vec![1.0, 2.0, 3.0]),
        GetItem::Scalar(_) => panic!("expected a handle"),
    }
}

#[test]
fn zero_dim_scalar_read() {
    let mut store = ArrayStore::new();
    let h = from_flat(&mut store, f64_flat(&[2.5]), vec![]).unwrap();
    match h.getitem(&store, vec![]).unwrap() {
        GetItem::Scalar(GenericArray::Float64(bits)) => assert_eq!(f64::from_bits(bits), 2.5),
        _ => panic!("expected a scalar"),
    }
    assert_eq!(h.length(&store), 1);
}

#[test]
fn self_aliased_assignment() {
    let mut store = ArrayStore::new();
    let h = from_flat(&mut store, f32_flat(&[1.0, 2.0, 3.0, 4.0]), vec![4]).unwrap();
    let src = match h.getitem(&store, vec![range(0, Some(3))]).unwrap() {
        GetItem::Array(s) => s,
        GetItem::Scalar(_) => panic!("expected a handle"),
    };
    // h[1:] = h[0:3] must read the source before overwriting it
    h.assign(&mut store, vec![range(1, None)], &src).unwrap();
    assert_eq!(read_f32(&store, &h), vec![1.0, 1.0, 2.0, 3.0]);
}

#[test]
fn bounds_checking() {
    let mut store = ArrayStore::new();
    let h = from_flat(&mut store, f32_flat(&[1.0, 2.0, 3.0]), vec![3]).unwrap();
    match h.getitem(&store, vec![idx(5)]) {
        Err(ArrayError::IndexOutOfBounds {
            axis,
            bound,
            extent,
        }) => {
            assert_eq!(axis, 0);
            assert_eq!(bound, 5);
            assert_eq!(extent, 3);
        }
        _ => panic!("expected an out-of-bounds failure"),
    }
}

fn add32(a: u32, b: u32) -> u32 {
    (f32::from_bits(a) + f32::from_bits(b)).to_bits()
}

fn add64(a: u64, b: u64) -> u64 {
    (f64::from_bits(a) + f64::from_bits(b)).to_bits()
}

#[test]
fn dtype_mismatch_rejected() {
    let mut store = ArrayStore::new();
    let a = zeros(&mut store, vec![2, 2], DataType::Float64);
    let b = zeros(&mut store, vec![2, 2], DataType::Float32);
    // a + b: deep-copy the left operand, then add in place
    let sum = a.sliced_copy(&mut store);
    let r = sum.assign_fn(
        &mut store,
        ndlazy::descriptor::full_group(2),
        &b,
        &add32,
        &add64,
    );
    match r {
        Err(ArrayError::TypeMismatch { expected, actual }) => {
            assert_eq!(expected, DataType::Float64);
            assert_eq!(actual, DataType::Float32);
        }
        _ => panic!("mixing representations must be rejected"),
    }
}

#[test]
fn same_dtype_addition() {
    let mut store = ArrayStore::new();
    let a = from_flat(&mut store, f32_flat(&[1.0, 2.0]), vec![2]).unwrap();
    let b = from_flat(&mut store, f32_flat(&[3.0, 4.0]), vec![2]).unwrap();
    let sum = a.sliced_copy(&mut store);
    sum.assign_fn(
        &mut store,
        ndlazy::descriptor::full_group(1),
        &b,
        &add32,
        &add64,
    )
    .unwrap();
    assert_eq!(read_f32(&store, &sum), vec![4.0, 6.0]);
    // the operands are untouched
    assert_eq!(read_f32(&store, &a), vec![1.0, 2.0]);
    assert_eq!(read_f32(&store, &b), vec![3.0, 4.0]);
}

#[test]
fn idempotent_read() {
    let mut store = ArrayStore::new();
    let h = from_flat(&mut store, f64_flat(&[0.1, 0.2, 0.3, 0.4]), vec![2, 2]).unwrap();
    let sliced = match h.getitem(&store, vec![idx(1), range(0, None)]).unwrap() {
        GetItem::Array(s) => s,
        GetItem::Scalar(_) => panic!("expected a handle"),
    };
    let first = match sliced.read(&store).unwrap() {
        GenericArray::Float64(b) => b.flat().clone(),
        _ => panic!("expected a 64-bit array"),
    };
    let second = match sliced.read(&store).unwrap() {
        GenericArray::Float64(b) => b.flat().clone(),
        _ => panic!("expected a 64-bit array"),
    };
    assert_eq!(first, second);
}

#[test]
fn arange_values_round_trip() {
    // the values of a host-side range 0.0..5.0 step 2.0
    let vals: Vec<f64> = (0..3).map(|i| i as f64 * 2.0).collect();
    assert_eq!(vals, vec![0.0, 2.0, 4.0]);
    let mut store = ArrayStore::new();
    let h = from_flat(&mut store, f64_flat(&vals), vec![3]).unwrap();
    assert_eq!(read_f64(&store, &h), vec![0.0, 2.0, 4.0]);
}

#[test]
fn stepped_range() {
    let mut store = ArrayStore::new();
    let h = from_flat(&mut store, f32_flat(&[0.0, 1.0, 2.0, 3.0, 4.0]), vec![5]).unwrap();
    let stepped = match h
        .getitem(
            &store,
            vec![SliceDescriptor::Range {
                start: 0,
                step: 2,
                end: None,
            }],
        )
        .unwrap()
    {
        GetItem::Array(s) => s,
        GetItem::Scalar(_) => panic!("expected a handle"),
    };
    assert_eq!(read_f32(&store, &stepped), vec![0.0, 2.0, 4.0]);
    // slicing a slice composes the progressions
    let again = match stepped.getitem(&store, vec![range(1, None)]).unwrap() {
        GetItem::Array(s) => s,
        GetItem::Scalar(_) => panic!("expected a handle"),
    };
    assert_eq!(read_f32(&store, &again), vec![2.0, 4.0]);
}

#[test]
fn new_axis_inserts_unit_dimension() {
    let mut store = ArrayStore::new();
    let h = from_flat(&mut store, f32_flat(&[1.0, 2.0]), vec![2]).unwrap();
    let expanded = match h
        .getitem(&store, vec![SliceDescriptor::NewAxis, range(0, None)])
        .unwrap()
    {
        GetItem::Array(s) => s,
        GetItem::Scalar(_) => panic!("expected a handle"),
    };
    assert_eq!(expanded.shape(&store), vec![1, 2]);
    assert_eq!(read_f32(&store, &expanded), vec![1.0, 2.0]);
}

#[test]
fn dimension_mismatch_reported() {
    let mut store = ArrayStore::new();
    let h = zeros(&mut store, vec![2, 3], DataType::Float32);
    match h.getitem(&store, vec![idx(0)]) {
        Err(ArrayError::DimensionMismatch { expected, actual }) => {
            assert_eq!(expected, 2);
            assert_eq!(actual, 1);
        }
        _ => panic!("expected a dimension mismatch"),
    }
}

#[test]
fn invalid_selector_rejected() {
    let mut store = ArrayStore::new();
    let h = zeros(&mut store, vec![4], DataType::Float32);
    let r = h.getitem(
        &store,
        vec![SliceDescriptor::Range {
            start: 0,
            step: 0,
            end: None,
        }],
    );
    assert_eq!(r.unwrap_err(), ArrayError::InvalidSelector);
}

#[test]
fn range_end_out_of_bounds() {
    let mut store = ArrayStore::new();
    let h = zeros(&mut store, vec![3], DataType::Float64);
    match h.getitem(&store, vec![range(0, Some(4))]) {
        Err(ArrayError::IndexOutOfBounds {
            axis,
            bound,
            extent,
        }) => {
            assert_eq!((axis, bound, extent), (0, 4, 3));
        }
        _ => panic!("expected an out-of-bounds failure"),
    }
}

#[test]
fn fill_touches_only_the_view() {
    let mut store = ArrayStore::new();
    let h = from_flat(
        &mut store,
        f32_flat(&[1.0, 2.0, 3.0, 4.0, 5.0, 6.0]),
        vec![2, 3],
    )
    .unwrap();
    h.fill(
        &mut store,
        vec![idx(0), range(1, None)],
        GenericArray::Float32(0.0f32.to_bits()),
    )
    .unwrap();
    assert_eq!(read_f32(&store, &h), vec![1.0, 0.0, 0.0, 4.0, 5.0, 6.0]);
}

#[test]
fn fill_dtype_mismatch() {
    let mut store = ArrayStore::new();
    let h = zeros(&mut store, vec![2], DataType::Float32);
    let r = h.fill(
        &mut store,
        vec![range(0, None)],
        GenericArray::Float64(1.0f64.to_bits()),
    );
    match r {
        Err(ArrayError::TypeMismatch { expected, actual }) => {
            assert_eq!(expected, DataType::Float32);
            assert_eq!(actual, DataType::Float64);
        }
        _ => panic!("expected a representation mismatch"),
    }
}

#[test]
fn assignment_shape_mismatch() {
    let mut store = ArrayStore::new();
    let a = zeros(&mut store, vec![4], DataType::Float32);
    let b = zeros(&mut store, vec![3], DataType::Float32);
    match a.assign(&mut store, ndlazy::descriptor::full_group(1), &b) {
        Err(ArrayError::ShapeMismatch { expected, actual }) => {
            assert_eq!(expected, vec![4]);
            assert_eq!(actual, vec![3]);
        }
        _ => panic!("expected a shape mismatch"),
    }
}

#[test]
fn negation_in_place() {
    let mut store = ArrayStore::new();
    let h = from_flat(&mut store, f64_flat(&[1.5, -2.0]), vec![2]).unwrap();
    h.map_assign(
        &mut store,
        &|b: u32| (-f32::from_bits(b)).to_bits(),
        &|b: u64| (-f64::from_bits(b)).to_bits(),
    )
    .unwrap();
    assert_eq!(read_f64(&store, &h), vec![-1.5, 2.0]);
}

#[test]
fn sliced_copy_is_independent() {
    let mut store = ArrayStore::new();
    let h = from_flat(&mut store, f32_flat(&[1.0, 2.0, 3.0]), vec![3]).unwrap();
    let copy = h.sliced_copy(&mut store);
    h.fill(
        &mut store,
        vec![idx(0)],
        GenericArray::Float32(7.0f32.to_bits()),
    )
    .unwrap();
    assert_eq!(read_f32(&store, &h), vec![7.0, 2.0, 3.0]);
    assert_eq!(read_f32(&store, &copy), vec![1.0, 2.0, 3.0]);
}

#[test]
fn write_replaces_the_current_view() {
    let mut store = ArrayStore::new();
    let h = from_flat(&mut store, f32_flat(&[1.0, 2.0, 3.0, 4.0]), vec![4]).unwrap();
    let tail = match h.getitem(&store, vec![range(1, None)]).unwrap() {
        GetItem::Array(t) => t,
        GetItem::Scalar(_) => panic!("expected a handle"),
    };
    let replacement = ndlazy::value::GenericArrayData::from_array(
        f32_flat(&[10.0, 20.0, 30.0]),
        vec![3],
    )
    .unwrap();
    tail.write(&mut store, &replacement).unwrap();
    assert_eq!(read_f32(&store, &h), vec![1.0, 10.0, 20.0, 30.0]);
}

#[test]
fn chained_mixed_selectors() {
    let mut store = ArrayStore::new();
    let vals: Vec<f64> = (0..24).map(|i| i as f64).collect();
    let h = from_flat(&mut store, f64_flat(&vals), vec![2, 3, 4]).unwrap();
    // pick plane 1, every second column, then a row of that
    let plane = match h
        .getitem(&store, vec![idx(1), range(0, None), range(0, None)])
        .unwrap()
    {
        GetItem::Array(p) => p,
        GetItem::Scalar(_) => panic!("expected a handle"),
    };
    assert_eq!(plane.shape(&store), vec![3, 4]);
    let cols = match plane
        .getitem(
            &store,
            vec![
                range(0, None),
                SliceDescriptor::Range {
                    start: 1,
                    step: 2,
                    end: None,
                },
            ],
        )
        .unwrap()
    {
        GetItem::Array(c) => c,
        GetItem::Scalar(_) => panic!("expected a handle"),
    };
    assert_eq!(cols.shape(&store), vec![3, 2]);
    assert_eq!(
        read_f64(&store, &cols),
        vec![13.0, 15.0, 17.0, 19.0, 21.0, 23.0]
    );
    match cols.getitem(&store, vec![idx(2), idx(1)]).unwrap() {
        GetItem::Scalar(GenericArray::Float64(bits)) => assert_eq!(f64::from_bits(bits), 23.0),
        _ => panic!("expected a scalar"),
    }
}

#[test]
fn repr_names_dtype_and_shape() {
    let mut store = ArrayStore::new();
    let h = zeros(&mut store, vec![2, 3], DataType::Float32);
    assert_eq!(h.repr(&store), "array(dtype='float32', shape=[2, 3])");
    let s = zeros(&mut store, vec![], DataType::Float64);
    assert_eq!(s.repr(&store), "array(dtype='float64', shape=[])");
}

#[test]
fn deletion_is_unsupported() {
    let mut store = ArrayStore::new();
    let h = zeros(&mut store, vec![3], DataType::Float32);
    assert_eq!(
        h.delitem(vec![idx(0)]),
        Err(ArrayError::UnsupportedOperation)
    );
}

#[test]
fn dtype_keys_round_trip() {
    assert_eq!(DataType::Float32.stringy_key(), "float32");
    assert_eq!(DataType::Float64.stringy_key(), "float64");
    assert_eq!(DataType::from_key("float32"), Some(DataType::Float32));
    assert_eq!(DataType::from_key("float64"), Some(DataType::Float64));
    assert_eq!(DataType::from_key("int32"), None);
}
