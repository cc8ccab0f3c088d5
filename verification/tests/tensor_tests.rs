use tinychain::{DenseTensor, IntType, NumberType, Shape, SparseTensor, UIntType};

fn shape(dims: &[u64]) -> Shape {
    Shape::new(dims.to_vec())
}

#[test]
fn dense_read_write_roundtrip() {
    let mut t = DenseTensor::constant(shape(&[2, 3]), 0).unwrap();
    t.write_value_at(&vec![1, 2], 42).unwrap();
    assert_eq!(t.read_value(&vec![1, 2]).unwrap(), 42);
    assert_eq!(t.read_value(&vec![0, 0]).unwrap(), 0);
    assert!(t.read_value(&vec![2, 0]).is_err());
    assert!(t.write_value_at(&vec![0, 3], 1).is_err());
}

#[test]
fn dense_from_values_checks_count() {
    assert!(DenseTensor::from_values(shape(&[2, 3]), vec![0; 6]).is_ok());
    assert!(DenseTensor::from_values(shape(&[2, 3]), vec![0; 5]).is_err());
}

#[test]
fn dense_locate_splits_offset_into_blocks() {
    let t = DenseTensor::from_values(shape(&[2, 3]), vec![0, 1, 2, 3, 4, 5]).unwrap();
    // row-major offset of [1, 2] is 1 * 3 + 2 = 5
    let (off, block, in_block) = t.locate(&vec![1, 2]).unwrap();
    assert_eq!(off, 5);
    assert_eq!(block, 0);
    assert_eq!(in_block, 5);
    assert_eq!(5 / tinychain::PER_BLOCK, block);
}

#[test]
fn dense_sum_all_is_exact() {
    let t = DenseTensor::from_values(shape(&[2, 3]), vec![1, 2, 3, 4, 5, 6]).unwrap();
    assert_eq!(t.sum_all(), 21);
    let neg = DenseTensor::from_values(shape(&[3]), vec![-5, 2, -4]).unwrap();
    assert_eq!(neg.sum_all(), -7);
}

#[test]
fn dense_sum_folds_one_axis() {
    // [[0, 1, 2], [3, 4, 5]]
    let t = DenseTensor::from_values(shape(&[2, 3]), vec![0, 1, 2, 3, 4, 5]).unwrap();

    let rows = t.sum(0).unwrap();
    assert_eq!(rows.shape().to_vec(), vec![3]);
    assert_eq!(rows.read_value(&vec![0]).unwrap(), 3);
    assert_eq!(rows.read_value(&vec![1]).unwrap(), 5);
    assert_eq!(rows.read_value(&vec![2]).unwrap(), 7);

    let cols = t.sum(1).unwrap();
    assert_eq!(cols.shape().to_vec(), vec![2]);
    assert_eq!(cols.read_value(&vec![0]).unwrap(), 3);
    assert_eq!(cols.read_value(&vec![1]).unwrap(), 12);

    assert!(t.sum(2).is_err());
}

#[test]
fn dense_sum_middle_axis() {
    // shape [2, 2, 2] with values 1..8
    let t = DenseTensor::from_values(shape(&[2, 2, 2]), vec![1, 2, 3, 4, 5, 6, 7, 8]).unwrap();
    let folded = t.sum(1).unwrap();
    assert_eq!(folded.shape().to_vec(), vec![2, 2]);
    assert_eq!(folded.read_value(&vec![0, 0]).unwrap(), 4);
    assert_eq!(folded.read_value(&vec![0, 1]).unwrap(), 6);
    assert_eq!(folded.read_value(&vec![1, 0]).unwrap(), 12);
    assert_eq!(folded.read_value(&vec![1, 1]).unwrap(), 14);
}

#[test]
fn broadcast_write_is_rejected() {
    let view =
        tinychain::Broadcast::new(shape(&[3, 1]), shape(&[3, 4])).unwrap();
    let mut t = DenseTensor::constant(shape(&[3, 1]), 0).unwrap();
    let bounds = tinychain::Bounds::new(vec![
        tinychain::AxisBounds::In { start: 0, end: 3 },
        tinychain::AxisBounds::In { start: 0, end: 4 },
    ]);
    let r = t.write_through_broadcast(&view, &bounds, 5);
    assert!(r.is_err());
    assert_eq!(r.unwrap_err().kind(), tinychain::ErrorKind::Unsupported);
}

#[test]
fn sparse_write_read_and_delete() {
    let mut s = SparseTensor::new(shape(&[4, 4]));
    s.write_value(&vec![1, 2], 5).unwrap();
    assert_eq!(s.read_value(&vec![1, 2]).unwrap(), 5);
    assert_eq!(s.read_value(&vec![0, 0]).unwrap(), 0);
    s.write_value(&vec![1, 2], 6).unwrap();
    assert_eq!(s.read_value(&vec![1, 2]).unwrap(), 6);
    // a zero write deletes the entry
    s.write_value(&vec![1, 2], 0).unwrap();
    assert_eq!(s.read_value(&vec![1, 2]).unwrap(), 0);
    assert!(s.write_value(&vec![4, 0], 1).is_err());
}

#[test]
fn sparse_sum_all_over_two_entries() {
    // shape [100, 100] with entries ((0,0), 3) and ((50,50), 7)
    let mut s = SparseTensor::new(shape(&[100, 100]));
    s.write_value(&vec![0, 0], 3).unwrap();
    s.write_value(&vec![50, 50], 7).unwrap();
    assert_eq!(s.sum_all(), 10);
}

#[test]
fn sparse_to_dense_matches_every_coordinate() {
    let mut s = SparseTensor::new(shape(&[3, 3]));
    s.write_value(&vec![0, 1], 4).unwrap();
    s.write_value(&vec![2, 2], -9).unwrap();
    let d = s.to_dense().unwrap();
    for x in 0..3u64 {
        for y in 0..3u64 {
            assert_eq!(
                d.read_value(&vec![x, y]).unwrap(),
                s.read_value(&vec![x, y]).unwrap()
            );
        }
    }
    assert_eq!(d.read_value(&vec![0, 1]).unwrap(), 4);
    assert_eq!(d.read_value(&vec![2, 2]).unwrap(), -9);
    assert_eq!(d.read_value(&vec![1, 1]).unwrap(), 0);
}

#[test]
fn dense_product_folds() {
    let t = DenseTensor::from_values(shape(&[2, 3]), vec![1, 2, 3, 4, 5, 6]).unwrap();
    assert_eq!(t.product_all(), 720);
    let rows = t.product(0).unwrap();
    assert_eq!(rows.read_value(&vec![0]).unwrap(), 4);
    assert_eq!(rows.read_value(&vec![1]).unwrap(), 10);
    assert_eq!(rows.read_value(&vec![2]).unwrap(), 18);
    let cols = t.product(1).unwrap();
    assert_eq!(cols.read_value(&vec![0]).unwrap(), 6);
    assert_eq!(cols.read_value(&vec![1]).unwrap(), 120);
    assert!(t.product(2).is_err());

    let neg = DenseTensor::from_values(shape(&[3]), vec![-2, 3, -5]).unwrap();
    assert_eq!(neg.product_all(), 30);
}

#[test]
fn cast_wraps_through_the_target_class() {
    let t = DenseTensor::from_values(shape(&[4]), vec![-1, 0, 300, 70000]).unwrap();
    assert_eq!(t.dtype(), NumberType::Int(IntType::I64));

    let b = t.cast(NumberType::Bool);
    assert_eq!(b.dtype(), NumberType::Bool);
    assert_eq!(b.read_value(&vec![0]).unwrap(), 1);
    assert_eq!(b.read_value(&vec![1]).unwrap(), 0);

    let u8s = t.cast(NumberType::UInt(UIntType::U8));
    assert_eq!(u8s.read_value(&vec![0]).unwrap(), 255);
    assert_eq!(u8s.read_value(&vec![2]).unwrap(), 44);

    let i16s = t.cast(NumberType::Int(IntType::I16));
    assert_eq!(i16s.read_value(&vec![2]).unwrap(), 300);
    assert_eq!(i16s.read_value(&vec![3]).unwrap(), 4464);
}

#[test]
fn bulk_write_fills_exactly_the_region() {
    let mut t = DenseTensor::constant(shape(&[3, 4]), 0).unwrap();
    let region = tinychain::Bounds::new(vec![
        tinychain::AxisBounds::In { start: 1, end: 3 },
        tinychain::AxisBounds::Of(vec![0, 2]),
    ]);
    t.write_value(&region, 9).unwrap();
    for x in 0..3u64 {
        for y in 0..4u64 {
            let inside = (1..3).contains(&x) && (y == 0 || y == 2);
            let expected = if inside { 9 } else { 0 };
            assert_eq!(t.read_value(&vec![x, y]).unwrap(), expected);
        }
    }

    // a short selection is padded with full ranges
    let rows = tinychain::Bounds::new(vec![tinychain::AxisBounds::At(0)]);
    t.write_value(&rows, 5).unwrap();
    assert_eq!(t.read_value(&vec![0, 3]).unwrap(), 5);
    assert_eq!(t.read_value(&vec![1, 3]).unwrap(), 0);

    // bounds outside the shape are rejected
    let bad = tinychain::Bounds::new(vec![tinychain::AxisBounds::At(3)]);
    match t.write_value(&bad, 1) {
        Err(e) => assert_eq!(e.kind(), tinychain::ErrorKind::BadRequest),
        Ok(_) => panic!("out-of-shape bounds must be rejected"),
    }
}
