use tinychain::{AxisBounds, Bounds, Shape};

fn shape(dims: &[u64]) -> Shape {
    Shape::new(dims.to_vec())
}

#[test]
fn broadcast_shapes() {
    let b = tinychain::Broadcast::new(shape(&[3, 1]), shape(&[2, 3, 4])).unwrap();
    assert_eq!(b.shape().to_vec(), vec![2, 3, 4]);
    // the shared axis of equal extent keeps its index, every other reads zero
    let src = b.invert_coord(&vec![1, 2, 3]);
    assert_eq!(src, vec![2, 0]);
}

#[test]
fn broadcast_rejects_wider_source() {
    let r = tinychain::Broadcast::new(shape(&[2, 3]), shape(&[3]));
    assert!(r.is_err());
    let r2 = tinychain::Broadcast::new(shape(&[2, 3]), shape(&[2, 4]));
    assert!(r2.is_err());
}

#[test]
fn broadcast_map_bounds_pins_shared_axes() {
    let b = tinychain::Broadcast::new(shape(&[3]), shape(&[2, 3])).unwrap();
    let bounds = b.map_coord(&vec![1]);
    assert_eq!(bounds.len(), 2);
    match bounds.axis(0) {
        AxisBounds::In { start, end } => {
            assert_eq!(*start, 0);
            assert_eq!(*end, 2);
        }
        other => panic!("expected a full range, got {:?}", other),
    }
    match bounds.axis(1) {
        AxisBounds::At(c) => assert_eq!(*c, 1),
        other => panic!("expected a pinned axis, got {:?}", other),
    }
}

#[test]
fn expand_roundtrip() {
    let e = tinychain::Expand::new(shape(&[2, 3]), 1).unwrap();
    assert_eq!(e.shape().to_vec(), vec![2, 1, 3]);
    let out = e.map_coord(vec![1, 2]);
    assert_eq!(out, vec![1, 0, 2]);
    let back = e.invert_coord(&out);
    assert_eq!(back, vec![1, 2]);
}

#[test]
fn expand_rejects_axis_out_of_bounds() {
    assert!(tinychain::Expand::new(shape(&[2, 3]), 3).is_err());
    assert!(tinychain::Expand::new(shape(&[2, 3]), 2).is_ok());
}

#[test]
fn reduce_shape_drops_axis() {
    let r = tinychain::Reduce::new(shape(&[2, 3, 5]), 1).unwrap();
    assert_eq!(r.axis(), 1);
    assert_eq!(r.shape().to_vec(), vec![2, 5]);
    assert!(tinychain::Reduce::new(shape(&[2, 3, 5]), 3).is_err());
}

#[test]
fn reduce_invert_coord_inserts_full_range() {
    let r = tinychain::Reduce::new(shape(&[2, 3, 5]), 1).unwrap();
    let bounds = r.invert_coord(&vec![1, 4]);
    assert_eq!(bounds.len(), 3);
    match bounds.axis(0) {
        AxisBounds::At(c) => assert_eq!(*c, 1),
        other => panic!("expected a pinned axis, got {:?}", other),
    }
    match bounds.axis(1) {
        AxisBounds::In { start, end } => {
            assert_eq!(*start, 0);
            assert_eq!(*end, 3);
        }
        other => panic!("expected a full range, got {:?}", other),
    }
    match bounds.axis(2) {
        AxisBounds::At(c) => assert_eq!(*c, 4),
        other => panic!("expected a pinned axis, got {:?}", other),
    }
}

#[test]
fn transpose_roundtrip() {
    // shape [2,3,5], permutation [2,0,1], coordinate [1,2,4]
    let t = tinychain::Transpose::new(shape(&[2, 3, 5]), Some(vec![2, 0, 1])).unwrap();
    assert_eq!(t.shape().to_vec(), vec![5, 2, 3]);
    let coord = vec![1, 2, 4];
    let src = t.invert_coord(&coord);
    assert_eq!(src, vec![2, 4, 1]);
    let out = t.map_coord(&src);
    assert_eq!(out, coord);
}

#[test]
fn transpose_default_reverses_axes() {
    let t = tinychain::Transpose::new(shape(&[2, 3, 5]), None).unwrap();
    assert_eq!(t.shape().to_vec(), vec![5, 3, 2]);
}

#[test]
fn transpose_rejects_bad_permutation() {
    assert!(tinychain::Transpose::new(shape(&[2, 3]), Some(vec![0])).is_err());
    assert!(tinychain::Transpose::new(shape(&[2, 3]), Some(vec![0, 0])).is_err());
    assert!(tinychain::Transpose::new(shape(&[2, 3]), Some(vec![0, 2])).is_err());
}

#[test]
fn slice_shape_and_roundtrip() {
    let bounds = Bounds::new(vec![
        AxisBounds::At(1),
        AxisBounds::In { start: 1, end: 3 },
        AxisBounds::Of(vec![4, 0, 2]),
    ]);
    let s = tinychain::Slice::new(shape(&[2, 3, 5]), bounds).unwrap();
    assert_eq!(s.shape().to_vec(), vec![2, 3]);
    assert_eq!(s.ndim(), 2);
    assert_eq!(s.size(), 6);

    // view [1, 2] names source [1, 1+1, ids[2]] = [1, 2, 2]
    let src = s.invert_coord(&vec![1, 2]);
    assert_eq!(src, vec![1, 2, 2]);
    let back = s.map_coord(&src);
    assert_eq!(back, vec![1, 2]);
}

#[test]
fn slice_rejects_bounds_outside_shape() {
    let bounds = Bounds::new(vec![AxisBounds::At(2)]);
    assert!(tinychain::Slice::new(shape(&[2, 3]), bounds).is_err());
    let bounds2 = Bounds::new(vec![AxisBounds::In { start: 0, end: 4 }]);
    assert!(tinychain::Slice::new(shape(&[2, 3]), bounds2).is_err());
}

#[test]
fn shape_size_is_cell_count() {
    assert_eq!(shape(&[2, 3, 5]).size(), 30);
    assert_eq!(shape(&[]).size(), 1);
}

#[test]
fn slice_invert_bounds_maps_each_axis() {
    let bounds = Bounds::new(vec![
        AxisBounds::At(1),
        AxisBounds::In { start: 1, end: 4 },
        AxisBounds::Of(vec![6, 0, 2]),
    ]);
    let s = tinychain::Slice::new(shape(&[2, 5, 7]), bounds).unwrap();
    assert_eq!(s.shape().to_vec(), vec![3, 3]);

    let view = Bounds::new(vec![
        AxisBounds::In { start: 1, end: 3 },
        AxisBounds::Of(vec![2, 0]),
    ]);
    let src = s.invert_bounds(view);
    assert_eq!(src.len(), 3);
    match src.axis(0) {
        AxisBounds::At(c) => assert_eq!(*c, 1),
        other => panic!("expected the pinned axis, got {:?}", other),
    }
    match src.axis(1) {
        AxisBounds::In { start, end } => {
            assert_eq!(*start, 2);
            assert_eq!(*end, 4);
        }
        other => panic!("expected a shifted range, got {:?}", other),
    }
    match src.axis(2) {
        AxisBounds::Of(ids) => assert_eq!(*ids, vec![2, 6]),
        other => panic!("expected looked-up indices, got {:?}", other),
    }

    // a selection shorter than the view is padded with full ranges
    let partial = Bounds::new(vec![AxisBounds::At(0)]);
    let src2 = s.invert_bounds(partial);
    match src2.axis(1) {
        AxisBounds::At(c) => assert_eq!(*c, 1),
        other => panic!("expected the range start plus zero, got {:?}", other),
    }
    match src2.axis(2) {
        AxisBounds::Of(ids) => assert_eq!(*ids, vec![6, 0, 2]),
        other => panic!("expected the whole enumeration, got {:?}", other),
    }
}

#[test]
fn broadcast_invert_bounds_pins_broadcast_axes() {
    let b = tinychain::Broadcast::new(shape(&[3, 1]), shape(&[2, 3, 4])).unwrap();
    let view = Bounds::new(vec![
        AxisBounds::At(1),
        AxisBounds::In { start: 0, end: 2 },
        AxisBounds::Of(vec![3, 1]),
    ]);
    let src = b.invert_bounds(&view);
    assert_eq!(src.len(), 2);
    match src.axis(0) {
        AxisBounds::In { start, end } => {
            assert_eq!(*start, 0);
            assert_eq!(*end, 2);
        }
        other => panic!("expected the kept selection, got {:?}", other),
    }
    match src.axis(1) {
        AxisBounds::At(c) => assert_eq!(*c, 0),
        other => panic!("expected the broadcast axis pinned to zero, got {:?}", other),
    }
}
