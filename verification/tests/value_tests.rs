use std::cmp::Ordering;

use tinychain::{
    label, BTreeFile, Collator, Int, IntType, Number, NumberType, TCType, UInt, UIntType, Value,
};

fn int32(v: i32) -> Value {
    Value::Number(Number::Int(Int::I32(v)))
}

fn uint64(v: u64) -> Value {
    Value::Number(Number::UInt(UInt::U64(v)))
}

fn string(s: &str) -> Value {
    Value::TCString(s.to_string())
}

#[test]
fn labels_keep_their_text() {
    let l = label("sbin");
    assert_eq!(l.as_str(), "sbin");
}

#[test]
fn number_classes() {
    assert_eq!(Int::I32(5).class(), IntType::I32);
    assert_eq!(UInt::U64(5).class(), UIntType::U64);
    assert_eq!(
        Number::Int(Int::I16(1)).class(),
        NumberType::Int(IntType::I16)
    );
    assert_eq!(int32(1).class(), TCType::Number(NumberType::Int(IntType::I32)));
}

#[test]
fn int_arithmetic_widens() {
    let a = Int::I16(300);
    let b = Int::I64(1);
    let sum = a.add(b);
    assert_eq!(sum.class(), IntType::I64);
    assert_eq!(sum.into_i64(), 301);

    let p = Int::I32(-4).mul(Int::I16(3));
    assert_eq!(p.class(), IntType::I32);
    assert_eq!(p.into_i64(), -12);
}

#[test]
fn int_abs_and_bool() {
    assert_eq!(Int::I32(-7).abs().into_i64(), 7);
    assert_eq!(Int::I32(7).abs().into_i64(), 7);
    assert!(Int::I16(1).to_bool());
    assert!(!Int::I64(0).to_bool());
    assert!(UInt::U8(1).to_bool());
    assert!(!UInt::U32(0).to_bool());
}

#[test]
fn number_casts_check_the_variant() {
    assert_eq!(Int::I32(3).try_into_i32().unwrap(), 3);
    assert!(Int::I64(3).try_into_i32().is_err());
    assert_eq!(UInt::U64(9).try_into_u64().unwrap(), 9);
    assert!(UInt::U8(9).try_into_u64().is_err());
    assert_eq!(int32(5).try_into_i32().unwrap(), 5);
    assert!(string("x").try_into_i32().is_err());
    assert_eq!(
        Number::Bool(true).try_into_bool().unwrap(),
        true
    );
}

#[test]
fn collator_supports_ordered_types() {
    assert!(Collator::supports(&TCType::Number(NumberType::Int(IntType::I32))));
    assert!(Collator::supports(&TCType::Number(NumberType::UInt(UIntType::U64))));
    assert!(Collator::supports(&TCType::TCString));
    assert!(!Collator::supports(&TCType::Nil));
    assert!(!Collator::supports(&TCType::Number(NumberType::Bool)));
    assert!(Collator::new(vec![TCType::Nil]).is_err());
}

#[test]
fn collator_compares_column_by_column() {
    let c = Collator::new(vec![
        TCType::Number(NumberType::Int(IntType::I32)),
        TCType::Number(NumberType::UInt(UIntType::U64)),
    ])
    .unwrap();

    assert_eq!(
        c.compare(&vec![int32(1), uint64(5)], &vec![int32(1), uint64(9)]),
        Ordering::Less
    );
    assert_eq!(
        c.compare(&vec![int32(2), uint64(0)], &vec![int32(1), uint64(9)]),
        Ordering::Greater
    );
    assert_eq!(
        c.compare(&vec![int32(1), uint64(5)], &vec![int32(1), uint64(5)]),
        Ordering::Equal
    );
    // a shorter key that is a prefix orders first
    assert_eq!(
        c.compare(&vec![int32(1)], &vec![int32(1), uint64(0)]),
        Ordering::Less
    );
}

#[test]
fn collator_compares_strings_by_bytes() {
    let c = Collator::new(vec![TCType::TCString]).unwrap();
    assert_eq!(
        c.compare(&vec![string("apple")], &vec![string("banana")]),
        Ordering::Less
    );
    assert_eq!(
        c.compare(&vec![string("b")], &vec![string("apple")]),
        Ordering::Greater
    );
    assert_eq!(
        c.compare(&vec![string("same")], &vec![string("same")]),
        Ordering::Equal
    );
    assert_eq!(
        c.compare(&vec![string("ab")], &vec![string("abc")]),
        Ordering::Less
    );
}

#[test]
fn collator_bisect_finds_range_edges() {
    let c = Collator::new(vec![TCType::Number(NumberType::Int(IntType::I32))]).unwrap();
    let keys = vec![
        vec![int32(1)],
        vec![int32(3)],
        vec![int32(3)],
        vec![int32(5)],
    ];
    // bisect: first position after every key <= the probe
    assert_eq!(c.bisect(&keys, &vec![int32(0)]), 0);
    assert_eq!(c.bisect(&keys, &vec![int32(3)]), 3);
    assert_eq!(c.bisect(&keys, &vec![int32(9)]), 4);
    // bisect_left: first position of a key >= the probe
    assert_eq!(c.bisect_left(&keys, &vec![int32(0)]), 0);
    assert_eq!(c.bisect_left(&keys, &vec![int32(3)]), 1);
    assert_eq!(c.bisect_left(&keys, &vec![int32(9)]), 4);
}

#[test]
fn btree_insert_keeps_order_and_counts() {
    let c = Collator::new(vec![TCType::Number(NumberType::Int(IntType::I32))]).unwrap();
    let mut index = BTreeFile::new(c);
    for v in [5, 1, 3, 3, 2] {
        index.insert(vec![int32(v)]).unwrap();
    }
    assert_eq!(index.len(), 5);
    let collected: Vec<i32> = (0..index.len())
        .map(|i| match &index.key_at(i)[0] {
            Value::Number(Number::Int(Int::I32(v))) => *v,
            _ => panic!("unexpected key"),
        })
        .collect();
    assert_eq!(collected, vec![1, 2, 3, 3, 5]);
    assert_eq!(index.count_equal(&vec![int32(3)]).unwrap(), 2);
    assert_eq!(index.count_equal(&vec![int32(4)]).unwrap(), 0);
    // a key that does not fit the schema is rejected
    assert!(index.insert(vec![string("x")]).is_err());
}

#[test]
fn btree_slice_keeps_its_source() {
    let c = Collator::new(vec![TCType::Number(NumberType::Int(IntType::I32))]).unwrap();
    let mut index = BTreeFile::new(c);
    index.insert(vec![int32(1)]).unwrap();
    let slice = tinychain::BTreeSlice::new(index, tinychain::Selector::all());
    assert_eq!(slice.source().len(), 1);
    assert!(!slice.selector().reverse());
}

#[test]
fn table_layout_requires_a_key_column() {
    let ctx = tinychain::TableContext::new();
    let schema = vec![
        ("name".to_string(), TCType::TCString),
        ("count".to_string(), TCType::Number(NumberType::UInt(UIntType::U64))),
    ];
    let table = ctx.new_table(schema.clone(), &"name".to_string()).unwrap();
    assert_eq!(table.key().0, "name");
    assert_eq!(table.schema_map().len(), 2);

    match ctx.new_table(schema, &"missing".to_string()) {
        Err(e) => assert_eq!(e.kind(), tinychain::ErrorKind::BadRequest),
        Ok(_) => panic!("a missing key column must be rejected"),
    }
}

#[test]
fn state_distinguishes_values() {
    let v = tinychain::State::Value(int32(1));
    assert!(v.is_value());
    let ctx = tinychain::TableContext::new();
    let t = ctx
        .new_table(vec![("k".to_string(), TCType::TCString)], &"k".to_string())
        .unwrap();
    let s = tinychain::State::Table(t);
    assert!(!s.is_value());
}

#[test]
fn host_serves_contexts_and_time() {
    let root = tinychain::FsPath::new(vec![tinychain::PathSegment::Name(
        "workspace".to_string(),
    )]);
    let host = tinychain::Host::new(root);
    let t1 = host.time();
    let id = tinychain::TransactionId::fresh(t1);
    assert_eq!(id.timestamp, t1);
    let _ = host.block_context();
    let _ = host.table_context();
}

#[test]
fn error_constructors_carry_their_kind() {
    assert_eq!(
        tinychain::TCError::new(tinychain::ErrorKind::Timeout, "t".to_string()).kind(),
        tinychain::ErrorKind::Timeout
    );
}

#[test]
fn btree_range_len_delete_and_slice() {
    let c = Collator::new(vec![TCType::Number(NumberType::Int(IntType::I32))]).unwrap();
    let mut index = BTreeFile::new(c);
    for v in [1, 2, 3, 3, 5, 8] {
        index.insert(vec![int32(v)]).unwrap();
    }

    let range = tinychain::BTreeRange {
        start: Some(vec![int32(2)]),
        end: Some(vec![int32(5)]),
    };
    assert_eq!(index.range_len(&range).unwrap(), 3);
    assert_eq!(
        index
            .range_len(&tinychain::BTreeRange { start: None, end: None })
            .unwrap(),
        6
    );

    // a slice walks the window in order, or in reverse
    let fwd = index
        .slice_range(&tinychain::Selector {
            range: tinychain::BTreeRange {
                start: Some(vec![int32(2)]),
                end: Some(vec![int32(5)]),
            },
            reverse: false,
        })
        .unwrap();
    let fwd_vals: Vec<i32> = fwd
        .iter()
        .map(|k| match &k[0] {
            Value::Number(Number::Int(Int::I32(v))) => *v,
            _ => panic!("unexpected key"),
        })
        .collect();
    assert_eq!(fwd_vals, vec![2, 3, 3]);
    let rev = index
        .slice_range(&tinychain::Selector {
            range: tinychain::BTreeRange {
                start: Some(vec![int32(2)]),
                end: Some(vec![int32(5)]),
            },
            reverse: true,
        })
        .unwrap();
    let rev_vals: Vec<i32> = rev
        .iter()
        .map(|k| match &k[0] {
            Value::Number(Number::Int(Int::I32(v))) => *v,
            _ => panic!("unexpected key"),
        })
        .collect();
    assert_eq!(rev_vals, vec![3, 3, 2]);

    // deleting the window removes exactly those keys
    let removed = index.delete_range(&range).unwrap();
    assert_eq!(removed, 3);
    assert_eq!(index.len(), 3);
    let left: Vec<i32> = (0..index.len())
        .map(|i| match &index.key_at(i)[0] {
            Value::Number(Number::Int(Int::I32(v))) => *v,
            _ => panic!("unexpected key"),
        })
        .collect();
    assert_eq!(left, vec![1, 5, 8]);

    // a bound that does not fit the schema is rejected
    let bad = tinychain::BTreeRange {
        start: Some(vec![string("x")]),
        end: None,
    };
    match index.range_len(&bad) {
        Err(e) => assert_eq!(e.kind(), tinychain::ErrorKind::BadRequest),
        Ok(_) => panic!("an untyped bound must be rejected"),
    }
}

#[test]
fn cache_pins_are_observable() {
    let mut cache = tinychain::Cache::new(2);
    let disk = tinychain::Disk::new();
    let a = tinychain::FsPath::new(vec![tinychain::PathSegment::Name("a".to_string())]);
    cache.write(&a, tinychain::Block::new(vec![1]));
    cache.pin(&a);
    // a pinned entry survives an over-budget write of another path
    let b = tinychain::FsPath::new(vec![tinychain::PathSegment::Name("b".to_string())]);
    cache.write(&b, tinychain::Block::new(vec![2, 3]));
    assert!(cache.read(&a, &disk).is_some());
    cache.unpin(&a);
    cache.write(&b, tinychain::Block::new(vec![2, 3]));
    assert!(cache.size() <= 2);
}

#[test]
fn io_failures_surface_by_kind() {
    assert_eq!(
        tinychain::io_error_class(tinychain::IoKind::NotFound, true),
        tinychain::ErrorKind::Unsupported
    );
    assert_eq!(
        tinychain::io_error_class(tinychain::IoKind::NotFound, false),
        tinychain::ErrorKind::NotFound
    );
    assert_eq!(
        tinychain::io_error_class(tinychain::IoKind::PermissionDenied, false),
        tinychain::ErrorKind::Internal
    );
    assert_eq!(
        tinychain::io_error_class(tinychain::IoKind::Other, true),
        tinychain::ErrorKind::Internal
    );
}

#[test]
fn nested_slice_requires_containment() {
    let c = Collator::new(vec![TCType::Number(NumberType::Int(IntType::I32))]).unwrap();
    let mut index = BTreeFile::new(c);
    for v in [1, 2, 3, 5, 8] {
        index.insert(vec![int32(v)]).unwrap();
    }
    let outer = tinychain::Selector {
        range: tinychain::BTreeRange {
            start: Some(vec![int32(2)]),
            end: Some(vec![int32(8)]),
        },
        reverse: false,
    };
    let slice = tinychain::BTreeSlice::new(index, outer);

    // an unbounded inner selection walks the slice's own range
    let own = slice
        .slice(&tinychain::Selector { range: tinychain::BTreeRange { start: None, end: None }, reverse: false })
        .unwrap();
    let own_vals: Vec<i32> = own
        .iter()
        .map(|k| match &k[0] {
            Value::Number(Number::Int(Int::I32(v))) => *v,
            _ => panic!("unexpected key"),
        })
        .collect();
    assert_eq!(own_vals, vec![2, 3, 5]);

    // a contained inner range narrows it
    let narrowed = slice
        .slice(&tinychain::Selector {
            range: tinychain::BTreeRange {
                start: Some(vec![int32(3)]),
                end: Some(vec![int32(6)]),
            },
            reverse: true,
        })
        .unwrap();
    let narrowed_vals: Vec<i32> = narrowed
        .iter()
        .map(|k| match &k[0] {
            Value::Number(Number::Int(Int::I32(v))) => *v,
            _ => panic!("unexpected key"),
        })
        .collect();
    assert_eq!(narrowed_vals, vec![5, 3]);

    // an escaping inner range is refused
    let escaping = slice.slice(&tinychain::Selector {
        range: tinychain::BTreeRange {
            start: Some(vec![int32(0)]),
            end: Some(vec![int32(6)]),
        },
        reverse: false,
    });
    match escaping {
        Err(e) => assert_eq!(e.kind(), tinychain::ErrorKind::BadRequest),
        Ok(_) => panic!("a range escaping the slice must be refused"),
    }
}
