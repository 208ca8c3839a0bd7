use jinterners::{
    DeltaEncoding, DeltaParts, IArrayAccumulator, IObjectAccumulator, IValue, IValueAccumulator,
    IValueDelta, Jinterners, Json, JsonNumber,
};

fn u(x: u64) -> Json {
    Json::Number(JsonNumber::U64(x))
}

fn obj(entries: Vec<(&str, Json)>) -> Json {
    Json::Object(entries.into_iter().map(|(k, v)| (k.to_string(), v)).collect())
}

#[test]
fn value_accumulator_round_trip() {
    let values = [
        IValue::U64(5),
        IValue::U64(3),
        IValue::I64(-7),
        IValue::I64(i64::MAX),
        IValue::Bool(true),
        IValue::Bool(true),
        IValue::F64(1.5f64.to_bits()),
        IValue::String(4),
        IValue::String(1),
        IValue::Array(0),
        IValue::Object(u32::MAX),
        IValue::Null,
    ];
    let mut enc = IValueAccumulator::default();
    let deltas: Vec<IValueDelta> = values.iter().map(|v| enc.fold(*v)).collect();
    assert_eq!(deltas[0], IValueDelta::U64(5));
    assert_eq!(deltas[1], IValueDelta::U64(-2));
    assert_eq!(deltas[2], IValueDelta::I64(-7));
    assert_eq!(deltas[3], IValueDelta::I64(i64::MAX.wrapping_add(7)));
    assert_eq!(deltas[4], IValueDelta::Bool(true));
    assert_eq!(deltas[5], IValueDelta::Bool(false));
    assert_eq!(deltas[6], IValueDelta::F64(1.5f64.to_bits()));
    assert_eq!(deltas[7], IValueDelta::String(4));
    assert_eq!(deltas[8], IValueDelta::String(-3));
    assert_eq!(deltas[10], IValueDelta::Object(-1));
    assert_eq!(deltas[11], IValueDelta::Null);
    let mut dec = IValueAccumulator::default();
    let back: Vec<IValue> = deltas.iter().map(|d| dec.unfold(*d)).collect();
    assert_eq!(back, values.to_vec());
    assert_eq!(enc, dec);
}

#[test]
fn array_and_object_accumulators_round_trip() {
    let slices = vec![vec![IValue::U64(10), IValue::U64(11)], vec![IValue::U64(12)]];
    let mut enc = IArrayAccumulator::default();
    let deltas: Vec<Vec<IValueDelta>> = slices.iter().map(|s| enc.fold(s)).collect();
    assert_eq!(deltas[1], vec![IValueDelta::U64(1)]);
    let mut dec = IArrayAccumulator::default();
    let back: Vec<Vec<IValue>> = deltas.iter().map(|d| dec.unfold(d)).collect();
    assert_eq!(back, slices);

    let objects = vec![
        vec![(1u32, IValue::U64(100)), (4u32, IValue::U64(7))],
        vec![(1u32, IValue::U64(101)), (4u32, IValue::U64(9))],
    ];
    let mut oenc = IObjectAccumulator::new();
    let odeltas: Vec<Vec<(i32, IValueDelta)>> = objects.iter().map(|o| oenc.fold(o)).collect();
    assert_eq!(odeltas[1], vec![(1, IValueDelta::U64(1)), (3, IValueDelta::U64(2))]);
    let mut odec = IObjectAccumulator::new();
    let oback: Vec<Vec<(u32, IValue)>> = odeltas.iter().map(|d| odec.unfold(d)).collect();
    assert_eq!(oback, objects);
}

#[test]
fn delta_round_trip() {
    let mut ctx = Jinterners::new();
    let mut handles = Vec::new();
    for i in 0..1000u64 {
        handles.push(ctx.intern(obj(vec![("t", u(i)), ("v", u(i * 2))])).unwrap());
    }
    let expected: Vec<Json> = handles.iter().map(|h| ctx.lookup(*h)).collect();
    let wrapped = DeltaEncoding::new(ctx);
    let parts = wrapped.encode();
    assert_eq!(parts.objects.len(), 1000);
    // Past the first object, every delta is small: key steps within an
    // object, and value steps of 1 and 2 per key.
    for o in &parts.objects[1..] {
        for (k, d) in o {
            assert!(k.abs() <= 2);
            match d {
                IValueDelta::U64(x) => assert!(*x == 1 || *x == 2),
                _ => panic!("unexpected delta"),
            }
        }
    }
    let decoded = DeltaEncoding::decode(&parts).unwrap().into_inner();
    let original = wrapped.into_inner();
    assert_eq!(decoded.num_strings(), original.num_strings());
    assert_eq!(decoded.num_objects(), original.num_objects());
    for (h, j) in handles.iter().zip(expected.iter()) {
        assert_eq!(&decoded.lookup(*h), j);
    }
}

#[test]
fn delta_round_trip_of_nested_values() {
    let mut ctx = Jinterners::new();
    let h = ctx
        .intern(Json::Array(vec![
            obj(vec![("a", Json::Array(vec![u(1), Json::Number(JsonNumber::I64(-1))]))]),
            Json::String("s".to_string()),
            Json::Number(JsonNumber::F64(2.5f64.to_bits())),
        ]))
        .unwrap();
    let before = ctx.lookup(h);
    let parts = DeltaEncoding::new(ctx).encode();
    let decoded = DeltaEncoding::decode(&parts).unwrap().into_inner();
    assert_eq!(decoded.lookup(h), before);
}

#[test]
fn decode_rejects_duplicate_strings() {
    let parts = DeltaParts {
        strings: vec![String::new(), "a".to_string(), "a".to_string()],
        arrays: vec![],
        objects: vec![],
    };
    assert!(DeltaEncoding::decode(&parts).is_none());
}

#[test]
fn decode_rejects_missing_empty_string() {
    let parts = DeltaParts { strings: vec!["a".to_string()], arrays: vec![], objects: vec![] };
    assert!(DeltaEncoding::decode(&parts).is_none());
    let none = DeltaParts { strings: vec![], arrays: vec![], objects: vec![] };
    assert!(DeltaEncoding::decode(&none).is_none());
}

#[test]
fn decode_rejects_dangling_ids() {
    let parts = DeltaParts {
        strings: vec![String::new()],
        arrays: vec![vec![IValueDelta::String(5)]],
        objects: vec![],
    };
    assert!(DeltaEncoding::decode(&parts).is_none());
    let unsorted = DeltaParts {
        strings: vec![String::new(), "a".to_string()],
        arrays: vec![],
        objects: vec![vec![(1, IValueDelta::Null), (-1, IValueDelta::Null)]],
    };
    assert!(DeltaEncoding::decode(&unsorted).is_none());
}
