use jinterners::{EnumShape, IValue, InternedStrKey, Jinterners, Json, JsonNumber, ValueRef};

fn s(x: &str) -> Json {
    Json::String(x.to_string())
}

fn u(x: u64) -> Json {
    Json::Number(JsonNumber::U64(x))
}

fn obj(entries: Vec<(&str, Json)>) -> Json {
    Json::Object(entries.into_iter().map(|(k, v)| (k.to_string(), v)).collect())
}

#[test]
fn empty_context_interns_null() {
    let mut ctx = Jinterners::new();
    let h = ctx.intern(Json::Null).unwrap();
    assert_eq!(h, IValue::Null);
    assert_eq!(ctx.lookup(h), Json::Null);
    assert_eq!(ctx.num_strings(), 1);
    assert_eq!(ctx.num_arrays(), 0);
    assert_eq!(ctx.num_objects(), 0);
    assert!(matches!(ctx.lookup_ref(IValue::String(0)), ValueRef::String("")));
}

#[test]
fn deduplicates_strings_and_arrays() {
    let mut ctx = Jinterners::new();
    let arr = || Json::Array(vec![s("a"), s("a"), s("a")]);
    let h1 = ctx.intern(arr()).unwrap();
    assert_eq!(ctx.num_strings(), 2);
    assert_eq!(ctx.num_arrays(), 1);
    let h2 = ctx.intern(arr()).unwrap();
    assert_eq!(h1, h2);
    assert_eq!(ctx.num_strings(), 2);
    assert_eq!(ctx.num_arrays(), 1);
    assert_eq!(ctx.num_objects(), 0);
}

#[test]
fn number_variants_stay_distinct() {
    let mut ctx = Jinterners::new();
    let h_u = ctx.intern(u(0)).unwrap();
    let h_f = ctx.intern(Json::Number(JsonNumber::F64(0.0f64.to_bits()))).unwrap();
    let h_i = ctx.intern(Json::Number(JsonNumber::I64(0))).unwrap();
    let h_neg = ctx.intern(Json::Number(JsonNumber::I64(-5))).unwrap();
    assert_eq!(h_u, IValue::U64(0));
    assert_eq!(h_f, IValue::F64(0));
    assert_ne!(h_u, h_f);
    // A non-negative integer is a U64, whatever variant it came in.
    assert_eq!(h_i, IValue::U64(0));
    assert_eq!(h_neg, IValue::I64(-5));
    let h_neg_zero = ctx.intern(Json::Number(JsonNumber::F64((-0.0f64).to_bits()))).unwrap();
    assert_ne!(h_neg_zero, h_f);
}

#[test]
fn object_sort() {
    // A parser that keeps its maps sorted hands over {"b":1,"a":2} as a, b.
    let build = || {
        let mut ctx = Jinterners::new();
        let h = ctx.intern(obj(vec![("a", u(2)), ("b", u(1))])).unwrap();
        (ctx, h)
    };
    let (c1, h1) = build();
    let (c2, h2) = build();
    assert_eq!(h1, h2);
    let entries = |c: &Jinterners| match c.lookup_ref(IValue::Object(0)) {
        ValueRef::Object(m) => m
            .iter()
            .into_iter()
            .map(|(k, v)| (k.to_string(), v))
            .collect::<Vec<_>>(),
        _ => panic!("not an object"),
    };
    let expected = vec![("a".to_string(), IValue::U64(2)), ("b".to_string(), IValue::U64(1))];
    assert_eq!(entries(&c1), expected);
    assert_eq!(entries(&c2), expected);
}

#[test]
fn object_entries_are_sorted_by_key_id() {
    let build = || {
        let mut ctx = Jinterners::new();
        let h = ctx.intern(obj(vec![("b", u(1)), ("a", u(2))])).unwrap();
        (ctx, h)
    };
    let (c1, h1) = build();
    let (c2, h2) = build();
    assert_eq!(h1, h2);
    assert_eq!(c1.num_objects(), 1);
    assert_eq!(c2.num_objects(), 1);
    let entries = |c: &Jinterners| match c.lookup_ref(IValue::Object(0)) {
        ValueRef::Object(m) => m
            .iter()
            .into_iter()
            .map(|(k, v)| (k.to_string(), v))
            .collect::<Vec<_>>(),
        _ => panic!("not an object"),
    };
    let ka = c1.find_key("a").unwrap();
    let kb = c1.find_key("b").unwrap();
    // "b" was interned first, so it has the smaller id.
    assert!(kb.id < ka.id);
    assert_eq!(
        entries(&c1),
        vec![("b".to_string(), IValue::U64(1)), ("a".to_string(), IValue::U64(2))]
    );
    assert_eq!(entries(&c1), entries(&c2));
}

#[test]
fn last_occurrence_of_a_key_wins() {
    let mut ctx = Jinterners::new();
    let h = ctx.intern(obj(vec![("k", u(1)), ("j", u(5)), ("k", u(2))])).unwrap();
    match ctx.lookup_ref(h) {
        ValueRef::Object(m) => {
            assert_eq!(m.get("k"), Some(IValue::U64(2)));
            assert_eq!(m.get("j"), Some(IValue::U64(5)));
            assert_eq!(m.iter().len(), 2);
        }
        _ => panic!("not an object"),
    }
    let same = ctx.intern(obj(vec![("j", u(5)), ("k", u(2))])).unwrap();
    assert_eq!(h, same);
}

#[test]
fn map_ref_get() {
    let mut ctx = Jinterners::new();
    let h = ctx.intern(obj(vec![("x", u(1))])).unwrap();
    match ctx.lookup_ref(h) {
        ValueRef::Object(m) => {
            assert_eq!(m.get("x"), Some(IValue::U64(1)));
            assert_eq!(m.get("y"), None);
            let key = ctx.find_key("y").unwrap_or_default();
            assert_eq!(key, InternedStrKey::default());
            assert_eq!(m.get_by_key(key), None);
            let kx = ctx.find_key("x").unwrap();
            assert_eq!(m.get_by_key(kx), Some(IValue::U64(1)));
        }
        _ => panic!("not an object"),
    }
}

#[test]
fn map_get_agrees_with_iteration() {
    let mut ctx = Jinterners::new();
    let h = ctx
        .intern(obj(vec![("one", u(1)), ("two", s("2")), ("three", Json::Bool(true))]))
        .unwrap();
    match ctx.lookup_ref(h) {
        ValueRef::Object(m) => {
            let pairs = m.iter();
            assert_eq!(pairs.len(), 3);
            for (k, v) in pairs {
                assert_eq!(m.get(k), Some(v));
            }
            assert_eq!(m.get("four"), None);
        }
        _ => panic!("not an object"),
    }
}

#[test]
fn lookup_inverts_intern() {
    let mut ctx = Jinterners::new();
    let value = obj(vec![
        ("a", Json::Array(vec![u(1), Json::Number(JsonNumber::I64(-2)), Json::Null])),
        ("b", obj(vec![("c", s("text")), ("d", Json::Bool(false))])),
    ]);
    let h = ctx.intern_ref(&value).unwrap();
    // Keys were interned in the order a, b, c, d, so key-id order is source
    // order here.
    assert_eq!(ctx.lookup(h), value);
}

#[test]
fn lookup_ref_of_array_and_string() {
    let mut ctx = Jinterners::new();
    let h = ctx.intern(Json::Array(vec![s("x"), u(7)])).unwrap();
    match ctx.lookup_ref(h) {
        ValueRef::Array(a) => {
            assert_eq!(a.len(), 2);
            assert_eq!(a.get(1), IValue::U64(7));
            match ctx.lookup_ref(a.get(0)) {
                ValueRef::String(t) => assert_eq!(t, "x"),
                _ => panic!("not a string"),
            }
        }
        _ => panic!("not an array"),
    }
}

#[test]
fn independent_contexts_agree() {
    let value = || {
        Json::Array(vec![
            obj(vec![("z", s("q")), ("y", Json::Array(vec![]))]),
            s("z"),
            u(3),
        ])
    };
    let mut c1 = Jinterners::new();
    let mut c2 = Jinterners::new();
    let h1 = c1.intern(value()).unwrap();
    let h2 = c2.intern(value()).unwrap();
    assert_eq!(h1, h2);
    assert_eq!(c1.num_strings(), c2.num_strings());
    assert_eq!(c1.num_arrays(), c2.num_arrays());
    assert_eq!(c1.num_objects(), c2.num_objects());
    for i in 0..c1.num_strings() as u32 {
        match (c1.lookup_ref(IValue::String(i)), c2.lookup_ref(IValue::String(i))) {
            (ValueRef::String(a), ValueRef::String(b)) => assert_eq!(a, b),
            _ => panic!("not strings"),
        }
    }
    assert_eq!(c1.lookup(h1), c2.lookup(h2));
}

#[test]
fn sizes_are_reported() {
    let mut ctx = Jinterners::new();
    ctx.intern(Json::Array(vec![s("hello"), u(1)])).unwrap();
    assert!(ctx.get_size_strings() > 0);
    assert!(ctx.get_size_arrays() > 0);
    assert!(ctx.get_size_objects() > 0);
}

#[test]
fn equal_values_share_a_handle() {
    let mut ctx = Jinterners::new();
    let h1 = ctx.intern(obj(vec![("p", u(1)), ("q", Json::Array(vec![s("x")]))])).unwrap();
    let h2 = ctx.intern(obj(vec![("q", Json::Array(vec![s("x")])), ("p", u(1))])).unwrap();
    let h3 = ctx.intern(obj(vec![("p", u(9)), ("q", Json::Array(vec![s("x")])), ("p", u(1))])).unwrap();
    let h4 = ctx.intern(obj(vec![("p", u(2)), ("q", Json::Array(vec![s("x")]))])).unwrap();
    assert_eq!(h1, h2);
    assert_eq!(h1, h3);
    assert_ne!(h1, h4);
    assert_eq!(ctx.num_objects(), 2);
    assert_eq!(ctx.num_arrays(), 1);
}

#[test]
fn enum_shapes() {
    let mut ctx = Jinterners::new();
    let unit = ctx.intern(s("First")).unwrap();
    let second = ctx
        .intern(obj(vec![("Second", Json::Array(vec![u(42), Json::Number(JsonNumber::I64(-7))]))]))
        .unwrap();
    let two = ctx.intern(obj(vec![("a", u(1)), ("b", u(2))])).unwrap();
    let first_id = ctx.find_key("First").unwrap().id;
    let second_id = ctx.find_key("Second").unwrap().id;
    assert_eq!(ctx.enum_shape(unit), EnumShape::Unit(first_id));
    match ctx.enum_shape(second) {
        EnumShape::Payload(k, v) => {
            assert_eq!(k, second_id);
            assert_eq!(
                ctx.lookup(v),
                Json::Array(vec![u(42), Json::Number(JsonNumber::I64(-7))])
            );
        }
        other => panic!("unexpected shape {:?}", other),
    }
    assert_eq!(ctx.enum_shape(two), EnumShape::BadLength(2));
    assert_eq!(ctx.enum_shape(IValue::U64(3)), EnumShape::BadType);
}

#[test]
fn reinterning_changes_nothing() {
    let mut ctx = Jinterners::new();
    let value = || obj(vec![("k", Json::Array(vec![s("a"), u(1)])), ("m", s("b"))]);
    let h = ctx.intern(value()).unwrap();
    let sizes = (ctx.num_strings(), ctx.num_arrays(), ctx.num_objects());
    assert_eq!(ctx.intern(value()).unwrap(), h);
    assert_eq!((ctx.num_strings(), ctx.num_arrays(), ctx.num_objects()), sizes);
    assert_eq!(ctx.intern(Json::Bool(true)).unwrap(), IValue::Bool(true));
    assert_eq!((ctx.num_strings(), ctx.num_arrays(), ctx.num_objects()), sizes);
}
