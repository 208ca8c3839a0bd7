use jinterners::{IValue, Jinterners, Json, JsonNumber, ValueRef};

fn s(x: &str) -> Json {
    Json::String(x.to_string())
}

fn u(x: u64) -> Json {
    Json::Number(JsonNumber::U64(x))
}

fn obj(entries: Vec<(&str, Json)>) -> Json {
    Json::Object(entries.into_iter().map(|(k, v)| (k.to_string(), v)).collect())
}

/// Sorts object entries by key text, so that values compare whatever the
/// key ids.
fn canon(j: Json) -> Json {
    match j {
        Json::Array(v) => Json::Array(v.into_iter().map(canon).collect()),
        Json::Object(v) => {
            let mut v: Vec<(String, Json)> = v.into_iter().map(|(k, x)| (k, canon(x))).collect();
            v.sort_by(|a, b| a.0.cmp(&b.0));
            Json::Object(v)
        }
        other => other,
    }
}

trait CloneTree {
    fn clone_tree(&self) -> Json;
}

impl CloneTree for Json {
    fn clone_tree(&self) -> Json {
        match self {
            Json::Null => Json::Null,
            Json::Bool(b) => Json::Bool(*b),
            Json::Number(n) => Json::Number(*n),
            Json::String(t) => Json::String(t.clone()),
            Json::Array(v) => Json::Array(v.iter().map(|x| x.clone_tree()).collect()),
            Json::Object(v) => Json::Object(v.iter().map(|(k, x)| (k.clone(), x.clone_tree())).collect()),
        }
    }
}

fn strings_of(ctx: &Jinterners) -> Vec<String> {
    (0..ctx.num_strings() as u32)
        .map(|i| match ctx.lookup_ref(IValue::String(i)) {
            ValueRef::String(t) => t.to_string(),
            _ => panic!("not a string"),
        })
        .collect()
}

#[test]
fn optimize_canonicalization() {
    let mut ctx = Jinterners::new();
    for t in ["zzzz", "a", "bb"] {
        ctx.intern(s(t)).unwrap();
    }
    assert_eq!(strings_of(&ctx), vec!["", "zzzz", "a", "bb"]);
    let (opt, mapping) = ctx.optimize(None).unwrap();
    assert_eq!(strings_of(&opt), vec!["", "a", "bb", "zzzz"]);
    assert_eq!(mapping.count_remapped_strings(), 3);
    assert_eq!(mapping.map(IValue::String(1)), IValue::String(3));
}

#[test]
fn optimize_once_canonicalization() {
    let mut ctx = Jinterners::new();
    for t in ["zzzz", "a", "bb"] {
        ctx.intern(s(t)).unwrap();
    }
    let (opt, mapping) = ctx.optimize_once().unwrap();
    assert_eq!(strings_of(&opt), vec!["", "a", "bb", "zzzz"]);
    assert_eq!(mapping.count_remapped_strings(), 3);
    assert!(opt.optimize_once().is_none());
}

fn sample() -> (Jinterners, Vec<(IValue, Json)>) {
    let mut ctx = Jinterners::new();
    let values = vec![
        obj(vec![("zeta", Json::Array(vec![u(3), u(2), u(1)])), ("alpha", s("long string"))]),
        Json::Array(vec![Json::Array(vec![u(1), u(2), u(3)]), Json::Array(vec![])]),
        obj(vec![("m", obj(vec![("b", Json::Null), ("a", Json::Bool(true))]))]),
        Json::Array(vec![s("x"), Json::Number(JsonNumber::I64(-4)), s("yy")]),
        s("alpha"),
    ];
    let handles = values
        .into_iter()
        .map(|v| {
            let h = ctx.intern_ref(&v).unwrap();
            (h, v)
        })
        .collect();
    (ctx, handles)
}

#[test]
fn optimize_preserves_values() {
    let (ctx, handles) = sample();
    let (opt, mapping) = ctx.optimize(None).unwrap();
    for (h, v) in &handles {
        let before = ctx.lookup(*h);
        let after = opt.lookup(mapping.map(*h));
        assert_eq!(canon(before), canon(after));
        assert_eq!(canon(v.clone_tree()), canon(ctx.lookup(*h)));
    }
}

#[test]
fn optimize_is_a_fixed_point() {
    let (ctx, handles) = sample();
    let (opt, mapping) = ctx.optimize(None).unwrap();
    assert!(opt.optimize(None).is_none());
    assert!(opt.optimize_once().is_none());
    for (h, _) in &handles {
        assert_eq!(canon(ctx.lookup(*h)), canon(opt.lookup(mapping.map(*h))));
    }
}

#[test]
fn optimize_with_zero_limit_is_none() {
    let (ctx, _) = sample();
    assert!(ctx.optimize(Some(0)).is_none());
    assert!(ctx.optimize(Some(1)).is_some());
}

#[test]
fn optimize_of_canonical_context_is_none() {
    let mut ctx = Jinterners::new();
    ctx.intern(s("a")).unwrap();
    ctx.intern(s("bb")).unwrap();
    assert!(ctx.optimize(None).is_none());
    assert!(ctx.optimize_once().is_none());
}
