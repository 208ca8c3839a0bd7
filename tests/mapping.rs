use jinterners::{
    intern_number, sort_entries, IValue, InternedStrKey, JsonNumber, Mapping, MappingImpl,
    MappingNoStrings, MappingStrings, RevMappingImpl,
};

#[test]
fn compose_applies_both_mappings() {
    let m1 = Mapping {
        string: MappingImpl::Table(vec![0, 2, 1]),
        iarray: MappingImpl::Table(vec![1, 2, 0]),
        iobject: MappingImpl::Identity(2),
    };
    let m2 = MappingNoStrings {
        iarray: MappingImpl::Table(vec![2, 0, 1]),
        iobject: MappingImpl::Table(vec![1, 0]),
    };
    let m2_full = MappingNoStrings {
        iarray: MappingImpl::Table(vec![2, 0, 1]),
        iobject: MappingImpl::Table(vec![1, 0]),
    }
    .promote(3);
    let handles = [
        IValue::Null,
        IValue::U64(9),
        IValue::String(1),
        IValue::Array(0),
        IValue::Array(2),
        IValue::Object(1),
    ];
    let expected: Vec<IValue> = handles.iter().map(|h| m2_full.map(m1.map(*h))).collect();
    let c = m1.compose(m2);
    let got: Vec<IValue> = handles.iter().map(|h| c.map(*h)).collect();
    assert_eq!(got, expected);
    assert_eq!(c.map(IValue::Array(0)), IValue::Array(0));
    assert_eq!(c.map(IValue::Object(1)), IValue::Object(0));
    assert_eq!(c.map(IValue::String(1)), IValue::String(2));
}

#[test]
fn compose_keeps_identity() {
    let m1 = Mapping {
        string: MappingImpl::Identity(1),
        iarray: MappingImpl::Identity(4),
        iobject: MappingImpl::Identity(0),
    };
    let m2 = MappingNoStrings { iarray: MappingImpl::Identity(4), iobject: MappingImpl::Identity(0) };
    let c = m1.compose(m2);
    assert!(c.is_identity());
    assert_eq!(c.count_remapped_arrays(), 0);
}

#[test]
fn count_remapped_counts_moved_ids() {
    let m = Mapping {
        string: MappingImpl::Table(vec![0, 3, 1, 2]),
        iarray: MappingImpl::Table(vec![0, 1]),
        iobject: MappingImpl::Identity(5),
    };
    assert_eq!(m.count_remapped_strings(), 3);
    assert_eq!(m.count_remapped_arrays(), 0);
    assert_eq!(m.count_remapped_objects(), 0);
    assert!(!m.is_identity());
    assert_eq!(m.map_str_key(InternedStrKey { id: 1 }), InternedStrKey { id: 3 });
}

#[test]
fn reverse_inverts_an_order() {
    let order = RevMappingImpl(vec![2, 0, 1]);
    let m = order.reverse();
    assert!(!m.is_identity());
    assert_eq!(m.len(), 3);
    assert_eq!(m.at(2), 0);
    assert_eq!(m.at(0), 1);
    assert_eq!(m.at(1), 2);
    assert_eq!(order.iter(), vec![2, 0, 1]);
    let same = RevMappingImpl(vec![0, 1, 2]);
    assert!(same.reverse().is_identity());
    assert!(RevMappingImpl::identity(4).reverse().is_identity());
}

#[test]
fn mapping_impl_compose_tables() {
    let a = MappingImpl::Table(vec![1, 2, 0]);
    let b = MappingImpl::Table(vec![2, 0, 1]);
    let c = a.compose(b);
    assert_eq!(c.at(0), 0);
    assert_eq!(c.at(1), 1);
    assert_eq!(c.at(2), 2);
    assert_eq!(c.count_remapped(), 0);
}

#[test]
fn strings_mapping_promotes() {
    let ms = MappingStrings { string: MappingImpl::Table(vec![0, 2, 1]) };
    assert!(!ms.is_identity());
    assert_eq!(ms.map(IValue::String(1)), IValue::String(2));
    assert_eq!(ms.map(IValue::Array(7)), IValue::Array(7));
    assert_eq!(ms.map_str_key(InternedStrKey { id: 2 }), InternedStrKey { id: 1 });
    let m = ms.promote(3, 1);
    assert!(matches!(m.iarray, MappingImpl::Identity(3)));
    assert_eq!(m.map(IValue::Array(2)), IValue::Array(2));
    let ns = MappingNoStrings { iarray: MappingImpl::Table(vec![1, 0]), iobject: MappingImpl::Identity(0) };
    assert!(!ns.is_identity());
    assert_eq!(ns.map(IValue::Array(0)), IValue::Array(1));
    assert_eq!(ns.map(IValue::String(5)), IValue::String(5));
}

#[test]
fn entries_sort_with_last_key_winning() {
    let sorted = sort_entries(&[
        (3, IValue::U64(1)),
        (1, IValue::U64(2)),
        (3, IValue::U64(3)),
        (2, IValue::Null),
    ]);
    assert_eq!(sorted, vec![(1, IValue::U64(2)), (2, IValue::Null), (3, IValue::U64(3))]);
    assert!(sort_entries(&[]).is_empty());
}

#[test]
fn numbers_follow_the_number_rule() {
    assert_eq!(intern_number(JsonNumber::U64(u64::MAX)), IValue::U64(u64::MAX));
    assert_eq!(intern_number(JsonNumber::I64(7)), IValue::U64(7));
    assert_eq!(intern_number(JsonNumber::I64(i64::MIN)), IValue::I64(i64::MIN));
    assert_eq!(intern_number(JsonNumber::F64(f64::NAN.to_bits())), IValue::F64(f64::NAN.to_bits()));
}
