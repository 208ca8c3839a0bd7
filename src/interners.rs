//! The interning context: three arenas and the values that live in them.
use crate::arena::{
    cell_arena_find, cell_arena_intern, cell_arena_items, cell_arena_len, cell_arena_lookup,
    cell_arena_new, cell_arena_push, cell_arena_size, cell_items, cell_slices, entry_arena_find,
    entry_arena_intern, entry_arena_items, entry_arena_len, entry_arena_lookup, entry_arena_new,
    entry_arena_push, entry_arena_size, entry_items, entry_slices, str_arena_bytes, str_arena_find,
    str_arena_intern, str_arena_len, str_arena_lookup, str_arena_new, str_arena_push, str_arena_size,
    str_bytes, str_contents, Cell, EntryCell,
};
use crate::delta::{
    fold_objects, fold_slices, lemma_unfold_fold_objects, lemma_unfold_fold_slices, unfold_objects,
    unfold_slices, zero_acc, DeltaEncoding, DeltaParts, IArrayAccumulator, IObjectAccumulator,
};
use crate::entries::{
    canonical_of, lemma_canonical_unique, canonical_entries, from_last, key_in, keys_distinct, keys_sorted, last_before,
    lemma_canonical_same, lemma_sorted_same_elements, same_entries, sort_entries,
};
use crate::ivalue::{IValue, InternedStrKey};
use crate::json::{is_last_key, lemma_last_occurrence, Json, JsonNumber};
use crate::mapping::{
    is_identity_seq, map_id, Mapping, MappingImpl, MappingNoStrings, RevMappingImpl,
};
use crate::order::{
    bytes_key, cells_key, entries_key, entry_cells_key, key_lt, keys_nondecreasing, lemma_key_order,
    sort_ids, str_key, values_key,
};
use crate::value_ref::{ArrayRef, MapRef, ValueRef};
use blazinterner::{ArenaSlice, ArenaStr};
use vstd::prelude::*;
use vstd::string::StringSliceAdditionalSpecFns;
use vstd::utf8::encode_utf8;

verus! {

/// How a handle reads as an enum value: a string is a unit variant, an
/// object with one entry is a variant with its payload.
#[derive(Clone, Copy, Debug, PartialEq, Eq, Structural)]
pub enum EnumShape {
    /// A unit variant, named by the string with this id.
    Unit(u32),
    /// A variant named by the key with this id, with its payload.
    Payload(u32, IValue),
    /// An object that does not have exactly one entry, with its length.
    BadLength(usize),
    /// Neither a string nor an object.
    BadType,
}

/// An arena to store interned JSON values.
pub struct Jinterners {
    string: ArenaStr,
    iarray: ArenaSlice<Cell>,
    iobject: ArenaSlice<EntryCell>,
}

/// What a context holds: its strings, its array slices and its object entry
/// slices, each in id order.
pub struct JView {
    pub strings: Seq<Seq<char>>,
    pub arrays: Seq<Seq<IValue>>,
    pub objects: Seq<Seq<(u32, IValue)>>,
}

/// The value that an arena cell stores.
pub open spec fn cell_value(c: Cell) -> IValue {
    if c.0 == 0 {
        IValue::Null
    } else if c.0 == 1 {
        IValue::Bool(c.1 != 0)
    } else if c.0 == 2 {
        IValue::U64(c.1)
    } else if c.0 == 3 {
        IValue::I64(c.1 as i64)
    } else if c.0 == 4 {
        IValue::F64(c.1)
    } else if c.0 == 5 {
        IValue::String(c.1 as u32)
    } else if c.0 == 6 {
        IValue::Array(c.1 as u32)
    } else {
        IValue::Object(c.1 as u32)
    }
}

/// The arena cell that stores a value.
pub open spec fn value_cell(v: IValue) -> Cell {
    match v {
        IValue::Null => (0u8, 0u64),
        IValue::Bool(b) => (1u8, if b { 1u64 } else { 0u64 }),
        IValue::U64(x) => (2u8, x),
        IValue::I64(x) => (3u8, x as u64),
        IValue::F64(x) => (4u8, x),
        IValue::String(x) => (5u8, x as u64),
        IValue::Array(x) => (6u8, x as u64),
        IValue::Object(x) => (7u8, x as u64),
    }
}

/// The object entry that an arena cell stores.
pub open spec fn entry_value(e: EntryCell) -> (u32, IValue) {
    (e.0, cell_value((e.1, e.2)))
}

/// The arena cell that stores an object entry.
pub open spec fn value_entry(e: (u32, IValue)) -> EntryCell {
    (e.0, value_cell(e.1).0, value_cell(e.1).1)
}

proof fn lemma_cell_round_trip(v: IValue)
    ensures
        cell_value(value_cell(v)) == v,
{
    match v {
        IValue::I64(x) => {
            assert((x as u64) as i64 == x) by (bit_vector);
        },
        _ => {},
    }
}

/// The number of UTF-8 bytes of all the strings together.
pub open spec fn total_bytes(s: Seq<Seq<char>>) -> nat
    decreases s.len(),
{
    if s.len() == 0 {
        0
    } else {
        total_bytes(s.drop_last()) + encode_utf8(s.last()).len()
    }
}

/// The number of items of all the slices together.
pub open spec fn total_len<T>(s: Seq<Seq<T>>) -> nat
    decreases s.len(),
{
    if s.len() == 0 {
        0
    } else {
        total_len(s.drop_last()) + s.last().len()
    }
}

proof fn lemma_total_bytes_push(s: Seq<Seq<char>>, x: Seq<char>)
    ensures
        total_bytes(s.push(x)) == total_bytes(s) + encode_utf8(x).len(),
{
    assert(s.push(x).drop_last() =~= s);
}

proof fn lemma_total_len_push<T>(s: Seq<Seq<T>>, x: Seq<T>)
    ensures
        total_len(s.push(x)) == total_len(s) + x.len(),
{
    assert(s.push(x).drop_last() =~= s);
}

/// The object slices that an object arena holds.
pub open spec fn objects_of(a: ArenaSlice<EntryCell>) -> Seq<Seq<(u32, IValue)>> {
    entry_slices(a).map_values(|s: Seq<EntryCell>| s.map_values(|e: EntryCell| entry_value(e)))
}

/// The entry `e` with its key and value renumbered by `m`.
pub open spec fn map_entry(m: Mapping, e: (u32, IValue)) -> (u32, IValue) {
    (map_id(m.string, e.0), m.spec_map(e.1))
}

/// `d` is `src` renumbered by `m`: each string, array and object moves to
/// its new id, and the ids inside arrays and objects are renumbered too.
pub open spec fn renumbered(src: JView, d: JView, m: Mapping) -> bool {
    &&& m.string.spec_len() == src.strings.len() && d.strings.len() == src.strings.len()
    &&& m.iarray.spec_len() == src.arrays.len() && d.arrays.len() == src.arrays.len()
    &&& m.iobject.spec_len() == src.objects.len() && d.objects.len() == src.objects.len()
    &&& forall|i: int|
        0 <= i < src.strings.len() ==> d.strings[m.string.spec_at(i)] == #[trigger] src.strings[i]
    &&& forall|a: int|
        0 <= a < src.arrays.len() ==> d.arrays[m.iarray.spec_at(a)] == (#[trigger] src.arrays[a]).map_values(
            |v: IValue| m.spec_map(v),
        )
    &&& forall|o: int|
        0 <= o < src.objects.len() ==> same_entries(
            d.objects[m.iobject.spec_at(o)],
            (#[trigger] src.objects[o]).map_values(|e: (u32, IValue)| map_entry(m, e)),
        )
}

/// The canonical sort key of a string: its UTF-8 length, then its bytes.
pub open spec fn string_order_key(s: Seq<char>) -> (nat, Seq<u64>) {
    (encode_utf8(s).len(), bytes_key(encode_utf8(s)))
}

/// The canonical sort key of an array: its length, then its values.
pub open spec fn array_order_key(a: Seq<IValue>) -> (nat, Seq<u64>) {
    (a.len(), values_key(a))
}

/// The canonical sort key of an object: its length, then its entries.
pub open spec fn object_order_key(o: Seq<(u32, IValue)>) -> (nat, Seq<u64>) {
    (o.len(), entries_key(o))
}

/// `ids` lists the entries `xs` in non-decreasing order of `key`.
pub open spec fn ordered_by<T>(xs: Seq<T>, ids: Seq<u32>, key: spec_fn(T) -> (nat, Seq<u64>)) -> bool {
    forall|a: int, b: int|
        0 <= a < b < ids.len() ==> !key_lt(key(xs[#[trigger] ids[b] as int]), key(xs[#[trigger] ids[a] as int]))
}

/// The keys of `xs` never decrease with the id.
pub open spec fn in_order<T>(xs: Seq<T>, key: spec_fn(T) -> (nat, Seq<u64>)) -> bool {
    forall|a: int, b: int| 0 <= a < b < xs.len() ==> !key_lt(key(#[trigger] xs[b]), key(#[trigger] xs[a]))
}

/// The mapping `m` keeps the canonical order of `xs`: an entry with a smaller
/// key gets a smaller new id.
pub open spec fn order_kept<T>(xs: Seq<T>, key: spec_fn(T) -> (nat, Seq<u64>), m: MappingImpl) -> bool {
    forall|a: int, b: int|
        0 <= a < xs.len() && 0 <= b < xs.len() && key_lt(key(#[trigger] xs[a]), key(#[trigger] xs[b]))
            ==> m.spec_at(a) < m.spec_at(b)
}

/// A mapping that inverts an order sorted by key keeps that order.
proof fn lemma_order_kept<T>(xs: Seq<T>, ids: Seq<u32>, key: spec_fn(T) -> (nat, Seq<u64>), m: MappingImpl)
    requires
        ids.len() == xs.len(),
        ordered_by(xs, ids, key),
        m.spec_len() == xs.len(),
        forall|i: int| 0 <= i < xs.len() ==> 0 <= #[trigger] m.spec_at(i) < xs.len(),
        forall|i: int| 0 <= i < xs.len() ==> ids[#[trigger] m.spec_at(i)] as int == i,
    ensures
        order_kept(xs, key, m),
{
    assert forall|a: int, b: int|
        0 <= a < xs.len() && 0 <= b < xs.len() && key_lt(key(#[trigger] xs[a]), key(#[trigger] xs[b]))
            implies m.spec_at(a) < m.spec_at(b) by {
        let pa = m.spec_at(a);
        let pb = m.spec_at(b);
        assert(ids[pa] as int == a);
        assert(ids[pb] as int == b);
        lemma_key_order(key(xs[a]), key(xs[b]), key(xs[a]));
        if pa > pb {
            assert(!key_lt(key(xs[ids[pa] as int]), key(xs[ids[pb] as int])));
        }
    }
}

proof fn lemma_kept_for(v: JView, so: Seq<u32>, ao: Seq<u32>, oo: Seq<u32>, m: Mapping)
    requires
        m.wf(),
        so.len() == v.strings.len(),
        ao.len() == v.arrays.len(),
        oo.len() == v.objects.len(),
        m.string.spec_len() == v.strings.len(),
        m.iarray.spec_len() == v.arrays.len(),
        m.iobject.spec_len() == v.objects.len(),
        ordered_by(v.strings, so, |s: Seq<char>| string_order_key(s)),
        ordered_by(v.arrays, ao, |a: Seq<IValue>| array_order_key(a)),
        ordered_by(v.objects, oo, |o: Seq<(u32, IValue)>| object_order_key(o)),
        forall|i: int| 0 <= i < so.len() ==> so[#[trigger] m.string.spec_at(i)] as int == i,
        forall|i: int| 0 <= i < ao.len() ==> ao[#[trigger] m.iarray.spec_at(i)] as int == i,
        forall|i: int| 0 <= i < oo.len() ==> oo[#[trigger] m.iobject.spec_at(i)] as int == i,
    ensures
        order_kept(v.strings, |s: Seq<char>| string_order_key(s), m.string),
        order_kept(v.arrays, |a: Seq<IValue>| array_order_key(a), m.iarray),
        order_kept(v.objects, |o: Seq<(u32, IValue)>| object_order_key(o), m.iobject),
{
    assert forall|i: int| 0 <= i < v.strings.len() implies 0 <= #[trigger] m.string.spec_at(i) < v.strings.len() by {
        lemma_at_in_range(m.string, i);
    }
    assert forall|i: int| 0 <= i < v.arrays.len() implies 0 <= #[trigger] m.iarray.spec_at(i) < v.arrays.len() by {
        lemma_at_in_range(m.iarray, i);
    }
    assert forall|i: int| 0 <= i < v.objects.len() implies 0 <= #[trigger] m.iobject.spec_at(i) < v.objects.len() by {
        lemma_at_in_range(m.iobject, i);
    }
    lemma_order_kept(v.strings, so, |s: Seq<char>| string_order_key(s), m.string);
    lemma_order_kept(v.arrays, ao, |a: Seq<IValue>| array_order_key(a), m.iarray);
    lemma_order_kept(v.objects, oo, |o: Seq<(u32, IValue)>| object_order_key(o), m.iobject);
}

/// The identity keeps the order of entries that are already in order.
proof fn lemma_identity_kept<T>(xs: Seq<T>, key: spec_fn(T) -> (nat, Seq<u64>), t: MappingImpl)
    requires
        t is Identity,
        in_order(xs, key),
    ensures
        order_kept(xs, key, t),
{
    assert forall|a: int, b: int|
        0 <= a < xs.len() && 0 <= b < xs.len() && key_lt(key(#[trigger] xs[a]), key(#[trigger] xs[b]))
            implies t.spec_at(a) < t.spec_at(b) by {
        lemma_key_order(key(xs[a]), key(xs[b]), key(xs[a]));
    }
}

proof fn lemma_at_in_range(t: MappingImpl, i: int)
    requires
        t.wf(),
        0 <= i < t.spec_len(),
    ensures
        0 <= t.spec_at(i) < t.spec_len(),
{
    match t {
        MappingImpl::Identity(_) => {},
        MappingImpl::Table(tab) => {
            assert(tab@[i] < tab@.len());
        },
    }
}

/// Every arena of `v` is in canonical order.
pub open spec fn in_canonical_order(v: JView) -> bool {
    &&& in_order(v.strings, |s: Seq<char>| string_order_key(s))
    &&& in_order(v.arrays, |a: Seq<IValue>| array_order_key(a))
    &&& in_order(v.objects, |o: Seq<(u32, IValue)>| object_order_key(o))
}

/// Two JSON values are equal up to the order of object keys and repeated
/// keys: numbers by the handle that the number rule gives them, arrays
/// element by element, objects by the last value of each key.
pub open spec fn json_equiv(a: Json, b: Json) -> bool
    decreases a,
{
    match a {
        Json::Null => b is Null,
        Json::Bool(x) => b == Json::Bool(x),
        Json::Number(n) => b is Number && number_value(n) == number_value(b->Number_0),
        Json::String(s) => b is String && s@ == (b->String_0)@,
        Json::Array(xs) => b is Array && xs@.len() == (b->Array_0)@.len() && forall|k: int|
            0 <= k < xs@.len() ==> json_equiv(#[trigger] xs@[k], (b->Array_0)@[k]),
        Json::Object(es) => b is Object && {
            let fs = (b->Object_0)@;
            &&& forall|k: int|
                #![trigger es@[k]]
                is_last_key(es@, k) ==> exists|m: int|
                    #![trigger fs[m]]
                    is_last_key(fs, m) && fs[m].0@ == es@[k].0@ && json_equiv(es@[k].1, fs[m].1)
            &&& forall|m: int|
                #![trigger fs[m]]
                is_last_key(fs, m) ==> exists|k: int|
                    #![trigger es@[k]]
                    is_last_key(es@, k) && fs[m].0@ == es@[k].0@
        },
    }
}

/// A handle that stands for a JSON value stands for every equivalent one.
pub proof fn lemma_equiv_denotes(v: JView, h: IValue, a: Json, b: Json)
    requires
        v.wf(),
        json_equiv(a, b),
        v.denotes(h, b),
    ensures
        v.denotes(h, a),
    decreases a,
{
    match a {
        Json::Array(xs) => {
            let ys = b->Array_0;
            let sl = v.arrays[h->Array_0 as int];
            assert forall|k: int| 0 <= k < sl.len() implies v.denotes(sl[k], #[trigger] xs@[k]) by {
                assert(v.denotes(sl[k], ys@[k]));
                assert(json_equiv(xs@[k], ys@[k]));
                lemma_equiv_denotes(v, sl[k], xs@[k], ys@[k]);
            }
        },
        Json::Object(es) => {
            let fs = (b->Object_0)@;
            let o = v.objects[h->Object_0 as int];
            assert forall|i: int| #![trigger o[i]] 0 <= i < o.len() implies (o[i].0 as int)
                < v.strings.len() && exists|k: int|
                #![trigger es@[k]]
                is_last_key(es@, k) && es@[k].0@ == v.strings[o[i].0 as int] && v.denotes(
                    o[i].1,
                    es@[k].1,
                ) by {
                let m = choose|m: int|
                    #![trigger fs[m]]
                    is_last_key(fs, m) && fs[m].0@ == v.strings[o[i].0 as int] && v.denotes(
                        o[i].1,
                        fs[m].1,
                    );
                let k = choose|k: int| #![trigger es@[k]] is_last_key(es@, k) && fs[m].0@ == es@[k].0@;
                let m2 = choose|m2: int|
                    #![trigger fs[m2]]
                    is_last_key(fs, m2) && fs[m2].0@ == es@[k].0@ && json_equiv(es@[k].1, fs[m2].1);
                if m < m2 {
                    assert(fs[m2].0@ != fs[m].0@);
                } else if m2 < m {
                    assert(fs[m].0@ != fs[m2].0@);
                }
                let ghost obj = Json::Object(es);
                assert(decreases_to!(obj => obj->Object_0));
                assert(decreases_to!(obj->Object_0 => (obj->Object_0)@));
                assert(decreases_to!((obj->Object_0)@ => (obj->Object_0)@[k]));
                assert(decreases_to!((obj->Object_0)@[k] => (obj->Object_0)@[k].1));
                lemma_equiv_denotes(v, o[i].1, es@[k].1, fs[m].1);
            }
            assert forall|k: int| #![trigger es@[k]] 0 <= k < es@.len() implies v.has_key(o, es@[k].0@) by {
                lemma_last_occurrence(es@, k);
                let k2 = choose|k2: int| #[trigger] is_last_key(es@, k2) && es@[k2].0@ == es@[k].0@;
                assert(es@[k2] == es@[k2]);
                let m = choose|m: int|
                    #![trigger fs[m]]
                    is_last_key(fs, m) && fs[m].0@ == es@[k2].0@ && json_equiv(es@[k2].1, fs[m].1);
                assert(fs[m] == fs[m]);
                assert(v.has_key(o, fs[m].0@));
            }
        },
        _ => {},
    }
}

/// Structural dedup: in a well-formed context, JSON values that are
/// equivalent (up to key order and repeated keys) have the same handle.
pub proof fn lemma_dedup(v: JView, h1: IValue, h2: IValue, j1: Json, j2: Json)
    requires
        v.wf(),
        v.denotes(h1, j1),
        v.denotes(h2, j2),
        json_equiv(j1, j2),
    ensures
        h1 == h2,
{
    lemma_equiv_denotes(v, h2, j1, j2);
    lemma_denotes_unique(v, h1, h2, j1);
}

/// Structural dedup: in a well-formed context a JSON value has one handle at
/// most, so two JSON values that are equal up to key order and repeated keys
/// get the same handle.
pub proof fn lemma_denotes_unique(v: JView, h1: IValue, h2: IValue, j: Json)
    requires
        v.wf(),
        v.denotes(h1, j),
        v.denotes(h2, j),
    ensures
        h1 == h2,
    decreases j, 1nat,
{
    match j {
        Json::String(s) => {
            let x = h1->String_0 as int;
            let y = h2->String_0 as int;
            if x != y {
                assert(v.strings[x] != v.strings[y]);
            }
        },
        Json::Array(xs) => {
            let x = h1->Array_0 as int;
            let y = h2->Array_0 as int;
            let a1 = v.arrays[x];
            let a2 = v.arrays[y];
            assert forall|k: int| 0 <= k < a1.len() implies a1[k] == a2[k] by {
                assert(v.denotes(a1[k], xs@[k]));
                assert(v.denotes(a2[k], xs@[k]));
                lemma_denotes_unique(v, a1[k], a2[k], xs@[k]);
            }
            assert(a1 =~= a2);
            if x != y {
                assert(v.arrays[x] != v.arrays[y]);
            }
        },
        Json::Object(es) => {
            let x = h1->Object_0 as int;
            let y = h2->Object_0 as int;
            let o1 = v.objects[x];
            let o2 = v.objects[y];
            assert forall|i: int| 0 <= i < o1.len() implies o2.contains(#[trigger] o1[i]) by {
                lemma_entry_matched(v, o1, o2, es, i);
            }
            assert forall|i: int| 0 <= i < o2.len() implies o1.contains(#[trigger] o2[i]) by {
                lemma_entry_matched(v, o2, o1, es, i);
            }
            assert(keys_sorted(o1)) by {
                assert forall|p: int, q: int| 0 <= p < q < o1.len() implies #[trigger] o1[p].0 < #[trigger] o1[q].0 by {
                    assert(v.objects[x][p].0 < v.objects[x][q].0);
                }
            }
            assert(keys_sorted(o2)) by {
                assert forall|p: int, q: int| 0 <= p < q < o2.len() implies #[trigger] o2[p].0 < #[trigger] o2[q].0 by {
                    assert(v.objects[y][p].0 < v.objects[y][q].0);
                }
            }
            lemma_sorted_same_elements(o1, o2);
            if x != y {
                assert(v.objects[x] != v.objects[y]);
            }
        },
        _ => {},
    }
}

/// An entry of one object slice that stands for the entries `es` is an entry
/// of any other slice that does.
proof fn lemma_entry_matched(
    v: JView,
    o1: Seq<(u32, IValue)>,
    o2: Seq<(u32, IValue)>,
    es: Vec<(String, Json)>,
    i: int,
)
    requires
        v.wf(),
        0 <= i < o1.len(),
        forall|i: int|
            #![trigger o1[i]]
            0 <= i < o1.len() ==> (o1[i].0 as int) < v.strings.len() && exists|k: int|
                #![trigger es@[k]]
                is_last_key(es@, k) && es@[k].0@ == v.strings[o1[i].0 as int] && v.denotes(
                    o1[i].1,
                    es@[k].1,
                ),
        forall|i: int|
            #![trigger o2[i]]
            0 <= i < o2.len() ==> (o2[i].0 as int) < v.strings.len() && exists|k: int|
                #![trigger es@[k]]
                is_last_key(es@, k) && es@[k].0@ == v.strings[o2[i].0 as int] && v.denotes(
                    o2[i].1,
                    es@[k].1,
                ),
        forall|k: int| #![trigger es@[k]] 0 <= k < es@.len() ==> v.has_key(o2, es@[k].0@),
    ensures
        o2.contains(o1[i]),
    decreases Json::Object(es), 0nat,
{
    let k = choose|k: int|
        #![trigger es@[k]]
        is_last_key(es@, k) && es@[k].0@ == v.strings[o1[i].0 as int] && v.denotes(o1[i].1, es@[k].1);
    assert(v.has_key(o2, es@[k].0@));
    let i2 = choose|i2: int| 0 <= i2 < o2.len() && v.strings[#[trigger] o2[i2].0 as int] == es@[k].0@;
    let k2 = choose|k2: int|
        #![trigger es@[k2]]
        is_last_key(es@, k2) && es@[k2].0@ == v.strings[o2[i2].0 as int] && v.denotes(o2[i2].1, es@[k2].1);
    if k < k2 {
        assert(es@[k2].0@ != es@[k].0@);
    } else if k2 < k {
        assert(es@[k].0@ != es@[k2].0@);
    }
    assert(k == k2);
    let ghost obj = Json::Object(es);
    assert(decreases_to!(obj => obj->Object_0));
    assert(decreases_to!(obj->Object_0 => (obj->Object_0)@));
    assert(decreases_to!((obj->Object_0)@ => (obj->Object_0)@[k]));
    assert(decreases_to!((obj->Object_0)@[k] => (obj->Object_0)@[k].1));
    lemma_denotes_unique(v, o1[i].1, o2[i2].1, es@[k].1);
    if o1[i].0 != o2[i2].0 {
        assert(v.strings[o1[i].0 as int] != v.strings[o2[i2].0 as int]);
    }
    assert(o1[i] == o2[i2]);
}

/// A mapping that covers a context sends distinct values of it to distinct
/// values.
proof fn lemma_map_injective(v: JView, m: Mapping, a: IValue, b: IValue)
    requires
        v.wf(),
        m.wf(),
        m.string.spec_len() == v.strings.len(),
        m.iarray.spec_len() == v.arrays.len(),
        m.iobject.spec_len() == v.objects.len(),
        v.in_range(a),
        v.in_range(b),
        m.spec_map(a) == m.spec_map(b),
    ensures
        a == b,
{
    match (a, b) {
        (IValue::String(x), IValue::String(y)) => {
            lemma_map_id_injective(m.string, x, y);
        },
        (IValue::Array(x), IValue::Array(y)) => {
            lemma_map_id_injective(m.iarray, x, y);
        },
        (IValue::Object(x), IValue::Object(y)) => {
            lemma_map_id_injective(m.iobject, x, y);
        },
        _ => {},
    }
}

proof fn lemma_map_id_injective(t: MappingImpl, x: u32, y: u32)
    requires
        t.wf(),
        (x as nat) < t.spec_len(),
        (y as nat) < t.spec_len(),
        t.spec_len() <= u32::MAX,
        map_id(t, x) == map_id(t, y),
    ensures
        x == y,
{
    match t {
        MappingImpl::Identity(_) => {},
        MappingImpl::Table(tab) => {
            assert(tab@[x as int] < tab@.len());
            assert(tab@[y as int] < tab@.len());
            if x != y {
                assert(tab@[x as int] != tab@[y as int]);
            }
        },
    }
}

/// Renumbering by `m1`, then by `m2` which keeps strings in place, is
/// renumbering by their composition `c`.
proof fn lemma_renumbered_compose(src: JView, d1: JView, m1: Mapping, d2: JView, m2: Mapping, c: Mapping)
    requires
        src.wf(),
        renumbered(src, d1, m1),
        renumbered(d1, d2, m2),
        m1.wf(),
        m2.wf(),
        m2.string is Identity,
        c.string == m1.string,
        c.iarray.spec_len() == m1.iarray.spec_len(),
        c.iobject.spec_len() == m1.iobject.spec_len(),
        forall|v: IValue| #[trigger]
            m1.covers(v) ==> c.covers(v) && c.spec_map(v) == m2.spec_map(m1.spec_map(v)),
    ensures
        renumbered(src, d2, c),
{
    assert forall|i: int| 0 <= i < src.strings.len() implies d2.strings[c.string.spec_at(i)]
        == #[trigger] src.strings[i] by {
        let k = m1.string.spec_at(i);
        assert(d2.strings[m2.string.spec_at(k)] == d1.strings[k]);
    }
    assert forall|a: int| 0 <= a < src.arrays.len() implies d2.arrays[c.iarray.spec_at(a)]
        == (#[trigger] src.arrays[a]).map_values(|v: IValue| c.spec_map(v)) by {
        assert(m1.covers(IValue::Array(a as u32)));
        let k = m1.iarray.spec_at(a);
        assert(c.iarray.spec_at(a) == m2.iarray.spec_at(k));
        assert(d1.arrays[k] == src.arrays[a].map_values(|v: IValue| m1.spec_map(v)));
        assert(d2.arrays[m2.iarray.spec_at(k)] == d1.arrays[k].map_values(|v: IValue| m2.spec_map(v)));
        let lhs = src.arrays[a].map_values(|v: IValue| c.spec_map(v));
        assert forall|y: int| 0 <= y < src.arrays[a].len() implies #[trigger] lhs[y]
            == d2.arrays[c.iarray.spec_at(a)][y] by {
            assert(src.in_range(src.arrays[a][y]));
            assert(m1.covers(src.arrays[a][y]));
        }
        assert(lhs =~= d2.arrays[c.iarray.spec_at(a)]);
    }
    assert forall|o: int| 0 <= o < src.objects.len() implies same_entries(
        d2.objects[c.iobject.spec_at(o)],
        (#[trigger] src.objects[o]).map_values(|e: (u32, IValue)| map_entry(c, e)),
    ) by {
        assert(m1.covers(IValue::Object(o as u32)));
        let k = m1.iobject.spec_at(o);
        let k2 = m2.iobject.spec_at(k);
        assert(c.iobject.spec_at(o) == k2);
        let s0 = src.objects[o];
        let s1 = d1.objects[k];
        let s2 = d2.objects[k2];
        let t1 = s0.map_values(|e: (u32, IValue)| map_entry(m1, e));
        let rest_t = s1.map_values(|e: (u32, IValue)| map_entry(m2, e));
        let tc = s0.map_values(|e: (u32, IValue)| map_entry(c, e));
        assert(same_entries(s1, t1));
        assert(same_entries(s2, rest_t));
        assert forall|j: int| 0 <= j < s0.len() implies #[trigger] tc[j] == map_entry(m2, t1[j]) by {
            assert(src.in_range(s0[j].1));
            assert((s0[j].0 as int) < src.strings.len());
            assert(m1.covers(s0[j].1));
            assert(m1.covers(IValue::String(s0[j].0)));
        }
        assert forall|i: int| 0 <= i < s2.len() implies tc.contains(#[trigger] s2[i]) by {
            assert(rest_t.contains(s2[i]));
            let i1 = choose|i1: int| 0 <= i1 < rest_t.len() && rest_t[i1] == s2[i];
            assert(t1.contains(s1[i1]));
            let j = choose|j: int| 0 <= j < t1.len() && t1[j] == s1[i1];
            assert(tc[j] == s2[i]);
        }
        assert forall|j: int| 0 <= j < tc.len() implies s2.contains(#[trigger] tc[j]) by {
            assert(s1.contains(t1[j]));
            let i1 = choose|i1: int| 0 <= i1 < s1.len() && s1[i1] == t1[j];
            assert(s2.contains(rest_t[i1]));
        }
    }
}

/// Optimizing preserves values: a handle that stands for `j` in the source
/// context, once mapped, stands for `j` in the destination context.
pub proof fn lemma_renumbered_denotes(src: JView, d: JView, m: Mapping, h: IValue, j: Json)
    requires
        src.wf(),
        m.wf(),
        renumbered(src, d, m),
        src.denotes(h, j),
    ensures
        d.denotes(m.spec_map(h), j),
    decreases j,
{
    match j {
        Json::String(s) => {
            let id = h->String_0;
            assert(d.strings[m.string.spec_at(id as int)] == src.strings[id as int]);
        },
        Json::Array(xs) => {
            let id = h->Array_0 as int;
            let a = src.arrays[id];
            let b = d.arrays[m.iarray.spec_at(id)];
            assert(b == a.map_values(|v: IValue| m.spec_map(v)));
            assert forall|k: int| 0 <= k < b.len() implies d.denotes(b[k], #[trigger] xs@[k]) by {
                lemma_renumbered_denotes(src, d, m, a[k], xs@[k]);
            }
        },
        Json::Object(es) => {
            let id = h->Object_0 as int;
            let o = src.objects[id];
            let o2 = d.objects[m.iobject.spec_at(id)];
            let t = o.map_values(|e: (u32, IValue)| map_entry(m, e));
            assert(same_entries(o2, t));
            assert(d.objects[m.spec_map(h)->Object_0 as int] == o2);
            assert forall|i: int| #![trigger o2[i]] 0 <= i < o2.len() implies (o2[i].0 as int)
                < d.strings.len() && exists|k: int|
                #![trigger es@[k]]
                is_last_key(es@, k) && es@[k].0@ == d.strings[o2[i].0 as int] && d.denotes(
                    o2[i].1,
                    es@[k].1,
                ) by {
                assert(t.contains(o2[i]));
                let jj = choose|jj: int| 0 <= jj < t.len() && t[jj] == o2[i];
                assert(o[jj] == o[jj]);
                let k = choose|k: int|
                    #![trigger es@[k]]
                    is_last_key(es@, k) && es@[k].0@ == src.strings[o[jj].0 as int] && src.denotes(
                        o[jj].1,
                        es@[k].1,
                    );
                assert(d.strings[m.string.spec_at(o[jj].0 as int)] == src.strings[o[jj].0 as int]);
                lemma_renumbered_denotes(src, d, m, o[jj].1, es@[k].1);
            }
            assert forall|k: int| #![trigger es@[k]] 0 <= k < es@.len() implies d.has_key(o2, es@[k].0@) by {
                assert(src.has_key(o, es@[k].0@));
                let i0 = choose|i0: int| 0 <= i0 < o.len() && src.strings[#[trigger] o[i0].0 as int] == es@[k].0@;
                assert(o2.contains(t[i0]));
                let i = choose|i: int| 0 <= i < o2.len() && o2[i] == t[i0];
                assert(d.strings[m.string.spec_at(o[i0].0 as int)] == src.strings[o[i0].0 as int]);
                assert(d.strings[o2[i].0 as int] == es@[k].0@);
            }
        },
        _ => {},
    }
}

proof fn lemma_total_bytes_prefix(s: Seq<Seq<char>>, k: int)
    requires
        0 <= k <= s.len(),
    ensures
        total_bytes(s.subrange(0, k)) <= total_bytes(s),
    decreases s.len(),
{
    if k < s.len() {
        lemma_total_bytes_prefix(s.drop_last(), k);
        assert(s.drop_last().subrange(0, k) =~= s.subrange(0, k));
    } else {
        assert(s.subrange(0, k) =~= s);
    }
}

proof fn lemma_total_len_prefix<T>(s: Seq<Seq<T>>, k: int)
    requires
        0 <= k <= s.len(),
    ensures
        total_len(s.subrange(0, k)) <= total_len(s),
    decreases s.len(),
{
    if k < s.len() {
        lemma_total_len_prefix(s.drop_last(), k);
        assert(s.drop_last().subrange(0, k) =~= s.subrange(0, k));
    } else {
        assert(s.subrange(0, k) =~= s);
    }
}

fn value_in_range(v: IValue, ns: usize, na: usize, no: usize) -> (r: bool)
    ensures
        r == in_range_of(v, ns as nat, na as nat, no as nat),
{
    match v {
        IValue::String(x) => (x as usize) < ns,
        IValue::Array(x) => (x as usize) < na,
        IValue::Object(x) => (x as usize) < no,
        _ => true,
    }
}

/// Whether `v` names entries of a context with the given arena lengths.
pub open spec fn in_range_of(v: IValue, ns: nat, na: nat, no: nat) -> bool {
    match v {
        IValue::String(x) => (x as nat) < ns,
        IValue::Array(x) => (x as nat) < na,
        IValue::Object(x) => (x as nat) < no,
        _ => true,
    }
}

proof fn lemma_total_bytes_remove(t: Seq<Seq<char>>, q: int)
    requires
        0 <= q < t.len(),
    ensures
        total_bytes(t) == total_bytes(t.remove(q)) + encode_utf8(t[q]).len(),
    decreases t.len(),
{
    if q == t.len() - 1 {
        assert(t.remove(q) =~= t.drop_last());
    } else {
        lemma_total_bytes_remove(t.drop_last(), q);
        assert(t.remove(q).drop_last() =~= t.drop_last().remove(q));
        assert(t.remove(q).last() == t.last());
    }
}

proof fn lemma_total_len_remove<T>(t: Seq<Seq<T>>, q: int)
    requires
        0 <= q < t.len(),
    ensures
        total_len(t) == total_len(t.remove(q)) + t[q].len(),
    decreases t.len(),
{
    if q == t.len() - 1 {
        assert(t.remove(q) =~= t.drop_last());
    } else {
        lemma_total_len_remove(t.drop_last(), q);
        assert(t.remove(q).drop_last() =~= t.drop_last().remove(q));
        assert(t.remove(q).last() == t.last());
    }
}

/// Strings picked from `s` at distinct ids hold no more bytes than `s`.
proof fn lemma_total_bytes_pick(s: Seq<Seq<char>>, p: Seq<u32>)
    requires
        crate::mapping::injective(p),
        forall|i: int| 0 <= i < p.len() ==> (#[trigger] p[i] as int) < s.len(),
    ensures
        total_bytes(Seq::new(p.len(), |x: int| s[p[x] as int])) <= total_bytes(s),
    decreases s.len(),
{
    let t = Seq::new(p.len(), |x: int| s[p[x] as int]);
    if s.len() == 0 {
        if p.len() > 0 {
            assert((p[0] as int) < s.len());
        }
        assert(t =~= Seq::<Seq<char>>::empty());
    } else {
        let last = s.len() - 1;
        let sd = s.drop_last();
        if exists|q: int| 0 <= q < p.len() && p[q] as int == last {
            let q = choose|q: int| 0 <= q < p.len() && p[q] as int == last;
            let rest = p.remove(q);
            assert forall|i: int| 0 <= i < rest.len() implies (#[trigger] rest[i] as int) < sd.len() by {
                let i0 = if i < q { i } else { i + 1 };
                assert(rest[i] == p[i0]);
                assert(p[i0] != p[q]);
            }
            assert forall|a: int, b: int| 0 <= a < rest.len() && 0 <= b < rest.len() && a != b implies #[trigger] rest[a]
                != #[trigger] rest[b] by {
                let a0 = if a < q { a } else { a + 1 };
                let b0 = if b < q { b } else { b + 1 };
                assert(rest[a] == p[a0]);
                assert(rest[b] == p[b0]);
            }
            lemma_total_bytes_pick(sd, rest);
            assert(t.remove(q) =~= Seq::new(rest.len(), |x: int| sd[rest[x] as int]));
            lemma_total_bytes_remove(t, q);
        } else {
            assert forall|i: int| 0 <= i < p.len() implies (#[trigger] p[i] as int) < sd.len() by {}
            lemma_total_bytes_pick(sd, p);
            assert(t =~= Seq::new(p.len(), |x: int| sd[p[x] as int]));
        }
    }
}

/// Slices no longer than the slices of `s` at distinct ids hold no more
/// items than `s`.
proof fn lemma_total_len_pick<T, U>(s: Seq<Seq<U>>, p: Seq<u32>, t: Seq<Seq<T>>)
    requires
        crate::mapping::injective(p),
        forall|i: int| 0 <= i < p.len() ==> (#[trigger] p[i] as int) < s.len(),
        t.len() == p.len(),
        forall|i: int| 0 <= i < t.len() ==> (#[trigger] t[i]).len() <= s[p[i] as int].len(),
    ensures
        total_len(t) <= total_len(s),
    decreases s.len(),
{
    if s.len() == 0 {
        if p.len() > 0 {
            assert((p[0] as int) < s.len());
        }
        assert(t =~= Seq::<Seq<T>>::empty());
    } else {
        let last = s.len() - 1;
        let sd = s.drop_last();
        if exists|q: int| 0 <= q < p.len() && p[q] as int == last {
            let q = choose|q: int| 0 <= q < p.len() && p[q] as int == last;
            let rest = p.remove(q);
            let rest_t = t.remove(q);
            assert forall|i: int| 0 <= i < rest.len() implies (#[trigger] rest[i] as int) < sd.len() by {
                let i0 = if i < q { i } else { i + 1 };
                assert(rest[i] == p[i0]);
                assert(p[i0] != p[q]);
            }
            assert forall|a: int, b: int| 0 <= a < rest.len() && 0 <= b < rest.len() && a != b implies #[trigger] rest[a]
                != #[trigger] rest[b] by {
                let a0 = if a < q { a } else { a + 1 };
                let b0 = if b < q { b } else { b + 1 };
                assert(rest[a] == p[a0]);
                assert(rest[b] == p[b0]);
            }
            assert forall|i: int| 0 <= i < rest_t.len() implies (#[trigger] rest_t[i]).len() <= sd[rest[i] as int].len() by {
                let i0 = if i < q { i } else { i + 1 };
                assert(rest_t[i] == t[i0]);
                assert(rest[i] == p[i0]);
                assert(t[i0].len() <= s[p[i0] as int].len());
            }
            lemma_total_len_pick(sd, rest, rest_t);
            lemma_total_len_remove(t, q);
            assert(t[q].len() <= s.last().len());
        } else {
            assert forall|i: int| 0 <= i < p.len() implies (#[trigger] p[i] as int) < sd.len() by {}
            assert forall|i: int| 0 <= i < t.len() implies (#[trigger] t[i]).len() <= sd[p[i] as int].len() by {
                assert(t[i].len() <= s[p[i] as int].len());
            }
            lemma_total_len_pick(sd, p, t);
        }
    }
}

proof fn lemma_utf8_nonempty(s: Seq<char>)
    requires
        s.len() > 0,
    ensures
        encode_utf8(s).len() > 0,
{
    let c = s[0] as u32;
    assert(vstd::utf8::encode_scalar(c).len() >= 1);
}

/// `r` is the shallow view of the handle `h` in the context `v`.
pub open spec fn shallow_view(v: JView, h: IValue, r: ValueRef<'_>) -> bool {
    match (h, r) {
        (IValue::Null, ValueRef::Null) => true,
        (IValue::Bool(a), ValueRef::Bool(b)) => a == b,
        (IValue::U64(a), ValueRef::U64(b)) => a == b,
        (IValue::I64(a), ValueRef::I64(b)) => a == b,
        (IValue::F64(a), ValueRef::F64(b)) => a == b,
        (IValue::String(id), ValueRef::String(s)) => s@ == v.strings[id as int],
        (IValue::Array(id), ValueRef::Array(a)) => a.values() == v.arrays[id as int],
        (IValue::Object(id), ValueRef::Object(m)) => {
            &&& m.entries() == v.objects[id as int]
            &&& m.strings() == v.strings
            &&& m.wf()
        },
        _ => false,
    }
}

/// The size of a context: its numbers of strings, arrays and objects, and
/// the bytes and items that they hold.
pub open spec fn size_of(v: JView) -> nat {
    v.strings.len() + v.arrays.len() + v.objects.len() + total_bytes(v.strings) + total_len(v.arrays)
        + total_len(v.objects)
}

/// The context `v` with the string `s` appended unless it already holds it,
/// and the id of `s`.
pub open spec fn add_string(v: JView, s: Seq<char>) -> (JView, u32) {
    if v.strings.contains(s) {
        (v, (choose|i: int| 0 <= i < v.strings.len() && v.strings[i] == s) as u32)
    } else {
        (JView { strings: v.strings.push(s), arrays: v.arrays, objects: v.objects }, v.strings.len() as u32)
    }
}

/// The context `v` with the array slice `a` appended unless it already
/// holds it, and the id of `a`.
pub open spec fn add_array(v: JView, a: Seq<IValue>) -> (JView, u32) {
    if v.arrays.contains(a) {
        (v, (choose|i: int| 0 <= i < v.arrays.len() && v.arrays[i] == a) as u32)
    } else {
        (JView { strings: v.strings, arrays: v.arrays.push(a), objects: v.objects }, v.arrays.len() as u32)
    }
}

/// The context `v` with the object slice `o` appended unless it already
/// holds it, and the id of `o`.
pub open spec fn add_object(v: JView, o: Seq<(u32, IValue)>) -> (JView, u32) {
    if v.objects.contains(o) {
        (v, (choose|i: int| 0 <= i < v.objects.len() && v.objects[i] == o) as u32)
    } else {
        (JView { strings: v.strings, arrays: v.arrays, objects: v.objects.push(o) }, v.objects.len() as u32)
    }
}

/// The context after interning `j` into `v`, and the handle of `j`: the
/// value is walked depth first, left to right (for an object, each key and
/// then its value), and each string, array slice and object slice that `v`
/// does not hold yet is appended when the walk leaves it.
pub open spec fn interned(v: JView, j: Json) -> (JView, IValue)
    decreases j, 1nat, 0nat,
{
    match j {
        Json::Null => (v, IValue::Null),
        Json::Bool(b) => (v, IValue::Bool(b)),
        Json::Number(n) => (v, number_value(n)),
        Json::String(s) => {
            let (w, id) = add_string(v, s@);
            (w, IValue::String(id))
        },
        Json::Array(xs) => {
            let (w, hs) = interned_items(v, j, xs@.len() as nat);
            let (w2, id) = add_array(w, hs);
            (w2, IValue::Array(id))
        },
        Json::Object(es) => {
            let (w, ps) = interned_entries(v, j, es@.len() as nat);
            let (w2, id) = add_object(w, canonical_of(ps));
            (w2, IValue::Object(id))
        },
    }
}

/// Interning the first `k` elements of the array `j` into `v`, in order.
pub open spec fn interned_items(v: JView, j: Json, k: nat) -> (JView, Seq<IValue>)
    decreases j, 0nat, k,
{
    if k == 0 {
        (v, Seq::empty())
    } else {
        match j {
            Json::Array(xs) => if k <= xs@.len() {
                let (w, hs) = interned_items(v, j, (k - 1) as nat);
                let (w2, h) = interned(w, xs@[k - 1]);
                (w2, hs.push(h))
            } else {
                (v, Seq::empty())
            },
            _ => (v, Seq::empty()),
        }
    }
}

/// Interning the first `k` entries of the object `j` into `v`, in order:
/// each key, then its value.
pub open spec fn interned_entries(v: JView, j: Json, k: nat) -> (JView, Seq<(u32, IValue)>)
    decreases j, 0nat, k,
{
    if k == 0 {
        (v, Seq::empty())
    } else {
        match j {
            Json::Object(es) => if k <= es@.len() {
                let (w, ps) = interned_entries(v, j, (k - 1) as nat);
                let (w1, kid) = add_string(w, es@[k - 1].0@);
                let (w2, h) = interned(w1, es@[k - 1].1);
                (w2, ps.push((kid, h)))
            } else {
                (v, Seq::empty())
            },
            _ => (v, Seq::empty()),
        }
    }
}

/// No object inside `j` repeats a key.
pub open spec fn keys_unique(j: Json) -> bool
    decreases j,
{
    match j {
        Json::Array(v) => forall|k: int| 0 <= k < v@.len() ==> keys_unique(#[trigger] v@[k]),
        Json::Object(es) => {
            &&& forall|a: int, b: int|
                0 <= a < es@.len() && 0 <= b < es@.len() && a != b ==> (#[trigger] es@[a]).0@
                    != (#[trigger] es@[b]).0@
            &&& forall|k: int| #![trigger es@[k]] 0 <= k < es@.len() ==> keys_unique(es@[k].1)
        },
        _ => true,
    }
}

/// Some handle stands for `j` in `v`.
pub open spec fn holds(v: JView, j: Json) -> bool {
    exists|h: IValue| #[trigger] v.denotes(h, j)
}

/// How much interning `j` may add to the size of a context, at most: one
/// per string, array and object, plus their bytes and items.
pub open spec fn json_cost(j: Json) -> nat
    decreases j, 1nat, 0nat,
{
    match j {
        Json::String(s) => 1 + encode_utf8(s@).len(),
        Json::Array(v) => 1 + v@.len() + children_cost(j, v@.len() as nat),
        Json::Object(es) => 1 + es@.len() + children_cost(j, es@.len() as nat),
        _ => 0,
    }
}

/// The cost of the first `k` children of `j`: elements of an array, keys
/// and values of an object.
pub open spec fn children_cost(j: Json, k: nat) -> nat
    decreases j, 0nat, k,
{
    if k == 0 {
        0
    } else {
        match j {
            Json::Array(v) => if k <= v@.len() {
                children_cost(j, (k - 1) as nat) + json_cost(v@[k - 1])
            } else {
                0
            },
            Json::Object(es) => if k <= es@.len() {
                children_cost(j, (k - 1) as nat) + 1 + encode_utf8(es@[k - 1].0@).len() + json_cost(
                    es@[k - 1].1,
                )
            } else {
                0
            },
            _ => 0,
        }
    }
}

/// The number of children of `j`: elements of an array, entries of an
/// object.
pub open spec fn num_children(j: Json) -> nat {
    match j {
        Json::Array(v) => v@.len(),
        Json::Object(es) => es@.len(),
        _ => 0,
    }
}

proof fn lemma_children_cost_mono(j: Json, k1: nat, k2: nat)
    requires
        k1 <= k2 <= num_children(j),
    ensures
        children_cost(j, k1) <= children_cost(j, k2),
    decreases k2,
{
    if k1 < k2 {
        lemma_children_cost_mono(j, k1, (k2 - 1) as nat);
        assert(children_cost(j, (k2 - 1) as nat) <= children_cost(j, k2));
    }
}

/// The handle of an interned number: non-negative integers are `U64`,
/// other integers `I64`, the rest `F64`.
pub open spec fn number_value(n: JsonNumber) -> IValue {
    match n {
        JsonNumber::U64(x) => IValue::U64(x),
        JsonNumber::I64(x) => if x >= 0 {
            IValue::U64(x as u64)
        } else {
            IValue::I64(x)
        },
        JsonNumber::F64(x) => IValue::F64(x),
    }
}

impl JView {
    /// The ids of `v` name entries of this context.
    pub open spec fn in_range(&self, v: IValue) -> bool {
        match v {
            IValue::String(x) => (x as int) < self.strings.len(),
            IValue::Array(x) => (x as int) < self.arrays.len(),
            IValue::Object(x) => (x as int) < self.objects.len(),
            _ => true,
        }
    }

    /// The invariants of a context: string 0 is empty, strings, arrays and
    /// objects are each unique, every id in range, and the entries of every
    /// object strictly sorted by key id.
    pub open spec fn wf(&self) -> bool {
        &&& self.strings.len() >= 1
        &&& self.strings[0] == Seq::<char>::empty()
        &&& self.strings.len() <= u32::MAX
        &&& self.arrays.len() <= u32::MAX
        &&& self.objects.len() <= u32::MAX
        &&& forall|i: int, j: int|
            0 <= i < self.strings.len() && 0 <= j < self.strings.len() && i != j
                ==> #[trigger] self.strings[i] != #[trigger] self.strings[j]
        &&& forall|i: int, j: int|
            0 <= i < self.arrays.len() && 0 <= j < self.arrays.len() && i != j
                ==> #[trigger] self.arrays[i] != #[trigger] self.arrays[j]
        &&& forall|i: int, j: int|
            0 <= i < self.objects.len() && 0 <= j < self.objects.len() && i != j
                ==> #[trigger] self.objects[i] != #[trigger] self.objects[j]
        &&& forall|a: int, k: int|
            0 <= a < self.arrays.len() && 0 <= k < self.arrays[a].len() ==> self.in_range(
                #[trigger] self.arrays[a][k],
            )
        &&& forall|o: int, k: int|
            0 <= o < self.objects.len() && 0 <= k < self.objects[o].len() ==> {
                &&& (#[trigger] self.objects[o][k]).0 < self.strings.len()
                &&& self.in_range(self.objects[o][k].1)
            }
        &&& forall|o: int, k1: int, k2: int|
            0 <= o < self.objects.len() && 0 <= k1 < k2 < self.objects[o].len()
                ==> #[trigger] self.objects[o][k1].0 < #[trigger] self.objects[o][k2].0
    }

    /// `other` holds everything that this context holds, under the same ids.
    pub open spec fn extended_by(&self, other: JView) -> bool {
        &&& self.strings.len() <= other.strings.len()
        &&& self.arrays.len() <= other.arrays.len()
        &&& self.objects.len() <= other.objects.len()
        &&& forall|i: int| 0 <= i < self.strings.len() ==> other.strings[i] == #[trigger] self.strings[i]
        &&& forall|i: int| 0 <= i < self.arrays.len() ==> other.arrays[i] == #[trigger] self.arrays[i]
        &&& forall|i: int| 0 <= i < self.objects.len() ==> other.objects[i] == #[trigger] self.objects[i]
    }

    /// `r` is the JSON value rebuilt from `h`: each number with the variant of
    /// its handle, each array element by element, each object with one entry
    /// per stored entry, in key-id order.
    pub open spec fn rebuilt(&self, h: IValue, r: Json) -> bool
        decreases r,
    {
        match (h, r) {
            (IValue::Null, Json::Null) => true,
            (IValue::Bool(a), Json::Bool(b)) => a == b,
            (IValue::U64(x), Json::Number(n)) => n == JsonNumber::U64(x),
            (IValue::I64(x), Json::Number(n)) => n == JsonNumber::I64(x),
            (IValue::F64(x), Json::Number(n)) => n == JsonNumber::F64(x),
            (IValue::String(id), Json::String(s)) => (id as int) < self.strings.len() && s@
                == self.strings[id as int],
            (IValue::Array(id), Json::Array(v)) => (id as int) < self.arrays.len() && {
                let a = self.arrays[id as int];
                &&& v@.len() == a.len()
                &&& forall|k: int| 0 <= k < a.len() ==> self.rebuilt(a[k], #[trigger] v@[k])
            },
            (IValue::Object(id), Json::Object(es)) => (id as int) < self.objects.len() && {
                let o = self.objects[id as int];
                &&& es@.len() == o.len()
                &&& forall|i: int|
                    0 <= i < o.len() ==> (#[trigger] es@[i]).0@ == self.strings[o[i].0 as int]
                        && self.rebuilt(o[i].1, es@[i].1)
            },
            _ => false,
        }
    }

    /// One of the entries `o` has the key `key`.
    pub open spec fn has_key(&self, o: Seq<(u32, IValue)>, key: Seq<char>) -> bool {
        exists|i: int| 0 <= i < o.len() && self.strings[#[trigger] o[i].0 as int] == key
    }

    /// The handle `h` stands for the JSON value `j` in this context: strings
    /// and arrays element by element, objects key by key, where the last
    /// occurrence of a key counts.
    pub open spec fn denotes(&self, h: IValue, j: Json) -> bool
        decreases j,
    {
        match j {
            Json::Null => h == IValue::Null,
            Json::Bool(b) => h == IValue::Bool(b),
            Json::Number(n) => h == number_value(n),
            Json::String(s) => h is String && (h->String_0 as int) < self.strings.len()
                && self.strings[h->String_0 as int] == s@,
            Json::Array(v) => h is Array && (h->Array_0 as int) < self.arrays.len() && {
                let a = self.arrays[h->Array_0 as int];
                &&& a.len() == v@.len()
                &&& forall|k: int| 0 <= k < a.len() ==> self.denotes(a[k], #[trigger] v@[k])
            },
            Json::Object(es) => h is Object && (h->Object_0 as int) < self.objects.len() && {
                let o = self.objects[h->Object_0 as int];
                &&& forall|i: int|
                    #![trigger o[i]]
                    0 <= i < o.len() ==> (o[i].0 as int) < self.strings.len() && exists|k: int|
                        #![trigger es@[k]]
                        is_last_key(es@, k) && es@[k].0@ == self.strings[o[i].0 as int]
                            && self.denotes(o[i].1, es@[k].1)
                &&& forall|k: int|
                    #![trigger es@[k]]
                    0 <= k < es@.len() ==> self.has_key(o, es@[k].0@)
            },
        }
    }
}

/// What a context denotes stays so when the context grows.
pub proof fn lemma_denotes_extended(v: JView, w: JView, h: IValue, j: Json)
    requires
        v.extended_by(w),
        v.denotes(h, j),
    ensures
        w.denotes(h, j),
    decreases j,
{
    match j {
        Json::Array(xs) => {
            let a = v.arrays[h->Array_0 as int];
            assert(w.arrays[h->Array_0 as int] == a);
            assert forall|k: int| 0 <= k < a.len() implies w.denotes(a[k], #[trigger] xs@[k]) by {
                lemma_denotes_extended(v, w, a[k], xs@[k]);
            }
            assert(w.denotes(h, j));
        },
        Json::Object(es) => {
            let o = w.objects[h->Object_0 as int];
            assert(v.objects[h->Object_0 as int] == o);
            assert forall|i: int| #![trigger o[i]] 0 <= i < o.len() implies (o[i].0 as int)
                < w.strings.len() && exists|k: int|
                #![trigger es@[k]]
                is_last_key(es@, k) && es@[k].0@ == w.strings[o[i].0 as int] && w.denotes(
                    o[i].1,
                    es@[k].1,
                ) by {
                let k = choose|k: int|
                    #![trigger es@[k]]
                    is_last_key(es@, k) && es@[k].0@ == v.strings[o[i].0 as int] && v.denotes(
                        o[i].1,
                        es@[k].1,
                    );
                assert(w.strings[o[i].0 as int] == v.strings[o[i].0 as int]);
                lemma_denotes_extended(v, w, o[i].1, es@[k].1);
            }
            assert forall|k: int| #![trigger es@[k]] 0 <= k < es@.len() implies w.has_key(
                o,
                es@[k].0@,
            ) by {
                assert(v.has_key(o, es@[k].0@));
                let i = choose|i: int| 0 <= i < o.len() && v.strings[#[trigger] o[i].0 as int] == es@[k].0@;
                assert(w.strings[o[i].0 as int] == v.strings[o[i].0 as int]);
            }
            assert(w.denotes(h, j));
        },
        _ => {},
    }
}

/// Adding strings keeps the array and object invariants.
proof fn lemma_wf_grown_strings(v: JView, w: JView)
    requires
        v.wf(),
        v.extended_by(w),
        w.arrays == v.arrays,
        w.objects == v.objects,
    ensures
        forall|a: int, k: int|
            0 <= a < w.arrays.len() && 0 <= k < w.arrays[a].len() ==> w.in_range(
                #[trigger] w.arrays[a][k],
            ),
        forall|o: int, k: int|
            0 <= o < w.objects.len() && 0 <= k < w.objects[o].len() ==> {
                &&& (#[trigger] w.objects[o][k]).0 < w.strings.len()
                &&& w.in_range(w.objects[o][k].1)
            },
{
    assert forall|a: int, k: int|
        0 <= a < w.arrays.len() && 0 <= k < w.arrays[a].len() implies w.in_range(
            #[trigger] w.arrays[a][k],
        ) by {
        assert(v.in_range(v.arrays[a][k]));
    }
    assert forall|o: int, k: int|
        0 <= o < w.objects.len() && 0 <= k < w.objects[o].len() implies {
            &&& (#[trigger] w.objects[o][k]).0 < w.strings.len()
            &&& w.in_range(w.objects[o][k].1)
        } by {
        assert(v.in_range(v.objects[o][k].1));
    }
}

/// Growth of a context is transitive.
proof fn lemma_extended_trans(u: JView, v: JView, w: JView)
    requires
        u.extended_by(v),
        v.extended_by(w),
    ensures
        u.extended_by(w),
{
}

/// A handle that stands for a value names entries of its context.
proof fn lemma_denotes_in_range(v: JView, h: IValue, j: Json)
    requires
        v.denotes(h, j),
    ensures
        v.in_range(h),
{
}

impl View for Jinterners {
    type V = JView;

    closed spec fn view(&self) -> JView {
        JView {
            strings: str_contents(self.string),
            arrays: cell_slices(self.iarray).map_values(
                |s: Seq<Cell>| s.map_values(|c: Cell| cell_value(c)),
            ),
            objects: entry_slices(self.iobject).map_values(
                |s: Seq<EntryCell>| s.map_values(|e: EntryCell| entry_value(e)),
            ),
        }
    }
}

fn value_to_cell(v: IValue) -> (r: Cell)
    ensures
        r == value_cell(v),
{
    match v {
        IValue::Null => (0u8, 0u64),
        IValue::Bool(b) => (1u8, if b { 1u64 } else { 0u64 }),
        IValue::U64(x) => (2u8, x),
        IValue::I64(x) => (3u8, x as u64),
        IValue::F64(x) => (4u8, x),
        IValue::String(x) => (5u8, x as u64),
        IValue::Array(x) => (6u8, x as u64),
        IValue::Object(x) => (7u8, x as u64),
    }
}

fn cell_to_value(c: Cell) -> (r: IValue)
    ensures
        r == cell_value(c),
{
    if c.0 == 0 {
        IValue::Null
    } else if c.0 == 1 {
        IValue::Bool(c.1 != 0)
    } else if c.0 == 2 {
        IValue::U64(c.1)
    } else if c.0 == 3 {
        IValue::I64(c.1 as i64)
    } else if c.0 == 4 {
        IValue::F64(c.1)
    } else if c.0 == 5 {
        IValue::String(c.1 as u32)
    } else if c.0 == 6 {
        IValue::Array(c.1 as u32)
    } else {
        IValue::Object(c.1 as u32)
    }
}

/// Returns the number of the JSON number `n` as a handle.
pub fn intern_number(n: JsonNumber) -> (r: IValue)
    ensures
        r == number_value(n),
{
    match n {
        JsonNumber::U64(x) => IValue::U64(x),
        JsonNumber::I64(x) => if x >= 0 {
            IValue::U64(x as u64)
        } else {
            IValue::I64(x)
        },
        JsonNumber::F64(x) => IValue::F64(x),
    }
}

impl Jinterners {
    /// Every cell of the arrays and objects is the cell of the value that it
    /// stores.
    closed spec fn cells_canonical(&self) -> bool {
        &&& forall|a: int, k: int|
            0 <= a < cell_slices(self.iarray).len() && 0 <= k < cell_slices(self.iarray)[a].len()
                ==> value_cell(cell_value(#[trigger] cell_slices(self.iarray)[a][k]))
                == cell_slices(self.iarray)[a][k]
        &&& forall|o: int, k: int|
            0 <= o < entry_slices(self.iobject).len() && 0 <= k < entry_slices(
                self.iobject,
            )[o].len() ==> value_entry(entry_value(#[trigger] entry_slices(self.iobject)[o][k]))
                == entry_slices(self.iobject)[o][k]
    }

    /// The context is well formed.
    pub closed spec fn wf(&self) -> bool {
        &&& self@.wf()
        &&& self.cells_canonical()
        &&& str_bytes(self.string) <= u32::MAX
        &&& cell_items(self.iarray) <= u32::MAX
        &&& entry_items(self.iobject) <= u32::MAX
        &&& str_bytes(self.string) == total_bytes(self@.strings)
        &&& cell_items(self.iarray) == total_len(self@.arrays)
        &&& entry_items(self.iobject) == total_len(self@.objects)
    }

    /// Creates a context that holds only the empty string.
    pub fn new() -> (r: Jinterners)
        ensures
            r.wf(),
            r@.strings == seq![Seq::<char>::empty()],
            r@.arrays.len() == 0,
            r@.objects.len() == 0,
            size_of(r@) == 1,
    {
        let mut string = str_arena_new();
        proof {
            reveal_strlit("");
            assert(""@ =~= Seq::<char>::empty());
            assert(!Seq::<Seq<char>>::empty().contains(""@));
        }
        let _ = str_arena_intern(&mut string, "");
        let r = Jinterners { string, iarray: cell_arena_new(), iobject: entry_arena_new() };
        assert(r@.strings =~= seq![Seq::<char>::empty()]);
        proof {
            lemma_total_bytes_push(Seq::<Seq<char>>::empty(), Seq::<char>::empty());
            assert(seq![Seq::<char>::empty()] =~= Seq::<Seq<char>>::empty().push(Seq::<char>::empty()));
            assert(encode_utf8(Seq::<char>::empty()) =~= Seq::<u8>::empty());
            assert(r@.arrays =~= Seq::<Seq<IValue>>::empty());
            assert(r@.objects =~= Seq::<Seq<(u32, IValue)>>::empty());
            assert(total_bytes(r@.strings) == 0);
            assert(total_len(r@.arrays) == 0);
            assert(total_len(r@.objects) == 0);
        }
        r
    }

    /// Returns the number of strings in the string arena.
    pub fn num_strings(&self) -> (r: usize)
        ensures
            r == self@.strings.len(),
    {
        str_arena_len(&self.string)
    }

    /// Returns the number of array slices in the array arena.
    pub fn num_arrays(&self) -> (r: usize)
        ensures
            r == self@.arrays.len(),
    {
        cell_arena_len(&self.iarray)
    }

    /// Returns the number of object slices in the object arena.
    pub fn num_objects(&self) -> (r: usize)
        ensures
            r == self@.objects.len(),
    {
        entry_arena_len(&self.iobject)
    }

    /// Returns the key under which `key` is interned, if it is.
    pub fn find_key(&self, key: &str) -> (r: Option<InternedStrKey>)
        ensures
            match r {
                Some(k) => (k.id as int) < self@.strings.len() && self@.strings[k.id as int]
                    == key@,
                None => !self@.strings.contains(key@),
            },
    {
        match str_arena_find(&self.string, key) {
            Some(id) => Some(InternedStrKey { id }),
            None => None,
        }
    }

    /// Interns a string, if the arena has room for it.
    fn intern_str(&mut self, s: &str) -> (r: Option<u32>)
        requires
            old(self).wf(),
        ensures
            final(self).wf(),
            old(self)@.extended_by(final(self)@),
            final(self)@.arrays == old(self)@.arrays,
            final(self)@.objects == old(self)@.objects,
            size_of(final(self)@) <= size_of(old(self)@) + 1 + encode_utf8(s@).len(),
            size_of(old(self)@) + 1 + encode_utf8(s@).len() + 2 <= u32::MAX ==> r is Some,
            forall|id: u32| r == Some(id) && (id as int) < old(self)@.strings.len() ==> final(self)@ == old(self)@,
            forall|id: u32| r == Some(id) ==> (final(self)@, id) == add_string(old(self)@, s@),
            match r {
                Some(id) => (id as int) < final(self)@.strings.len() && final(self)@.strings[id as int]
                    == s@,
                None => true,
            },
    {
        let n = str_arena_len(&self.string);
        let bytes = str_arena_bytes(&self.string);
        if n >= u32::MAX as usize - 1 || s.as_bytes().len() > u32::MAX as usize - bytes {
            return None;
        }
        let ghost before = self@;
        assert(s.spec_bytes().len() + str_bytes(self.string) <= u32::MAX);
        let id = str_arena_intern(&mut self.string, s);
        proof {
            let after = self@;
            lemma_wf_grown_strings(before, after);
            if !before.strings.contains(s@) {
                assert(after.strings == before.strings.push(s@));
                lemma_total_bytes_push(before.strings, s@);
                assert forall|i: int, j: int|
                    0 <= i < after.strings.len() && 0 <= j < after.strings.len() && i != j
                        implies #[trigger] after.strings[i] != #[trigger] after.strings[j] by {
                    if i == before.strings.len() as int {
                        assert(before.strings.contains(before.strings[j]));
                    } else if j == before.strings.len() as int {
                        assert(before.strings.contains(before.strings[i]));
                    }
                }
            }
            assert(after.arrays == before.arrays);
            assert(after.objects == before.objects);
        }
        Some(id)
    }

    /// Interns an array slice of handles, if the arena has room for it.
    fn intern_array_slice(&mut self, hs: &Vec<IValue>) -> (r: Option<u32>)
        requires
            old(self).wf(),
            forall|k: int| 0 <= k < hs@.len() ==> old(self)@.in_range(#[trigger] hs@[k]),
        ensures
            final(self).wf(),
            old(self)@.extended_by(final(self)@),
            final(self)@.strings == old(self)@.strings,
            final(self)@.objects == old(self)@.objects,
            size_of(final(self)@) <= size_of(old(self)@) + 1 + hs@.len(),
            size_of(old(self)@) + 1 + hs@.len() + 2 <= u32::MAX ==> r is Some,
            forall|id: u32| r == Some(id) && (id as int) < old(self)@.arrays.len() ==> final(self)@ == old(self)@,
            forall|id: u32| r == Some(id) ==> (final(self)@, id) == add_array(old(self)@, hs@),
            match r {
                Some(id) => (id as int) < final(self)@.arrays.len() && final(self)@.arrays[id as int]
                    == hs@,
                None => true,
            },
    {
        let n = cell_arena_len(&self.iarray);
        let items = cell_arena_items(&self.iarray);
        if n >= u32::MAX as usize - 1 || hs.len() > u32::MAX as usize - items {
            return None;
        }
        let mut cells: Vec<Cell> = Vec::with_capacity(hs.len());
        let mut i: usize = 0;
        while i < hs.len()
            invariant
                i <= hs@.len(),
                cells@.len() == i,
                forall|k: int| 0 <= k < i ==> #[trigger] cells@[k] == value_cell(hs@[k]),
            decreases hs@.len() - i,
        {
            cells.push(value_to_cell(hs[i]));
            i += 1;
        }
        proof {
            assert forall|k: int| 0 <= k < hs@.len() implies cell_value(#[trigger] cells@[k]) == hs@[k] by {
                lemma_cell_round_trip(hs@[k]);
            }
            assert(cells@.map_values(|c: Cell| cell_value(c)) =~= hs@);
        }
        let ghost before = self@;
        let ghost old_slices = cell_slices(self.iarray);
        let id = cell_arena_intern(&mut self.iarray, cells.as_slice());
        proof {
            let after = self@;
            let slices = cell_slices(self.iarray);
            if old_slices.contains(cells@) {
                assert(after == before);
            } else {
                assert(slices == old_slices.push(cells@));
                assert(after.arrays =~= before.arrays.push(hs@));
                lemma_total_len_push(before.arrays, hs@);
                assert forall|x: int| 0 <= x < before.arrays.len() implies before.arrays[x] != hs@ by {
                    if before.arrays[x] == hs@ {
                        assert forall|y: int| 0 <= y < cells@.len() implies old_slices[x][y] == cells@[y] by {
                            assert(before.arrays[x][y] == cell_value(old_slices[x][y]));
                            assert(value_cell(cell_value(old_slices[x][y])) == old_slices[x][y]);
                        }
                        assert(old_slices[x] =~= cells@);
                        assert(old_slices.contains(cells@));
                    }
                }
                assert forall|x: int, y: int|
                    0 <= x < after.arrays.len() && 0 <= y < after.arrays.len() && x != y
                        implies #[trigger] after.arrays[x] != #[trigger] after.arrays[y] by {
                    if x == before.arrays.len() as int {
                        assert(before.arrays[y] != hs@);
                    } else if y == before.arrays.len() as int {
                        assert(before.arrays[x] != hs@);
                    } else {
                        assert(before.arrays[x] != before.arrays[y]);
                    }
                }
                assert forall|a: int, k: int|
                    0 <= a < slices.len() && 0 <= k < slices[a].len() implies value_cell(
                        cell_value(#[trigger] slices[a][k]),
                    ) == slices[a][k] by {
                    if a == old_slices.len() as int {
                        lemma_cell_round_trip(hs@[k]);
                    } else {
                        assert(slices[a] == old_slices[a]);
                    }
                }
                assert forall|a: int, k: int|
                    0 <= a < after.arrays.len() && 0 <= k < after.arrays[a].len() implies after.in_range(
                        #[trigger] after.arrays[a][k],
                    ) by {
                    if a < before.arrays.len() {
                        assert(before.in_range(before.arrays[a][k]));
                    } else {
                        assert(before.in_range(hs@[k]));
                    }
                }
                assert forall|o: int, k: int|
                    0 <= o < after.objects.len() && 0 <= k < after.objects[o].len() implies {
                        &&& (#[trigger] after.objects[o][k]).0 < after.strings.len()
                        &&& after.in_range(after.objects[o][k].1)
                    } by {
                    assert(before.in_range(before.objects[o][k].1));
                }
            }
            assert(after.arrays[id as int] == cell_slices(self.iarray)[id as int].map_values(
                |c: Cell| cell_value(c),
            ));
        }
        Some(id)
    }

    /// Interns the sorted entries of an object, if the arena has room for
    /// them.
    fn intern_object_slice(&mut self, es: &Vec<(u32, IValue)>) -> (r: Option<u32>)
        requires
            old(self).wf(),
            keys_sorted(es@),
            forall|k: int|
                0 <= k < es@.len() ==> (#[trigger] es@[k]).0 < old(self)@.strings.len()
                    && old(self)@.in_range(es@[k].1),
        ensures
            final(self).wf(),
            old(self)@.extended_by(final(self)@),
            final(self)@.strings == old(self)@.strings,
            final(self)@.arrays == old(self)@.arrays,
            size_of(final(self)@) <= size_of(old(self)@) + 1 + es@.len(),
            size_of(old(self)@) + 1 + es@.len() + 2 <= u32::MAX ==> r is Some,
            forall|id: u32| r == Some(id) && (id as int) < old(self)@.objects.len() ==> final(self)@ == old(self)@,
            forall|id: u32| r == Some(id) ==> (final(self)@, id) == add_object(old(self)@, es@),
            match r {
                Some(id) => (id as int) < final(self)@.objects.len() && final(self)@.objects[id as int]
                    == es@,
                None => true,
            },
    {
        let n = entry_arena_len(&self.iobject);
        let items = entry_arena_items(&self.iobject);
        if n >= u32::MAX as usize - 1 || es.len() > u32::MAX as usize - items {
            return None;
        }
        let mut cells: Vec<EntryCell> = Vec::with_capacity(es.len());
        let mut i: usize = 0;
        while i < es.len()
            invariant
                i <= es@.len(),
                cells@.len() == i,
                forall|k: int| 0 <= k < i ==> #[trigger] cells@[k] == value_entry(es@[k]),
            decreases es@.len() - i,
        {
            let (key, v) = es[i];
            let c = value_to_cell(v);
            cells.push((key, c.0, c.1));
            i += 1;
        }
        proof {
            assert forall|k: int| 0 <= k < es@.len() implies entry_value(#[trigger] cells@[k]) == es@[k] by {
                lemma_cell_round_trip(es@[k].1);
            }
            assert(cells@.map_values(|e: EntryCell| entry_value(e)) =~= es@);
        }
        let ghost before = self@;
        let ghost old_slices = entry_slices(self.iobject);
        let id = entry_arena_intern(&mut self.iobject, cells.as_slice());
        proof {
            let after = self@;
            let slices = entry_slices(self.iobject);
            if old_slices.contains(cells@) {
                assert(after == before);
            } else {
                assert(slices == old_slices.push(cells@));
                assert(after.objects =~= before.objects.push(es@));
                lemma_total_len_push(before.objects, es@);
                assert forall|x: int| 0 <= x < before.objects.len() implies before.objects[x] != es@ by {
                    if before.objects[x] == es@ {
                        assert forall|y: int| 0 <= y < cells@.len() implies old_slices[x][y] == cells@[y] by {
                            assert(before.objects[x][y] == entry_value(old_slices[x][y]));
                            assert(value_entry(entry_value(old_slices[x][y])) == old_slices[x][y]);
                        }
                        assert(old_slices[x] =~= cells@);
                        assert(old_slices.contains(cells@));
                    }
                }
                assert forall|x: int, y: int|
                    0 <= x < after.objects.len() && 0 <= y < after.objects.len() && x != y
                        implies #[trigger] after.objects[x] != #[trigger] after.objects[y] by {
                    if x == before.objects.len() as int {
                        assert(before.objects[y] != es@);
                    } else if y == before.objects.len() as int {
                        assert(before.objects[x] != es@);
                    } else {
                        assert(before.objects[x] != before.objects[y]);
                    }
                }
                assert forall|o: int, k: int|
                    0 <= o < slices.len() && 0 <= k < slices[o].len() implies value_entry(
                        entry_value(#[trigger] slices[o][k]),
                    ) == slices[o][k] by {
                    if o == old_slices.len() as int {
                        lemma_cell_round_trip(es@[k].1);
                    } else {
                        assert(slices[o] == old_slices[o]);
                    }
                }
                assert forall|a: int, k: int|
                    0 <= a < after.arrays.len() && 0 <= k < after.arrays[a].len() implies after.in_range(
                        #[trigger] after.arrays[a][k],
                    ) by {
                    assert(before.in_range(before.arrays[a][k]));
                }
                assert forall|o: int, k: int|
                    0 <= o < after.objects.len() && 0 <= k < after.objects[o].len() implies {
                        &&& (#[trigger] after.objects[o][k]).0 < after.strings.len()
                        &&& after.in_range(after.objects[o][k].1)
                    } by {
                    if o < before.objects.len() {
                        assert(before.in_range(before.objects[o][k].1));
                    } else {
                        assert(before.in_range(es@[k].1));
                    }
                }
                assert forall|o: int, k1: int, k2: int|
                    0 <= o < after.objects.len() && 0 <= k1 < k2 < after.objects[o].len()
                        implies #[trigger] after.objects[o][k1].0 < #[trigger] after.objects[o][k2].0 by {
                    if o < before.objects.len() {
                        assert(before.objects[o][k1].0 < before.objects[o][k2].0);
                    }
                }
            }
            assert(after.objects[id as int] == entry_slices(self.iobject)[id as int].map_values(
                |e: EntryCell| entry_value(e),
            ));
        }
        Some(id)
    }

    /// Interns the JSON value `j`, or returns `None` when an arena would
    /// leave its 32-bit range.
    ///
    /// The new context and the handle are exactly `interned(old, j)`: the
    /// strings and slices of `j` that the context lacked are appended in the
    /// order of a depth-first walk. The context only grows, by at most the
    /// cost of `j`, and the handle stands for `j` in it. Interning succeeds whenever the size of the
    /// context plus the cost of `j` stays below `u32::MAX - 1`.
    #[verifier::rlimit(40)]
    pub fn intern_ref(&mut self, j: &Json) -> (r: Option<IValue>)
        requires
            old(self).wf(),
        ensures
            final(self).wf(),
            old(self)@.extended_by(final(self)@),
            size_of(final(self)@) <= size_of(old(self)@) + json_cost(*j),
            size_of(old(self)@) + json_cost(*j) + 2 <= u32::MAX ==> r is Some,
            j is Null || j is Bool || j is Number ==> r is Some && final(self)@ == old(self)@,
            keys_unique(*j) && holds(old(self)@, *j) && size_of(old(self)@) + json_cost(*j) + 2
                <= u32::MAX ==> final(self)@ == old(self)@,
            match r {
                Some(h) => final(self)@.denotes(h, *j) && (final(self)@, h) == interned(old(self)@, *j),
                None => true,
            },
        decreases j,
    {
        match j {
            Json::Null => Some(IValue::Null),
            Json::Bool(b) => Some(IValue::Bool(*b)),
            Json::Number(n) => Some(intern_number(*n)),
            Json::String(s) => {
                let ghost start = self@;
                let ghost keep = keys_unique(*j) && holds(start, *j) && size_of(start) + json_cost(*j)
                    + 2 <= u32::MAX;
                let r = self.intern_str(s.as_str());
                proof {
                    if keep && r is Some {
                        let h0 = choose|h0: IValue| #[trigger] start.denotes(h0, *j);
                        let id = r->Some_0;
                        let id0 = h0->String_0;
                        assert(self@.strings[id0 as int] == s@);
                        if id != id0 {
                            assert(self@.strings[id as int] != self@.strings[id0 as int]);
                        }
                    }
                }
                match r {
                    Some(id) => Some(IValue::String(id)),
                    None => None,
                }
            },
            Json::Array(v) => {
                let ghost start = self@;
                let ghost keep = keys_unique(*j) && holds(start, *j) && size_of(start) + json_cost(*j)
                    + 2 <= u32::MAX;
                let ghost h0 = choose|h0: IValue| #[trigger] start.denotes(h0, *j);
                let mut hs: Vec<IValue> = Vec::with_capacity(v.len());
                let mut i: usize = 0;
                while i < v.len()
                    invariant
                        self.wf(),
                        start == old(self)@,
                        *j == Json::Array(*v),
                        start.extended_by(self@),
                        i <= v@.len(),
                        hs@.len() == i,
                        size_of(self@) <= size_of(start) + children_cost(*j, i as nat),
                        size_of(start) + json_cost(*j) + 2 <= u32::MAX ==> size_of(start) + children_cost(
                            *j,
                            v@.len() as nat,
                        ) + 1 + v@.len() + 2 <= u32::MAX,
                        forall|k: int| 0 <= k < i ==> self@.denotes(hs@[k], #[trigger] v@[k]),
                        (self@, hs@) == interned_items(start, *j, i as nat),
                        keep == (keys_unique(*j) && holds(start, *j) && size_of(start) + json_cost(*j) + 2
                            <= u32::MAX),
                        keep ==> self@ == start && start.denotes(h0, *j),
                    decreases v@.len() - i,
                {
                    let ghost mid = self@;
                    proof {
                        assert(decreases_to!(*j => j->Array_0));
                        assert(decreases_to!(j->Array_0 => (j->Array_0)@));
                        assert(decreases_to!((j->Array_0)@ => (j->Array_0)@[i as int]));
                        lemma_children_cost_mono(*j, (i + 1) as nat, v@.len() as nat);
                        assert(children_cost(*j, (i + 1) as nat) == children_cost(*j, i as nat) + json_cost(v@[i as int]));
                        if keep {
                            let a0 = start.arrays[h0->Array_0 as int];
                            assert(start.denotes(a0[i as int], v@[i as int]));
                            assert(holds(mid, v@[i as int]));
                            assert(keys_unique(v@[i as int]));
                        }
                    }
                    match self.intern_ref(&v[i]) {
                        Some(h) => {
                            proof {
                                lemma_extended_trans(start, mid, self@);
                                assert forall|k: int| 0 <= k < i implies self@.denotes(
                                    hs@[k],
                                    #[trigger] v@[k],
                                ) by {
                                    lemma_denotes_extended(mid, self@, hs@[k], v@[k]);
                                }
                            }
                            let ghost old_hs = hs@;
                            hs.push(h);
                            proof {
                                assert(interned_items(start, *j, (i + 1) as nat) == (self@, old_hs.push(h)));
                            }
                        },
                        None => {
                            proof {
                                lemma_extended_trans(start, mid, self@);
                            }
                            return None;
                        },
                    }
                    i += 1;
                }
                let ghost mid = self@;
                assert(json_cost(*j) == 1 + v@.len() + children_cost(*j, v@.len() as nat));
                proof {
                    assert forall|k: int| 0 <= k < hs@.len() implies mid.in_range(#[trigger] hs@[k]) by {
                        lemma_denotes_in_range(mid, hs@[k], v@[k]);
                    }
                }
                match self.intern_array_slice(&hs) {
                    Some(id) => {
                        proof {
                            lemma_extended_trans(start, mid, self@);
                            assert forall|k: int| 0 <= k < hs@.len() implies self@.denotes(
                                self@.arrays[id as int][k],
                                #[trigger] v@[k],
                            ) by {
                                lemma_denotes_extended(mid, self@, hs@[k], v@[k]);
                            }
                            if keep {
                                assert(self@.denotes(IValue::Array(id), *j));
                                lemma_denotes_extended(start, self@, h0, *j);
                                lemma_denotes_unique(self@, IValue::Array(id), h0, *j);
                            }
                        }
                        Some(IValue::Array(id))
                    },
                    None => {
                        proof {
                            lemma_extended_trans(start, mid, self@);
                        }
                        None
                    },
                }
            },
            Json::Object(es) => {
                let ghost start = self@;
                let ghost keep = keys_unique(*j) && holds(start, *j) && size_of(start) + json_cost(*j)
                    + 2 <= u32::MAX;
                let ghost h0 = choose|h0: IValue| #[trigger] start.denotes(h0, *j);
                let mut pairs: Vec<(u32, IValue)> = Vec::with_capacity(es.len());
                let mut i: usize = 0;
                while i < es.len()
                    invariant
                        self.wf(),
                        start == old(self)@,
                        *j == Json::Object(*es),
                        start.extended_by(self@),
                        i <= es@.len(),
                        pairs@.len() == i,
                        size_of(self@) <= size_of(start) + children_cost(*j, i as nat),
                        size_of(start) + json_cost(*j) + 2 <= u32::MAX ==> size_of(start) + children_cost(
                            *j,
                            es@.len() as nat,
                        ) + 1 + es@.len() + 2 <= u32::MAX,
                        forall|k: int|
                            0 <= k < i ==> {
                                &&& ((#[trigger] pairs@[k]).0 as int) < self@.strings.len()
                                &&& self@.strings[pairs@[k].0 as int] == es@[k].0@
                                &&& self@.denotes(pairs@[k].1, es@[k].1)
                            },
                        (self@, pairs@) == interned_entries(start, *j, i as nat),
                        keep == (keys_unique(*j) && holds(start, *j) && size_of(start) + json_cost(*j) + 2
                            <= u32::MAX),
                        keep ==> self@ == start && start.denotes(h0, *j),
                    decreases es@.len() - i,
                {
                    let ghost m0 = self@;
                    proof {
                        lemma_children_cost_mono(*j, (i + 1) as nat, es@.len() as nat);
                        assert(children_cost(*j, (i + 1) as nat) == children_cost(*j, i as nat) + 1
                            + encode_utf8(es@[i as int].0@).len() + json_cost(es@[i as int].1));
                    }
                    let kid = match self.intern_str(es[i].0.as_str()) {
                        Some(kid) => kid,
                        None => {
                            proof {
                                lemma_extended_trans(start, m0, self@);
                            }
                            return None;
                        },
                    };
                    let ghost m1 = self@;
                    proof {
                        if keep {
                            let o0 = start.objects[h0->Object_0 as int];
                            assert(start.has_key(o0, es@[i as int].0@));
                            let i0 = choose|i0: int| 0 <= i0 < o0.len() && start.strings[#[trigger] o0[i0].0 as int] == es@[i as int].0@;
                            assert(o0[i0] == o0[i0]);
                            assert(m1.strings[o0[i0].0 as int] == es@[i as int].0@);
                            if kid != o0[i0].0 {
                                assert(m1.strings[kid as int] != m1.strings[o0[i0].0 as int]);
                            }
                            assert(m1 == start);
                            let k2 = choose|k2: int|
                                #![trigger es@[k2]]
                                is_last_key(es@, k2) && es@[k2].0@ == start.strings[o0[i0].0 as int]
                                    && start.denotes(o0[i0].1, es@[k2].1);
                            if k2 != i as int {
                                assert(es@[k2].0@ != es@[i as int].0@);
                            }
                            assert(start.denotes(o0[i0].1, es@[i as int].1));
                            assert(holds(m1, es@[i as int].1));
                            assert(keys_unique(es@[i as int].1));
                        }
                        assert(decreases_to!(*j => j->Object_0));
                        assert(decreases_to!(j->Object_0 => (j->Object_0)@));
                        assert(decreases_to!((j->Object_0)@ => (j->Object_0)@[i as int]));
                        assert(decreases_to!((j->Object_0)@[i as int] => (j->Object_0)@[i as int].1));
                    }
                    let h = match self.intern_ref(&es[i].1) {
                        Some(h) => h,
                        None => {
                            proof {
                                lemma_extended_trans(start, m0, m1);
                                lemma_extended_trans(start, m1, self@);
                            }
                            return None;
                        },
                    };
                    proof {
                        lemma_extended_trans(start, m0, m1);
                        lemma_extended_trans(start, m1, self@);
                        lemma_extended_trans(m0, m1, self@);
                        assert forall|k: int| 0 <= k < i implies {
                            &&& ((#[trigger] pairs@[k]).0 as int) < self@.strings.len()
                            &&& self@.strings[pairs@[k].0 as int] == es@[k].0@
                            &&& self@.denotes(pairs@[k].1, es@[k].1)
                        } by {
                            assert(m0.strings[pairs@[k].0 as int] == es@[k].0@);
                            lemma_denotes_extended(m0, self@, pairs@[k].1, es@[k].1);
                        }
                    }
                    let ghost old_pairs = pairs@;
                    pairs.push((kid, h));
                    proof {
                        assert(interned_entries(start, *j, (i + 1) as nat) == (self@, old_pairs.push((kid, h))));
                    }
                    i += 1;
                }
                let sorted = sort_entries(pairs.as_slice());
                let ghost mid = self@;
                proof {
                    lemma_canonical_unique(sorted@, canonical_of(pairs@), pairs@);
                }
                assert(json_cost(*j) == 1 + es@.len() + children_cost(*j, es@.len() as nat));
                proof {
                    assert forall|k: int| 0 <= k < sorted@.len() implies (#[trigger] sorted@[k]).0
                        < mid.strings.len() && mid.in_range(sorted@[k].1) by {
                        assert(from_last(pairs@, pairs@.len() as int, sorted@[k]));
                        let jj = choose|jj: int|
                            last_before(pairs@, pairs@.len() as int, jj) && #[trigger] pairs@[jj]
                                == sorted@[k];
                        lemma_denotes_in_range(mid, pairs@[jj].1, es@[jj].1);
                    }
                }
                match self.intern_object_slice(&sorted) {
                    Some(id) => {
                        proof {
                            lemma_extended_trans(start, mid, self@);
                            let w = self@;
                            let o = w.objects[id as int];
                            assert(o == sorted@);
                            assert forall|ii: int|
                                #![trigger o[ii]]
                                0 <= ii < o.len() implies (o[ii].0 as int) < w.strings.len()
                                && exists|k: int|
                                #![trigger es@[k]]
                                is_last_key(es@, k) && es@[k].0@ == w.strings[o[ii].0 as int]
                                    && w.denotes(o[ii].1, es@[k].1) by {
                                assert(from_last(pairs@, pairs@.len() as int, sorted@[ii]));
                                let jj = choose|jj: int|
                                    last_before(pairs@, pairs@.len() as int, jj) && #[trigger] pairs@[jj]
                                        == sorted@[ii];
                                lemma_denotes_extended(mid, w, pairs@[jj].1, es@[jj].1);
                                assert(w.strings[pairs@[jj].0 as int] == es@[jj].0@);
                                assert forall|m: int| jj < m < es@.len() implies (#[trigger] es@[m]).0@
                                    != es@[jj].0@ by {
                                    assert(pairs@[m].0 != pairs@[jj].0);
                                    assert(w.strings[pairs@[m].0 as int] == es@[m].0@);
                                }
                                assert(is_last_key(es@, jj));
                            }
                            assert forall|k: int| #![trigger es@[k]] 0 <= k < es@.len() implies w.has_key(
                                o,
                                es@[k].0@,
                            ) by {
                                assert(key_in(sorted@, pairs@[k].0));
                                let ii = choose|ii: int| 0 <= ii < sorted@.len() && (#[trigger] sorted@[ii]).0 == pairs@[k].0;
                                assert(w.strings[o[ii].0 as int] == es@[k].0@);
                            }
                            if keep {
                                assert(w.denotes(IValue::Object(id), *j));
                                lemma_denotes_extended(start, w, h0, *j);
                                lemma_denotes_unique(w, IValue::Object(id), h0, *j);
                            }
                        }
                        Some(IValue::Object(id))
                    },
                    None => {
                        proof {
                            lemma_extended_trans(start, mid, self@);
                        }
                        None
                    },
                }
            },
        }
    }

    /// Interns the JSON value `j`, or returns `None` when an arena would
    /// leave its 32-bit range.
    pub fn intern(&mut self, j: Json) -> (r: Option<IValue>)
        requires
            old(self).wf(),
        ensures
            final(self).wf(),
            old(self)@.extended_by(final(self)@),
            size_of(final(self)@) <= size_of(old(self)@) + json_cost(j),
            size_of(old(self)@) + json_cost(j) + 2 <= u32::MAX ==> r is Some,
            j is Null || j is Bool || j is Number ==> r is Some && final(self)@ == old(self)@,
            keys_unique(j) && holds(old(self)@, j) && size_of(old(self)@) + json_cost(j) + 2
                <= u32::MAX ==> final(self)@ == old(self)@,
            match r {
                Some(h) => final(self)@.denotes(h, j) && (final(self)@, h) == interned(old(self)@, j),
                None => true,
            },
    {
        self.intern_ref(&j)
    }

    /// Rebuilds the JSON value of `h`; `j` is a value that `h` stands for.
    fn lookup_rec(&self, h: IValue, Ghost(j): Ghost<Json>) -> (r: Json)
        requires
            self.wf(),
            self@.denotes(h, j),
        ensures
            self@.denotes(h, r),
            self@.rebuilt(h, r),
        decreases j,
    {
        match h {
            IValue::Null => Json::Null,
            IValue::Bool(b) => Json::Bool(b),
            IValue::U64(x) => {
                proof {
                    assert(j is Number);
                }
                Json::Number(JsonNumber::U64(x))
            },
            IValue::I64(x) => {
                proof {
                    assert(j is Number);
                    assert(j->Number_0 is I64);
                }
                Json::Number(JsonNumber::I64(x))
            },
            IValue::F64(x) => {
                proof {
                    assert(j is Number);
                    assert(j->Number_0 is F64);
                }
                Json::Number(JsonNumber::F64(x))
            },
            IValue::String(id) => {
                proof {
                    assert(j is String);
                }
                let s = str_arena_lookup(&self.string, id).to_owned();
                assert(s@ == self@.strings[id as int]);
                let r = Json::String(s);
                assert(self@.denotes(h, r));
                r
            },
            IValue::Array(id) => {
                let cells = cell_arena_lookup(&self.iarray, id);
                let ghost a = self@.arrays[id as int];
                assert(a == cells@.map_values(|c: Cell| cell_value(c)));
                let ghost jv = j->Array_0;
                let mut out: Vec<Json> = Vec::with_capacity(cells.len());
                let mut i: usize = 0;
                while i < cells.len()
                    invariant
                        self.wf(),
                        self@.denotes(h, j),
                        h == IValue::Array(id),
                        j == Json::Array(jv),
                        a == self@.arrays[id as int],
                        a == cells@.map_values(|c: Cell| cell_value(c)),
                        i <= cells@.len(),
                        out@.len() == i,
                        forall|k: int| 0 <= k < i ==> self@.denotes(a[k], #[trigger] out@[k]),
                        forall|k: int| 0 <= k < i ==> self@.rebuilt(a[k], #[trigger] out@[k]),
                    decreases cells@.len() - i,
                {
                    let v = cell_to_value(cells[i]);
                    proof {
                        assert(v == a[i as int]);
                        assert(self@.denotes(a[i as int], jv@[i as int]));
                        assert(decreases_to!(j => j->Array_0));
                        assert(decreases_to!(j->Array_0 => (j->Array_0)@));
                        assert(decreases_to!((j->Array_0)@ => (j->Array_0)@[i as int]));
                    }
                    let x = self.lookup_rec(v, Ghost(jv@[i as int]));
                    out.push(x);
                    i += 1;
                }
                let r = Json::Array(out);
                proof {
                    assert forall|k: int| 0 <= k < a.len() implies self@.denotes(
                        a[k],
                        #[trigger] out@[k],
                    ) by {}
                }
                r
            },
            IValue::Object(id) => {
                let cells = entry_arena_lookup(&self.iobject, id);
                let ghost o = self@.objects[id as int];
                assert(o == cells@.map_values(|e: EntryCell| entry_value(e)));
                let ghost es = j->Object_0;
                let mut out: Vec<(String, Json)> = Vec::with_capacity(cells.len());
                let mut i: usize = 0;
                while i < cells.len()
                    invariant
                        self.wf(),
                        self@.denotes(h, j),
                        h == IValue::Object(id),
                        j == Json::Object(es),
                        o == self@.objects[id as int],
                        o == cells@.map_values(|e: EntryCell| entry_value(e)),
                        i <= cells@.len(),
                        out@.len() == i,
                        forall|k: int|
                            0 <= k < i ==> {
                                &&& (#[trigger] out@[k]).0@ == self@.strings[o[k].0 as int]
                                &&& self@.denotes(o[k].1, out@[k].1)
                                &&& self@.rebuilt(o[k].1, out@[k].1)
                            },
                    decreases cells@.len() - i,
                {
                    let (kid, tag, payload) = cells[i];
                    let v = cell_to_value((tag, payload));
                    proof {
                        assert(o[i as int] == (kid, v));
                    }
                    let ghost k = choose|k: int|
                        #![trigger es@[k]]
                        is_last_key(es@, k) && es@[k].0@ == self@.strings[o[i as int].0 as int]
                            && self@.denotes(o[i as int].1, es@[k].1);
                    proof {
                        assert(decreases_to!(j => j->Object_0));
                        assert(decreases_to!(j->Object_0 => (j->Object_0)@));
                        assert(decreases_to!((j->Object_0)@ => (j->Object_0)@[k]));
                        assert(decreases_to!((j->Object_0)@[k] => (j->Object_0)@[k].1));
                    }
                    let x = self.lookup_rec(v, Ghost(es@[k].1));
                    let key = str_arena_lookup(&self.string, kid).to_owned();
                    out.push((key, x));
                    i += 1;
                }
                let r = Json::Object(out);
                proof {
                    let w = self@;
                    assert forall|ii: int|
                        #![trigger o[ii]]
                        0 <= ii < o.len() implies (o[ii].0 as int) < w.strings.len() && exists|k: int|
                        #![trigger out@[k]]
                        is_last_key(out@, k) && out@[k].0@ == w.strings[o[ii].0 as int]
                            && w.denotes(o[ii].1, out@[k].1) by {
                        assert forall|m: int| ii < m < out@.len() implies (#[trigger] out@[m]).0@
                            != out@[ii].0@ by {
                            assert(o[ii].0 < o[m].0);
                            assert(out@[m].0@ == w.strings[o[m].0 as int]);
                            assert(out@[ii].0@ == w.strings[o[ii].0 as int]);
                            assert(w.strings[o[m].0 as int] != w.strings[o[ii].0 as int]);
                        }
                        assert(is_last_key(out@, ii));
                        assert(out@[ii].0@ == w.strings[o[ii].0 as int]);
                        assert(w.denotes(o[ii].1, out@[ii].1));
                    }
                    assert forall|k: int| #![trigger out@[k]] 0 <= k < out@.len() implies w.has_key(
                        o,
                        out@[k].0@,
                    ) by {
                        assert(w.strings[o[k].0 as int] == out@[k].0@);
                    }
                    assert(r->Object_0 == out);
                    assert(w.denotes(h, r));
                }
                r
            },
        }
    }

    /// A value that `h` stands for in this context.
    pub open spec fn stands_for_some(&self, h: IValue) -> bool {
        exists|j: Json| self@.denotes(h, j)
    }

    /// Retrieves the JSON value of `h` in this context.
    ///
    /// Objects come out with their entries in key-id order.
    pub fn lookup(&self, h: IValue) -> (r: Json)
        requires
            self.wf(),
            self.stands_for_some(h),
        ensures
            self@.denotes(h, r),
            self@.rebuilt(h, r),
    {
        let ghost j = choose|j: Json| self@.denotes(h, j);
        self.lookup_rec(h, Ghost(j))
    }

    /// Performs a shallow lookup of `h` in this context, without copying.
    pub fn lookup_ref<'a>(&'a self, h: IValue) -> (r: ValueRef<'a>)
        requires
            self.wf(),
            self@.in_range(h),
        ensures
            shallow_view(self@, h, r),
    {
        match h {
            IValue::Null => ValueRef::Null,
            IValue::Bool(b) => ValueRef::Bool(b),
            IValue::U64(x) => ValueRef::U64(x),
            IValue::I64(x) => ValueRef::I64(x),
            IValue::F64(x) => ValueRef::F64(x),
            IValue::String(id) => ValueRef::String(str_arena_lookup(&self.string, id)),
            IValue::Array(id) => ValueRef::Array(ArrayRef::new(cell_arena_lookup(&self.iarray, id))),
            IValue::Object(id) => {
                let m = MapRef::new(&self.string, entry_arena_lookup(&self.iobject, id));
                proof {
                    let o = self@.objects[id as int];
                    assert(m.entries() == o);
                    assert forall|i: int| 0 <= i < m.entries().len() implies ((#[trigger] m.entries()[i]).0 as int)
                        < m.strings().len() by {
                        assert(self@.objects[id as int][i] == o[i]);
                    }
                    assert forall|i: int, j: int| 0 <= i < j < m.entries().len() implies #[trigger] m.entries()[i].0
                        < #[trigger] m.entries()[j].0 by {
                        assert(self@.objects[id as int][i].0 < self@.objects[id as int][j].0);
                    }
                }
                ValueRef::Object(m)
            },
        }
    }

    /// The strings of this context, listed in the given order.
    fn rebuild_strings(&self, order: &RevMappingImpl) -> (a: ArenaStr)
        requires
            self.wf(),
            order.wf(),
            order.0@.len() == self@.strings.len(),
        ensures
            str_contents(a) == Seq::new(self@.strings.len(), |k: int| self@.strings[order.0@[k] as int]),
            str_bytes(a) == total_bytes(str_contents(a)),
            str_bytes(a) <= u32::MAX,
    {
        let ghost target = Seq::new(self@.strings.len(), |k: int| self@.strings[order.0@[k] as int]);
        proof {
            lemma_total_bytes_pick(self@.strings, order.0@);
        }
        let n = order.0.len();
        let mut a = str_arena_new();
        let mut k: usize = 0;
        while k < n
            invariant
                self.wf(),
                order.wf(),
                n == order.0@.len(),
                n == self@.strings.len(),
                k <= n,
                target == Seq::new(self@.strings.len(), |k: int| self@.strings[order.0@[k] as int]),
                total_bytes(target) <= u32::MAX,
                str_contents(a) == Seq::new(k as nat, |x: int| self@.strings[order.0@[x] as int]),
                str_bytes(a) == total_bytes(str_contents(a)),
                str_bytes(a) <= u32::MAX,
            decreases n - k,
        {
            let s = str_arena_lookup(&self.string, order.0[k]);
            let ghost before = str_contents(a);
            proof {
                lemma_total_bytes_push(before, s@);
                assert(before.push(s@) =~= target.subrange(0, k as int + 1));
                lemma_total_bytes_prefix(target, k as int + 1);
            }
            let _ = str_arena_push(&mut a, s);
            proof {
                assert(str_contents(a) =~= Seq::new(
                    (k + 1) as nat,
                    |x: int| self@.strings[order.0@[x] as int],
                ));
            }
            k += 1;
        }
        a
    }

    /// The arrays of this context, listed in the given order, with their
    /// elements renumbered by `m`.
    fn rebuild_arrays(&self, order: &RevMappingImpl, m: &Mapping) -> (a: ArenaSlice<Cell>)
        requires
            self.wf(),
            order.wf(),
            order.0@.len() == self@.arrays.len(),
            m.wf(),
            m.string.spec_len() == self@.strings.len(),
            m.iarray.spec_len() == self@.arrays.len(),
            m.iobject.spec_len() == self@.objects.len(),
        ensures
            cell_slices(a).map_values(|s: Seq<Cell>| s.map_values(|c: Cell| cell_value(c))) == Seq::new(
                self@.arrays.len(),
                |k: int| self@.arrays[order.0@[k] as int].map_values(|v: IValue| m.spec_map(v)),
            ),
            forall|x: int, y: int|
                0 <= x < cell_slices(a).len() && 0 <= y < cell_slices(a)[x].len() ==> value_cell(
                    cell_value(#[trigger] cell_slices(a)[x][y]),
                ) == cell_slices(a)[x][y],
            cell_items(a) == total_len(
                cell_slices(a).map_values(|s: Seq<Cell>| s.map_values(|c: Cell| cell_value(c))),
            ),
            cell_items(a) <= u32::MAX,
    {
        let n = order.0.len();
        let mut a = cell_arena_new();
        let ghost target = Seq::new(
            self@.arrays.len(),
            |k: int| self@.arrays[order.0@[k] as int].map_values(|v: IValue| m.spec_map(v)),
        );
        proof {
            assert forall|i: int| 0 <= i < target.len() implies (#[trigger] target[i]).len()
                <= self@.arrays[order.0@[i] as int].len() by {}
            lemma_total_len_pick(self@.arrays, order.0@, target);
        }
        let mut k: usize = 0;
        while k < n
            invariant
                self.wf(),
                order.wf(),
                m.wf(),
                m.string.spec_len() == self@.strings.len(),
                m.iarray.spec_len() == self@.arrays.len(),
                m.iobject.spec_len() == self@.objects.len(),
                n == order.0@.len(),
                n == self@.arrays.len(),
                k <= n,
                target == Seq::new(
                    self@.arrays.len(),
                    |k: int| self@.arrays[order.0@[k] as int].map_values(|v: IValue| m.spec_map(v)),
                ),
                cell_slices(a).map_values(|s: Seq<Cell>| s.map_values(|c: Cell| cell_value(c)))
                    == target.subrange(0, k as int),
                forall|x: int, y: int|
                    0 <= x < cell_slices(a).len() && 0 <= y < cell_slices(a)[x].len()
                        ==> value_cell(cell_value(#[trigger] cell_slices(a)[x][y]))
                        == cell_slices(a)[x][y],
                cell_items(a) == total_len(
                    cell_slices(a).map_values(|s: Seq<Cell>| s.map_values(|c: Cell| cell_value(c))),
                ),
                cell_items(a) <= u32::MAX,
                total_len(target) <= u32::MAX,
            decreases n - k,
        {
            let id = order.0[k];
            let cells = cell_arena_lookup(&self.iarray, id);
            let ghost src = self@.arrays[id as int];
            assert(src == cells@.map_values(|c: Cell| cell_value(c)));
            let mut out: Vec<Cell> = Vec::with_capacity(cells.len());
            let mut i: usize = 0;
            while i < cells.len()
                invariant
                    self.wf(),
                    m.wf(),
                    m.string.spec_len() == self@.strings.len(),
                    m.iarray.spec_len() == self@.arrays.len(),
                    m.iobject.spec_len() == self@.objects.len(),
                    (id as int) < self@.arrays.len(),
                    src == self@.arrays[id as int],
                    src == cells@.map_values(|c: Cell| cell_value(c)),
                    i <= cells@.len(),
                    out@.len() == i,
                    forall|y: int| 0 <= y < i ==> #[trigger] out@[y] == value_cell(m.spec_map(src[y])),
                decreases cells@.len() - i,
            {
                let v = cell_to_value(cells[i]);
                proof {
                    assert(self@.in_range(src[i as int]));
                }
                let w = m.map(v);
                out.push(value_to_cell(w));
                i += 1;
            }
            let ghost before = cell_slices(a);
            let ghost before_view = before.map_values(|s: Seq<Cell>| s.map_values(|c: Cell| cell_value(c)));
            let ghost mapped = out@.map_values(|c: Cell| cell_value(c));
            proof {
                assert forall|y: int| 0 <= y < out@.len() implies #[trigger] mapped[y] == target[k as int][y] by {
                    lemma_cell_round_trip(m.spec_map(src[y]));
                }
                assert(mapped =~= target[k as int]);
                assert(before_view.push(mapped) =~= target.subrange(0, k as int + 1));
                lemma_total_len_push(before_view, mapped);
                lemma_total_len_prefix(target, k as int + 1);
            }
            let _ = cell_arena_push(&mut a, out.as_slice());
            proof {
                let after_view = cell_slices(a).map_values(|s: Seq<Cell>| s.map_values(|c: Cell| cell_value(c)));
                assert(after_view =~= before_view.push(mapped));
                assert(after_view =~= target.subrange(0, k as int + 1));
                lemma_total_len_push(before_view, mapped);
                assert forall|x: int, y: int|
                    0 <= x < cell_slices(a).len() && 0 <= y < cell_slices(a)[x].len()
                        implies value_cell(cell_value(#[trigger] cell_slices(a)[x][y]))
                        == cell_slices(a)[x][y] by {
                    if x == before.len() as int {
                        lemma_cell_round_trip(m.spec_map(src[y]));
                    } else {
                        assert(cell_slices(a)[x] == before[x]);
                    }
                }
            }
            k += 1;
        }
        assert(target.subrange(0, n as int) =~= target);
        a
    }

    /// The objects of this context, listed in the given order, with their
    /// keys and values renumbered by `m` and their entries sorted again.
    fn rebuild_objects(&self, order: &RevMappingImpl, m: &Mapping) -> (a: ArenaSlice<EntryCell>)
        requires
            self.wf(),
            order.wf(),
            order.0@.len() == self@.objects.len(),
            m.wf(),
            m.string.spec_len() == self@.strings.len(),
            m.iarray.spec_len() == self@.arrays.len(),
            m.iobject.spec_len() == self@.objects.len(),
        ensures
            objects_of(a).len() == self@.objects.len(),
            forall|k: int|
                0 <= k < objects_of(a).len() ==> canonical_entries(
                    #[trigger] objects_of(a)[k],
                    self@.objects[order.0@[k] as int].map_values(|e: (u32, IValue)| map_entry(*m, e)),
                ),
            forall|x: int, y: int|
                0 <= x < entry_slices(a).len() && 0 <= y < entry_slices(a)[x].len() ==> value_entry(
                    entry_value(#[trigger] entry_slices(a)[x][y]),
                ) == entry_slices(a)[x][y],
            entry_items(a) == total_len(objects_of(a)),
            entry_items(a) <= u32::MAX,
    {
        let n = order.0.len();
        let mut a = entry_arena_new();
        let mut k: usize = 0;
        while k < n
            invariant
                self.wf(),
                order.wf(),
                m.wf(),
                m.string.spec_len() == self@.strings.len(),
                m.iarray.spec_len() == self@.arrays.len(),
                m.iobject.spec_len() == self@.objects.len(),
                n == order.0@.len(),
                n == self@.objects.len(),
                k <= n,
                entry_slices(a).len() == k,
                forall|x: int|
                    0 <= x < k ==> canonical_entries(
                        #[trigger] objects_of(a)[x],
                        self@.objects[order.0@[x] as int].map_values(
                            |e: (u32, IValue)| map_entry(*m, e),
                        ),
                    ),
                forall|x: int, y: int|
                    0 <= x < entry_slices(a).len() && 0 <= y < entry_slices(a)[x].len()
                        ==> value_entry(entry_value(#[trigger] entry_slices(a)[x][y]))
                        == entry_slices(a)[x][y],
                entry_items(a) == total_len(objects_of(a)),
                entry_items(a) <= u32::MAX,
                forall|x: int|
                    0 <= x < k ==> (#[trigger] objects_of(a)[x]).len() <= self@.objects[order.0@[x] as int].len(),
            decreases n - k,
        {
            let id = order.0[k];
            let cells = entry_arena_lookup(&self.iobject, id);
            let ghost src = self@.objects[id as int];
            assert(src == cells@.map_values(|e: EntryCell| entry_value(e)));
            let mut pairs: Vec<(u32, IValue)> = Vec::with_capacity(cells.len());
            let mut i: usize = 0;
            while i < cells.len()
                invariant
                    self.wf(),
                    m.wf(),
                    m.string.spec_len() == self@.strings.len(),
                    m.iarray.spec_len() == self@.arrays.len(),
                    m.iobject.spec_len() == self@.objects.len(),
                    (id as int) < self@.objects.len(),
                    src == self@.objects[id as int],
                    src == cells@.map_values(|e: EntryCell| entry_value(e)),
                    i <= cells@.len(),
                    pairs@.len() == i,
                    forall|y: int| 0 <= y < i ==> #[trigger] pairs@[y] == map_entry(*m, src[y]),
                decreases cells@.len() - i,
            {
                let (key, tag, payload) = cells[i];
                let v = cell_to_value((tag, payload));
                proof {
                    assert(src[i as int] == (key, v));
                    assert(self@.in_range(src[i as int].1));
                    assert((src[i as int].0 as int) < self@.strings.len());
                }
                let nk = m.map_str_key(InternedStrKey { id: key });
                let w = m.map(v);
                pairs.push((nk.id, w));
                i += 1;
            }
            let sorted = sort_entries(pairs.as_slice());
            let mut out: Vec<EntryCell> = Vec::with_capacity(sorted.len());
            let mut i: usize = 0;
            while i < sorted.len()
                invariant
                    i <= sorted@.len(),
                    out@.len() == i,
                    forall|y: int| 0 <= y < i ==> #[trigger] out@[y] == value_entry(sorted@[y]),
                decreases sorted@.len() - i,
            {
                let (key, v) = sorted[i];
                let c = value_to_cell(v);
                out.push((key, c.0, c.1));
                i += 1;
            }
            let ghost before = entry_slices(a);
            let ghost before_view = objects_of(a);
            let ghost mapped = out@.map_values(|e: EntryCell| entry_value(e));
            proof {
                assert forall|y: int| 0 <= y < out@.len() implies #[trigger] mapped[y] == sorted@[y] by {
                    lemma_cell_round_trip(sorted@[y].1);
                }
                assert(mapped =~= sorted@);
                let t = before_view.push(mapped);
                let p = order.0@.subrange(0, k as int + 1);
                assert forall|a1: int, b1: int| 0 <= a1 < p.len() && 0 <= b1 < p.len() && a1 != b1 implies #[trigger] p[a1]
                    != #[trigger] p[b1] by {
                    assert(order.0@[a1] != order.0@[b1]);
                }
                assert forall|x: int| 0 <= x < p.len() implies (#[trigger] p[x] as int) < self@.objects.len() by {
                    assert(order.0@[x] < n);
                }
                assert forall|x: int| 0 <= x < t.len() implies (#[trigger] t[x]).len() <= self@.objects[p[x] as int].len() by {
                    if x < k {
                        assert(t[x] == before_view[x]);
                    }
                }
                lemma_total_len_pick(self@.objects, p, t);
                lemma_total_len_push(before_view, mapped);
            }
            let _ = entry_arena_push(&mut a, out.as_slice());
            proof {
                let target = src.map_values(|e: (u32, IValue)| map_entry(*m, e));
                assert(pairs@ =~= target);
                let after_view = objects_of(a);
                assert(after_view =~= before_view.push(mapped));
                lemma_total_len_push(before_view, mapped);
                assert forall|x: int|
                    0 <= x < k + 1 implies canonical_entries(
                        #[trigger] after_view[x],
                        self@.objects[order.0@[x] as int].map_values(
                            |e: (u32, IValue)| map_entry(*m, e),
                        ),
                    ) by {
                    if x < k {
                        assert(after_view[x] == before_view[x]);
                    }
                }
                assert forall|x: int, y: int|
                    0 <= x < entry_slices(a).len() && 0 <= y < entry_slices(a)[x].len()
                        implies value_entry(entry_value(#[trigger] entry_slices(a)[x][y]))
                        == entry_slices(a)[x][y] by {
                    if x == before.len() as int {
                        lemma_cell_round_trip(sorted@[y].1);
                    } else {
                        assert(entry_slices(a)[x] == before[x]);
                    }
                }
            }
            k += 1;
        }
        a
    }

    /// Builds the context whose strings, arrays and objects are listed in
    /// the given orders, and the mapping from the ids of this context to the
    /// new ids.
    #[verifier::rlimit(60)]
    fn rebuild(&self, so: &RevMappingImpl, ao: &RevMappingImpl, oo: &RevMappingImpl) -> (r: (Jinterners, Mapping))
        requires
            self.wf(),
            so.wf(),
            ao.wf(),
            oo.wf(),
            so.0@.len() == self@.strings.len(),
            ao.0@.len() == self@.arrays.len(),
            oo.0@.len() == self@.objects.len(),
            so.0@[0] == 0,
        ensures
            r.0.wf(),
            r.1.wf(),
            renumbered(self@, r.0@, r.1),
            (r.1.string is Identity) == is_identity_seq(so.0@),
            (r.1.iarray is Identity) == is_identity_seq(ao.0@),
            (r.1.iobject is Identity) == is_identity_seq(oo.0@),
            r.0@.strings == Seq::new(self@.strings.len(), |k: int| self@.strings[so.0@[k] as int]),
            forall|i: int| 0 <= i < so.0@.len() ==> so.0@[#[trigger] r.1.string.spec_at(i)] as int == i,
            forall|i: int| 0 <= i < ao.0@.len() ==> ao.0@[#[trigger] r.1.iarray.spec_at(i)] as int == i,
            forall|i: int| 0 <= i < oo.0@.len() ==> oo.0@[#[trigger] r.1.iobject.spec_at(i)] as int == i,
    {
        let m = Mapping { string: so.reverse(), iarray: ao.reverse(), iobject: oo.reverse() };
        let string = self.rebuild_strings(so);
        let iarray = self.rebuild_arrays(ao, &m);
        let iobject = self.rebuild_objects(oo, &m);
        let d = Jinterners { string, iarray, iobject };
        proof {
            let v = self@;
            let w = d@;
            assert(w.objects == objects_of(iobject));
            // strings
            assert forall|i: int, j: int|
                0 <= i < w.strings.len() && 0 <= j < w.strings.len() && i != j
                    implies #[trigger] w.strings[i] != #[trigger] w.strings[j] by {
                assert(so.0@[i] != so.0@[j]);
            }
            assert forall|i: int| 0 <= i < v.strings.len() implies w.strings[m.string.spec_at(i)]
                == #[trigger] v.strings[i] by {
                assert(so.0@[m.string.spec_at(i)] as int == i);
            }
            // arrays
            assert forall|x: int, y: int|
                0 <= x < w.arrays.len() && 0 <= y < w.arrays[x].len() implies w.in_range(
                    #[trigger] w.arrays[x][y],
                ) by {
                let src = v.arrays[ao.0@[x] as int];
                assert(w.arrays[x] == src.map_values(|u: IValue| m.spec_map(u)));
                assert(v.in_range(src[y]));
            }
            assert forall|a: int| 0 <= a < v.arrays.len() implies w.arrays[m.iarray.spec_at(a)]
                == (#[trigger] v.arrays[a]).map_values(|u: IValue| m.spec_map(u)) by {
                assert(ao.0@[m.iarray.spec_at(a)] as int == a);
            }
            // objects
            assert forall|x: int|
                0 <= x < w.objects.len() implies keys_distinct(
                    (#[trigger] v.objects[oo.0@[x] as int]).map_values(|e: (u32, IValue)| map_entry(m, e)),
                ) by {
                let src = v.objects[oo.0@[x] as int];
                let t = src.map_values(|e: (u32, IValue)| map_entry(m, e));
                assert forall|a: int, b: int| 0 <= a < t.len() && 0 <= b < t.len() && a != b implies #[trigger] t[a].0
                    != #[trigger] t[b].0 by {
                    if a < b {
                        assert(src[a].0 < src[b].0);
                    } else {
                        assert(src[b].0 < src[a].0);
                    }
                    assert((src[a].0 as int) < v.strings.len());
                    assert((src[b].0 as int) < v.strings.len());
                }
            }
            assert forall|o: int, y: int|
                0 <= o < w.objects.len() && 0 <= y < w.objects[o].len() implies {
                    &&& (#[trigger] w.objects[o][y]).0 < w.strings.len()
                    &&& w.in_range(w.objects[o][y].1)
                } by {
                let src = v.objects[oo.0@[o] as int];
                let t = src.map_values(|e: (u32, IValue)| map_entry(m, e));
                assert(canonical_entries(w.objects[o], t));
                assert(from_last(t, t.len() as int, w.objects[o][y]));
                let j = choose|j: int| last_before(t, t.len() as int, j) && #[trigger] t[j] == w.objects[o][y];
                assert(v.in_range(src[j].1));
                assert((src[j].0 as int) < v.strings.len());
            }
            assert forall|o: int, k1: int, k2: int|
                0 <= o < w.objects.len() && 0 <= k1 < k2 < w.objects[o].len()
                    implies #[trigger] w.objects[o][k1].0 < #[trigger] w.objects[o][k2].0 by {
                let src = v.objects[oo.0@[o] as int];
                let t = src.map_values(|e: (u32, IValue)| map_entry(m, e));
                assert(canonical_entries(w.objects[o], t));
            }
            assert forall|x: int, y: int|
                0 <= x < w.arrays.len() && 0 <= y < w.arrays.len() && x != y
                    implies #[trigger] w.arrays[x] != #[trigger] w.arrays[y] by {
                let a1 = v.arrays[ao.0@[x] as int];
                let b1 = v.arrays[ao.0@[y] as int];
                if w.arrays[x] == w.arrays[y] {
                    assert(w.arrays[x] == a1.map_values(|u: IValue| m.spec_map(u)));
                    assert(w.arrays[y] == b1.map_values(|u: IValue| m.spec_map(u)));
                    assert(a1.len() == b1.len());
                    assert forall|k: int| 0 <= k < a1.len() implies a1[k] == b1[k] by {
                        assert(v.in_range(a1[k]));
                        assert(v.in_range(b1[k]));
                        assert(w.arrays[x][k] == m.spec_map(a1[k]));
                        assert(w.arrays[y][k] == m.spec_map(b1[k]));
                        lemma_map_injective(v, m, a1[k], b1[k]);
                    }
                    assert(a1 =~= b1);
                    assert(ao.0@[x] != ao.0@[y]);
                }
            }
            assert forall|x: int, y: int|
                0 <= x < w.objects.len() && 0 <= y < w.objects.len() && x != y
                    implies #[trigger] w.objects[x] != #[trigger] w.objects[y] by {
                let a1 = v.objects[oo.0@[x] as int];
                let b1 = v.objects[oo.0@[y] as int];
                let ta = a1.map_values(|e: (u32, IValue)| map_entry(m, e));
                let tb = b1.map_values(|e: (u32, IValue)| map_entry(m, e));
                if w.objects[x] == w.objects[y] {
                    assert(keys_distinct(ta));
                    assert(keys_distinct(tb));
                    lemma_canonical_same(w.objects[x], ta);
                    lemma_canonical_same(w.objects[y], tb);
                    assert forall|i: int| 0 <= i < a1.len() implies b1.contains(#[trigger] a1[i]) by {
                        assert(w.objects[x].contains(ta[i]));
                        let p = choose|p: int| 0 <= p < w.objects[x].len() && w.objects[x][p] == ta[i];
                        assert(tb.contains(w.objects[y][p]));
                        let q = choose|q: int| 0 <= q < tb.len() && tb[q] == w.objects[y][p];
                        assert(v.in_range(a1[i].1));
                        assert(v.in_range(b1[q].1));
                        assert((a1[i].0 as int) < v.strings.len());
                        assert((b1[q].0 as int) < v.strings.len());
                        lemma_map_injective(v, m, a1[i].1, b1[q].1);
                        lemma_map_id_injective(m.string, a1[i].0, b1[q].0);
                        assert(a1[i] == b1[q]);
                    }
                    assert forall|i: int| 0 <= i < b1.len() implies a1.contains(#[trigger] b1[i]) by {
                        assert(w.objects[y].contains(tb[i]));
                        let p = choose|p: int| 0 <= p < w.objects[y].len() && w.objects[y][p] == tb[i];
                        assert(ta.contains(w.objects[x][p]));
                        let q = choose|q: int| 0 <= q < ta.len() && ta[q] == w.objects[x][p];
                        assert(v.in_range(b1[i].1));
                        assert(v.in_range(a1[q].1));
                        assert((b1[i].0 as int) < v.strings.len());
                        assert((a1[q].0 as int) < v.strings.len());
                        lemma_map_injective(v, m, b1[i].1, a1[q].1);
                        lemma_map_id_injective(m.string, b1[i].0, a1[q].0);
                        assert(b1[i] == a1[q]);
                    }
                    assert(keys_sorted(a1)) by {
                        assert forall|p: int, q: int| 0 <= p < q < a1.len() implies #[trigger] a1[p].0 < #[trigger] a1[q].0 by {
                            assert(v.objects[oo.0@[x] as int][p].0 < v.objects[oo.0@[x] as int][q].0);
                        }
                    }
                    assert(keys_sorted(b1)) by {
                        assert forall|p: int, q: int| 0 <= p < q < b1.len() implies #[trigger] b1[p].0 < #[trigger] b1[q].0 by {
                            assert(v.objects[oo.0@[y] as int][p].0 < v.objects[oo.0@[y] as int][q].0);
                        }
                    }
                    lemma_sorted_same_elements(a1, b1);
                    assert(oo.0@[x] != oo.0@[y]);
                }
            }
            assert forall|o: int| 0 <= o < v.objects.len() implies same_entries(
                w.objects[m.iobject.spec_at(o)],
                (#[trigger] v.objects[o]).map_values(|e: (u32, IValue)| map_entry(m, e)),
            ) by {
                let x = m.iobject.spec_at(o);
                assert(oo.0@[x] as int == o);
                assert(keys_distinct(v.objects[oo.0@[x] as int].map_values(|e: (u32, IValue)| map_entry(m, e))));
                lemma_canonical_same(
                    w.objects[x],
                    v.objects[o].map_values(|e: (u32, IValue)| map_entry(m, e)),
                );
            }
        }
        (d, m)
    }

    /// The canonical order of the strings: by UTF-8 length, then bytewise.
    /// The empty string stays first.
    fn optimized_mapping_strings(&self) -> (r: RevMappingImpl)
        requires
            self.wf(),
        ensures
            r.wf(),
            r.0@.len() == self@.strings.len(),
            r.0@[0] == 0,
            ordered_by(self@.strings, r.0@, |s: Seq<char>| string_order_key(s)),
            is_identity_seq(r.0@) <==> in_order(self@.strings, |s: Seq<char>| string_order_key(s)),
    {
        let n = str_arena_len(&self.string);
        let mut keys: Vec<(usize, Vec<u64>)> = Vec::with_capacity(n);
        let mut i: usize = 0;
        while i < n
            invariant
                self.wf(),
                n == self@.strings.len(),
                i <= n,
                keys@.len() == i,
                forall|k: int| 0 <= k < i ==> ((#[trigger] keys@[k]).0 as nat, keys@[k].1@) == string_order_key(self@.strings[k]),
            decreases n - i,
        {
            let s = str_arena_lookup(&self.string, i as u32);
            let b = s.as_bytes().len();
            let key = str_key(s);
            keys.push((b, key));
            i += 1;
        }
        let r = sort_ids(&keys);
        proof {
            let v = self@;
            let ids = r.0@;
            assert forall|a: int, b: int| 0 <= a < b < ids.len() implies !key_lt(
                string_order_key(v.strings[#[trigger] ids[b] as int]),
                string_order_key(v.strings[#[trigger] ids[a] as int]),
            ) by {
                assert(keys@[ids[a] as int] == keys@[ids[a] as int]);
                assert(keys@[ids[b] as int] == keys@[ids[b] as int]);
            }
            if in_order(v.strings, |s: Seq<char>| string_order_key(s)) {
                assert forall|a: int, b: int| 0 <= a < b < keys@.len() implies !key_lt(
                    ((#[trigger] keys@[b]).0 as nat, keys@[b].1@),
                    ((#[trigger] keys@[a]).0 as nat, keys@[a].1@),
                ) by {
                    assert(keys@[a] == keys@[a]);
                    assert(!key_lt(string_order_key(v.strings[b]), string_order_key(v.strings[a])));
                }
                assert(keys_nondecreasing(keys@));
            }
            if is_identity_seq(ids) {
                assert forall|a: int, b: int| 0 <= a < b < v.strings.len() implies !key_lt(
                    string_order_key(#[trigger] v.strings[b]),
                    string_order_key(#[trigger] v.strings[a]),
                ) by {
                    assert(keys@[a] == keys@[a]);
                    assert(keys@[b] == keys@[b]);
                }
            }
            // the empty string keeps id 0
            assert(crate::mapping::appears(ids, 0));
            let z = choose|z: int| 0 <= z < ids.len() && #[trigger] ids[z] == 0;
            if ids[0] != 0 {
                assert(z > 0);
                let x = v.strings[ids[0] as int];
                assert(keys@[ids[0] as int] == keys@[ids[0] as int]);
                assert(keys@[0] == keys@[0]);
                assert(!key_lt(string_order_key(v.strings[ids[z] as int]), string_order_key(x)));
                assert(encode_utf8(Seq::<char>::empty()) =~= Seq::<u8>::empty());
                if x.len() > 0 {
                    lemma_utf8_nonempty(x);
                }
                assert(x =~= v.strings[0]);
                assert(false);
            }
        }
        r
    }

    /// The canonical order of the arrays: by length, then lexicographically.
    fn optimized_mapping_arrays(&self) -> (r: RevMappingImpl)
        requires
            self.wf(),
        ensures
            r.wf(),
            r.0@.len() == self@.arrays.len(),
            ordered_by(self@.arrays, r.0@, |a: Seq<IValue>| array_order_key(a)),
            is_identity_seq(r.0@) <==> in_order(self@.arrays, |a: Seq<IValue>| array_order_key(a)),
    {
        let n = cell_arena_len(&self.iarray);
        let mut keys: Vec<(usize, Vec<u64>)> = Vec::with_capacity(n);
        let mut i: usize = 0;
        while i < n
            invariant
                self.wf(),
                n == self@.arrays.len(),
                i <= n,
                keys@.len() == i,
                forall|k: int| 0 <= k < i ==> ((#[trigger] keys@[k]).0 as nat, keys@[k].1@) == array_order_key(self@.arrays[k]),
            decreases n - i,
        {
            let cells = cell_arena_lookup(&self.iarray, i as u32);
            assert(self@.arrays[i as int] == cells@.map_values(|c: Cell| cell_value(c)));
            let key = cells_key(cells);
            keys.push((cells.len(), key));
            i += 1;
        }
        let r = sort_ids(&keys);
        proof {
            let v = self@;
            let ids = r.0@;
            assert forall|a: int, b: int| 0 <= a < b < ids.len() implies !key_lt(
                array_order_key(v.arrays[#[trigger] ids[b] as int]),
                array_order_key(v.arrays[#[trigger] ids[a] as int]),
            ) by {
                assert(keys@[ids[a] as int] == keys@[ids[a] as int]);
                assert(keys@[ids[b] as int] == keys@[ids[b] as int]);
            }
            if in_order(v.arrays, |a: Seq<IValue>| array_order_key(a)) {
                assert forall|a: int, b: int| 0 <= a < b < keys@.len() implies !key_lt(
                    ((#[trigger] keys@[b]).0 as nat, keys@[b].1@),
                    ((#[trigger] keys@[a]).0 as nat, keys@[a].1@),
                ) by {
                    assert(keys@[a] == keys@[a]);
                    assert(!key_lt(array_order_key(v.arrays[b]), array_order_key(v.arrays[a])));
                }
                assert(keys_nondecreasing(keys@));
            }
            if is_identity_seq(ids) {
                assert forall|a: int, b: int| 0 <= a < b < v.arrays.len() implies !key_lt(
                    array_order_key(#[trigger] v.arrays[b]),
                    array_order_key(#[trigger] v.arrays[a]),
                ) by {
                    assert(keys@[a] == keys@[a]);
                    assert(keys@[b] == keys@[b]);
                }
            }
        }
        r
    }

    /// The canonical order of the objects: by length, then lexicographically.
    fn optimized_mapping_objects(&self) -> (r: RevMappingImpl)
        requires
            self.wf(),
        ensures
            r.wf(),
            r.0@.len() == self@.objects.len(),
            ordered_by(self@.objects, r.0@, |o: Seq<(u32, IValue)>| object_order_key(o)),
            is_identity_seq(r.0@) <==> in_order(self@.objects, |o: Seq<(u32, IValue)>| object_order_key(o)),
    {
        let n = entry_arena_len(&self.iobject);
        let mut keys: Vec<(usize, Vec<u64>)> = Vec::with_capacity(n);
        let mut i: usize = 0;
        while i < n
            invariant
                self.wf(),
                n == self@.objects.len(),
                i <= n,
                keys@.len() == i,
                forall|k: int| 0 <= k < i ==> ((#[trigger] keys@[k]).0 as nat, keys@[k].1@) == object_order_key(self@.objects[k]),
            decreases n - i,
        {
            let cells = entry_arena_lookup(&self.iobject, i as u32);
            assert(self@.objects[i as int] == cells@.map_values(|e: EntryCell| entry_value(e)));
            let key = entry_cells_key(cells);
            keys.push((cells.len(), key));
            i += 1;
        }
        let r = sort_ids(&keys);
        proof {
            let v = self@;
            let ids = r.0@;
            assert forall|a: int, b: int| 0 <= a < b < ids.len() implies !key_lt(
                object_order_key(v.objects[#[trigger] ids[b] as int]),
                object_order_key(v.objects[#[trigger] ids[a] as int]),
            ) by {
                assert(keys@[ids[a] as int] == keys@[ids[a] as int]);
                assert(keys@[ids[b] as int] == keys@[ids[b] as int]);
            }
            if in_order(v.objects, |o: Seq<(u32, IValue)>| object_order_key(o)) {
                assert forall|a: int, b: int| 0 <= a < b < keys@.len() implies !key_lt(
                    ((#[trigger] keys@[b]).0 as nat, keys@[b].1@),
                    ((#[trigger] keys@[a]).0 as nat, keys@[a].1@),
                ) by {
                    assert(keys@[a] == keys@[a]);
                    assert(!key_lt(object_order_key(v.objects[b]), object_order_key(v.objects[a])));
                }
                assert(keys_nondecreasing(keys@));
            }
            if is_identity_seq(ids) {
                assert forall|a: int, b: int| 0 <= a < b < v.objects.len() implies !key_lt(
                    object_order_key(#[trigger] v.objects[b]),
                    object_order_key(#[trigger] v.objects[a]),
                ) by {
                    assert(keys@[a] == keys@[a]);
                    assert(keys@[b] == keys@[b]);
                }
            }
        }
        r
    }

    /// Reads the handle `h` as an enum value.
    pub fn enum_shape(&self, h: IValue) -> (r: EnumShape)
        requires
            self.wf(),
            self@.in_range(h),
        ensures
            h is String ==> r == EnumShape::Unit(h->String_0),
            h is Object && self@.objects[h->Object_0 as int].len() == 1 ==> r == EnumShape::Payload(
                self@.objects[h->Object_0 as int][0].0,
                self@.objects[h->Object_0 as int][0].1,
            ),
            h is Object && self@.objects[h->Object_0 as int].len() != 1 ==> r == EnumShape::BadLength(
                self@.objects[h->Object_0 as int].len() as usize,
            ),
            !(h is String || h is Object) ==> r == EnumShape::BadType,
    {
        match h {
            IValue::String(id) => EnumShape::Unit(id),
            IValue::Object(id) => {
                let cells = entry_arena_lookup(&self.iobject, id);
                assert(self@.objects[id as int] == cells@.map_values(|e: EntryCell| entry_value(e)));
                if cells.len() == 1 {
                    let (k, tag, payload) = cells[0];
                    EnumShape::Payload(k, cell_to_value((tag, payload)))
                } else {
                    EnumShape::BadLength(cells.len())
                }
            },
            _ => EnumShape::BadType,
        }
    }

    /// Gets the size in bytes of the string arena.
    pub fn get_size_strings(&self) -> (r: usize)
        requires
            self.wf(),
        ensures
            r >= total_bytes(self@.strings),
    {
        str_arena_size(&self.string)
    }

    /// Gets the size in bytes of the array arena.
    pub fn get_size_arrays(&self) -> (r: usize)
        requires
            self.wf(),
        ensures
            r >= total_len(self@.arrays),
    {
        cell_arena_size(&self.iarray)
    }

    /// Gets the size in bytes of the object arena.
    pub fn get_size_objects(&self) -> (r: usize)
        requires
            self.wf(),
        ensures
            r >= total_len(self@.objects),
    {
        entry_arena_size(&self.iobject)
    }

    /// Returns a partially optimized version of this context, or `None` if
    /// it is already in canonical order.
    ///
    /// This runs one pass over all three arenas; values of this context
    /// are carried over with the returned mapping.
    pub fn optimize_once(&self) -> (r: Option<(Jinterners, Mapping)>)
        requires
            self.wf(),
        ensures
            r is None <==> in_canonical_order(self@),
            match r {
                Some((d, m)) => {
                    &&& d.wf()
                    &&& m.wf()
                    &&& renumbered(self@, d@, m)
                    &&& order_kept(self@.strings, |s: Seq<char>| string_order_key(s), m.string)
                    &&& order_kept(self@.arrays, |a: Seq<IValue>| array_order_key(a), m.iarray)
                    &&& order_kept(self@.objects, |o: Seq<(u32, IValue)>| object_order_key(o), m.iobject)
                    &&& !(m.string is Identity && m.iarray is Identity && m.iobject is Identity)
                },
                None => true,
            },
    {
        let so = self.optimized_mapping_strings();
        let ao = self.optimized_mapping_arrays();
        let oo = self.optimized_mapping_objects();
        if so.is_identity() && ao.is_identity() && oo.is_identity() {
            return None;
        }
        let (d, m) = self.rebuild(&so, &ao, &oo);
        proof {
            lemma_kept_for(self@, so.0@, ao.0@, oo.0@, m);
        }
        Some((d, m))
    }

    /// One pass over the strings only; arrays and objects keep their ids.
    fn optimize_once_strings(&self) -> (r: Option<(Jinterners, Mapping)>)
        requires
            self.wf(),
        ensures
            r is None <==> in_order(self@.strings, |s: Seq<char>| string_order_key(s)),
            match r {
                Some((d, m)) => d.wf() && m.wf() && renumbered(self@, d@, m) && order_kept(
                    self@.strings,
                    |s: Seq<char>| string_order_key(s),
                    m.string,
                ) && in_order(d@.strings, |s: Seq<char>| string_order_key(s)),
                None => true,
            },
    {
        let so = self.optimized_mapping_strings();
        if so.is_identity() {
            return None;
        }
        let ao = RevMappingImpl::identity(cell_arena_len(&self.iarray) as u32);
        let oo = RevMappingImpl::identity(entry_arena_len(&self.iobject) as u32);
        let (d, m) = self.rebuild(&so, &ao, &oo);
        proof {
            assert forall|i: int| 0 <= i < self@.strings.len() implies 0 <= #[trigger] m.string.spec_at(i)
                < self@.strings.len() by {
                lemma_at_in_range(m.string, i);
            }
            lemma_order_kept(self@.strings, so.0@, |s: Seq<char>| string_order_key(s), m.string);
            assert forall|a: int, b: int| 0 <= a < b < d@.strings.len() implies !key_lt(
                string_order_key(#[trigger] d@.strings[b]),
                string_order_key(#[trigger] d@.strings[a]),
            ) by {
                assert(d@.strings[a] == self@.strings[so.0@[a] as int]);
                assert(d@.strings[b] == self@.strings[so.0@[b] as int]);
            }
        }
        Some((d, m))
    }

    /// One pass over the arrays and objects only; strings keep their ids.
    fn optimize_once_no_strings(&self) -> (r: Option<(Jinterners, Mapping)>)
        requires
            self.wf(),
        ensures
            r is None <==> in_order(self@.arrays, |a: Seq<IValue>| array_order_key(a))
                && in_order(self@.objects, |o: Seq<(u32, IValue)>| object_order_key(o)),
            match r {
                Some((d, m)) => {
                    &&& d.wf()
                    &&& m.wf()
                    &&& renumbered(self@, d@, m)
                    &&& m.string is Identity
                    &&& d@.strings == self@.strings
                    &&& order_kept(self@.arrays, |a: Seq<IValue>| array_order_key(a), m.iarray)
                    &&& order_kept(self@.objects, |o: Seq<(u32, IValue)>| object_order_key(o), m.iobject)
                },
                None => true,
            },
    {
        let ao = self.optimized_mapping_arrays();
        let oo = self.optimized_mapping_objects();
        if ao.is_identity() && oo.is_identity() {
            return None;
        }
        let so = RevMappingImpl::identity(str_arena_len(&self.string) as u32);
        let (d, m) = self.rebuild(&so, &ao, &oo);
        proof {
            assert forall|i: int| 0 <= i < self@.arrays.len() implies 0 <= #[trigger] m.iarray.spec_at(i)
                < self@.arrays.len() by {
                lemma_at_in_range(m.iarray, i);
            }
            assert forall|i: int| 0 <= i < self@.objects.len() implies 0 <= #[trigger] m.iobject.spec_at(i)
                < self@.objects.len() by {
                lemma_at_in_range(m.iobject, i);
            }
            lemma_order_kept(self@.arrays, ao.0@, |a: Seq<IValue>| array_order_key(a), m.iarray);
            lemma_order_kept(self@.objects, oo.0@, |o: Seq<(u32, IValue)>| object_order_key(o), m.iobject);
            assert(d@.strings =~= self@.strings);
        }
        Some((d, m))
    }

    /// Returns an optimized version of this context with the mapping from
    /// its ids, or `None` if there is nothing to do or `limit` is zero.
    ///
    /// Strings are put in canonical order first; then arrays and objects
    /// are put in canonical order again and again, until a pass changes
    /// nothing or `limit` passes have run.
    pub fn optimize(&self, limit: Option<usize>) -> (r: Option<(Jinterners, Mapping)>)
        requires
            self.wf(),
        ensures
            r is None <==> (limit == Some(0usize) || in_canonical_order(self@)),
            match r {
                Some((d, m)) => d.wf() && m.wf() && renumbered(self@, d@, m) && order_kept(
                    self@.strings,
                    |s: Seq<char>| string_order_key(s),
                    m.string,
                ) && in_order(d@.strings, |s: Seq<char>| string_order_key(s)),
                None => true,
            },
    {
        if limit == Some(0usize) {
            return None;
        }
        let mut optimized = self.optimize_once_strings();
        let bound: usize = match limit {
            Some(l) => l,
            None => usize::MAX,
        };
        let mut i: usize = 0;
        while i < bound
            invariant
                self.wf(),
                match optimized {
                    Some((d, m)) => d.wf() && m.wf() && renumbered(self@, d@, m) && order_kept(
                        self@.strings,
                        |s: Seq<char>| string_order_key(s),
                        m.string,
                    ) && in_order(d@.strings, |s: Seq<char>| string_order_key(s)),
                    None => true,
                },
                in_canonical_order(self@) ==> optimized is None,
                optimized is Some || in_order(self@.strings, |s: Seq<char>| string_order_key(s)),
                i > 0 && optimized is None ==> in_canonical_order(self@),
                bound >= 1,
            ensures
                self.wf(),
                match optimized {
                    Some((d, m)) => d.wf() && m.wf() && renumbered(self@, d@, m) && order_kept(
                        self@.strings,
                        |s: Seq<char>| string_order_key(s),
                        m.string,
                    ) && in_order(d@.strings, |s: Seq<char>| string_order_key(s)),
                    None => true,
                },
                optimized is None <==> in_canonical_order(self@),
            decreases bound - i,
        {
            let ghost prev_view: JView = if optimized is Some {
                optimized->Some_0.0@
            } else {
                self@
            };
            let next = match &optimized {
                None => self.optimize_once_no_strings(),
                Some((d, _)) => d.optimize_once_no_strings(),
            };
            match next {
                None => {
                    break;
                },
                Some((d2, m2)) => {
                    proof {
                        if in_canonical_order(self@) {
                            assert(false);
                        }
                    }
                    proof {
                        if optimized is None {
                            lemma_identity_kept(self@.strings, |s: Seq<char>| string_order_key(s), m2.string);
                        }
                    }
                    optimized = match optimized {
                        None => Some((d2, m2)),
                        Some((_, m1)) => {
                            let ghost g1 = m1;
                            let ghost g2 = m2;
                            let Mapping { string: _, iarray, iobject } = m2;
                            let ns = MappingNoStrings { iarray, iobject };
                            let c = m1.compose(ns);
                            proof {
                                assert forall|v: IValue| #[trigger] g1.covers(v) implies c.covers(v)
                                    && c.spec_map(v) == g2.spec_map(g1.spec_map(v)) by {
                                    assert(c.spec_map(v) == ns.spec_map(g1.spec_map(v)));
                                }
                                lemma_renumbered_compose(self@, prev_view, g1, d2@, g2, c);
                            }
                            Some((d2, c))
                        },
                    };
                },
            }
            i += 1;
        }
        optimized
    }
}

/// The context that the parts `p` decode to.
pub open spec fn decoded_view(p: DeltaParts) -> JView {
    JView {
        strings: p.strings_view(),
        arrays: unfold_slices(zero_acc(), p.arrays_view()).1,
        objects: unfold_objects(Map::empty(), p.objects_view()).1,
    }
}

/// The arenas of `v` stay within their 32-bit ranges.
pub open spec fn fits(v: JView) -> bool {
    &&& v.strings.len() <= u32::MAX
    &&& v.arrays.len() <= u32::MAX
    &&& v.objects.len() <= u32::MAX
    &&& total_bytes(v.strings) <= u32::MAX
    &&& total_len(v.arrays) <= u32::MAX
    &&& total_len(v.objects) <= u32::MAX
}

impl DeltaEncoding<Jinterners> {
    /// Encodes the wrapped context: strings as they are, arrays and objects
    /// as deltas.
    pub fn encode(&self) -> (r: DeltaParts)
        requires
            self.inner.wf(),
        ensures
            r.strings_view() == self.inner@.strings,
            r.arrays_view() == fold_slices(zero_acc(), self.inner@.arrays).1,
            r.objects_view() == fold_objects(Map::empty(), self.inner@.objects).1,
    {
        let ctx = &self.inner;
        let ghost v = ctx@;
        let n = str_arena_len(&ctx.string);
        let mut strings: Vec<String> = Vec::with_capacity(n);
        let mut i: usize = 0;
        while i < n
            invariant
                ctx.wf(),
                v == ctx@,
                n == v.strings.len(),
                i <= n,
                strings@.len() == i,
                forall|k: int| 0 <= k < i ==> (#[trigger] strings@[k])@ == v.strings[k],
            decreases n - i,
        {
            let s = str_arena_lookup(&ctx.string, i as u32).to_owned();
            assert(s@ == v.strings[i as int]);
            strings.push(s);
            i += 1;
        }
        proof {
            let lhs = strings@.map_values(|s: String| s@);
            assert forall|k: int| 0 <= k < n implies #[trigger] lhs[k] == v.strings[k] by {
                assert(strings@[k]@ == v.strings[k]);
            }
            assert(lhs =~= v.strings);
        }

        let na = cell_arena_len(&ctx.iarray);
        let mut acc = IArrayAccumulator::default();
        let mut arrays: Vec<Vec<crate::delta::IValueDelta>> = Vec::with_capacity(na);
        let mut i: usize = 0;
        while i < na
            invariant
                ctx.wf(),
                v == ctx@,
                na == v.arrays.len(),
                i <= na,
                (acc.0, arrays@.map_values(|d: Vec<crate::delta::IValueDelta>| d@)) == fold_slices(
                    zero_acc(),
                    v.arrays.subrange(0, i as int),
                ),
            decreases na - i,
        {
            let cells = cell_arena_lookup(&ctx.iarray, i as u32);
            let ghost slice = v.arrays[i as int];
            assert(slice == cells@.map_values(|c: Cell| cell_value(c)));
            let mut vals: Vec<IValue> = Vec::with_capacity(cells.len());
            let mut k: usize = 0;
            while k < cells.len()
                invariant
                    k <= cells@.len(),
                    vals@ == cells@.subrange(0, k as int).map_values(|c: Cell| cell_value(c)),
                decreases cells@.len() - k,
            {
                vals.push(cell_to_value(cells[k]));
                proof {
                    assert(vals@ =~= cells@.subrange(0, k as int + 1).map_values(|c: Cell| cell_value(c)));
                }
                k += 1;
            }
            assert(cells@.subrange(0, cells@.len() as int) =~= cells@);
            let d = acc.fold(vals.as_slice());
            let ghost before = arrays@;
            arrays.push(d);
            proof {
                let sub = v.arrays.subrange(0, i as int + 1);
                assert(sub.drop_last() =~= v.arrays.subrange(0, i as int));
                assert(sub.last() == slice);
                assert(arrays@.map_values(|d: Vec<crate::delta::IValueDelta>| d@) =~= before.map_values(
                    |d: Vec<crate::delta::IValueDelta>| d@,
                ).push(d@));
            }
            i += 1;
        }
        assert(v.arrays.subrange(0, na as int) =~= v.arrays);
        let no = entry_arena_len(&ctx.iobject);
        let mut oacc = IObjectAccumulator::new();
        let mut objects: Vec<Vec<(i32, crate::delta::IValueDelta)>> = Vec::with_capacity(no);
        let mut i: usize = 0;
        while i < no
            invariant
                ctx.wf(),
                v == ctx@,
                no == v.objects.len(),
                i <= no,
                (oacc.map@, objects@.map_values(|d: Vec<(i32, crate::delta::IValueDelta)>| d@))
                    == fold_objects(Map::empty(), v.objects.subrange(0, i as int)),
            decreases no - i,
        {
            let cells = entry_arena_lookup(&ctx.iobject, i as u32);
            let ghost slice = v.objects[i as int];
            assert(slice == cells@.map_values(|e: EntryCell| entry_value(e)));
            let mut ents: Vec<(u32, IValue)> = Vec::with_capacity(cells.len());
            let mut k: usize = 0;
            while k < cells.len()
                invariant
                    k <= cells@.len(),
                    ents@ == cells@.subrange(0, k as int).map_values(|e: EntryCell| entry_value(e)),
                decreases cells@.len() - k,
            {
                let (key, tag, payload) = cells[k];
                ents.push((key, cell_to_value((tag, payload))));
                proof {
                    assert(ents@ =~= cells@.subrange(0, k as int + 1).map_values(|e: EntryCell| entry_value(e)));
                }
                k += 1;
            }
            assert(cells@.subrange(0, cells@.len() as int) =~= cells@);
            let d = oacc.fold(ents.as_slice());
            let ghost before = objects@;
            objects.push(d);
            proof {
                let sub = v.objects.subrange(0, i as int + 1);
                assert(sub.drop_last() =~= v.objects.subrange(0, i as int));
                assert(sub.last() == slice);
                assert(objects@.map_values(|d: Vec<(i32, crate::delta::IValueDelta)>| d@) =~= before.map_values(
                    |d: Vec<(i32, crate::delta::IValueDelta)>| d@,
                ).push(d@));
            }
            i += 1;
        }
        assert(v.objects.subrange(0, no as int) =~= v.objects);
        DeltaParts { strings, arrays, objects }
    }

    /// Decodes a context from its parts, or returns `None` when they do not
    /// describe a well-formed context whose arenas stay within their 32-bit
    /// ranges.
    pub fn decode(parts: &DeltaParts) -> (r: Option<DeltaEncoding<Jinterners>>)
        ensures
            match r {
                Some(e) => e.inner.wf() && e.inner@ == decoded_view(*parts),
                None => !(decoded_view(*parts).wf() && fits(decoded_view(*parts))),
            },
    {
        let ghost dv = decoded_view(*parts);
        // arrays
        let mut acc = IArrayAccumulator::default();
        let mut arrs: Vec<Vec<IValue>> = Vec::with_capacity(parts.arrays.len());
        let mut i: usize = 0;
        while i < parts.arrays.len()
            invariant
                i <= parts.arrays@.len(),
                arrs@.len() == i,
                (acc.0, arrs@.map_values(|x: Vec<IValue>| x@)) == unfold_slices(
                    zero_acc(),
                    parts.arrays_view().subrange(0, i as int),
                ),
            decreases parts.arrays@.len() - i,
        {
            let ghost before = arrs@;
            let vals = acc.unfold(parts.arrays[i].as_slice());
            arrs.push(vals);
            proof {
                let sub = parts.arrays_view().subrange(0, i as int + 1);
                assert(sub.drop_last() =~= parts.arrays_view().subrange(0, i as int));
                assert(sub.last() == parts.arrays@[i as int]@);
                assert(arrs@.map_values(|x: Vec<IValue>| x@) =~= before.map_values(|x: Vec<IValue>| x@).push(
                    arrs@[i as int]@,
                ));
            }
            i += 1;
        }
        assert(parts.arrays_view().subrange(0, parts.arrays@.len() as int) =~= parts.arrays_view());
        // objects
        let mut oacc = IObjectAccumulator::new();
        let mut objs: Vec<Vec<(u32, IValue)>> = Vec::with_capacity(parts.objects.len());
        let mut i: usize = 0;
        while i < parts.objects.len()
            invariant
                i <= parts.objects@.len(),
                objs@.len() == i,
                (oacc.map@, objs@.map_values(|x: Vec<(u32, IValue)>| x@)) == unfold_objects(
                    Map::empty(),
                    parts.objects_view().subrange(0, i as int),
                ),
            decreases parts.objects@.len() - i,
        {
            let ghost before = objs@;
            let vals = oacc.unfold(parts.objects[i].as_slice());
            objs.push(vals);
            proof {
                let sub = parts.objects_view().subrange(0, i as int + 1);
                assert(sub.drop_last() =~= parts.objects_view().subrange(0, i as int));
                assert(sub.last() == parts.objects@[i as int]@);
                assert(objs@.map_values(|x: Vec<(u32, IValue)>| x@) =~= before.map_values(
                    |x: Vec<(u32, IValue)>| x@,
                ).push(objs@[i as int]@));
            }
            i += 1;
        }
        assert(parts.objects_view().subrange(0, parts.objects@.len() as int) =~= parts.objects_view());
        let ghost av = arrs@.map_values(|x: Vec<IValue>| x@);
        let ghost ov = objs@.map_values(|x: Vec<(u32, IValue)>| x@);
        assert(av == dv.arrays);
        assert(ov == dv.objects);
        let ns = parts.strings.len();
        let na = arrs.len();
        let no = objs.len();
        if ns == 0 || ns > u32::MAX as usize || na > u32::MAX as usize || no > u32::MAX as usize {
            return None;
        }
        // strings
        let mut string = str_arena_new();
        let mut k: usize = 0;
        while k < ns
            invariant
                ns == parts.strings@.len(),
                ns <= u32::MAX,
                dv == decoded_view(*parts),
                k <= ns,
                str_contents(string) == dv.strings.subrange(0, k as int),
                str_bytes(string) == total_bytes(str_contents(string)),
                str_bytes(string) <= u32::MAX,
                forall|a: int, b: int|
                    0 <= a < k && 0 <= b < k && a != b ==> #[trigger] dv.strings[a] != #[trigger] dv.strings[b],
            decreases ns - k,
        {
            let s = parts.strings[k].as_str();
            assert(s@ == dv.strings[k as int]);
            let bytes = str_arena_bytes(&string);
            let ghost sub = dv.strings.subrange(0, k as int + 1);
            proof {
                assert(sub =~= dv.strings.subrange(0, k as int).push(s@));
                lemma_total_bytes_push(dv.strings.subrange(0, k as int), s@);
            }
            if s.as_bytes().len() > u32::MAX as usize - bytes {
                proof {
                    lemma_total_bytes_prefix(dv.strings, k as int + 1);
                }
                return None;
            }
            match str_arena_find(&string, s) {
                Some(j) => {
                    proof {
                        assert(dv.strings[j as int] == dv.strings[k as int]);
                    }
                    return None;
                },
                None => {},
            }
            let _ = str_arena_push(&mut string, s);
            proof {
                assert(str_contents(string) =~= sub);
                assert forall|a: int, b: int|
                    0 <= a < k + 1 && 0 <= b < k + 1 && a != b implies #[trigger] dv.strings[a]
                    != #[trigger] dv.strings[b] by {
                    if a == k as int {
                        assert(dv.strings.subrange(0, k as int)[b] == dv.strings[b]);
                    } else if b == k as int {
                        assert(dv.strings.subrange(0, k as int)[a] == dv.strings[a]);
                    }
                }
            }
            k += 1;
        }
        assert(dv.strings.subrange(0, ns as int) =~= dv.strings);
        if !parts.strings[0].as_str().is_empty() {
            return None;
        }
        // arrays in range
        let mut a: usize = 0;
        while a < na
            invariant
                na == arrs@.len(),
                av == arrs@.map_values(|x: Vec<IValue>| x@),
                ov.len() == no,
                dv == decoded_view(*parts),
                av == dv.arrays,
                ov == dv.objects,
                ns == dv.strings.len(),
                a <= na,
                forall|x: int, y: int|
                    0 <= x < a && 0 <= y < av[x].len() ==> in_range_of(
                        #[trigger] av[x][y],
                        ns as nat,
                        na as nat,
                        no as nat,
                    ),
            decreases na - a,
        {
            let row = &arrs[a];
            let mut y: usize = 0;
            while y < row.len()
                invariant
                    na == arrs@.len(),
                    av == arrs@.map_values(|x: Vec<IValue>| x@),
                    ov.len() == no,
                    dv == decoded_view(*parts),
                    av == dv.arrays,
                    ov == dv.objects,
                    ns == dv.strings.len(),
                    a < na,
                    *row == arrs@[a as int],
                    y <= row@.len(),
                    forall|x: int, y: int|
                        0 <= x < a && 0 <= y < av[x].len() ==> in_range_of(
                            #[trigger] av[x][y],
                            ns as nat,
                            na as nat,
                            no as nat,
                        ),
                    forall|z: int| 0 <= z < y ==> in_range_of(#[trigger] av[a as int][z], ns as nat, na as nat, no as nat),
                decreases row@.len() - y,
            {
                if !value_in_range(row[y], ns, na, no) {
                    proof {
                        assert(av[a as int] == row@);
                        assert(!dv.in_range(av[a as int][y as int]));
                    }
                    return None;
                }
                y += 1;
            }
            a += 1;
        }
        // objects valid
        let mut o: usize = 0;
        while o < no
            invariant
                no == objs@.len(),
                ov == objs@.map_values(|x: Vec<(u32, IValue)>| x@),
                av.len() == na,
                dv == decoded_view(*parts),
                av == dv.arrays,
                ov == dv.objects,
                ns == dv.strings.len(),
                o <= no,
                forall|x: int, y: int|
                    0 <= x < o && 0 <= y < ov[x].len() ==> {
                        &&& ((#[trigger] ov[x][y]).0 as nat) < ns
                        &&& in_range_of(ov[x][y].1, ns as nat, na as nat, no as nat)
                    },
                forall|x: int, y1: int, y2: int|
                    0 <= x < o && 0 <= y1 < y2 < ov[x].len() ==> #[trigger] ov[x][y1].0 < #[trigger] ov[x][y2].0,
            decreases no - o,
        {
            let row = &objs[o];
            let mut y: usize = 0;
            while y < row.len()
                invariant
                    no == objs@.len(),
                    ov == objs@.map_values(|x: Vec<(u32, IValue)>| x@),
                    av.len() == na,
                    dv == decoded_view(*parts),
                    av == dv.arrays,
                    ov == dv.objects,
                    ns == dv.strings.len(),
                    o < no,
                    *row == objs@[o as int],
                    y <= row@.len(),
                    forall|x: int, y: int|
                        0 <= x < o && 0 <= y < ov[x].len() ==> {
                            &&& ((#[trigger] ov[x][y]).0 as nat) < ns
                            &&& in_range_of(ov[x][y].1, ns as nat, na as nat, no as nat)
                        },
                    forall|x: int, y1: int, y2: int|
                        0 <= x < o && 0 <= y1 < y2 < ov[x].len() ==> #[trigger] ov[x][y1].0 < #[trigger] ov[x][y2].0,
                    forall|z: int|
                        0 <= z < y ==> {
                            &&& ((#[trigger] ov[o as int][z]).0 as nat) < ns
                            &&& in_range_of(ov[o as int][z].1, ns as nat, na as nat, no as nat)
                        },
                    forall|z1: int, z2: int| 0 <= z1 < z2 < y ==> #[trigger] ov[o as int][z1].0 < #[trigger] ov[o as int][z2].0,
                decreases row@.len() - y,
            {
                let (key, v) = row[y];
                proof {
                    assert(ov[o as int] == row@);
                }
                if key as usize >= ns || !value_in_range(v, ns, na, no) {
                    proof {
                        assert(ov[o as int][y as int] == (key, v));
                    }
                    return None;
                }
                if y > 0 && row[y - 1].0 >= key {
                    proof {
                        assert(!(dv.objects[o as int][y - 1].0 < dv.objects[o as int][y as int].0));
                    }
                    return None;
                }
                proof {
                    assert forall|z1: int, z2: int| 0 <= z1 < z2 < y + 1 implies #[trigger] ov[o as int][z1].0
                        < #[trigger] ov[o as int][z2].0 by {
                        if z2 == y as int && z1 < y - 1 {
                            assert(ov[o as int][z1].0 < ov[o as int][y - 1].0);
                        }
                    }
                }
                y += 1;
            }
            o += 1;
        }
        // build the arenas
        let mut iarray = cell_arena_new();
        let mut a: usize = 0;
        while a < na
            invariant
                na == arrs@.len(),
                av == arrs@.map_values(|x: Vec<IValue>| x@),
                dv == decoded_view(*parts),
                av == dv.arrays,
                ov == dv.objects,
                ns == dv.strings.len(),
                a <= na,
                cell_slices(iarray).map_values(|s: Seq<Cell>| s.map_values(|c: Cell| cell_value(c)))
                    == av.subrange(0, a as int),
                forall|x: int, y: int|
                    0 <= x < cell_slices(iarray).len() && 0 <= y < cell_slices(iarray)[x].len()
                        ==> value_cell(cell_value(#[trigger] cell_slices(iarray)[x][y]))
                        == cell_slices(iarray)[x][y],
                cell_items(iarray) == total_len(av.subrange(0, a as int)),
                cell_items(iarray) <= u32::MAX,
                na <= u32::MAX,
                forall|x: int, y: int| 0 <= x < a && 0 <= y < a && x != y ==> #[trigger] av[x] != #[trigger] av[y],
            decreases na - a,
        {
            let row = &arrs[a];
            let mut out: Vec<Cell> = Vec::with_capacity(row.len());
            let mut y: usize = 0;
            while y < row.len()
                invariant
                    y <= row@.len(),
                    out@.len() == y,
                    forall|z: int| 0 <= z < y ==> #[trigger] out@[z] == value_cell(row@[z]),
                decreases row@.len() - y,
            {
                out.push(value_to_cell(row[y]));
                y += 1;
            }
            let items = cell_arena_items(&iarray);
            proof {
                assert(av.subrange(0, a as int + 1) =~= av.subrange(0, a as int).push(row@));
                lemma_total_len_push(av.subrange(0, a as int), row@);
            }
            if out.len() > u32::MAX as usize - items {
                proof {
                    assert(av[a as int] == row@);
                    lemma_total_len_prefix(av, a as int + 1);
                    assert(total_len(dv.arrays) > u32::MAX);
                }
                return None;
            }
            let ghost before = cell_slices(iarray);
            let ghost mapped = out@.map_values(|c: Cell| cell_value(c));
            proof {
                assert(av[a as int] == row@);
                assert forall|z: int| 0 <= z < out@.len() implies #[trigger] mapped[z] == row@[z] by {
                    lemma_cell_round_trip(row@[z]);
                }
                assert(mapped =~= row@);
            }
            match cell_arena_find(&iarray, out.as_slice()) {
                Some(dup) => {
                    proof {
                        assert(av.subrange(0, a as int)[dup as int] == before[dup as int].map_values(|c: Cell| cell_value(c)));
                        assert(av[dup as int] == row@);
                        assert(dv.arrays[dup as int] == dv.arrays[a as int]);
                    }
                    return None;
                },
                None => {},
            }
            proof {
                assert forall|x: int| 0 <= x < a implies av[x] != row@ by {
                    if av[x] == row@ {
                        assert(av.subrange(0, a as int)[x] == before[x].map_values(|c: Cell| cell_value(c)));
                        assert forall|z: int| 0 <= z < out@.len() implies before[x][z] == out@[z] by {
                            assert(value_cell(cell_value(before[x][z])) == before[x][z]);
                            assert(before[x].map_values(|c: Cell| cell_value(c))[z] == cell_value(before[x][z]));
                        }
                        assert(before[x] =~= out@);
                        assert(before.contains(out@));
                    }
                }
            }
            let _ = cell_arena_push(&mut iarray, out.as_slice());
            proof {
                assert(cell_slices(iarray).map_values(|s: Seq<Cell>| s.map_values(|c: Cell| cell_value(c)))
                    =~= av.subrange(0, a as int + 1));
                assert forall|x: int, y: int|
                    0 <= x < cell_slices(iarray).len() && 0 <= y < cell_slices(iarray)[x].len()
                        implies value_cell(cell_value(#[trigger] cell_slices(iarray)[x][y]))
                        == cell_slices(iarray)[x][y] by {
                    if x == before.len() as int {
                        lemma_cell_round_trip(row@[y]);
                    } else {
                        assert(cell_slices(iarray)[x] == before[x]);
                    }
                }
            }
            a += 1;
        }
        assert(av.subrange(0, na as int) =~= av);
        let mut iobject = entry_arena_new();
        let mut o: usize = 0;
        while o < no
            invariant
                no == objs@.len(),
                ov == objs@.map_values(|x: Vec<(u32, IValue)>| x@),
                av.len() == na,
                dv == decoded_view(*parts),
                av == dv.arrays,
                ov == dv.objects,
                ns == dv.strings.len(),
                o <= no,
                objects_of(iobject) == ov.subrange(0, o as int),
                forall|x: int, y: int|
                    0 <= x < entry_slices(iobject).len() && 0 <= y < entry_slices(iobject)[x].len()
                        ==> value_entry(entry_value(#[trigger] entry_slices(iobject)[x][y]))
                        == entry_slices(iobject)[x][y],
                entry_items(iobject) == total_len(ov.subrange(0, o as int)),
                entry_items(iobject) <= u32::MAX,
                no <= u32::MAX,
                forall|x: int, y: int| 0 <= x < o && 0 <= y < o && x != y ==> #[trigger] ov[x] != #[trigger] ov[y],
            decreases no - o,
        {
            let row = &objs[o];
            let mut out: Vec<EntryCell> = Vec::with_capacity(row.len());
            let mut y: usize = 0;
            while y < row.len()
                invariant
                    y <= row@.len(),
                    out@.len() == y,
                    forall|z: int| 0 <= z < y ==> #[trigger] out@[z] == value_entry(row@[z]),
                decreases row@.len() - y,
            {
                let (key, v) = row[y];
                let c = value_to_cell(v);
                out.push((key, c.0, c.1));
                y += 1;
            }
            let items = entry_arena_items(&iobject);
            proof {
                assert(ov.subrange(0, o as int + 1) =~= ov.subrange(0, o as int).push(row@));
                lemma_total_len_push(ov.subrange(0, o as int), row@);
            }
            if out.len() > u32::MAX as usize - items {
                proof {
                    assert(ov[o as int] == row@);
                    lemma_total_len_prefix(ov, o as int + 1);
                    assert(total_len(dv.objects) > u32::MAX);
                }
                return None;
            }
            let ghost before = entry_slices(iobject);
            let ghost mapped = out@.map_values(|e: EntryCell| entry_value(e));
            proof {
                assert(ov[o as int] == row@);
                assert forall|z: int| 0 <= z < out@.len() implies #[trigger] mapped[z] == row@[z] by {
                    lemma_cell_round_trip(row@[z].1);
                }
                assert(mapped =~= row@);
            }
            match entry_arena_find(&iobject, out.as_slice()) {
                Some(dup) => {
                    proof {
                        assert(objects_of(iobject)[dup as int] == ov.subrange(0, o as int)[dup as int]);
                        assert(ov[dup as int] == row@);
                        assert(dv.objects[dup as int] == dv.objects[o as int]);
                    }
                    return None;
                },
                None => {},
            }
            proof {
                assert forall|x: int| 0 <= x < o implies ov[x] != row@ by {
                    if ov[x] == row@ {
                        assert(objects_of(iobject)[x] == ov.subrange(0, o as int)[x]);
                        assert forall|z: int| 0 <= z < out@.len() implies before[x][z] == out@[z] by {
                            assert(value_entry(entry_value(before[x][z])) == before[x][z]);
                            assert(objects_of(iobject)[x][z] == entry_value(before[x][z]));
                        }
                        assert(before[x] =~= out@);
                        assert(before.contains(out@));
                    }
                }
            }
            let _ = entry_arena_push(&mut iobject, out.as_slice());
            proof {
                assert(objects_of(iobject) =~= ov.subrange(0, o as int + 1));
                assert forall|x: int, y: int|
                    0 <= x < entry_slices(iobject).len() && 0 <= y < entry_slices(iobject)[x].len()
                        implies value_entry(entry_value(#[trigger] entry_slices(iobject)[x][y]))
                        == entry_slices(iobject)[x][y] by {
                    if x == before.len() as int {
                        lemma_cell_round_trip(row@[y].1);
                    } else {
                        assert(entry_slices(iobject)[x] == before[x]);
                    }
                }
            }
            o += 1;
        }
        assert(ov.subrange(0, no as int) =~= ov);
        let ctx = Jinterners { string, iarray, iobject };
        proof {
            let w = ctx@;
            assert(w.strings == dv.strings);
            assert(w.arrays == dv.arrays);
            assert(w.objects =~= dv.objects);
            assert(dv.strings[0] =~= Seq::<char>::empty());
            assert forall|x: int, y: int|
                0 <= x < w.arrays.len() && 0 <= y < w.arrays[x].len() implies w.in_range(
                    #[trigger] w.arrays[x][y],
                ) by {
                assert(in_range_of(av[x][y], ns as nat, na as nat, no as nat));
            }
            assert forall|x: int, y: int|
                0 <= x < w.objects.len() && 0 <= y < w.objects[x].len() implies {
                    &&& (#[trigger] w.objects[x][y]).0 < w.strings.len()
                    &&& w.in_range(w.objects[x][y].1)
                } by {
                assert(in_range_of(ov[x][y].1, ns as nat, na as nat, no as nat));
                assert((ov[x][y].0 as nat) < ns);
            }
            assert forall|x: int, y1: int, y2: int|
                0 <= x < w.objects.len() && 0 <= y1 < y2 < w.objects[x].len()
                    implies #[trigger] w.objects[x][y1].0 < #[trigger] w.objects[x][y2].0 by {
                assert(ov[x][y1].0 < ov[x][y2].0);
            }
        }
        Some(DeltaEncoding::new(ctx))
    }
}

/// A well-formed context has a well-formed view, so that the laws stated over
/// views apply to it.
pub proof fn lemma_view_wf(c: &Jinterners)
    requires
        c.wf(),
    ensures
        c@.wf(),
{
}

impl Default for Jinterners {
    /// Creates a context that holds only the empty string.
    fn default() -> (r: Jinterners)
        ensures
            r.wf(),
            r@.strings == seq![Seq::<char>::empty()],
            r@.arrays.len() == 0,
            r@.objects.len() == 0,
    {
        Jinterners::new()
    }
}

impl IValue {
    /// Interns the JSON value `source` into `interners`, or returns `None`
    /// when an arena would leave its 32-bit range.
    pub fn from(interners: &mut Jinterners, source: Json) -> (r: Option<IValue>)
        requires
            old(interners).wf(),
        ensures
            final(interners).wf(),
            old(interners)@.extended_by(final(interners)@),
            size_of(final(interners)@) <= size_of(old(interners)@) + json_cost(source),
            size_of(old(interners)@) + json_cost(source) + 2 <= u32::MAX ==> r is Some,
            source is Null || source is Bool || source is Number ==> r is Some && final(interners)@ == old(interners)@,
            keys_unique(source) && holds(old(interners)@, source) && size_of(old(interners)@) + json_cost(source) + 2
                <= u32::MAX ==> final(interners)@ == old(interners)@,
            match r {
                Some(h) => final(interners)@.denotes(h, source) && (final(interners)@, h) == interned(old(interners)@, source),
                None => true,
            },
    {
        interners.intern_ref(&source)
    }

    /// Interns the JSON value `source` into `interners`, or returns `None`
    /// when an arena would leave its 32-bit range.
    pub fn from_ref(interners: &mut Jinterners, source: &Json) -> (r: Option<IValue>)
        requires
            old(interners).wf(),
        ensures
            final(interners).wf(),
            old(interners)@.extended_by(final(interners)@),
            size_of(final(interners)@) <= size_of(old(interners)@) + json_cost(*source),
            size_of(old(interners)@) + json_cost(*source) + 2 <= u32::MAX ==> r is Some,
            source is Null || source is Bool || source is Number ==> r is Some && final(interners)@ == old(interners)@,
            keys_unique(*source) && holds(old(interners)@, *source) && size_of(old(interners)@) + json_cost(*source) + 2
                <= u32::MAX ==> final(interners)@ == old(interners)@,
            match r {
                Some(h) => final(interners)@.denotes(h, *source) && (final(interners)@, h) == interned(old(interners)@, *source),
                None => true,
            },
    {
        interners.intern_ref(source)
    }

    /// Retrieves the JSON value of this handle in `interners`.
    pub fn lookup(&self, interners: &Jinterners) -> (r: Json)
        requires
            interners.wf(),
            interners.stands_for_some(*self),
        ensures
            interners@.denotes(*self, r),
            interners@.rebuilt(*self, r),
    {
        interners.lookup(*self)
    }

    /// Performs a shallow lookup of this handle in `interners`.
    pub fn lookup_ref<'a>(&self, interners: &'a Jinterners) -> (r: ValueRef<'a>)
        requires
            interners.wf(),
            interners@.in_range(*self),
        ensures
            shallow_view(interners@, *self, r),
    {
        interners.lookup_ref(*self)
    }
}

/// Delta encoding round-trips: the parts that a well-formed context encodes
/// to decode to that same context, which is well formed and within range, so
/// that decoding them succeeds.
pub proof fn lemma_delta_round_trip(ctx: Jinterners, p: DeltaParts)
    requires
        ctx.wf(),
        p.strings_view() == ctx@.strings,
        p.arrays_view() == fold_slices(zero_acc(), ctx@.arrays).1,
        p.objects_view() == fold_objects(Map::empty(), ctx@.objects).1,
    ensures
        decoded_view(p) == ctx@,
        decoded_view(p).wf(),
        fits(decoded_view(p)),
{
    lemma_unfold_fold_slices(zero_acc(), ctx@.arrays);
    lemma_unfold_fold_objects(Map::empty(), ctx@.objects);
}

} // verus!
