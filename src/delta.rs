use crate::ivalue::IValue;
use std::collections::HashMap;
use vstd::prelude::*;

verus! {

broadcast use vstd::std_specs::hash::group_hash_axioms;

/// Wrapper around a context that travels in delta-encoded form.
pub struct DeltaEncoding<T> {
    pub inner: T,
}

impl<T> DeltaEncoding<T> {
    /// Creates a new wrapper around the given data.
    pub fn new(inner: T) -> (r: Self)
        ensures
            r.inner == inner,
    {
        DeltaEncoding { inner }
    }

    /// Extracts the inner data from this wrapper.
    pub fn into_inner(self) -> (r: T)
        ensures
            r == self.inner,
    {
        self.inner
    }
}

/// The delta-encoded form of a context: its strings as they are, its array
/// slices as deltas against one shared accumulator, and its object slices as
/// key deltas within each object and value deltas against one accumulator
/// per key.
pub struct DeltaParts {
    pub strings: Vec<String>,
    pub arrays: Vec<Vec<IValueDelta>>,
    pub objects: Vec<Vec<(i32, IValueDelta)>>,
}

impl DeltaParts {
    pub open spec fn strings_view(&self) -> Seq<Seq<char>> {
        self.strings@.map_values(|s: String| s@)
    }

    pub open spec fn arrays_view(&self) -> Seq<Seq<IValueDelta>> {
        self.arrays@.map_values(|v: Vec<IValueDelta>| v@)
    }

    pub open spec fn objects_view(&self) -> Seq<Seq<(i32, IValueDelta)>> {
        self.objects@.map_values(|v: Vec<(i32, IValueDelta)>| v@)
    }
}

/// Difference between a value and the previous value of the same kind.
///
/// Integers and ids carry a wrapping difference; booleans and float bit
/// patterns carry an exclusive or.
#[derive(Clone, Copy, Debug, PartialEq, Eq, Structural)]
pub enum IValueDelta {
    Null,
    Bool(bool),
    U64(i64),
    I64(i64),
    F64(u64),
    String(i32),
    Array(i32),
    Object(i32),
}

/// The previous value seen of each kind.
#[derive(Clone, Copy, Debug, PartialEq, Eq, Structural)]
pub struct IValueAccumulator {
    pub b: bool,
    pub u: u64,
    pub i: i64,
    pub f: u64,
    pub s: u32,
    pub a: u32,
    pub o: u32,
}

/// The accumulator in which every kind starts at its zero.
pub open spec fn zero_acc() -> IValueAccumulator {
    IValueAccumulator { b: false, u: 0, i: 0, f: 0, s: 0, a: 0, o: 0 }
}

impl Default for IValueAccumulator {
    fn default() -> (r: IValueAccumulator)
        ensures
            r == zero_acc(),
    {
        IValueAccumulator { b: false, u: 0, i: 0, f: 0, s: 0, a: 0, o: 0 }
    }
}

/// Encoding of `v` against `acc`: the next accumulator and the delta.
pub open spec fn fold_value(acc: IValueAccumulator, v: IValue) -> (IValueAccumulator, IValueDelta) {
    match v {
        IValue::Null => (acc, IValueDelta::Null),
        IValue::Bool(x) => (IValueAccumulator { b: x, ..acc }, IValueDelta::Bool(acc.b ^ x)),
        IValue::U64(x) => (IValueAccumulator { u: x, ..acc }, IValueDelta::U64(
            x.wrapping_sub(acc.u) as i64,
        )),
        IValue::I64(x) => (IValueAccumulator { i: x, ..acc }, IValueDelta::I64(
            x.wrapping_sub(acc.i),
        )),
        IValue::F64(x) => (IValueAccumulator { f: x, ..acc }, IValueDelta::F64(x ^ acc.f)),
        IValue::String(x) => (IValueAccumulator { s: x, ..acc }, IValueDelta::String(
            x.wrapping_sub(acc.s) as i32,
        )),
        IValue::Array(x) => (IValueAccumulator { a: x, ..acc }, IValueDelta::Array(
            x.wrapping_sub(acc.a) as i32,
        )),
        IValue::Object(x) => (IValueAccumulator { o: x, ..acc }, IValueDelta::Object(
            x.wrapping_sub(acc.o) as i32,
        )),
    }
}

/// Decoding of `d` against `acc`: the next accumulator and the value.
pub open spec fn unfold_value(acc: IValueAccumulator, d: IValueDelta) -> (IValueAccumulator, IValue) {
    match d {
        IValueDelta::Null => (acc, IValue::Null),
        IValueDelta::Bool(x) => (IValueAccumulator { b: acc.b ^ x, ..acc }, IValue::Bool(acc.b ^ x)),
        IValueDelta::U64(x) => {
            let y = acc.u.wrapping_add(x as u64);
            (IValueAccumulator { u: y, ..acc }, IValue::U64(y))
        },
        IValueDelta::I64(x) => {
            let y = acc.i.wrapping_add(x);
            (IValueAccumulator { i: y, ..acc }, IValue::I64(y))
        },
        IValueDelta::F64(x) => (IValueAccumulator { f: acc.f ^ x, ..acc }, IValue::F64(acc.f ^ x)),
        IValueDelta::String(x) => {
            let y = acc.s.wrapping_add(x as u32);
            (IValueAccumulator { s: y, ..acc }, IValue::String(y))
        },
        IValueDelta::Array(x) => {
            let y = acc.a.wrapping_add(x as u32);
            (IValueAccumulator { a: y, ..acc }, IValue::Array(y))
        },
        IValueDelta::Object(x) => {
            let y = acc.o.wrapping_add(x as u32);
            (IValueAccumulator { o: y, ..acc }, IValue::Object(y))
        },
    }
}

proof fn lemma_u32_round_trip(x: u32, p: u32)
    ensures
        p.wrapping_add(x.wrapping_sub(p) as i32 as u32) == x,
{
    let d = x.wrapping_sub(p);
    assert((d as i32) as u32 == d) by (bit_vector);
    assert(p.wrapping_add(d) == x);
}

proof fn lemma_u64_round_trip(x: u64, p: u64)
    ensures
        p.wrapping_add(x.wrapping_sub(p) as i64 as u64) == x,
{
    let d = x.wrapping_sub(p);
    assert((d as i64) as u64 == d) by (bit_vector);
    assert(p.wrapping_add(d) == x);
}

proof fn lemma_xor_round_trip(x: u64, p: u64)
    ensures
        p ^ (x ^ p) == x,
{
    assert(p ^ (x ^ p) == x) by (bit_vector);
}

/// Decoding a delta against the accumulator that encoded it gives back the
/// value, and both sides move to the same accumulator.
pub proof fn lemma_unfold_fold_value(acc: IValueAccumulator, v: IValue)
    ensures
        unfold_value(acc, fold_value(acc, v).1) == (fold_value(acc, v).0, v),
{
    match v {
        IValue::U64(x) => lemma_u64_round_trip(x, acc.u),
        IValue::F64(x) => lemma_xor_round_trip(x, acc.f),
        IValue::String(x) => lemma_u32_round_trip(x, acc.s),
        IValue::Array(x) => lemma_u32_round_trip(x, acc.a),
        IValue::Object(x) => lemma_u32_round_trip(x, acc.o),
        _ => {},
    }
}

impl IValueAccumulator {
    /// Encodes `v` as a delta against this accumulator, then records it.
    pub fn fold(&mut self, v: IValue) -> (r: IValueDelta)
        ensures
            (*final(self), r) == fold_value(*old(self), v),
    {
        match v {
            IValue::Null => IValueDelta::Null,
            IValue::Bool(x) => {
                let diff = self.b ^ x;
                self.b = x;
                IValueDelta::Bool(diff)
            },
            IValue::U64(x) => {
                let diff = x.wrapping_sub(self.u);
                self.u = x;
                IValueDelta::U64(diff as i64)
            },
            IValue::I64(x) => {
                let diff = x.wrapping_sub(self.i);
                self.i = x;
                IValueDelta::I64(diff)
            },
            IValue::F64(x) => {
                let diff = x ^ self.f;
                self.f = x;
                IValueDelta::F64(diff)
            },
            IValue::String(x) => {
                let diff = x.wrapping_sub(self.s);
                self.s = x;
                IValueDelta::String(diff as i32)
            },
            IValue::Array(x) => {
                let diff = x.wrapping_sub(self.a);
                self.a = x;
                IValueDelta::Array(diff as i32)
            },
            IValue::Object(x) => {
                let diff = x.wrapping_sub(self.o);
                self.o = x;
                IValueDelta::Object(diff as i32)
            },
        }
    }

    /// Decodes the delta `d` against this accumulator, then records the
    /// value.
    pub fn unfold(&mut self, d: IValueDelta) -> (r: IValue)
        ensures
            (*final(self), r) == unfold_value(*old(self), d),
    {
        match d {
            IValueDelta::Null => IValue::Null,
            IValueDelta::Bool(x) => {
                let y = self.b ^ x;
                self.b = y;
                IValue::Bool(y)
            },
            IValueDelta::U64(x) => {
                let y = self.u.wrapping_add(x as u64);
                self.u = y;
                IValue::U64(y)
            },
            IValueDelta::I64(x) => {
                let y = self.i.wrapping_add(x);
                self.i = y;
                IValue::I64(y)
            },
            IValueDelta::F64(x) => {
                let y = self.f ^ x;
                self.f = y;
                IValue::F64(y)
            },
            IValueDelta::String(x) => {
                let y = self.s.wrapping_add(x as u32);
                self.s = y;
                IValue::String(y)
            },
            IValueDelta::Array(x) => {
                let y = self.a.wrapping_add(x as u32);
                self.a = y;
                IValue::Array(y)
            },
            IValueDelta::Object(x) => {
                let y = self.o.wrapping_add(x as u32);
                self.o = y;
                IValue::Object(y)
            },
        }
    }
}

/// Encoding of a sequence of values with one running accumulator.
pub open spec fn fold_values(acc: IValueAccumulator, vs: Seq<IValue>) -> (IValueAccumulator, Seq<IValueDelta>)
    decreases vs.len(),
{
    if vs.len() == 0 {
        (acc, Seq::empty())
    } else {
        let (a1, ds) = fold_values(acc, vs.drop_last());
        let (a2, d) = fold_value(a1, vs.last());
        (a2, ds.push(d))
    }
}

/// Decoding of a sequence of deltas with one running accumulator.
pub open spec fn unfold_values(acc: IValueAccumulator, ds: Seq<IValueDelta>) -> (IValueAccumulator, Seq<IValue>)
    decreases ds.len(),
{
    if ds.len() == 0 {
        (acc, Seq::empty())
    } else {
        let (a1, vs) = unfold_values(acc, ds.drop_last());
        let (a2, v) = unfold_value(a1, ds.last());
        (a2, vs.push(v))
    }
}

/// Decoding what was encoded from the same accumulator gives the values back
/// and leaves both sides with the same accumulator.
pub proof fn lemma_unfold_fold_values(acc: IValueAccumulator, vs: Seq<IValue>)
    ensures
        unfold_values(acc, fold_values(acc, vs).1) == (fold_values(acc, vs).0, vs),
        fold_values(acc, vs).1.len() == vs.len(),
    decreases vs.len(),
{
    if vs.len() > 0 {
        lemma_unfold_fold_values(acc, vs.drop_last());
        let (a1, ds) = fold_values(acc, vs.drop_last());
        lemma_unfold_fold_value(a1, vs.last());
        let all = fold_values(acc, vs).1;
        assert(all.drop_last() =~= ds);
        assert(vs.drop_last().push(vs.last()) =~= vs);
    }
}

/// Encoding of a sequence of slices, with one accumulator shared by all.
pub open spec fn fold_slices(acc: IValueAccumulator, xs: Seq<Seq<IValue>>) -> (IValueAccumulator, Seq<Seq<IValueDelta>>)
    decreases xs.len(),
{
    if xs.len() == 0 {
        (acc, Seq::empty())
    } else {
        let (a1, ds) = fold_slices(acc, xs.drop_last());
        let (a2, d) = fold_values(a1, xs.last());
        (a2, ds.push(d))
    }
}

/// Decoding of a sequence of delta slices, with one shared accumulator.
pub open spec fn unfold_slices(acc: IValueAccumulator, ds: Seq<Seq<IValueDelta>>) -> (IValueAccumulator, Seq<Seq<IValue>>)
    decreases ds.len(),
{
    if ds.len() == 0 {
        (acc, Seq::empty())
    } else {
        let (a1, xs) = unfold_slices(acc, ds.drop_last());
        let (a2, x) = unfold_values(a1, ds.last());
        (a2, xs.push(x))
    }
}

/// Slices encoded with a shared accumulator decode back to themselves.
pub proof fn lemma_unfold_fold_slices(acc: IValueAccumulator, xs: Seq<Seq<IValue>>)
    ensures
        unfold_slices(acc, fold_slices(acc, xs).1) == (fold_slices(acc, xs).0, xs),
        fold_slices(acc, xs).1.len() == xs.len(),
    decreases xs.len(),
{
    if xs.len() > 0 {
        lemma_unfold_fold_slices(acc, xs.drop_last());
        let (a1, ds) = fold_slices(acc, xs.drop_last());
        lemma_unfold_fold_values(a1, xs.last());
        let all = fold_slices(acc, xs).1;
        assert(all.drop_last() =~= ds);
        assert(xs.drop_last().push(xs.last()) =~= xs);
    }
}

/// Accumulator for the slices of the array arena: one value accumulator
/// that runs across all slices.
pub struct IArrayAccumulator(pub IValueAccumulator);

impl Default for IArrayAccumulator {
    fn default() -> (r: IArrayAccumulator)
        ensures
            r.0 == zero_acc(),
    {
        IArrayAccumulator(IValueAccumulator::default())
    }
}

impl IArrayAccumulator {
    /// Encodes one array slice.
    pub fn fold(&mut self, v: &[IValue]) -> (r: Vec<IValueDelta>)
        ensures
            (final(self).0, r@) == fold_values(old(self).0, v@),
    {
        let ghost start = self.0;
        let mut out: Vec<IValueDelta> = Vec::with_capacity(v.len());
        let mut i: usize = 0;
        while i < v.len()
            invariant
                i <= v@.len(),
                (self.0, out@) == fold_values(start, v@.subrange(0, i as int)),
            decreases v@.len() - i,
        {
            proof {
                assert(v@.subrange(0, i as int + 1).drop_last() =~= v@.subrange(0, i as int));
            }
            let d = self.0.fold(v[i]);
            out.push(d);
            i += 1;
        }
        assert(v@.subrange(0, v@.len() as int) =~= v@);
        out
    }

    /// Decodes one array slice.
    pub fn unfold(&mut self, d: &[IValueDelta]) -> (r: Vec<IValue>)
        ensures
            (final(self).0, r@) == unfold_values(old(self).0, d@),
    {
        let ghost start = self.0;
        let mut out: Vec<IValue> = Vec::with_capacity(d.len());
        let mut i: usize = 0;
        while i < d.len()
            invariant
                i <= d@.len(),
                (self.0, out@) == unfold_values(start, d@.subrange(0, i as int)),
            decreases d@.len() - i,
        {
            proof {
                assert(d@.subrange(0, i as int + 1).drop_last() =~= d@.subrange(0, i as int));
            }
            let v = self.0.unfold(d[i]);
            out.push(v);
            i += 1;
        }
        assert(d@.subrange(0, d@.len() as int) =~= d@);
        out
    }
}

/// The accumulator kept for key `k`, or a fresh one.
pub open spec fn acc_at(m: Map<u32, IValueAccumulator>, k: u32) -> IValueAccumulator {
    if m.contains_key(k) {
        m[k]
    } else {
        zero_acc()
    }
}

/// The key that precedes the last entry of `es` in its object, or 0.
pub open spec fn prev_key<V>(es: Seq<(u32, V)>) -> u32 {
    if es.len() >= 2 {
        es[es.len() - 2].0
    } else {
        0
    }
}

/// Encoding of the entries of one object: each key as the difference from
/// the previous key of the object, each value against the accumulator of its
/// key.
pub open spec fn fold_entries(m: Map<u32, IValueAccumulator>, es: Seq<(u32, IValue)>) -> (Map<u32, IValueAccumulator>, Seq<(i32, IValueDelta)>)
    decreases es.len(),
{
    if es.len() == 0 {
        (m, Seq::empty())
    } else {
        let (m1, ds) = fold_entries(m, es.drop_last());
        let (k, v) = es.last();
        let (a2, d) = fold_value(acc_at(m1, k), v);
        (m1.insert(k, a2), ds.push((k.wrapping_sub(prev_key(es)) as i32, d)))
    }
}

/// Decoding of the entries of one object.
pub open spec fn unfold_entries(m: Map<u32, IValueAccumulator>, ds: Seq<(i32, IValueDelta)>) -> (Map<u32, IValueAccumulator>, Seq<(u32, IValue)>)
    decreases ds.len(),
{
    if ds.len() == 0 {
        (m, Seq::empty())
    } else {
        let (m1, es) = unfold_entries(m, ds.drop_last());
        let prev: u32 = if es.len() >= 1 {
            es.last().0
        } else {
            0
        };
        let (kd, d) = ds.last();
        let k = prev.wrapping_add(kd as u32);
        let (a2, v) = unfold_value(acc_at(m1, k), d);
        (m1.insert(k, a2), es.push((k, v)))
    }
}

/// The entries of an object decode back to themselves.
pub proof fn lemma_unfold_fold_entries(m: Map<u32, IValueAccumulator>, es: Seq<(u32, IValue)>)
    ensures
        unfold_entries(m, fold_entries(m, es).1) == (fold_entries(m, es).0, es),
        fold_entries(m, es).1.len() == es.len(),
    decreases es.len(),
{
    if es.len() > 0 {
        let init = es.drop_last();
        lemma_unfold_fold_entries(m, init);
        let (m1, ds) = fold_entries(m, init);
        let (k, v) = es.last();
        lemma_unfold_fold_value(acc_at(m1, k), v);
        lemma_u32_round_trip(k, prev_key(es));
        let all = fold_entries(m, es).1;
        assert(all.drop_last() =~= ds);
        assert(init.push(es.last()) =~= es);
        if es.len() >= 2 {
            assert(init.last() == es[es.len() - 2]);
        }
    }
}

/// Encoding of the objects of an arena, with one accumulator per key shared
/// by all objects.
pub open spec fn fold_objects(m: Map<u32, IValueAccumulator>, xs: Seq<Seq<(u32, IValue)>>) -> (Map<u32, IValueAccumulator>, Seq<Seq<(i32, IValueDelta)>>)
    decreases xs.len(),
{
    if xs.len() == 0 {
        (m, Seq::empty())
    } else {
        let (m1, ds) = fold_objects(m, xs.drop_last());
        let (m2, d) = fold_entries(m1, xs.last());
        (m2, ds.push(d))
    }
}

/// Decoding of the objects of an arena.
pub open spec fn unfold_objects(m: Map<u32, IValueAccumulator>, ds: Seq<Seq<(i32, IValueDelta)>>) -> (Map<u32, IValueAccumulator>, Seq<Seq<(u32, IValue)>>)
    decreases ds.len(),
{
    if ds.len() == 0 {
        (m, Seq::empty())
    } else {
        let (m1, xs) = unfold_objects(m, ds.drop_last());
        let (m2, x) = unfold_entries(m1, ds.last());
        (m2, xs.push(x))
    }
}

/// The objects of an arena decode back to themselves.
pub proof fn lemma_unfold_fold_objects(m: Map<u32, IValueAccumulator>, xs: Seq<Seq<(u32, IValue)>>)
    ensures
        unfold_objects(m, fold_objects(m, xs).1) == (fold_objects(m, xs).0, xs),
        fold_objects(m, xs).1.len() == xs.len(),
    decreases xs.len(),
{
    if xs.len() > 0 {
        lemma_unfold_fold_objects(m, xs.drop_last());
        let (m1, ds) = fold_objects(m, xs.drop_last());
        lemma_unfold_fold_entries(m1, xs.last());
        let all = fold_objects(m, xs).1;
        assert(all.drop_last() =~= ds);
        assert(xs.drop_last().push(xs.last()) =~= xs);
    }
}

/// Accumulator for the slices of the object arena: one value accumulator per
/// key, shared by all objects.
pub struct IObjectAccumulator {
    pub map: HashMap<u32, IValueAccumulator>,
}

impl IObjectAccumulator {
    /// Creates an accumulator that has seen no key.
    pub fn new() -> (r: IObjectAccumulator)
        ensures
            r.map@ == Map::<u32, IValueAccumulator>::empty(),
    {
        IObjectAccumulator { map: HashMap::new() }
    }

    fn acc_for(&self, k: u32) -> (r: IValueAccumulator)
        ensures
            r == acc_at(self.map@, k),
    {
        match self.map.get(&k) {
            Some(a) => *a,
            None => IValueAccumulator::default(),
        }
    }

    /// Encodes the entries of one object.
    pub fn fold(&mut self, v: &[(u32, IValue)]) -> (r: Vec<(i32, IValueDelta)>)
        ensures
            (final(self).map@, r@) == fold_entries(old(self).map@, v@),
    {
        let ghost start = self.map@;
        let mut out: Vec<(i32, IValueDelta)> = Vec::with_capacity(v.len());
        let mut key: u32 = 0;
        let mut i: usize = 0;
        while i < v.len()
            invariant
                i <= v@.len(),
                (self.map@, out@) == fold_entries(start, v@.subrange(0, i as int)),
                key == (if i >= 1 { v@[i - 1].0 } else { 0u32 }),
            decreases v@.len() - i,
        {
            proof {
                let s = v@.subrange(0, i as int + 1);
                assert(s.drop_last() =~= v@.subrange(0, i as int));
                assert(prev_key(s) == key);
            }
            let (k, x) = v[i];
            let kdiff = k.wrapping_sub(key);
            key = k;
            let mut acc = self.acc_for(k);
            let xdiff = acc.fold(x);
            self.map.insert(k, acc);
            out.push((kdiff as i32, xdiff));
            i += 1;
        }
        assert(v@.subrange(0, v@.len() as int) =~= v@);
        out
    }

    /// Decodes the entries of one object.
    pub fn unfold(&mut self, d: &[(i32, IValueDelta)]) -> (r: Vec<(u32, IValue)>)
        ensures
            (final(self).map@, r@) == unfold_entries(old(self).map@, d@),
    {
        let ghost start = self.map@;
        let mut out: Vec<(u32, IValue)> = Vec::with_capacity(d.len());
        let mut key: u32 = 0;
        let mut i: usize = 0;
        while i < d.len()
            invariant
                i <= d@.len(),
                (self.map@, out@) == unfold_entries(start, d@.subrange(0, i as int)),
                out@.len() == i,
                key == (if i >= 1 { out@[i - 1].0 } else { 0u32 }),
            decreases d@.len() - i,
        {
            proof {
                assert(d@.subrange(0, i as int + 1).drop_last() =~= d@.subrange(0, i as int));
            }
            let (kdiff, xdiff) = d[i];
            let k = key.wrapping_add(kdiff as u32);
            key = k;
            let mut acc = self.acc_for(k);
            let x = acc.unfold(xdiff);
            self.map.insert(k, acc);
            out.push((k, x));
            i += 1;
        }
        assert(d@.subrange(0, d@.len() as int) =~= d@);
        out
    }
}

} // verus!
