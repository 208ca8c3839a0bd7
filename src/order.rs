//! The canonical order of arena entries: shorter first, then
//! lexicographically by a sort key of unsigned words.
use crate::interners::{cell_value, entry_value};
use crate::arena::{Cell, EntryCell};
use crate::ivalue::IValue;
use crate::mapping::{appears, is_identity_seq, is_permutation, RevMappingImpl};
use vstd::prelude::*;
use vstd::string::StringSliceAdditionalSpecFns;

verus! {

/// `a` comes strictly before `b` in lexicographic order.
pub open spec fn lex_lt(a: Seq<u64>, b: Seq<u64>) -> bool
    decreases a.len(),
{
    if a.len() == 0 {
        b.len() > 0
    } else if b.len() == 0 {
        false
    } else if a[0] != b[0] {
        a[0] < b[0]
    } else {
        lex_lt(a.drop_first(), b.drop_first())
    }
}

/// `a` comes strictly before `b`: fewer items first, then lexicographically.
/// `n_a` and `n_b` are the numbers of items that the keys encode.
pub open spec fn key_lt(a: (nat, Seq<u64>), b: (nat, Seq<u64>)) -> bool {
    a.0 < b.0 || (a.0 == b.0 && lex_lt(a.1, b.1))
}

/// The sort key of a value: its variant, then its payload, where the payload
/// of a signed integer is moved so that unsigned order is signed order.
pub open spec fn value_key(v: IValue) -> Seq<u64> {
    match v {
        IValue::Null => seq![0u64, 0u64],
        IValue::Bool(b) => seq![1u64, if b { 1u64 } else { 0u64 }],
        IValue::U64(x) => seq![2u64, x],
        IValue::I64(x) => seq![3u64, (x as u64) ^ 0x8000_0000_0000_0000u64],
        IValue::F64(x) => seq![4u64, x],
        IValue::String(x) => seq![5u64, x as u64],
        IValue::Array(x) => seq![6u64, x as u64],
        IValue::Object(x) => seq![7u64, x as u64],
    }
}

/// The sort key of a string: its UTF-8 bytes.
pub open spec fn bytes_key(b: Seq<u8>) -> Seq<u64> {
    b.map_values(|x: u8| x as u64)
}

/// The sort key of an array slice: the keys of its values, in order.
pub open spec fn values_key(s: Seq<IValue>) -> Seq<u64>
    decreases s.len(),
{
    if s.len() == 0 {
        Seq::empty()
    } else {
        values_key(s.drop_last()) + value_key(s.last())
    }
}

/// The sort key of an object slice: for each entry its key id, then the key
/// of its value.
pub open spec fn entries_key(s: Seq<(u32, IValue)>) -> Seq<u64>
    decreases s.len(),
{
    if s.len() == 0 {
        Seq::empty()
    } else {
        entries_key(s.drop_last()) + seq![s.last().0 as u64] + value_key(s.last().1)
    }
}

fn push_value_key(out: &mut Vec<u64>, c: Cell)
    ensures
        final(out)@ == old(out)@ + value_key(cell_value(c)),
{
    let v = if c.0 == 3 {
        c.1 ^ 0x8000_0000_0000_0000u64
    } else if c.0 == 1 {
        if c.1 != 0 {
            1u64
        } else {
            0u64
        }
    } else if c.0 == 0 {
        0u64
    } else if c.0 >= 5 {
        c.1 as u32 as u64
    } else {
        c.1
    };
    let t: u64 = if c.0 <= 6 {
        c.0 as u64
    } else {
        7
    };
    let ghost before = out@;
    out.push(t);
    out.push(v);
    proof {
        if c.0 == 3 {
            let x = c.1;
            assert(((x as i64) as u64) == x) by (bit_vector);
        }
        assert(value_key(cell_value(c)) =~= seq![t, v]);
        assert(out@ =~= before + seq![t, v]);
    }
}

/// Returns the sort key of an array slice, given as arena cells.
pub fn cells_key(cells: &[Cell]) -> (r: Vec<u64>)
    ensures
        r@ == values_key(cells@.map_values(|c: Cell| cell_value(c))),
{
    let mut out: Vec<u64> = Vec::new();
    let mut i: usize = 0;
    while i < cells.len()
        invariant
            i <= cells@.len(),
            out@ == values_key(cells@.subrange(0, i as int).map_values(|c: Cell| cell_value(c))),
        decreases cells@.len() - i,
    {
        proof {
            let s = cells@.subrange(0, i as int + 1).map_values(|c: Cell| cell_value(c));
            assert(s.drop_last() =~= cells@.subrange(0, i as int).map_values(|c: Cell| cell_value(c)));
            assert(s.last() == cell_value(cells@[i as int]));
        }
        push_value_key(&mut out, cells[i]);
        i += 1;
    }
    assert(cells@.subrange(0, cells@.len() as int) =~= cells@);
    out
}

/// Returns the sort key of an object slice, given as arena cells.
pub fn entry_cells_key(cells: &[EntryCell]) -> (r: Vec<u64>)
    ensures
        r@ == entries_key(cells@.map_values(|e: EntryCell| entry_value(e))),
{
    let mut out: Vec<u64> = Vec::new();
    let mut i: usize = 0;
    while i < cells.len()
        invariant
            i <= cells@.len(),
            out@ == entries_key(cells@.subrange(0, i as int).map_values(|e: EntryCell| entry_value(e))),
        decreases cells@.len() - i,
    {
        proof {
            let s = cells@.subrange(0, i as int + 1).map_values(|e: EntryCell| entry_value(e));
            assert(s.drop_last() =~= cells@.subrange(0, i as int).map_values(|e: EntryCell| entry_value(e)));
            assert(s.last() == entry_value(cells@[i as int]));
        }
        let (k, tag, payload) = cells[i];
        let ghost before = out@;
        out.push(k as u64);
        push_value_key(&mut out, (tag, payload));
        assert(out@ =~= before + seq![k as u64] + value_key(cell_value((tag, payload))));
        i += 1;
    }
    assert(cells@.subrange(0, cells@.len() as int) =~= cells@);
    out
}

/// Returns the sort key of a string.
pub fn str_key(s: &str) -> (r: Vec<u64>)
    ensures
        r@ == bytes_key(s.spec_bytes()),
{
    let b = s.as_bytes();
    let mut out: Vec<u64> = Vec::with_capacity(b.len());
    let mut i: usize = 0;
    while i < b.len()
        invariant
            i <= b@.len(),
            out@ == b@.subrange(0, i as int).map_values(|x: u8| x as u64),
        decreases b@.len() - i,
    {
        out.push(b[i] as u64);
        proof {
            assert(out@ =~= b@.subrange(0, i as int + 1).map_values(|x: u8| x as u64));
        }
        i += 1;
    }
    assert(b@.subrange(0, b@.len() as int) =~= b@);
    out
}

proof fn lemma_lex_irreflexive(a: Seq<u64>)
    ensures
        !lex_lt(a, a),
    decreases a.len(),
{
    if a.len() > 0 {
        lemma_lex_irreflexive(a.drop_first());
    }
}

proof fn lemma_lex_transitive(a: Seq<u64>, b: Seq<u64>, c: Seq<u64>)
    requires
        lex_lt(a, b),
        lex_lt(b, c),
    ensures
        lex_lt(a, c),
    decreases a.len(),
{
    if a.len() > 0 && b.len() > 0 && c.len() > 0 && a[0] == b[0] && b[0] == c[0] {
        lemma_lex_transitive(a.drop_first(), b.drop_first(), c.drop_first());
    }
}

proof fn lemma_lex_total(a: Seq<u64>, b: Seq<u64>)
    ensures
        a == b || lex_lt(a, b) || lex_lt(b, a),
    decreases a.len(),
{
    if a.len() > 0 && b.len() > 0 && a[0] == b[0] {
        lemma_lex_total(a.drop_first(), b.drop_first());
        if a.drop_first() == b.drop_first() {
            assert(a =~= seq![a[0]] + a.drop_first());
            assert(b =~= seq![b[0]] + b.drop_first());
        }
    } else if a.len() == 0 && b.len() == 0 {
        assert(a =~= b);
    }
}

/// The key of `ids[i]`.
pub open spec fn key_at(keys: Seq<(usize, Vec<u64>)>, id: u32) -> (nat, Seq<u64>) {
    (keys[id as int].0 as nat, keys[id as int].1@)
}

/// `ids` lists ids in non-decreasing key order.
pub open spec fn sorted_by_key(keys: Seq<(usize, Vec<u64>)>, ids: Seq<u32>) -> bool {
    forall|a: int, b: int|
        0 <= a < b < ids.len() ==> !key_lt(key_at(keys, #[trigger] ids[b]), key_at(keys, #[trigger] ids[a]))
}

/// The keys never decrease in id order.
pub open spec fn keys_nondecreasing(keys: Seq<(usize, Vec<u64>)>) -> bool {
    forall|a: int, b: int|
        0 <= a < b < keys.len() ==> !key_lt(
            ((#[trigger] keys[b]).0 as nat, keys[b].1@),
            ((#[trigger] keys[a]).0 as nat, keys[a].1@),
        )
}

pub proof fn lemma_key_order(x: (nat, Seq<u64>), y: (nat, Seq<u64>), z: (nat, Seq<u64>))
    ensures
        !key_lt(x, x),
        key_lt(x, y) && key_lt(y, z) ==> key_lt(x, z),
        !key_lt(x, y) && !key_lt(y, z) ==> !key_lt(x, z),
        key_lt(x, y) ==> !key_lt(y, x),
{
    lemma_lex_irreflexive(x.1);
    if key_lt(x, y) && key_lt(y, z) && x.0 == y.0 && y.0 == z.0 {
        lemma_lex_transitive(x.1, y.1, z.1);
    }
    if !key_lt(x, y) && !key_lt(y, z) && key_lt(x, z) {
        lemma_lex_total(x.1, y.1);
        lemma_lex_total(y.1, z.1);
        if x.0 == y.0 && y.0 == z.0 {
            if lex_lt(y.1, x.1) && lex_lt(z.1, y.1) {
                lemma_lex_transitive(z.1, y.1, x.1);
                lemma_lex_total(x.1, z.1);
                if lex_lt(x.1, z.1) {
                    lemma_lex_transitive(x.1, z.1, x.1);
                    lemma_lex_irreflexive(x.1);
                }
            } else if x.1 == y.1 && lex_lt(z.1, y.1) {
                lemma_lex_transitive(x.1, z.1, y.1);
                lemma_lex_irreflexive(x.1);
            } else if y.1 == z.1 && lex_lt(y.1, x.1) {
                lemma_lex_transitive(x.1, z.1, y.1);
                lemma_lex_irreflexive(x.1);
            } else if x.1 == y.1 && y.1 == z.1 {
                lemma_lex_irreflexive(x.1);
            }
        }
    }
    if key_lt(x, y) && x.0 == y.0 && lex_lt(y.1, x.1) {
        lemma_lex_transitive(x.1, y.1, x.1);
        lemma_lex_irreflexive(x.1);
    }
}

fn lex_less(a: &Vec<u64>, b: &Vec<u64>) -> (r: bool)
    ensures
        r == lex_lt(a@, b@),
{
    let mut i: usize = 0;
    assert(a@.subrange(0, a@.len() as int) =~= a@);
    assert(b@.subrange(0, b@.len() as int) =~= b@);
    while i < a.len() && i < b.len()
        invariant
            i <= a@.len(),
            i <= b@.len(),
            forall|k: int| 0 <= k < i ==> a@[k] == b@[k],
            lex_lt(a@, b@) == lex_lt(a@.subrange(i as int, a@.len() as int), b@.subrange(i as int, b@.len() as int)),
        decreases a@.len() - i,
    {
        if a[i] != b[i] {
            proof {
                let sa = a@.subrange(i as int, a@.len() as int);
                let sb = b@.subrange(i as int, b@.len() as int);
                assert(sa[0] == a@[i as int]);
                assert(sb[0] == b@[i as int]);
            }
            return a[i] < b[i];
        }
        proof {
            let sa = a@.subrange(i as int, a@.len() as int);
            let sb = b@.subrange(i as int, b@.len() as int);
            assert(sa.drop_first() =~= a@.subrange(i as int + 1, a@.len() as int));
            assert(sb.drop_first() =~= b@.subrange(i as int + 1, b@.len() as int));
        }
        i += 1;
    }
    i < b.len()
}

fn key_less(a: &(usize, Vec<u64>), b: &(usize, Vec<u64>)) -> (r: bool)
    ensures
        r == key_lt((a.0 as nat, a.1@), (b.0 as nat, b.1@)),
{
    a.0 < b.0 || (a.0 == b.0 && lex_less(&a.1, &b.1))
}

/// Returns the ids `0..keys.len()` ordered by their keys, shorter first and
/// then lexicographically; ids with equal keys keep their order. The order
/// is the identity exactly where the keys never decrease with the ids.
pub fn sort_ids(keys: &Vec<(usize, Vec<u64>)>) -> (r: RevMappingImpl)
    requires
        keys@.len() <= u32::MAX,
    ensures
        r.wf(),
        r.0@.len() == keys@.len(),
        sorted_by_key(keys@, r.0@),
        is_identity_seq(r.0@) <==> keys_nondecreasing(keys@),
{
    let n = keys.len();
    let mut v: Vec<u32> = Vec::with_capacity(n);
    let mut i: usize = 0;
    while i < n
        invariant
            n == keys@.len(),
            n <= u32::MAX,
            i <= n,
            v@.len() == i,
            forall|k: int| 0 <= k < i ==> #[trigger] v@[k] == k,
        decreases n - i,
    {
        v.push(i as u32);
        i += 1;
    }
    proof {
        assert forall|k: int| 0 <= k < n implies #[trigger] appears(v@, k) by {
            assert(v@[k] == k);
        }
        assert(is_permutation(v@));
    }
    let mut i: usize = 0;
    while i < n
        invariant
            n == keys@.len(),
            n == v@.len(),
            i <= n,
            is_permutation(v@),
            forall|a: int, b: int|
                0 <= a < b < i ==> !key_lt(
                    key_at(keys@, #[trigger] v@[b]),
                    key_at(keys@, #[trigger] v@[a]),
                ),
            keys_nondecreasing(keys@) ==> is_identity_seq(v@),
        decreases n - i,
    {
        let mut j: usize = i;
        while j > 0 && key_less(&keys[v[j] as usize], &keys[v[j - 1] as usize])
            invariant
                n == keys@.len(),
                n == v@.len(),
                0 <= j <= i < n,
                is_permutation(v@),
                forall|a: int, b: int|
                    0 <= a < b <= i && a != j && b != j ==> !key_lt(
                        key_at(keys@, #[trigger] v@[b]),
                        key_at(keys@, #[trigger] v@[a]),
                    ),
                forall|b: int|
                    j < b <= i ==> !key_lt(key_at(keys@, #[trigger] v@[b]), key_at(keys@, v@[j as int])),
                keys_nondecreasing(keys@) ==> (j == i && is_identity_seq(v@)),
            decreases j,
        {
            proof {
                if keys_nondecreasing(keys@) {
                    assert(v@[j as int] == j);
                    assert(v@[j - 1] == j - 1);
                    assert(keys@[j - 1] == keys@[j - 1]);
                    assert(keys@[j as int] == keys@[j as int]);
                    assert(false);
                }
            }
            let ghost old_v = v@;
            let x = v[j];
            let y = v[j - 1];
            v.set(j, y);
            v.set(j - 1, x);
            proof {
                lemma_key_order(key_at(keys@, old_v[j as int]), key_at(keys@, old_v[j - 1]), key_at(keys@, old_v[j as int]));
                assert forall|k: int| 0 <= k < n implies #[trigger] appears(v@, k) by {
                    assert(appears(old_v, k));
                    let m = choose|m: int| 0 <= m < old_v.len() && #[trigger] old_v[m] == k;
                    if m == j as int {
                        assert(v@[j - 1] == k);
                    } else if m == j - 1 {
                        assert(v@[j as int] == k);
                    } else {
                        assert(v@[m] == k);
                    }
                }
                assert forall|a: int, b: int|
                    0 <= a < v@.len() && 0 <= b < v@.len() && a != b implies #[trigger] v@[a] != #[trigger] v@[b] by {
                    let a0 = if a == j as int { j - 1 } else if a == j - 1 { j as int } else { a };
                    let b0 = if b == j as int { j - 1 } else if b == j - 1 { j as int } else { b };
                    assert(v@[a] == old_v[a0]);
                    assert(v@[b] == old_v[b0]);
                }
                assert forall|a: int, b: int|
                    0 <= a < b <= i && a != j - 1 && b != j - 1 implies !key_lt(
                        key_at(keys@, #[trigger] v@[b]),
                        key_at(keys@, #[trigger] v@[a]),
                    ) by {
                    if a == j as int {
                        assert(v@[a] == old_v[j - 1]);
                        assert(v@[b] == old_v[b]);
                        assert(!key_lt(key_at(keys@, old_v[b]), key_at(keys@, old_v[j - 1])));
                    } else if b == j as int {
                        assert(v@[b] == old_v[j - 1]);
                        assert(v@[a] == old_v[a]);
                        assert(!key_lt(key_at(keys@, old_v[j - 1]), key_at(keys@, old_v[a])));
                    } else {
                        assert(v@[a] == old_v[a]);
                        assert(v@[b] == old_v[b]);
                    }
                }
                assert forall|b: int| j - 1 < b <= i implies !key_lt(
                    key_at(keys@, #[trigger] v@[b]),
                    key_at(keys@, v@[j - 1]),
                ) by {
                    if b == j as int {
                    } else {
                        assert(v@[b] == old_v[b]);
                    }
                }
            }
            j -= 1;
        }
        proof {
            assert forall|a: int, b: int|
                0 <= a < b < i + 1 implies !key_lt(
                    key_at(keys@, #[trigger] v@[b]),
                    key_at(keys@, #[trigger] v@[a]),
                ) by {
                if a != j as int && b != j as int {
                } else if b == j as int {
                    assert(!key_lt(key_at(keys@, v@[j as int]), key_at(keys@, v@[j - 1])));
                    if a < j - 1 {
                        assert(!key_lt(key_at(keys@, v@[j - 1]), key_at(keys@, v@[a])));
                        lemma_key_order(key_at(keys@, v@[j as int]), key_at(keys@, v@[j - 1]), key_at(keys@, v@[a]));
                    }
                }
            }
        }
        i += 1;
    }
    proof {
        assert forall|a: int, b: int|
            0 <= a < b < v@.len() implies !key_lt(key_at(keys@, #[trigger] v@[b]), key_at(keys@, #[trigger] v@[a])) by {}
        if is_identity_seq(v@) {
            assert forall|a: int, b: int| 0 <= a < b < keys@.len() implies !key_lt(
                ((#[trigger] keys@[b]).0 as nat, keys@[b].1@),
                ((#[trigger] keys@[a]).0 as nat, keys@[a].1@),
            ) by {
                assert(v@[a] == a);
                assert(v@[b] == b);
                assert(!key_lt(key_at(keys@, v@[b]), key_at(keys@, v@[a])));
            }
        }
    }
    RevMappingImpl(v)
}

} // verus!
