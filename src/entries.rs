//! Canonical form of the entries of an object: sorted by key id, one entry
//! per key, the last occurrence of a key winning.
use crate::ivalue::IValue;
use vstd::prelude::*;

verus! {

/// The keys of `s` are strictly increasing.
pub open spec fn keys_sorted(s: Seq<(u32, IValue)>) -> bool {
    forall|a: int, b: int| 0 <= a < b < s.len() ==> #[trigger] s[a].0 < #[trigger] s[b].0
}

/// Among the first `p` entries of `s`, index `j` holds the last occurrence of
/// its key.
pub open spec fn last_before(s: Seq<(u32, IValue)>, p: int, j: int) -> bool {
    &&& 0 <= j < p
    &&& forall|m: int| j < m < p ==> (#[trigger] s[m]).0 != s[j].0
}

/// `e` is the last occurrence of its key among the first `p` entries of `s`.
pub open spec fn from_last(s: Seq<(u32, IValue)>, p: int, e: (u32, IValue)) -> bool {
    exists|j: int| last_before(s, p, j) && #[trigger] s[j] == e
}

/// Some entry of `r` has the key `k`.
pub open spec fn key_in(r: Seq<(u32, IValue)>, k: u32) -> bool {
    exists|i: int| 0 <= i < r.len() && (#[trigger] r[i]).0 == k
}

/// `r` is the canonical form of the entries `s`: sorted by key, and for each
/// key of `s` exactly the last entry with that key.
pub open spec fn canonical_entries(r: Seq<(u32, IValue)>, s: Seq<(u32, IValue)>) -> bool {
    &&& keys_sorted(r)
    &&& forall|i: int| 0 <= i < r.len() ==> from_last(s, s.len() as int, #[trigger] r[i])
    &&& forall|j: int| 0 <= j < s.len() ==> key_in(r, (#[trigger] s[j]).0)
}

/// Sorts entries by key id; of the entries that share a key, only the last
/// one is kept.
pub fn sort_entries(pairs: &[(u32, IValue)]) -> (r: Vec<(u32, IValue)>)
    ensures
        canonical_entries(r@, pairs@),
        r@.len() <= pairs@.len(),
{
    let ghost s = pairs@;
    let mut r: Vec<(u32, IValue)> = Vec::new();
    let mut p: usize = 0;
    while p < pairs.len()
        invariant
            s == pairs@,
            p <= s.len(),
            r@.len() <= p,
            keys_sorted(r@),
            forall|i: int| 0 <= i < r@.len() ==> from_last(s, p as int, #[trigger] r@[i]),
            forall|j: int| 0 <= j < p ==> key_in(r@, (#[trigger] s[j]).0),
        decreases s.len() - p,
    {
        let e = pairs[p];
        let k = e.0;
        let mut q: usize = 0;
        while q < r.len() && r[q].0 < k
            invariant
                q <= r@.len(),
                forall|i: int| 0 <= i < q ==> (#[trigger] r@[i]).0 < k,
            decreases r@.len() - q,
        {
            q += 1;
        }
        let ghost old_r = r@;
        if q < r.len() && r[q].0 == k {
            r.set(q, e);
            proof {
                assert forall|i: int| 0 <= i < r@.len() implies from_last(
                    s,
                    p as int + 1,
                    #[trigger] r@[i],
                ) by {
                    if i == q as int {
                        assert(last_before(s, p as int + 1, p as int));
                        assert(s[p as int] == r@[i]);
                    } else {
                        assert(from_last(s, p as int, old_r[i]));
                        let j = choose|j: int| last_before(s, p as int, j) && #[trigger] s[j] == old_r[i];
                        if i < q as int {
                            assert(old_r[i].0 < old_r[q as int].0);
                        } else {
                            assert(old_r[q as int].0 < old_r[i].0);
                        }
                        assert(last_before(s, p as int + 1, j));
                    }
                }
                assert forall|j: int| 0 <= j < p + 1 implies key_in(r@, (#[trigger] s[j]).0) by {
                    if j == p as int {
                        assert(r@[q as int].0 == k);
                    } else {
                        assert(key_in(old_r, s[j].0));
                        let i = choose|i: int| 0 <= i < old_r.len() && (#[trigger] old_r[i]).0 == s[j].0;
                        assert(r@[i].0 == old_r[i].0);
                    }
                }
            }
        } else {
            r.insert(q, e);
            proof {
                old_r.insert_ensures(q as int, e);
                assert(r@ == old_r.insert(q as int, e));
                assert forall|a: int, b: int| 0 <= a < b < r@.len() implies #[trigger] r@[a].0
                    < #[trigger] r@[b].0 by {
                    if b < q as int {
                    } else if b == q as int {
                        assert(old_r[a].0 < k);
                    } else if a < q as int {
                        assert(old_r[a].0 < k);
                        assert(r@[b] == old_r[b - 1]);
                        if b - 1 > q as int {
                            assert(old_r[q as int].0 < old_r[b - 1].0);
                        }
                    } else if a == q as int {
                        assert(r@[b] == old_r[b - 1]);
                        if b - 1 > q as int {
                            assert(old_r[q as int].0 < old_r[b - 1].0);
                        }
                    } else {
                        assert(r@[a] == old_r[a - 1]);
                        assert(r@[b] == old_r[b - 1]);
                    }
                }
                assert forall|i: int| 0 <= i < r@.len() implies from_last(
                    s,
                    p as int + 1,
                    #[trigger] r@[i],
                ) by {
                    if i == q as int {
                        assert(last_before(s, p as int + 1, p as int));
                        assert(s[p as int] == r@[i]);
                    } else {
                        let i0 = if i < q as int {
                            i
                        } else {
                            i - 1
                        };
                        assert(r@[i] == old_r[i0]);
                        assert(from_last(s, p as int, old_r[i0]));
                        let j = choose|j: int| last_before(s, p as int, j) && #[trigger] s[j] == old_r[i0];
                        if i0 >= q as int {
                            assert(old_r[q as int].0 <= old_r[i0].0);
                        }
                        assert(last_before(s, p as int + 1, j));
                    }
                }
                assert forall|j: int| 0 <= j < p + 1 implies key_in(r@, (#[trigger] s[j]).0) by {
                    if j == p as int {
                        assert(r@[q as int].0 == k);
                    } else {
                        assert(key_in(old_r, s[j].0));
                        let i = choose|i: int| 0 <= i < old_r.len() && (#[trigger] old_r[i]).0 == s[j].0;
                        if i < q as int {
                            assert(r@[i] == old_r[i]);
                        } else {
                            assert(r@[i + 1] == old_r[i]);
                        }
                    }
                }
            }
        }
        p += 1;
    }
    r
}

/// No two entries of `s` share a key.
pub open spec fn keys_distinct(s: Seq<(u32, IValue)>) -> bool {
    forall|a: int, b: int| 0 <= a < s.len() && 0 <= b < s.len() && a != b ==> #[trigger] s[a].0 != #[trigger] s[b].0
}

/// `r` holds exactly the entries of `s`, sorted by key.
pub open spec fn same_entries(r: Seq<(u32, IValue)>, s: Seq<(u32, IValue)>) -> bool {
    &&& keys_sorted(r)
    &&& forall|i: int| 0 <= i < r.len() ==> s.contains(#[trigger] r[i])
    &&& forall|j: int| 0 <= j < s.len() ==> r.contains(#[trigger] s[j])
}

/// Where no key repeats, the canonical form holds exactly the entries.
pub proof fn lemma_canonical_same(r: Seq<(u32, IValue)>, s: Seq<(u32, IValue)>)
    requires
        canonical_entries(r, s),
        keys_distinct(s),
    ensures
        same_entries(r, s),
{
    assert forall|i: int| 0 <= i < r.len() implies s.contains(#[trigger] r[i]) by {
        assert(from_last(s, s.len() as int, r[i]));
        let j = choose|j: int| last_before(s, s.len() as int, j) && #[trigger] s[j] == r[i];
        assert(s[j] == r[i]);
    }
    assert forall|j: int| 0 <= j < s.len() implies r.contains(#[trigger] s[j]) by {
        assert(key_in(r, s[j].0));
        let i = choose|i: int| 0 <= i < r.len() && (#[trigger] r[i]).0 == s[j].0;
        assert(from_last(s, s.len() as int, r[i]));
        let j2 = choose|j2: int| last_before(s, s.len() as int, j2) && #[trigger] s[j2] == r[i];
        if j2 != j {
            assert(s[j2].0 != s[j].0);
        }
        assert(r[i] == s[j]);
    }
}

/// Two key-sorted entry sequences with the same entries are equal.
pub proof fn lemma_sorted_same_elements(a: Seq<(u32, IValue)>, b: Seq<(u32, IValue)>)
    requires
        keys_sorted(a),
        keys_sorted(b),
        forall|i: int| 0 <= i < a.len() ==> b.contains(#[trigger] a[i]),
        forall|j: int| 0 <= j < b.len() ==> a.contains(#[trigger] b[j]),
    ensures
        a == b,
    decreases a.len(),
{
    if a.len() == 0 {
        if b.len() > 0 {
            assert(a.contains(b[0]));
        }
        assert(a =~= b);
    } else if b.len() == 0 {
        assert(b.contains(a[0]));
    } else {
        assert(b.contains(a[0]));
        assert(a.contains(b[0]));
        let p = choose|p: int| 0 <= p < b.len() && b[p] == a[0];
        let q = choose|q: int| 0 <= q < a.len() && a[q] == b[0];
        if p > 0 {
            assert(b[0].0 < b[p].0);
            if q > 0 {
                assert(a[0].0 < a[q].0);
            }
        }
        if q > 0 {
            assert(a[0].0 < a[q].0);
        }
        assert(a[0] == b[0]);
        let a1 = a.drop_first();
        let b1 = b.drop_first();
        assert forall|i: int| 0 <= i < a1.len() implies b1.contains(#[trigger] a1[i]) by {
            assert(a1[i] == a[i + 1]);
            assert(b.contains(a[i + 1]));
            let r = choose|r: int| 0 <= r < b.len() && b[r] == a[i + 1];
            assert(a[0].0 < a[i + 1].0);
            assert(r != 0);
            assert(b1[r - 1] == b[r]);
        }
        assert forall|j: int| 0 <= j < b1.len() implies a1.contains(#[trigger] b1[j]) by {
            assert(b1[j] == b[j + 1]);
            assert(a.contains(b[j + 1]));
            let r = choose|r: int| 0 <= r < a.len() && a[r] == b[j + 1];
            assert(b[0].0 < b[j + 1].0);
            assert(r != 0);
            assert(a1[r - 1] == a[r]);
        }
        lemma_sorted_same_elements(a1, b1);
        assert(a =~= seq![a[0]] + a1);
        assert(b =~= seq![b[0]] + b1);
    }
}

/// One entry of a canonical form of `s` is in any other canonical form of it.
proof fn lemma_canonical_entry_in(r1: Seq<(u32, IValue)>, r2: Seq<(u32, IValue)>, s: Seq<(u32, IValue)>, i: int)
    requires
        canonical_entries(r1, s),
        canonical_entries(r2, s),
        0 <= i < r1.len(),
    ensures
        r2.contains(r1[i]),
{
    let n = s.len() as int;
    assert(from_last(s, n, r1[i]));
    let j = choose|j: int| last_before(s, n, j) && #[trigger] s[j] == r1[i];
    assert(key_in(r2, s[j].0));
    let i2 = choose|i2: int| 0 <= i2 < r2.len() && (#[trigger] r2[i2]).0 == s[j].0;
    assert(from_last(s, n, r2[i2]));
    let j2 = choose|j2: int| last_before(s, n, j2) && #[trigger] s[j2] == r2[i2];
    if j < j2 {
        assert(s[j2].0 != s[j].0);
    } else if j2 < j {
        assert(s[j].0 != s[j2].0);
    }
    assert(r2[i2] == r1[i]);
}

/// The canonical form of a sequence of entries is unique.
pub proof fn lemma_canonical_unique(r1: Seq<(u32, IValue)>, r2: Seq<(u32, IValue)>, s: Seq<(u32, IValue)>)
    requires
        canonical_entries(r1, s),
        canonical_entries(r2, s),
    ensures
        r1 == r2,
{
    assert forall|i: int| 0 <= i < r1.len() implies r2.contains(#[trigger] r1[i]) by {
        lemma_canonical_entry_in(r1, r2, s, i);
    }
    assert forall|i: int| 0 <= i < r2.len() implies r1.contains(#[trigger] r2[i]) by {
        lemma_canonical_entry_in(r2, r1, s, i);
    }
    lemma_sorted_same_elements(r1, r2);
}

/// The canonical form of the entries `s`: sorted by key, the last entry of
/// each key kept.
pub open spec fn canonical_of(s: Seq<(u32, IValue)>) -> Seq<(u32, IValue)> {
    choose|r: Seq<(u32, IValue)>| canonical_entries(r, s)
}

} // verus!
