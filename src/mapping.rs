use crate::ivalue::{IValue, InternedStrKey};
use vstd::prelude::*;

verus! {

/// All entries are ids below the length.
pub open spec fn in_range(s: Seq<u32>) -> bool {
    forall|i: int| 0 <= i < s.len() ==> (#[trigger] s[i] as int) < s.len()
}

/// No id appears twice.
pub open spec fn injective(s: Seq<u32>) -> bool {
    forall|i: int, j: int|
        0 <= i < s.len() && 0 <= j < s.len() && i != j ==> #[trigger] s[i] != #[trigger] s[j]
}

/// Every id below the length appears.
pub open spec fn onto(s: Seq<u32>) -> bool {
    forall|k: int| 0 <= k < s.len() ==> #[trigger] appears(s, k)
}

/// Some entry of `s` is `k`.
pub open spec fn appears(s: Seq<u32>, k: int) -> bool {
    exists|i: int| 0 <= i < s.len() && #[trigger] s[i] == k
}

/// `s` lists each id of `0..s.len()` exactly once.
pub open spec fn is_permutation(s: Seq<u32>) -> bool {
    &&& s.len() <= u32::MAX
    &&& in_range(s)
    &&& injective(s)
    &&& onto(s)
}

/// `s` maps every id to itself.
pub open spec fn is_identity_seq(s: Seq<u32>) -> bool {
    forall|i: int| 0 <= i < s.len() ==> #[trigger] s[i] == i
}

/// The number of positions `i` of `s` with `s[i] != i`.
pub open spec fn count_moved(s: Seq<u32>) -> nat
    decreases s.len(),
{
    if s.len() == 0 {
        0
    } else {
        count_moved(s.drop_last()) + if s.last() as int != s.len() - 1 {
            1nat
        } else {
            0nat
        }
    }
}

/// A renumbering of the ids of one arena: either the identity on `len` ids,
/// or an explicit table from old id to new id.
pub enum MappingImpl {
    Identity(u32),
    Table(Vec<u32>),
}

impl MappingImpl {
    /// The number of ids that this mapping renumbers.
    pub open spec fn spec_len(&self) -> nat {
        match self {
            MappingImpl::Identity(n) => *n as nat,
            MappingImpl::Table(m) => m@.len(),
        }
    }

    /// The new id of old id `i`.
    pub open spec fn spec_at(&self, i: int) -> int {
        match self {
            MappingImpl::Identity(_) => i,
            MappingImpl::Table(m) => m@[i] as int,
        }
    }

    /// A table fits 32-bit ids and sends distinct ids to distinct ids in
    /// range.
    pub open spec fn wf(&self) -> bool {
        match self {
            MappingImpl::Identity(_) => true,
            MappingImpl::Table(m) => m@.len() <= u32::MAX && in_range(m@) && injective(m@),
        }
    }

    /// The number of ids that this mapping moves.
    pub open spec fn spec_count_remapped(&self) -> nat {
        match self {
            MappingImpl::Identity(_) => 0,
            MappingImpl::Table(m) => count_moved(m@),
        }
    }

    /// Checks whether this mapping is the identity.
    pub fn is_identity(&self) -> (r: bool)
        ensures
            r == (self is Identity),
    {
        match self {
            MappingImpl::Identity(_) => true,
            MappingImpl::Table(_) => false,
        }
    }

    /// Returns the number of ids that this mapping renumbers.
    pub fn len(&self) -> (r: u32)
        requires
            self.wf(),
        ensures
            r as nat == self.spec_len(),
    {
        match self {
            MappingImpl::Identity(len) => *len,
            MappingImpl::Table(map) => map.len() as u32,
        }
    }

    /// Returns the new id of the old id `index`.
    pub fn at(&self, index: u32) -> (r: u32)
        requires
            self.wf(),
            index < self.spec_len(),
        ensures
            r as int == self.spec_at(index as int),
            r < self.spec_len(),
    {
        match self {
            MappingImpl::Identity(_) => index,
            MappingImpl::Table(map) => map[index as usize],
        }
    }

    /// Returns the mapping that applies this mapping, then `other`.
    pub fn compose(self, other: MappingImpl) -> (r: MappingImpl)
        requires
            self.wf(),
            other.wf(),
            self.spec_len() == other.spec_len(),
        ensures
            r.wf(),
            r.spec_len() == self.spec_len(),
            (r is Identity) == (self is Identity && other is Identity),
            forall|i: int|
                0 <= i < self.spec_len() ==> #[trigger] r.spec_at(i) == other.spec_at(
                    self.spec_at(i),
                ),
    {
        match (self, other) {
            (MappingImpl::Identity(len), MappingImpl::Identity(_)) => MappingImpl::Identity(len),
            (MappingImpl::Table(map), MappingImpl::Identity(_)) => MappingImpl::Table(map),
            (MappingImpl::Identity(_), MappingImpl::Table(map)) => MappingImpl::Table(map),
            (MappingImpl::Table(left), MappingImpl::Table(right)) => {
                let mut out: Vec<u32> = Vec::with_capacity(left.len());
                let mut i: usize = 0;
                while i < left.len()
                    invariant
                        i <= left@.len(),
                        left@.len() == right@.len(),
                        in_range(left@),
                        in_range(right@),
                        out@.len() == i,
                        forall|j: int| 0 <= j < i ==> #[trigger] out@[j] == right@[left@[j] as int],
                    decreases left@.len() - i,
                {
                    let k = left[i];
                    out.push(right[k as usize]);
                    i += 1;
                }
                assert(in_range(out@)) by {
                    assert forall|j: int| 0 <= j < out@.len() implies (#[trigger] out@[j] as int)
                        < out@.len() by {
                        assert(out@[j] == right@[left@[j] as int]);
                    }
                }
                assert(injective(out@)) by {
                    assert forall|a: int, b: int|
                        0 <= a < out@.len() && 0 <= b < out@.len() && a != b implies #[trigger] out@[a]
                        != #[trigger] out@[b] by {
                        assert(left@[a] != left@[b]);
                        assert(out@[a] == right@[left@[a] as int]);
                        assert(out@[b] == right@[left@[b] as int]);
                    }
                }
                MappingImpl::Table(out)
            },
        }
    }

    /// Returns the number of ids that this mapping moves.
    pub fn count_remapped(&self) -> (r: usize)
        ensures
            r as nat == self.spec_count_remapped(),
    {
        match self {
            MappingImpl::Identity(_) => 0,
            MappingImpl::Table(map) => {
                let mut count: usize = 0;
                let mut i: usize = 0;
                while i < map.len()
                    invariant
                        i <= map@.len(),
                        count <= i,
                        count as nat == count_moved(map@.subrange(0, i as int)),
                    decreases map@.len() - i,
                {
                    proof {
                        let s = map@.subrange(0, i as int + 1);
                        assert(s.drop_last() =~= map@.subrange(0, i as int));
                    }
                    if map[i] as usize != i {
                        count += 1;
                    }
                    i += 1;
                }
                assert(map@.subrange(0, map@.len() as int) =~= map@);
                count
            },
        }
    }
}

/// A canonical order of the ids of one arena: entry `k` is the old id that
/// takes the new id `k`.
pub struct RevMappingImpl(pub Vec<u32>);

impl RevMappingImpl {
    /// The order is a permutation of the ids.
    pub open spec fn wf(&self) -> bool {
        is_permutation(self.0@)
    }

    /// Returns the order that keeps each of `n` ids in place.
    pub fn identity(n: u32) -> (r: RevMappingImpl)
        ensures
            r.wf(),
            r.0@.len() == n,
            is_identity_seq(r.0@),
    {
        let mut v: Vec<u32> = Vec::with_capacity(n as usize);
        let mut i: u32 = 0;
        while i < n
            invariant
                i <= n,
                v@.len() == i,
                forall|k: int| 0 <= k < i ==> #[trigger] v@[k] == k,
            decreases n - i,
        {
            v.push(i);
            i += 1;
        }
        proof {
            assert forall|k: int| 0 <= k < n implies #[trigger] appears(v@, k) by {
                assert(v@[k] == k);
            }
        }
        RevMappingImpl(v)
    }

    /// Returns the mapping from old ids to new ids: the inverse of this
    /// order, or the identity where this order keeps every id in place.
    pub fn reverse(&self) -> (r: MappingImpl)
        requires
            self.wf(),
        ensures
            r.wf(),
            r.spec_len() == self.0@.len(),
            (r is Identity) == is_identity_seq(self.0@),
            forall|k: int| 0 <= k < self.0@.len() ==> #[trigger] r.spec_at(self.0@[k] as int) == k,
            forall|i: int|
                0 <= i < self.0@.len() ==> self.0@[#[trigger] r.spec_at(i)] as int == i,
    {
        let n = self.0.len();
        if self.is_identity() {
            MappingImpl::Identity(n as u32)
        } else {
            let mut reverse: Vec<u32> = Vec::with_capacity(n);
            let mut j: usize = 0;
            while j < n
                invariant
                    j <= n,
                    reverse@.len() == j,
                    forall|x: int| 0 <= x < j ==> #[trigger] reverse@[x] == 0,
                decreases n - j,
            {
                reverse.push(0);
                j += 1;
            }
            let ghost s = self.0@;
            let mut i: usize = 0;
            while i < n
                invariant
                    n == s.len(),
                    s == self.0@,
                    is_permutation(s),
                    i <= n,
                    reverse@.len() == n,
                    forall|k: int| 0 <= k < i ==> #[trigger] reverse@[s[k] as int] == k,
                    forall|x: int|
                        0 <= x < n ==> (#[trigger] reverse@[x] as int) < n,
                decreases n - i,
            {
                let k = self.0[i];
                proof {
                    assert forall|m: int| 0 <= m < i implies #[trigger] s[m] != k by {
                        assert(s[m] != s[i as int]);
                    }
                }
                reverse.set(k as usize, i as u32);
                i += 1;
            }
            proof {
                assert forall|x: int| 0 <= x < n implies s[#[trigger] reverse@[x] as int] as int
                    == x by {
                    assert(appears(s, x));
                    let k = choose|k: int| 0 <= k < s.len() && #[trigger] s[k] == x;
                    assert(reverse@[s[k] as int] == k);
                }
                assert(in_range(reverse@));
                assert forall|a: int, b: int|
                    0 <= a < n && 0 <= b < n && a != b implies #[trigger] reverse@[a] != #[trigger] reverse@[b] by {
                    assert(s[reverse@[a] as int] as int == a);
                    assert(s[reverse@[b] as int] as int == b);
                }
                assert(injective(reverse@));
            }
            MappingImpl::Table(reverse)
        }
    }

    /// Checks whether this order keeps every id in place.
    pub fn is_identity(&self) -> (r: bool)
        ensures
            r == is_identity_seq(self.0@),
    {
        let mut i: usize = 0;
        while i < self.0.len()
            invariant
                i <= self.0@.len(),
                forall|k: int| 0 <= k < i ==> #[trigger] self.0@[k] == k,
            decreases self.0@.len() - i,
        {
            if self.0[i] as usize != i {
                return false;
            }
            i += 1;
        }
        true
    }

    /// Returns the old ids in their new order.
    pub fn iter(&self) -> (r: Vec<u32>)
        ensures
            r@ == self.0@,
    {
        let mut out: Vec<u32> = Vec::with_capacity(self.0.len());
        let mut i: usize = 0;
        while i < self.0.len()
            invariant
                i <= self.0@.len(),
                out@ == self.0@.subrange(0, i as int),
            decreases self.0@.len() - i,
        {
            out.push(self.0[i]);
            i += 1;
        }
        assert(self.0@.subrange(0, self.0@.len() as int) =~= self.0@);
        out
    }
}

/// Maps one id through a mapping, when it is in range.
pub open spec fn map_id(m: MappingImpl, id: u32) -> u32 {
    m.spec_at(id as int) as u32
}

/// Mapping to convert values from one context to another: one renumbering
/// per arena.
pub struct Mapping {
    pub string: MappingImpl,
    pub iarray: MappingImpl,
    pub iobject: MappingImpl,
}

impl Mapping {
    pub open spec fn wf(&self) -> bool {
        self.string.wf() && self.iarray.wf() && self.iobject.wf()
    }

    /// `v` references only ids that this mapping renumbers.
    pub open spec fn covers(&self, v: IValue) -> bool {
        match v {
            IValue::String(x) => (x as nat) < self.string.spec_len(),
            IValue::Array(x) => (x as nat) < self.iarray.spec_len(),
            IValue::Object(x) => (x as nat) < self.iobject.spec_len(),
            _ => true,
        }
    }

    /// The value `v` with its id renumbered; scalars are kept.
    pub open spec fn spec_map(&self, v: IValue) -> IValue {
        match v {
            IValue::String(x) => IValue::String(map_id(self.string, x)),
            IValue::Array(x) => IValue::Array(map_id(self.iarray, x)),
            IValue::Object(x) => IValue::Object(map_id(self.iobject, x)),
            _ => v,
        }
    }

    /// Returns a mapping that applies this mapping followed by the other
    /// mapping, which keeps strings in place.
    ///
    /// Mapping a value through the result is mapping it through this mapping,
    /// then through `other`.
    pub fn compose(self, other: MappingNoStrings) -> (r: Self)
        requires
            self.wf(),
            other.wf(),
            self.iarray.spec_len() == other.iarray.spec_len(),
            self.iobject.spec_len() == other.iobject.spec_len(),
        ensures
            r.wf(),
            r.string == self.string,
            r.iarray.spec_len() == self.iarray.spec_len(),
            r.iobject.spec_len() == self.iobject.spec_len(),
            forall|v: IValue| #[trigger]
                self.covers(v) ==> r.covers(v) && r.spec_map(v) == other.spec_map(
                    self.spec_map(v),
                ),
    {
        let ghost s = self;
        let Mapping { string, iarray, iobject } = self;
        let iarray = iarray.compose(other.iarray);
        let iobject = iobject.compose(other.iobject);
        let r = Mapping { string, iarray, iobject };
        assert forall|v: IValue| #[trigger] s.covers(v) implies r.covers(v) && r.spec_map(v)
            == other.spec_map(s.spec_map(v)) by {
            match v {
                IValue::Array(x) => {
                    assert(r.iarray.spec_at(x as int) == other.iarray.spec_at(
                        s.iarray.spec_at(x as int),
                    ));
                },
                IValue::Object(x) => {
                    assert(r.iobject.spec_at(x as int) == other.iobject.spec_at(
                        s.iobject.spec_at(x as int),
                    ));
                },
                _ => {},
            }
        }
        r
    }

    /// Checks whether this mapping is the identity.
    pub fn is_identity(&self) -> (r: bool)
        ensures
            r == (self.string is Identity && self.iarray is Identity && self.iobject is Identity),
    {
        self.string.is_identity() && self.iarray.is_identity() && self.iobject.is_identity()
    }

    /// Returns the number of strings that are remapped by this mapping.
    pub fn count_remapped_strings(&self) -> (r: usize)
        ensures
            r as nat == self.string.spec_count_remapped(),
    {
        self.string.count_remapped()
    }

    /// Returns the number of arrays that are remapped by this mapping.
    pub fn count_remapped_arrays(&self) -> (r: usize)
        ensures
            r as nat == self.iarray.spec_count_remapped(),
    {
        self.iarray.count_remapped()
    }

    /// Returns the number of objects that are remapped by this mapping.
    pub fn count_remapped_objects(&self) -> (r: usize)
        ensures
            r as nat == self.iobject.spec_count_remapped(),
    {
        self.iobject.count_remapped()
    }

    /// Maps an object key to the destination context.
    pub fn map_str_key(&self, s: InternedStrKey) -> (r: InternedStrKey)
        requires
            self.wf(),
            (s.id as nat) < self.string.spec_len(),
        ensures
            r.id == map_id(self.string, s.id),
            (r.id as nat) < self.string.spec_len(),
    {
        InternedStrKey { id: self.string.at(s.id) }
    }

    /// Maps the given value from the source context to the destination
    /// context of this mapping.
    pub fn map(&self, v: IValue) -> (r: IValue)
        requires
            self.wf(),
            self.covers(v),
        ensures
            r == self.spec_map(v),
            self.covers(r),
    {
        match v {
            IValue::String(x) => IValue::String(self.string.at(x)),
            IValue::Array(x) => IValue::Array(self.iarray.at(x)),
            IValue::Object(x) => IValue::Object(self.iobject.at(x)),
            _ => v,
        }
    }
}

/// A mapping that renumbers strings only.
pub struct MappingStrings {
    pub string: MappingImpl,
}

impl MappingStrings {
    pub open spec fn wf(&self) -> bool {
        self.string.wf()
    }

    /// The value `v` with its string id renumbered.
    pub open spec fn spec_map(&self, v: IValue) -> IValue {
        match v {
            IValue::String(x) => IValue::String(map_id(self.string, x)),
            _ => v,
        }
    }

    /// Extends this mapping with the identity on `num_arrays` arrays and
    /// `num_objects` objects.
    pub fn promote(self, num_arrays: u32, num_objects: u32) -> (r: Mapping)
        ensures
            r.string == self.string,
            r.iarray == MappingImpl::Identity(num_arrays),
            r.iobject == MappingImpl::Identity(num_objects),
    {
        Mapping {
            string: self.string,
            iarray: MappingImpl::Identity(num_arrays),
            iobject: MappingImpl::Identity(num_objects),
        }
    }

    /// Checks whether this mapping is the identity.
    pub fn is_identity(&self) -> (r: bool)
        ensures
            r == (self.string is Identity),
    {
        self.string.is_identity()
    }

    /// Maps an object key to the destination context.
    pub fn map_str_key(&self, s: InternedStrKey) -> (r: InternedStrKey)
        requires
            self.wf(),
            (s.id as nat) < self.string.spec_len(),
        ensures
            r.id == map_id(self.string, s.id),
            (r.id as nat) < self.string.spec_len(),
    {
        InternedStrKey { id: self.string.at(s.id) }
    }

    /// Maps the given value to the destination context.
    pub fn map(&self, v: IValue) -> (r: IValue)
        requires
            self.wf(),
            v is String ==> (v->String_0 as nat) < self.string.spec_len(),
        ensures
            r == self.spec_map(v),
    {
        match v {
            IValue::String(x) => IValue::String(self.string.at(x)),
            _ => v,
        }
    }
}

/// A mapping that renumbers arrays and objects, and keeps strings in place.
pub struct MappingNoStrings {
    pub iarray: MappingImpl,
    pub iobject: MappingImpl,
}

impl MappingNoStrings {
    pub open spec fn wf(&self) -> bool {
        self.iarray.wf() && self.iobject.wf()
    }

    /// The value `v` with its array or object id renumbered.
    pub open spec fn spec_map(&self, v: IValue) -> IValue {
        match v {
            IValue::Array(x) => IValue::Array(map_id(self.iarray, x)),
            IValue::Object(x) => IValue::Object(map_id(self.iobject, x)),
            _ => v,
        }
    }

    /// Extends this mapping with the identity on `num_strings` strings.
    pub fn promote(self, num_strings: u32) -> (r: Mapping)
        ensures
            r.string == MappingImpl::Identity(num_strings),
            r.iarray == self.iarray,
            r.iobject == self.iobject,
    {
        Mapping { string: MappingImpl::Identity(num_strings), iarray: self.iarray, iobject: self.iobject }
    }

    /// Checks whether this mapping is the identity.
    pub fn is_identity(&self) -> (r: bool)
        ensures
            r == (self.iarray is Identity && self.iobject is Identity),
    {
        self.iarray.is_identity() && self.iobject.is_identity()
    }

    /// Maps the given value to the destination context.
    pub fn map(&self, v: IValue) -> (r: IValue)
        requires
            self.wf(),
            v is Array ==> (v->Array_0 as nat) < self.iarray.spec_len(),
            v is Object ==> (v->Object_0 as nat) < self.iobject.spec_len(),
        ensures
            r == self.spec_map(v),
    {
        match v {
            IValue::Array(x) => IValue::Array(self.iarray.at(x)),
            IValue::Object(x) => IValue::Object(self.iobject.at(x)),
            _ => v,
        }
    }
}

} // verus!
