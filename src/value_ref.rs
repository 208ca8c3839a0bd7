//! Shallow, borrowed views of interned values.
use crate::arena::{str_arena_find, str_arena_lookup, str_contents, Cell, EntryCell};
use crate::interners::{cell_value, entry_value};
use crate::ivalue::{IValue, InternedStrKey};
use blazinterner::ArenaStr;
use vstd::prelude::*;

verus! {

/// A shallow reference to a JSON value.
pub enum ValueRef<'a> {
    Null,
    Bool(bool),
    U64(u64),
    I64(i64),
    /// A float, by its IEEE-754 bit pattern.
    F64(u64),
    String(&'a str),
    Array(ArrayRef<'a>),
    Object(MapRef<'a>),
}

/// A shallow reference to the elements of a JSON array.
pub struct ArrayRef<'a> {
    cells: &'a [Cell],
}

impl<'a> ArrayRef<'a> {
    /// The elements of the array.
    pub closed spec fn values(&self) -> Seq<IValue> {
        self.cells@.map_values(|c: Cell| cell_value(c))
    }

    pub(crate) fn new(cells: &'a [Cell]) -> (r: ArrayRef<'a>)
        ensures
            r.values() == cells@.map_values(|c: Cell| cell_value(c)),
    {
        ArrayRef { cells }
    }

    /// Returns the number of elements.
    pub fn len(&self) -> (r: usize)
        ensures
            r == self.values().len(),
    {
        self.cells.len()
    }

    /// Returns the element at `index`.
    pub fn get(&self, index: usize) -> (r: IValue)
        requires
            index < self.values().len(),
        ensures
            r == self.values()[index as int],
    {
        let c = self.cells[index];
        cell_to_value(c)
    }
}

fn cell_to_value(c: Cell) -> (r: IValue)
    ensures
        r == cell_value(c),
{
    if c.0 == 0 {
        IValue::Null
    } else if c.0 == 1 {
        IValue::Bool(c.1 != 0)
    } else if c.0 == 2 {
        IValue::U64(c.1)
    } else if c.0 == 3 {
        IValue::I64(c.1 as i64)
    } else if c.0 == 4 {
        IValue::F64(c.1)
    } else if c.0 == 5 {
        IValue::String(c.1 as u32)
    } else if c.0 == 6 {
        IValue::Array(c.1 as u32)
    } else {
        IValue::Object(c.1 as u32)
    }
}

/// A shallow reference to a JSON map: its entries, sorted by key id, and the
/// string arena that holds the keys.
pub struct MapRef<'a> {
    arena_str: &'a ArenaStr,
    map: &'a [EntryCell],
}

impl<'a> MapRef<'a> {
    /// The entries of the map, sorted by key id.
    pub closed spec fn entries(&self) -> Seq<(u32, IValue)> {
        self.map@.map_values(|e: EntryCell| entry_value(e))
    }

    /// The strings of the arena that holds the keys.
    pub closed spec fn strings(&self) -> Seq<Seq<char>> {
        str_contents(*self.arena_str)
    }

    /// Keys are strictly sorted and name distinct strings of the arena.
    pub open spec fn wf(&self) -> bool {
        &&& forall|i: int, j: int|
            0 <= i < j < self.entries().len() ==> #[trigger] self.entries()[i].0
                < #[trigger] self.entries()[j].0
        &&& forall|i: int|
            0 <= i < self.entries().len() ==> ((#[trigger] self.entries()[i]).0 as int)
                < self.strings().len()
        &&& forall|i: int, j: int|
            0 <= i < self.strings().len() && 0 <= j < self.strings().len() && i != j
                ==> #[trigger] self.strings()[i] != #[trigger] self.strings()[j]
    }

    /// The key of entry `i`, as text.
    pub open spec fn key_text(&self, i: int) -> Seq<char> {
        self.strings()[self.entries()[i].0 as int]
    }

    pub(crate) fn new(arena_str: &'a ArenaStr, map: &'a [EntryCell]) -> (r: MapRef<'a>)
        ensures
            r.entries() == map@.map_values(|e: EntryCell| entry_value(e)),
            r.strings() == str_contents(*arena_str),
    {
        MapRef { arena_str, map }
    }

    /// Returns the value associated to the given key, or `None` if there is
    /// no such key in this map.
    pub fn get(&self, key: &str) -> (r: Option<IValue>)
        requires
            self.wf(),
        ensures
            match r {
                Some(v) => exists|i: int|
                    0 <= i < self.entries().len() && self.key_text(i) == key@
                        && #[trigger] self.entries()[i].1 == v,
                None => forall|i: int|
                    0 <= i < self.entries().len() ==> #[trigger] self.key_text(i) != key@,
            },
    {
        match str_arena_find(self.arena_str, key) {
            Some(id) => {
                let r = self.get_by_key(InternedStrKey { id });
                proof {
                    if r is None {
                        assert forall|i: int| 0 <= i < self.entries().len() implies #[trigger] self.key_text(i)
                            != key@ by {
                            assert(self.entries()[i].0 != id);
                        }
                    }
                }
                r
            },
            None => {
                proof {
                    assert forall|i: int| 0 <= i < self.entries().len() implies #[trigger] self.key_text(i)
                        != key@ by {
                        if self.key_text(i) == key@ {
                            assert(self.strings().contains(key@));
                        }
                    }
                }
                None
            },
        }
    }

    /// Returns the value associated to the given key, or `None` if there is
    /// no such key in this map.
    pub fn get_by_key(&self, key: InternedStrKey) -> (r: Option<IValue>)
        requires
            self.wf(),
        ensures
            match r {
                Some(v) => exists|i: int|
                    0 <= i < self.entries().len() && self.entries()[i].0 == key.id
                        && #[trigger] self.entries()[i].1 == v,
                None => forall|i: int|
                    0 <= i < self.entries().len() ==> (#[trigger] self.entries()[i]).0 != key.id,
            },
    {
        let mut lo: usize = 0;
        let mut hi: usize = self.map.len();
        while lo < hi
            invariant
                0 <= lo <= hi <= self.entries().len(),
                self.entries().len() == self.map@.len(),
                self.wf(),
                forall|i: int| 0 <= i < lo ==> (#[trigger] self.entries()[i]).0 < key.id,
                forall|i: int| hi <= i < self.entries().len() ==> (#[trigger] self.entries()[i]).0 > key.id,
            decreases hi - lo,
        {
            let mid = lo + (hi - lo) / 2;
            let (k, tag, payload) = self.map[mid];
            assert(self.entries()[mid as int] == entry_value(self.map@[mid as int]));
            if k == key.id {
                let v = cell_to_value((tag, payload));
                assert(self.entries()[mid as int].1 == v);
                return Some(v);
            } else if k < key.id {
                assert forall|i: int| 0 <= i < mid + 1 implies (#[trigger] self.entries()[i]).0 < key.id by {
                    if i < mid {
                        assert(self.entries()[i].0 < self.entries()[mid as int].0);
                    }
                }
                lo = mid + 1;
            } else {
                assert forall|i: int| mid <= i < self.entries().len() implies (#[trigger] self.entries()[i]).0
                    > key.id by {
                    if i > mid {
                        assert(self.entries()[mid as int].0 < self.entries()[i].0);
                    }
                }
                hi = mid;
            }
        }
        None
    }

    /// Returns the key-value pairs of this map, in key-id order.
    pub fn iter(&self) -> (r: Vec<(&'a str, IValue)>)
        requires
            self.wf(),
        ensures
            r@.len() == self.entries().len(),
            forall|i: int|
                0 <= i < r@.len() ==> (#[trigger] r@[i]).0@ == self.key_text(i) && r@[i].1
                    == self.entries()[i].1,
    {
        let mut out: Vec<(&'a str, IValue)> = Vec::with_capacity(self.map.len());
        let mut i: usize = 0;
        while i < self.map.len()
            invariant
                self.wf(),
                i <= self.map@.len(),
                self.entries().len() == self.map@.len(),
                out@.len() == i,
                forall|k: int|
                    0 <= k < i ==> (#[trigger] out@[k]).0@ == self.key_text(k) && out@[k].1
                        == self.entries()[k].1,
            decreases self.map@.len() - i,
        {
            let (k, tag, payload) = self.map[i];
            assert(self.entries()[i as int] == entry_value(self.map@[i as int]));
            let s = str_arena_lookup(self.arena_str, k);
            out.push((s, cell_to_value((tag, payload))));
            i += 1;
        }
        out
    }
}

} // verus!
