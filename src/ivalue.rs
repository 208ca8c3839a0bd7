use vstd::prelude::*;

verus! {

/// An interned JSON value: a tag and an 8-byte payload.
///
/// Strings, arrays and objects are referenced by their 32-bit id in the
/// corresponding arena of the context they were interned into. A float is
/// held by its IEEE-754 bit pattern, so that equality and ordering are
/// bitwise (a NaN equals itself, and `-0.0` differs from `+0.0`).
#[derive(Clone, Copy, Debug, PartialEq, Eq, Structural, Hash, PartialOrd, Ord)]
pub enum IValue {
    Null,
    Bool(bool),
    U64(u64),
    I64(i64),
    F64(u64),
    String(u32),
    Array(u32),
    Object(u32),
}

impl Default for IValue {
    fn default() -> (r: IValue)
        ensures
            r == IValue::Null,
    {
        IValue::Null
    }
}

/// An interned key of a JSON object: the id of the key's text in the string
/// arena.
#[derive(Clone, Copy, Debug, PartialEq, Eq, Structural, Hash, PartialOrd, Ord)]
pub struct InternedStrKey {
    pub id: u32,
}

impl Default for InternedStrKey {
    fn default() -> (r: InternedStrKey)
        ensures
            r.id == 0,
    {
        InternedStrKey { id: 0 }
    }
}

} // verus!
