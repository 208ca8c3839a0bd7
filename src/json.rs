use vstd::prelude::*;

verus! {

/// A JSON number, as the parser classified it.
///
/// A float is held by its IEEE-754 bit pattern.
#[derive(Clone, Copy, Debug, PartialEq, Eq, Structural)]
pub enum JsonNumber {
    U64(u64),
    I64(i64),
    F64(u64),
}

/// An already-parsed JSON tree.
///
/// An object lists its entries in source order; a key may occur more than
/// once, in which case its last occurrence is the one that counts.
#[derive(Debug, PartialEq)]
pub enum Json {
    Null,
    Bool(bool),
    Number(JsonNumber),
    String(String),
    Array(Vec<Json>),
    Object(Vec<(String, Json)>),
}

/// Index `j` holds the last occurrence of its key among the entries `es`.
pub open spec fn is_last_key<V>(es: Seq<(String, V)>, j: int) -> bool {
    &&& 0 <= j < es.len()
    &&& forall|m: int| j < m < es.len() ==> (#[trigger] es[m]).0@ != es[j].0@
}

/// Every key of `es` has a last occurrence.
pub proof fn lemma_last_occurrence<V>(es: Seq<(String, V)>, k: int)
    requires
        0 <= k < es.len(),
    ensures
        exists|m: int| #[trigger] is_last_key(es, m) && es[m].0@ == es[k].0@,
    decreases es.len() - k,
{
    if is_last_key(es, k) {
    } else {
        let m = choose|m: int| k < m < es.len() && (#[trigger] es[m]).0@ == es[k].0@;
        lemma_last_occurrence(es, m);
    }
}

} // verus!
