//! The content-addressed arenas of `blazinterner`, as the library sees them.
//!
//! Each arena is known through names for what it holds: the sequence of its
//! entries in id order, and the running size that bounds its 32-bit ranges.
//! Every call into the crate goes through one wrapper below.
use blazinterner::{ArenaSlice, ArenaStr, InternedSlice, InternedStr};
use get_size2::GetSize;
use vstd::prelude::*;
use vstd::string::StringSliceAdditionalSpecFns;

verus! {

#[verifier::external_type_specification]
#[verifier::external_body]
#[verifier::reject_recursive_types(H)]
#[verifier::reject_recursive_types(I)]
pub struct ExArenaStr<H, I>(ArenaStr<H, I>);

#[verifier::external_type_specification]
#[verifier::external_body]
#[verifier::reject_recursive_types(T)]
#[verifier::reject_recursive_types(H)]
#[verifier::reject_recursive_types(I)]
pub struct ExArenaSlice<T, H, I>(ArenaSlice<T, H, I>);

/// A value stored in the array arena: a tag and a payload.
pub type Cell = (u8, u64);

/// An entry stored in the object arena: a key id, a tag and a payload.
pub type EntryCell = (u32, u8, u64);

/// The strings of a string arena, in id order.
pub uninterp spec fn str_contents(a: ArenaStr) -> Seq<Seq<char>>;

/// The number of bytes that a string arena holds, all strings together.
pub uninterp spec fn str_bytes(a: ArenaStr) -> nat;

/// The slices of the array arena, in id order.
pub uninterp spec fn cell_slices(a: ArenaSlice<Cell>) -> Seq<Seq<Cell>>;

/// The number of items that the array arena holds, all slices together.
pub uninterp spec fn cell_items(a: ArenaSlice<Cell>) -> nat;

/// The slices of the object arena, in id order.
pub uninterp spec fn entry_slices(a: ArenaSlice<EntryCell>) -> Seq<Seq<EntryCell>>;

/// The number of items that the object arena holds, all slices together.
pub uninterp spec fn entry_items(a: ArenaSlice<EntryCell>) -> nat;

/// Relies on `ArenaStr::default`: an arena that holds nothing.
#[verifier::external_body]
pub(crate) fn str_arena_new() -> (r: ArenaStr)
    ensures
        str_contents(r) == Seq::<Seq<char>>::empty(),
        str_bytes(r) == 0,
{
    ArenaStr::default()
}

/// Relies on `ArenaStr::strings`: the number of strings held.
#[verifier::external_body]
pub(crate) fn str_arena_len(a: &ArenaStr) -> (r: usize)
    ensures
        r == str_contents(*a).len(),
{
    a.strings()
}

/// Relies on `ArenaStr::bytes`: the number of bytes held. Without the
/// crate's `sync` feature all strings sit back to back in one `String`, so
/// this is the sum of their lengths.
#[verifier::external_body]
pub(crate) fn str_arena_bytes(a: &ArenaStr) -> (r: usize)
    ensures
        r == str_bytes(*a),
{
    a.bytes()
}

/// Relies on `ArenaStr::intern_mut`: the id of an equal string if there is
/// one, else the string is appended and gets the next id. The arena panics
/// when a byte offset or an id leaves `u32`.
#[verifier::external_body]
pub(crate) fn str_arena_intern(a: &mut ArenaStr, s: &str) -> (r: u32)
    requires
        str_contents(*old(a)).len() < u32::MAX,
        str_bytes(*old(a)) + s.spec_bytes().len() <= u32::MAX,
    ensures
        str_contents(*old(a)).contains(s@) ==> {
            &&& str_contents(*final(a)) == str_contents(*old(a))
            &&& str_bytes(*final(a)) == str_bytes(*old(a))
            &&& (r as nat) < str_contents(*old(a)).len()
            &&& str_contents(*old(a))[r as int] == s@
        },
        !str_contents(*old(a)).contains(s@) ==> {
            &&& str_contents(*final(a)) == str_contents(*old(a)).push(s@)
            &&& str_bytes(*final(a)) == str_bytes(*old(a)) + s.spec_bytes().len()
            &&& r as nat == str_contents(*old(a)).len()
        },
{
    a.intern_mut(s).id()
}

/// Relies on `ArenaStr::push_mut`: the string is appended, equal or not to
/// one already held.
#[verifier::external_body]
pub(crate) fn str_arena_push(a: &mut ArenaStr, s: &str) -> (r: u32)
    requires
        str_contents(*old(a)).len() < u32::MAX,
        str_bytes(*old(a)) + s.spec_bytes().len() <= u32::MAX,
    ensures
        str_contents(*final(a)) == str_contents(*old(a)).push(s@),
        str_bytes(*final(a)) == str_bytes(*old(a)) + s.spec_bytes().len(),
        r as nat == str_contents(*old(a)).len(),
{
    a.push_mut(s)
}

/// Relies on `ArenaStr::find`: the id of an equal string, if one is held.
#[verifier::external_body]
pub(crate) fn str_arena_find(a: &ArenaStr, s: &str) -> (r: Option<u32>)
    ensures
        match r {
            Some(i) => (i as nat) < str_contents(*a).len() && str_contents(*a)[i as int] == s@,
            None => !str_contents(*a).contains(s@),
        },
{
    a.find(s).map(|k| k.id())
}

/// Relies on `ArenaStr::lookup`: the string with the given id.
#[verifier::external_body]
pub(crate) fn str_arena_lookup(a: &ArenaStr, id: u32) -> (r: &str)
    requires
        (id as nat) < str_contents(*a).len(),
    ensures
        r@ == str_contents(*a)[id as int],
{
    a.lookup(InternedStr::from_id(id))
}

/// Relies on `GetSize::get_size` for `ArenaStr`: the bytes it occupies, at
/// least the bytes that it holds, since a `String`'s heap size is its
/// capacity.
#[verifier::external_body]
pub(crate) fn str_arena_size(a: &ArenaStr) -> (r: usize)
    ensures
        r >= str_bytes(*a),
{
    a.get_size()
}

/// Relies on `ArenaSlice::default`: an arena that holds nothing.
#[verifier::external_body]
pub(crate) fn cell_arena_new() -> (r: ArenaSlice<Cell>)
    ensures
        cell_slices(r) == Seq::<Seq<Cell>>::empty(),
        cell_items(r) == 0,
{
    ArenaSlice::default()
}

/// Relies on `ArenaSlice::slices`: the number of slices held.
#[verifier::external_body]
pub(crate) fn cell_arena_len(a: &ArenaSlice<Cell>) -> (r: usize)
    ensures
        r == cell_slices(*a).len(),
{
    a.slices()
}

/// Relies on `ArenaSlice::items`: the number of items held. Without the
/// crate's `sync` feature all slices sit back to back in one `Vec`, so this
/// is the sum of their lengths.
#[verifier::external_body]
pub(crate) fn cell_arena_items(a: &ArenaSlice<Cell>) -> (r: usize)
    ensures
        r == cell_items(*a),
{
    a.items()
}

/// Relies on `ArenaSlice::intern_copy_mut`: the id of an equal slice if there
/// is one, else the slice is appended and gets the next id. The arena panics
/// when an item offset or an id leaves `u32`.
#[verifier::external_body]
pub(crate) fn cell_arena_intern(a: &mut ArenaSlice<Cell>, s: &[Cell]) -> (r: u32)
    requires
        cell_slices(*old(a)).len() < u32::MAX,
        cell_items(*old(a)) + s@.len() <= u32::MAX,
    ensures
        cell_slices(*old(a)).contains(s@) ==> {
            &&& cell_slices(*final(a)) == cell_slices(*old(a))
            &&& cell_items(*final(a)) == cell_items(*old(a))
            &&& (r as nat) < cell_slices(*old(a)).len()
            &&& cell_slices(*old(a))[r as int] == s@
        },
        !cell_slices(*old(a)).contains(s@) ==> {
            &&& cell_slices(*final(a)) == cell_slices(*old(a)).push(s@)
            &&& cell_items(*final(a)) == cell_items(*old(a)) + s@.len()
            &&& r as nat == cell_slices(*old(a)).len()
        },
{
    a.intern_copy_mut(s).id()
}

/// Relies on `ArenaSlice::find`: the id of an equal slice, if one is held.
#[verifier::external_body]
pub(crate) fn cell_arena_find(a: &ArenaSlice<Cell>, s: &[Cell]) -> (r: Option<u32>)
    ensures
        match r {
            Some(i) => (i as nat) < cell_slices(*a).len() && cell_slices(*a)[i as int] == s@,
            None => !cell_slices(*a).contains(s@),
        },
{
    a.find(s).map(|k| k.id())
}

/// Relies on `ArenaSlice::push_mut`: the slice is appended, equal or not to
/// one already held.
#[verifier::external_body]
pub(crate) fn cell_arena_push(a: &mut ArenaSlice<Cell>, s: &[Cell]) -> (r: u32)
    requires
        cell_slices(*old(a)).len() < u32::MAX,
        cell_items(*old(a)) + s@.len() <= u32::MAX,
    ensures
        cell_slices(*final(a)) == cell_slices(*old(a)).push(s@),
        cell_items(*final(a)) == cell_items(*old(a)) + s@.len(),
        r as nat == cell_slices(*old(a)).len(),
{
    a.push_mut(s)
}

/// Relies on `ArenaSlice::lookup`: the slice with the given id.
#[verifier::external_body]
pub(crate) fn cell_arena_lookup(a: &ArenaSlice<Cell>, id: u32) -> (r: &[Cell])
    requires
        (id as nat) < cell_slices(*a).len(),
    ensures
        r@ == cell_slices(*a)[id as int],
{
    a.lookup(InternedSlice::from_id(id))
}

/// Relies on `GetSize::get_size` for `ArenaSlice`: the bytes it occupies, at
/// least the number of items that it holds, since a `Vec`'s heap size counts
/// its capacity times the item size.
#[verifier::external_body]
pub(crate) fn cell_arena_size(a: &ArenaSlice<Cell>) -> (r: usize)
    ensures
        r >= cell_items(*a),
{
    a.get_size()
}

/// Relies on `ArenaSlice::default`: an arena that holds nothing.
#[verifier::external_body]
pub(crate) fn entry_arena_new() -> (r: ArenaSlice<EntryCell>)
    ensures
        entry_slices(r) == Seq::<Seq<EntryCell>>::empty(),
        entry_items(r) == 0,
{
    ArenaSlice::default()
}

/// Relies on `ArenaSlice::slices`: the number of slices held.
#[verifier::external_body]
pub(crate) fn entry_arena_len(a: &ArenaSlice<EntryCell>) -> (r: usize)
    ensures
        r == entry_slices(*a).len(),
{
    a.slices()
}

/// Relies on `ArenaSlice::items`: the number of items held. Without the
/// crate's `sync` feature all slices sit back to back in one `Vec`, so this
/// is the sum of their lengths.
#[verifier::external_body]
pub(crate) fn entry_arena_items(a: &ArenaSlice<EntryCell>) -> (r: usize)
    ensures
        r == entry_items(*a),
{
    a.items()
}

/// Relies on `ArenaSlice::intern_copy_mut`: the id of an equal slice if there
/// is one, else the slice is appended and gets the next id. The arena panics
/// when an item offset or an id leaves `u32`.
#[verifier::external_body]
pub(crate) fn entry_arena_intern(a: &mut ArenaSlice<EntryCell>, s: &[EntryCell]) -> (r: u32)
    requires
        entry_slices(*old(a)).len() < u32::MAX,
        entry_items(*old(a)) + s@.len() <= u32::MAX,
    ensures
        entry_slices(*old(a)).contains(s@) ==> {
            &&& entry_slices(*final(a)) == entry_slices(*old(a))
            &&& entry_items(*final(a)) == entry_items(*old(a))
            &&& (r as nat) < entry_slices(*old(a)).len()
            &&& entry_slices(*old(a))[r as int] == s@
        },
        !entry_slices(*old(a)).contains(s@) ==> {
            &&& entry_slices(*final(a)) == entry_slices(*old(a)).push(s@)
            &&& entry_items(*final(a)) == entry_items(*old(a)) + s@.len()
            &&& r as nat == entry_slices(*old(a)).len()
        },
{
    a.intern_copy_mut(s).id()
}

/// Relies on `ArenaSlice::find`: the id of an equal slice, if one is held.
#[verifier::external_body]
pub(crate) fn entry_arena_find(a: &ArenaSlice<EntryCell>, s: &[EntryCell]) -> (r: Option<u32>)
    ensures
        match r {
            Some(i) => (i as nat) < entry_slices(*a).len() && entry_slices(*a)[i as int] == s@,
            None => !entry_slices(*a).contains(s@),
        },
{
    a.find(s).map(|k| k.id())
}

/// Relies on `ArenaSlice::push_mut`: the slice is appended, equal or not to
/// one already held.
#[verifier::external_body]
pub(crate) fn entry_arena_push(a: &mut ArenaSlice<EntryCell>, s: &[EntryCell]) -> (r: u32)
    requires
        entry_slices(*old(a)).len() < u32::MAX,
        entry_items(*old(a)) + s@.len() <= u32::MAX,
    ensures
        entry_slices(*final(a)) == entry_slices(*old(a)).push(s@),
        entry_items(*final(a)) == entry_items(*old(a)) + s@.len(),
        r as nat == entry_slices(*old(a)).len(),
{
    a.push_mut(s)
}

/// Relies on `ArenaSlice::lookup`: the slice with the given id.
#[verifier::external_body]
pub(crate) fn entry_arena_lookup(a: &ArenaSlice<EntryCell>, id: u32) -> (r: &[EntryCell])
    requires
        (id as nat) < entry_slices(*a).len(),
    ensures
        r@ == entry_slices(*a)[id as int],
{
    a.lookup(InternedSlice::from_id(id))
}

/// Relies on `GetSize::get_size` for `ArenaSlice`: the bytes it occupies, at
/// least the number of items that it holds, since a `Vec`'s heap size counts
/// its capacity times the item size.
#[verifier::external_body]
pub(crate) fn entry_arena_size(a: &ArenaSlice<EntryCell>) -> (r: usize)
    ensures
        r >= entry_items(*a),
{
    a.get_size()
}

} // verus!
