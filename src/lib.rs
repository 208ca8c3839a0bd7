//! Interning of JSON values into compact, deduplicated arenas.
//!
//! A JSON document becomes a small [`IValue`] handle; strings, arrays and
//! object entries live once each in the arenas of a [`Jinterners`] context.
//! The context can be re-packed in a canonical order ([`Jinterners::optimize`])
//! and delta-encoded for transport ([`DeltaEncoding`]).

mod arena;
mod delta;
mod entries;
mod interners;
mod ivalue;
mod json;
mod mapping;
mod order;
mod value_ref;

pub use delta::{
    DeltaEncoding, DeltaParts, IArrayAccumulator, IObjectAccumulator, IValueAccumulator, IValueDelta,
};
pub use entries::sort_entries;
pub use interners::{intern_number, EnumShape, JView, Jinterners};
pub use ivalue::{IValue, InternedStrKey};
pub use json::{Json, JsonNumber};
pub use mapping::{Mapping, MappingImpl, MappingNoStrings, MappingStrings, RevMappingImpl};
pub use value_ref::{ArrayRef, MapRef, ValueRef};
