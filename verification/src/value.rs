//! Stored values: live data or a tombstone.

use vstd::prelude::*;
use vstd::slice::slice_to_vec;

verus! {

/// A value as it lives in the store.  A tombstone ([`Value::Deleted`]) is a
/// first-class value, not an absence: it is stored, transmitted and compared
/// like any other value, so that a deletion can shadow older data living in
/// older tables.
#[derive(Debug, PartialEq, Eq)]
pub enum Value {
    /// Live data with its payload bytes.
    Present(Vec<u8>),
    /// A deletion marker.
    Deleted,
}

impl View for Value {
    type V = Option<Seq<u8>>;

    open spec fn view(&self) -> Option<Seq<u8>> {
        match self {
            Value::Present(bytes) => Some(bytes@),
            Value::Deleted => None,
        }
    }
}

impl Clone for Value {
    fn clone(&self) -> (r: Self)
        ensures
            r@ == self@,
    {
        match self {
            Value::Present(bytes) => Value::Present(slice_to_vec(bytes.as_slice())),
            Value::Deleted => Value::Deleted,
        }
    }
}

impl Value {
    /// Wraps payload bytes read from a record as live data.
    pub fn from_bytes(bytes: Vec<u8>) -> (v: Value)
        ensures
            v@ == Some(bytes@),
    {
        Value::Present(bytes)
    }
}

} // verus!
