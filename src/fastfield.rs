//! A value read from a fast field: an integer or a byte string.
use vstd::prelude::*;

verus! {

pub enum Value {
    U64(u64),
    Bytes(Vec<u8>),
}

impl Value {
    /// The integer, if this is an integer value.
    pub fn as_u64(&self) -> (r: Option<u64>)
        ensures
            match self {
                Value::U64(v) => r == Some(*v),
                Value::Bytes(_) => r is None,
            },
    {
        match self {
            Value::U64(val) => Some(*val),
            _ => None,
        }
    }

    /// The bytes, if this is a byte-string value.
    pub fn as_bytes(&self) -> (r: Option<&[u8]>)
        ensures
            match self {
                Value::Bytes(b) => r matches Some(s) && s@ == b@,
                Value::U64(_) => r is None,
            },
    {
        match self {
            Value::Bytes(val) => Some(val.as_slice()),
            _ => None,
        }
    }
}

} // verus!
