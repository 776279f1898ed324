//! The library's error taxonomy.
use vstd::prelude::*;
use crate::decimal::{digit_chars, push_decimal};

verus! {

/// Every failure that the library reports.
#[derive(Debug)]
pub enum Error {
    /// A failure of the object-store adapter.
    Storage(String),
    /// A record-batch or container-format encode/decode failure.
    Codec(String),
    /// A manifest encode/decode failure.
    Serialization(String),
    /// Corruption or a logic failure within the index.
    Index(String),
    /// A vector of the wrong length.
    DimensionMismatch { expected: usize, actual: usize },
    /// A lookup-style miss.
    NotFound(String),
    /// Constructor-time validation failure.
    InvalidConfig(String),
    /// A conversion failure at the embedding boundary.
    Ffi(String),
    /// Unclassified.
    Other(String),
}

fn labelled(label: &str, detail: &String) -> (r: String)
    ensures
        r@ == label@ + detail@,
{
    let mut r = String::from_str(label);
    r.append(detail.as_str());
    r
}

impl Error {
    /// A readable description of the error.
    pub fn message(&self) -> (r: String)
        ensures
            match self {
                Error::Storage(d) => r@ == "Storage error: "@ + d@,
                Error::Codec(d) => r@ == "Codec error: "@ + d@,
                Error::Serialization(d) => r@ == "Serialization error: "@ + d@,
                Error::Index(d) => r@ == "Index error: "@ + d@,
                Error::DimensionMismatch { expected, actual } => r@ == "Dimension mismatch: expected "@
                    + digit_chars(*expected as nat) + ", got "@ + digit_chars(*actual as nat),
                Error::NotFound(d) => r@ == "Key not found: "@ + d@,
                Error::InvalidConfig(d) => r@ == "Invalid configuration: "@ + d@,
                Error::Ffi(d) => r@ == "FFI error: "@ + d@,
                Error::Other(d) => r@ == d@,
            },
    {
        match self {
            Error::Storage(d) => labelled("Storage error: ", d),
            Error::Codec(d) => labelled("Codec error: ", d),
            Error::Serialization(d) => labelled("Serialization error: ", d),
            Error::Index(d) => labelled("Index error: ", d),
            Error::DimensionMismatch { expected, actual } => {
                let mut r = String::from_str("Dimension mismatch: expected ");
                push_decimal(&mut r, *expected as u64);
                r.append(", got ");
                push_decimal(&mut r, *actual as u64);
                r
            },
            Error::NotFound(d) => labelled("Key not found: ", d),
            Error::InvalidConfig(d) => labelled("Invalid configuration: ", d),
            Error::Ffi(d) => labelled("FFI error: ", d),
            Error::Other(d) => d.clone(),
        }
    }
}

} // verus!
