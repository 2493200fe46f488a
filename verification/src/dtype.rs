//! The scalar element representation tag.

use vstd::prelude::*;

verus! {

/// The element representation of an array: exactly two numeric kinds are
/// supported, a 32-bit one and a 64-bit one.  Mixing representations
/// between two operands is a type-mismatch error, never an implicit cast.
#[derive(Copy, Clone, Debug, PartialEq, Eq, Structural)]
pub enum DataType {
    Float32,
    Float64,
}

impl DataType {
    /// The canonical textual key of the representation, as accepted and
    /// produced at the host boundary.
    pub fn stringy_key(&self) -> (r: &'static str)
        ensures
            *self == DataType::Float32 ==> r@ == "float32"@,
            *self == DataType::Float64 ==> r@ == "float64"@,
    {
        match self {
            DataType::Float32 => "float32",
            DataType::Float64 => "float64",
        }
    }

    /// Parses a textual key back into a representation tag; `None` on any
    /// unrecognized key.
    pub fn from_key(key: &str) -> (r: Option<DataType>)
        ensures
            key@ == "float32"@ ==> r == Some(DataType::Float32),
            key@ == "float64"@ ==> r == Some(DataType::Float64),
            key@ != "float32"@ && key@ != "float64"@ ==> r is None,
    {
        proof {
            reveal_strlit("float32");
            reveal_strlit("float64");
            assert("float32"@ != "float64"@) by {
                assert("float32"@[5] == '3');
                assert("float64"@[5] == '6');
            }
        }
        let owned = key.to_owned();
        if owned == "float32".to_owned() {
            Some(DataType::Float32)
        } else if owned == "float64".to_owned() {
            Some(DataType::Float64)
        } else {
            None
        }
    }
}

} // verus!
