use vstd::prelude::*;

verus! {

/// Why reading a primitive value (integer or float) from the input failed.
#[derive(Debug, Clone, Copy, PartialEq, Eq, Structural)]
pub enum PrimitiveError {
    /// The input ended before any value was found.
    UnexpectedEnd,
    /// No digits where a signed integer was expected.
    InvalidInteger,
    /// A minus sign, or no digits, where an unsigned integer was expected.
    InvalidUnsigned,
    /// The text is not a floating-point number.
    InvalidFloat,
}

} // verus!
