//! Lox numbers.
//!
//! Lox numbers are IEEE-754 double-precision floats. The library never does
//! floating-point work itself: every number is carried as the 64-bit pattern
//! of the double, and each operation on numbers is asked of an implementation
//! of [`NumberOps`] that the host supplies. The library's contracts therefore
//! say what is done with the result of each operation, for every result.
use vstd::prelude::*;

verus! {

/// The bit pattern of the double `0.0`.
pub const ZERO_BITS: u64 = 0;

/// The bit pattern of the double `-0.0`.
pub const NEGATIVE_ZERO_BITS: u64 = 0x8000_0000_0000_0000;

/// The doubles that compare equal to `0.0`: positive and negative zero
/// (every other pattern, NaNs included, compares unequal).
pub open spec fn is_zero(bits: u64) -> bool {
    bits == ZERO_BITS || bits == NEGATIVE_ZERO_BITS
}

/// Whether a double compares equal to `0.0`.
pub fn is_zero_number(bits: u64) -> (r: bool)
    ensures
        r == is_zero(bits),
{
    bits == ZERO_BITS || bits == NEGATIVE_ZERO_BITS
}

/// The text of a number literal, as the contracts see it.
pub type NumberText = Seq<char>;

/// The floating-point operations and clock that the interpreter relies on.
/// Arguments and results are bit patterns of doubles.
pub trait NumberOps {
    /// What `parse` gives for the literal with these characters.
    spec fn parse_spec(&self, literal: NumberText) -> u64;

    /// What `add` gives, and likewise for the operations below: each is a
    /// function of its operands alone.
    spec fn add_spec(&self, a: u64, b: u64) -> u64;

    spec fn subtract_spec(&self, a: u64, b: u64) -> u64;

    spec fn multiply_spec(&self, a: u64, b: u64) -> u64;

    spec fn divide_spec(&self, a: u64, b: u64) -> u64;

    spec fn negate_spec(&self, a: u64) -> u64;

    spec fn equal_spec(&self, a: u64, b: u64) -> bool;

    spec fn greater_spec(&self, a: u64, b: u64) -> bool;

    spec fn greater_equal_spec(&self, a: u64, b: u64) -> bool;

    spec fn less_spec(&self, a: u64, b: u64) -> bool;

    spec fn less_equal_spec(&self, a: u64, b: u64) -> bool;

    spec fn format_spec(&self, a: u64) -> String;

    /// The value of a number literal: one or more ASCII digits, optionally
    /// followed by `.` and one or more digits.
    fn parse(&self, literal: &str) -> (r: u64)
        ensures
            r == self.parse_spec(literal@),
    ;

    fn add(&self, a: u64, b: u64) -> (r: u64)
        ensures
            r == self.add_spec(a, b),
    ;

    fn subtract(&self, a: u64, b: u64) -> (r: u64)
        ensures
            r == self.subtract_spec(a, b),
    ;

    fn multiply(&self, a: u64, b: u64) -> (r: u64)
        ensures
            r == self.multiply_spec(a, b),
    ;

    fn divide(&self, a: u64, b: u64) -> (r: u64)
        ensures
            r == self.divide_spec(a, b),
    ;

    fn negate(&self, a: u64) -> (r: u64)
        ensures
            r == self.negate_spec(a),
    ;

    /// Floating-point `==` (so `0.0 == -0.0` and NaN equals nothing).
    fn equal(&self, a: u64, b: u64) -> (r: bool)
        ensures
            r == self.equal_spec(a, b),
    ;

    fn greater(&self, a: u64, b: u64) -> (r: bool)
        ensures
            r == self.greater_spec(a, b),
    ;

    fn greater_equal(&self, a: u64, b: u64) -> (r: bool)
        ensures
            r == self.greater_equal_spec(a, b),
    ;

    fn less(&self, a: u64, b: u64) -> (r: bool)
        ensures
            r == self.less_spec(a, b),
    ;

    fn less_equal(&self, a: u64, b: u64) -> (r: bool)
        ensures
            r == self.less_equal_spec(a, b),
    ;

    /// How a number is shown: without a fractional part when it has none
    /// (`3`, `-0`), otherwise in the shortest form that reads back the same.
    fn format(&self, a: u64) -> (s: String)
        ensures
            s@ == self.format_spec(a)@,
    ;

    /// Seconds since the Unix epoch, as a double. It depends on the time, so
    /// nothing is said of it.
    fn clock(&self) -> u64;
}
} // verus!
