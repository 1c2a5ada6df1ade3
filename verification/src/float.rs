//! Floating-point values as IEEE-754 binary64 bit patterns.
//!
//! The verified core never computes with floating-point numbers itself. It
//! keeps each float as its bit pattern; comparisons, negation and absolute
//! value are integer operations on those bits, and the arithmetic that needs
//! a floating-point unit comes from an implementation of `FloatOps` supplied
//! by the program that embeds the interpreter.
use vstd::prelude::*;

verus! {

/// Floating-point arithmetic on bit patterns, supplied by the embedding
/// program. Nothing is assumed of these operations beyond their types.
pub trait FloatOps {
    /// The value of a float literal as the lexer reads it, digits, a point
    /// and digits (`3.14`, `2.`), which `f64::from_str` always accepts.
    fn from_literal(text: &str) -> u64;

    /// The value of a string, if `f64::from_str` accepts it.
    fn parse(text: &str) -> Option<u64>;

    /// The nearest float to an integer (`n as f64`).
    fn from_int(n: i64) -> u64;

    /// The float truncated to an integer, saturating (`x as i64`).
    fn to_int(x: u64) -> i64;

    fn add(a: u64, b: u64) -> u64;

    fn sub(a: u64, b: u64) -> u64;

    fn mul(a: u64, b: u64) -> u64;

    fn div(a: u64, b: u64) -> u64;

    /// The text that `print` shows for the float: `{}` formatting, with
    /// `.0` appended when the value has no fractional part.
    fn to_text(x: u64) -> String;
}

/// `x` is what the embedder's arithmetic `F` returns for `a op b`, the left
/// operand first: `op` is `+`, `-`, `*` or `/`. (`F` states nothing of its
/// operations; this names the call itself, so a result computed from other
/// operands, or in the other order, does not meet it.)
pub open spec fn float_op<F: FloatOps>(op: char, a: u64, b: u64, x: u64) -> bool {
    if op == '+' {
        call_ensures(F::add, (a, b), x)
    } else if op == '-' {
        call_ensures(F::sub, (a, b), x)
    } else if op == '*' {
        call_ensures(F::mul, (a, b), x)
    } else if op == '/' {
        call_ensures(F::div, (a, b), x)
    } else {
        false
    }
}

/// `f` is what the embedder's `F::from_int` returns for `n`.
pub open spec fn float_of_int<F: FloatOps>(n: i64, f: u64) -> bool {
    call_ensures(F::from_int, (n,), f)
}

/// `n` is what the embedder's `F::to_int` returns for the float `x`.
pub open spec fn float_to_int<F: FloatOps>(x: u64, n: i64) -> bool {
    call_ensures(F::to_int, (x,), n)
}

/// `o` is what the embedder's `F::parse` returns for a text whose
/// characters are `text`.
pub open spec fn float_parse<F: FloatOps>(text: Seq<char>, o: Option<u64>) -> bool {
    exists|t: &str| t@ == text && #[trigger] call_ensures(F::parse, (t,), o)
}

/// `x` is what the embedder's `F::from_literal` returns for a float
/// literal whose characters are `text`.
pub open spec fn float_literal<F: FloatOps>(text: Seq<char>, x: u64) -> bool {
    exists|t: &str| t@ == text && #[trigger] call_ensures(F::from_literal, (t,), x)
}

pub const SIGN_BIT: u64 = 0x8000_0000_0000_0000;

pub const MAGNITUDE_MASK: u64 = 0x7fff_ffff_ffff_ffff;

pub const EXPONENT_MASK: u64 = 0x7ff0_0000_0000_0000;

pub const MANTISSA_MASK: u64 = 0x000f_ffff_ffff_ffff;

/// The bit pattern of `1.0`.
pub const ONE_BITS: u64 = 0x3ff0_0000_0000_0000;

/// Whether the bits encode a NaN: all exponent bits set, mantissa non-zero.
pub open spec fn is_nan(b: u64) -> bool {
    (b & EXPONENT_MASK) == EXPONENT_MASK && (b & MANTISSA_MASK) != 0
}

/// A number ordered as the float it encodes (for non-NaN bits): the
/// magnitude, negated when the sign bit is set. Both zeros map to 0.
pub open spec fn order_key(b: u64) -> int {
    if (b & SIGN_BIT) != 0 {
        -((b & MAGNITUDE_MASK) as int)
    } else {
        (b & MAGNITUDE_MASK) as int
    }
}

/// IEEE equality: false when either is NaN; `0.0 == -0.0`.
pub open spec fn float_eq(a: u64, b: u64) -> bool {
    !is_nan(a) && !is_nan(b) && order_key(a) == order_key(b)
}

/// IEEE `<`: false when either is NaN.
pub open spec fn float_lt(a: u64, b: u64) -> bool {
    !is_nan(a) && !is_nan(b) && order_key(a) < order_key(b)
}

/// IEEE `<=`: false when either is NaN.
pub open spec fn float_le(a: u64, b: u64) -> bool {
    !is_nan(a) && !is_nan(b) && order_key(a) <= order_key(b)
}

/// Whether the float is a zero (`+0.0` or `-0.0`).
pub open spec fn float_is_zero(b: u64) -> bool {
    (b & MAGNITUDE_MASK) == 0
}

pub fn nan_bits(b: u64) -> (r: bool)
    ensures
        r == is_nan(b),
{
    (b & EXPONENT_MASK) == EXPONENT_MASK && (b & MANTISSA_MASK) != 0
}

fn key_cmp(a: u64, b: u64) -> (r: (bool, bool))
    ensures
        r.0 == (order_key(a) < order_key(b)),
        r.1 == (order_key(a) == order_key(b)),
{
    let ma = a & MAGNITUDE_MASK;
    let mb = b & MAGNITUDE_MASK;
    let na = (a & SIGN_BIT) != 0;
    let nb = (b & SIGN_BIT) != 0;
    let lt = if na && nb {
        mb < ma
    } else if na {
        !(ma == 0 && mb == 0)
    } else if nb {
        false
    } else {
        ma < mb
    };
    let eq = if na == nb {
        ma == mb
    } else {
        ma == 0 && mb == 0
    };
    (lt, eq)
}

pub fn eq_bits(a: u64, b: u64) -> (r: bool)
    ensures
        r == float_eq(a, b),
{
    !nan_bits(a) && !nan_bits(b) && key_cmp(a, b).1
}

pub fn lt_bits(a: u64, b: u64) -> (r: bool)
    ensures
        r == float_lt(a, b),
{
    !nan_bits(a) && !nan_bits(b) && key_cmp(a, b).0
}

pub fn le_bits(a: u64, b: u64) -> (r: bool)
    ensures
        r == float_le(a, b),
{
    let (lt, eq) = key_cmp(a, b);
    !nan_bits(a) && !nan_bits(b) && (lt || eq)
}

pub fn is_zero_bits(b: u64) -> (r: bool)
    ensures
        r == float_is_zero(b),
{
    (b & MAGNITUDE_MASK) == 0
}

/// Negation flips the sign bit.
pub fn neg_bits(b: u64) -> (r: u64)
    ensures
        r == b ^ SIGN_BIT,
{
    b ^ SIGN_BIT
}

/// Absolute value clears the sign bit.
pub fn abs_bits(b: u64) -> (r: u64)
    ensures
        r == b & MAGNITUDE_MASK,
{
    b & MAGNITUDE_MASK
}

} // verus!
