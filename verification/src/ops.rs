//! Operators on runtime values: arithmetic, comparison, membership and
//! indexing, as the bytecode VM applies them.
//!
//! Integer arithmetic wraps around on overflow; a division whose quotient
//! does not fit (`i64::MIN // -1`) is an error. Float arithmetic is done by
//! the embedding program's `FloatOps`.
use vstd::prelude::*;

use std::rc::Rc;

use crate::bytecode::{rc_clone, value_eq, truthy, Value};
use crate::float::{float_of_int, float_op, float_le, float_lt, is_zero_bits, le_bits, lt_bits, neg_bits, FloatOps};
use crate::text::{owned, str_to_chars, string_from_chars};

verus! {

broadcast use vstd::std_specs::vec::group_vec_axioms;

/// Lexicographic order of two texts, by code point.
pub open spec fn chars_lt(a: Seq<char>, b: Seq<char>) -> bool
    decreases a.len(),
{
    if a.len() == 0 {
        b.len() > 0
    } else if b.len() == 0 {
        false
    } else if a[0] != b[0] {
        (a[0] as u32) < (b[0] as u32)
    } else {
        chars_lt(a.drop_first(), b.drop_first())
    }
}

/// Whether `sub` occurs in `s` at some position.
pub open spec fn is_substring(sub: Seq<char>, s: Seq<char>) -> bool {
    exists|i: int| 0 <= i <= s.len() - sub.len() && #[trigger] s.subrange(i, i + sub.len()) == sub
}

/// Whether some element of the list equals `v` (`==` on values).
pub open spec fn list_contains(items: Seq<Value>, v: Value) -> bool {
    exists|i: int| 0 <= i < items.len() && #[trigger] value_eq(items[i], v)
}

/// `s` repeated `n` times.
pub open spec fn repeat_chars(s: Seq<char>, n: nat) -> Seq<char>
    decreases n,
{
    if n == 0 {
        Seq::empty()
    } else {
        repeat_chars(s, (n - 1) as nat) + s
    }
}

/// `a` to the power `e`, wrapping around on overflow.
pub open spec fn pow_wrapping(a: i64, e: nat) -> i64
    decreases e,
{
    if e == 0 {
        1
    } else {
        pow_wrapping(a, (e - 1) as nat).wrapping_mul(a)
    }
}

/// Whether the value is an integer or a float.
pub open spec fn is_number(v: Value) -> bool {
    v is Integer || v is Float
}

/// Whether the operands make a float result: two numbers, not both integers.
pub open spec fn float_operands(l: Value, r: Value) -> bool {
    is_number(l) && is_number(r) && !(l is Integer && r is Integer)
}

/// The result of `+`.
pub open spec fn add_spec(l: Value, r: Value, res: Result<Value, String>) -> bool {
    match (l, r) {
        (Value::Integer(a), Value::Integer(b)) => res == Ok::<Value, String>(
            Value::Integer(a.wrapping_add(b)),
        ),
        (Value::String(a), Value::String(b)) => res matches Ok(Value::String(s)) && s@ == a@ + b@,
        (Value::List(a), Value::List(b)) => res matches Ok(Value::List(x)) && x@ == a@ + b@,
        _ => if float_operands(l, r) {
            res matches Ok(Value::Float(_))
        } else {
            res is Err
        },
    }
}

/// The result of `-`.
pub open spec fn sub_spec(l: Value, r: Value, res: Result<Value, String>) -> bool {
    match (l, r) {
        (Value::Integer(a), Value::Integer(b)) => res == Ok::<Value, String>(
            Value::Integer(a.wrapping_sub(b)),
        ),
        _ => if float_operands(l, r) {
            res matches Ok(Value::Float(_))
        } else {
            res is Err
        },
    }
}

/// The result of `*`; a string times a non-negative count repeats it.
pub open spec fn mul_spec(l: Value, r: Value, res: Result<Value, String>) -> bool {
    match (l, r) {
        (Value::Integer(a), Value::Integer(b)) => res == Ok::<Value, String>(
            Value::Integer(a.wrapping_mul(b)),
        ),
        (Value::String(a), Value::Integer(n)) => if n >= 0 {
            res matches Ok(Value::String(s)) && s@ == repeat_chars(a@, n as nat)
        } else {
            res is Err
        },
        _ => if float_operands(l, r) {
            res matches Ok(Value::Float(_))
        } else {
            res is Err
        },
    }
}

/// The result of `/`: always a float; dividing by zero (an integer zero or
/// a float zero of either sign) is an error.
pub open spec fn div_spec(l: Value, r: Value, res: Result<Value, String>) -> bool {
    if float_operands(l, r) || (l is Integer && r is Integer) {
        if is_zero_value(r) {
            res matches Err(m) && m@ == "Division by zero"@
        } else {
            res matches Ok(Value::Float(_))
        }
    } else {
        res is Err
    }
}

/// Whether a number is zero: the integer 0, or a float zero of either sign.
pub open spec fn is_zero_value(v: Value) -> bool {
    match v {
        Value::Integer(n) => n == 0,
        Value::Float(b) => crate::float::float_is_zero(b),
        _ => false,
    }
}

/// The quotient of `a` by `b` rounded toward negative infinity (`b != 0`).
pub open spec fn floor_quotient(a: int, b: int) -> int {
    if b > 0 || a % b == 0 {
        a / b
    } else {
        a / b - 1
    }
}

/// The result of `//` on integers: the quotient rounded toward negative
/// infinity; dividing by zero, or a quotient out of the 64-bit range, is an
/// error.
pub open spec fn floor_div_spec(l: Value, r: Value, res: Result<Value, String>) -> bool {
    match (l, r) {
        (Value::Integer(a), Value::Integer(b)) => if b == 0 {
            res matches Err(m) && m@ == "Division by zero"@
        } else if i64::MIN <= floor_quotient(a as int, b as int) <= i64::MAX {
            res == Ok::<Value, String>(Value::Integer(floor_quotient(a as int, b as int) as i64))
        } else {
            res is Err
        },
        _ => res is Err,
    }
}

/// The result of `%` on integers: `((a % b) + b) % b` with `%` the remainder
/// of division toward zero.
pub open spec fn mod_spec(l: Value, r: Value, res: Result<Value, String>) -> bool {
    match (l, r) {
        (Value::Integer(a), Value::Integer(b)) => if b == 0 {
            res matches Err(m) && m@ == "Modulo by zero"@
        } else {
            match a.checked_rem(b) {
                Some(m) => match m.wrapping_add(b).checked_rem(b) {
                    Some(x) => res == Ok::<Value, String>(Value::Integer(x)),
                    None => res is Err,
                },
                None => res is Err,
            }
        },
        _ => res is Err,
    }
}

/// The result of `**` on integers; the exponent is taken as a 32-bit
/// unsigned number.
pub open spec fn pow_spec(l: Value, r: Value, res: Result<Value, String>) -> bool {
    match (l, r) {
        (Value::Integer(a), Value::Integer(b)) => res == Ok::<Value, String>(
            Value::Integer(pow_wrapping(a, (b as u32) as nat)),
        ),
        _ => res is Err,
    }
}

/// `<` on values: integers, floats and strings of the same kind; any other
/// pair is not less.
pub open spec fn less_than(l: Value, r: Value) -> bool {
    match (l, r) {
        (Value::Integer(a), Value::Integer(b)) => a < b,
        (Value::Float(a), Value::Float(b)) => float_lt(a, b),
        (Value::String(a), Value::String(b)) => chars_lt(a@, b@),
        _ => false,
    }
}

/// `<=` on values: integers and floats of the same kind only.
pub open spec fn less_equal(l: Value, r: Value) -> bool {
    match (l, r) {
        (Value::Integer(a), Value::Integer(b)) => a <= b,
        (Value::Float(a), Value::Float(b)) => float_le(a, b),
        _ => false,
    }
}

/// The result of `in`: membership in a list, or substring of a string.
pub open spec fn in_spec(l: Value, r: Value, res: Result<Value, String>) -> bool {
    match r {
        Value::List(items) => res == Ok::<Value, String>(Value::Boolean(list_contains(items@, l))),
        Value::String(s) => match l {
            Value::String(sub) => res == Ok::<Value, String>(
                Value::Boolean(is_substring(sub@, s@)),
            ),
            _ => res is Err,
        },
        _ => res is Err,
    }
}

/// The result of `not in`: non-membership in a list.
pub open spec fn not_in_spec(l: Value, r: Value, res: Result<Value, String>) -> bool {
    match r {
        Value::List(items) => res == Ok::<Value, String>(Value::Boolean(!list_contains(items@, l))),
        _ => res is Err,
    }
}

/// The result of unary `-`.
pub open spec fn neg_spec(v: Value, res: Result<Value, String>) -> bool {
    match v {
        Value::Integer(n) => res == Ok::<Value, String>(Value::Integer(0i64.wrapping_sub(n))),
        Value::Float(f) => res == Ok::<Value, String>(Value::Float(f ^ crate::float::SIGN_BIT)),
        _ => res is Err,
    }
}

/// The position that index `i` selects in a sequence of `len` items, before
/// the range check: negative indices count from `base`.
pub open spec fn index_position(i: i64, base: usize) -> usize {
    if i < 0 {
        (base as i64).wrapping_add(i) as usize
    } else {
        i as usize
    }
}

/// The result of `obj[index]`: a list element, or a one-character string.
/// A negative index on a string counts from its length in UTF-8 bytes.
pub open spec fn subscript_spec(obj: Value, index: Value, res: Result<Value, String>) -> bool {
    match (obj, index) {
        (Value::List(items), Value::Integer(i)) => {
            let k = index_position(i, items@.len() as usize);
            if k < items@.len() {
                res == Ok::<Value, String>(items@[k as int])
            } else {
                res matches Err(m) && m@ == "Index out of range"@
            }
        },
        (Value::String(s), Value::Integer(i)) => {
            let k = index_position(i, vstd::utf8::encode_utf8(s@).len() as usize);
            if k < s@.len() {
                res matches Ok(Value::String(c)) && c@ == seq![s@[k as int]]
            } else {
                res matches Err(m) && m@ == "Index out of range"@
            }
        },
        _ => res matches Err(m) && m@ == "Invalid index operation"@,
    }
}

/// The length that `len` and `.len` give: items of a list, UTF-8 bytes of a
/// string.
pub open spec fn len_spec(v: Value, res: Result<Value, String>) -> bool {
    match v {
        Value::List(items) => res == Ok::<Value, String>(
            Value::Integer((items@.len() as usize) as i64),
        ),
        Value::String(s) => res == Ok::<Value, String>(
            Value::Integer((vstd::utf8::encode_utf8(s@).len() as usize) as i64),
        ),
        _ => res is Err,
    }
}

/// The float a number operand stands for in the embedder's arithmetic: a
/// float itself, an integer converted by `F::from_int`.
pub open spec fn float_operand<F: FloatOps>(v: Value, f: u64) -> bool {
    match v {
        Value::Float(x) => f == x,
        Value::Integer(n) => float_of_int::<F>(n, f),
        _ => false,
    }
}

/// `x` is the float result of `l op r` in the embedder's arithmetic: its
/// operation applied to the left operand's float and then the right one's.
pub open spec fn float_arith<F: FloatOps>(op: char, l: Value, r: Value, x: u64) -> bool {
    exists|a: u64, b: u64|
        #[trigger] float_operand::<F>(l, a) && #[trigger] float_operand::<F>(r, b) && float_op::<F>(op, a, b, x)
}

pub fn binary_add<F: FloatOps>(left: Value, right: Value) -> (res: Result<Value, String>)
    ensures
        add_spec(left, right, res),
        float_operands(left, right) ==> (res matches Ok(Value::Float(x)) && float_arith::<F>('+', left, right, x)),
{
    let ghost l0 = left;
    let ghost r0 = right;
    match (left, right) {
        (Value::Integer(a), Value::Integer(b)) => Ok(Value::Integer(a.wrapping_add(b))),
        (Value::Float(a), Value::Float(b)) => {
            let x = F::add(a, b);
            proof {
                assert(float_operand::<F>(l0, a) && float_operand::<F>(r0, b) && float_op::<F>('+', a, b, x));
            }
            Ok(Value::Float(x))
        },
        (Value::Integer(a), Value::Float(b)) => {
            let fa = F::from_int(a);
            let x = F::add(fa, b);
            proof {
                assert(float_operand::<F>(l0, fa) && float_operand::<F>(r0, b) && float_op::<F>('+', fa, b, x));
            }
            Ok(Value::Float(x))
        },
        (Value::Float(a), Value::Integer(b)) => {
            let fb = F::from_int(b);
            let x = F::add(a, fb);
            proof {
                assert(float_operand::<F>(l0, a) && float_operand::<F>(r0, fb) && float_op::<F>('+', a, fb, x));
            }
            Ok(Value::Float(x))
        },
        (Value::String(a), Value::String(b)) => {
            // reuse the left buffer when nothing else shares it
            let ghost av = a@;
            let mut s = match Rc::try_unwrap(a) {
                Ok(s) => s,
                Err(shared) => owned(shared.as_str()),
            };
            s.append(b.as_str());
            assert(s@ == av + b@);
            Ok(Value::String(Rc::new(s)))
        },
        (Value::List(a), Value::List(b)) => {
            let ghost av = a@;
            let mut v = match Rc::try_unwrap(a) {
                Ok(v) => v,
                Err(shared) => copy_values(&shared),
            };
            let ghost start = v@;
            let mut i: usize = 0;
            while i < b.len()
                invariant
                    start == av,
                    i <= b@.len(),
                    v@ == start + b@.subrange(0, i as int),
                decreases b@.len() - i,
            {
                v.push(b[i].copy());
                proof {
                    assert(b@.subrange(0, i + 1) =~= b@.subrange(0, i as int).push(b@[i as int]));
                }
                i = i + 1;
            }
            proof {
                assert(b@.subrange(0, b@.len() as int) =~= b@);
            }
            Ok(Value::List(Rc::new(v)))
        },
        _ => Err(owned("Unsupported operand types for +")),
    }
}

/// A copy of a list of values.
pub fn copy_values(items: &Vec<Value>) -> (r: Vec<Value>)
    ensures
        r@ == items@,
{
    let mut v: Vec<Value> = Vec::new();
    let mut i: usize = 0;
    while i < items.len()
        invariant
            i <= items@.len(),
            v@ == items@.subrange(0, i as int),
        decreases items@.len() - i,
    {
        v.push(items[i].copy());
        proof {
            assert(items@.subrange(0, i + 1) =~= items@.subrange(0, i as int).push(items@[i as int]));
        }
        i = i + 1;
    }
    proof {
        assert(items@.subrange(0, items@.len() as int) =~= items@);
    }
    v
}

pub fn binary_sub<F: FloatOps>(left: &Value, right: &Value) -> (res: Result<Value, String>)
    ensures
        sub_spec(*left, *right, res),
        float_operands(*left, *right) ==> (res matches Ok(Value::Float(x)) && float_arith::<F>('-', *left, *right,
            x)),
{
    match (left, right) {
        (Value::Integer(a), Value::Integer(b)) => Ok(Value::Integer(a.wrapping_sub(*b))),
        (Value::Float(a), Value::Float(b)) => {
            let x = F::sub(*a, *b);
            proof {
                assert(float_operand::<F>(*left, *a) && float_operand::<F>(*right, *b) && float_op::<F>('-', *a, *b, x));
            }
            Ok(Value::Float(x))
        },
        (Value::Integer(a), Value::Float(b)) => {
            let fa = F::from_int(*a);
            let x = F::sub(fa, *b);
            proof {
                assert(float_operand::<F>(*left, fa) && float_operand::<F>(*right, *b) && float_op::<F>('-', fa, *b, x));
            }
            Ok(Value::Float(x))
        },
        (Value::Float(a), Value::Integer(b)) => {
            let fb = F::from_int(*b);
            let x = F::sub(*a, fb);
            proof {
                assert(float_operand::<F>(*left, *a) && float_operand::<F>(*right, fb) && float_op::<F>('-', *a, fb, x));
            }
            Ok(Value::Float(x))
        },
        _ => Err(owned("Unsupported -")),
    }
}

/// `s` repeated `n` times.
pub fn repeat_string(s: &str, n: i64) -> (r: String)
    requires
        n >= 0,
    ensures
        r@ == repeat_chars(s@, n as nat),
{
    let mut out = String::new();
    let mut k: i64 = 0;
    while k < n
        invariant
            0 <= k <= n,
            out@ == repeat_chars(s@, k as nat),
        decreases n - k,
    {
        out.append(s);
        k = k + 1;
    }
    out
}

pub fn binary_mul<F: FloatOps>(left: &Value, right: &Value) -> (res: Result<Value, String>)
    ensures
        mul_spec(*left, *right, res),
        float_operands(*left, *right) ==> (res matches Ok(Value::Float(x)) && float_arith::<F>('*', *left, *right,
            x)),
{
    match (left, right) {
        (Value::Integer(a), Value::Integer(b)) => Ok(Value::Integer(a.wrapping_mul(*b))),
        (Value::Float(a), Value::Float(b)) => {
            let x = F::mul(*a, *b);
            proof {
                assert(float_operand::<F>(*left, *a) && float_operand::<F>(*right, *b) && float_op::<F>('*', *a, *b, x));
            }
            Ok(Value::Float(x))
        },
        (Value::Integer(a), Value::Float(b)) => {
            let fa = F::from_int(*a);
            let x = F::mul(fa, *b);
            proof {
                assert(float_operand::<F>(*left, fa) && float_operand::<F>(*right, *b) && float_op::<F>('*', fa, *b, x));
            }
            Ok(Value::Float(x))
        },
        (Value::Float(a), Value::Integer(b)) => {
            let fb = F::from_int(*b);
            let x = F::mul(*a, fb);
            proof {
                assert(float_operand::<F>(*left, *a) && float_operand::<F>(*right, fb) && float_op::<F>('*', *a, fb, x));
            }
            Ok(Value::Float(x))
        },
        (Value::String(a), Value::Integer(n)) => {
            if *n < 0 {
                Err(owned("capacity overflow"))
            } else {
                Ok(Value::String(Rc::new(repeat_string(a.as_str(), *n))))
            }
        },
        _ => Err(owned("Unsupported *")),
    }
}

pub fn binary_div<F: FloatOps>(left: &Value, right: &Value) -> (res: Result<Value, String>)
    ensures
        div_spec(*left, *right, res),
        is_number(*left) && is_number(*right) && !is_zero_value(*right) ==> (res matches Ok(Value::Float(x))
            && float_arith::<F>('/', *left, *right, x)),
{
    match (left, right) {
        (Value::Integer(a), Value::Integer(b)) => {
            if *b == 0 {
                return Err(owned("Division by zero"));
            }
            let fa = F::from_int(*a);
            let fb = F::from_int(*b);
            let x = F::div(fa, fb);
            proof {
                assert(float_operand::<F>(*left, fa) && float_operand::<F>(*right, fb) && float_op::<F>('/', fa, fb, x));
            }
            Ok(Value::Float(x))
        },
        (Value::Float(a), Value::Float(b)) => {
            if is_zero_bits(*b) {
                return Err(owned("Division by zero"));
            }
            let x = F::div(*a, *b);
            proof {
                assert(float_operand::<F>(*left, *a) && float_operand::<F>(*right, *b) && float_op::<F>('/', *a, *b, x));
            }
            Ok(Value::Float(x))
        },
        (Value::Integer(a), Value::Float(b)) => {
            if is_zero_bits(*b) {
                return Err(owned("Division by zero"));
            }
            let fa = F::from_int(*a);
            let x = F::div(fa, *b);
            proof {
                assert(float_operand::<F>(*left, fa) && float_operand::<F>(*right, *b) && float_op::<F>('/', fa, *b, x));
            }
            Ok(Value::Float(x))
        },
        (Value::Float(a), Value::Integer(b)) => {
            if *b == 0 {
                return Err(owned("Division by zero"));
            }
            let fb = F::from_int(*b);
            let x = F::div(*a, fb);
            proof {
                assert(float_operand::<F>(*left, *a) && float_operand::<F>(*right, fb) && float_op::<F>('/', *a, fb, x));
            }
            Ok(Value::Float(x))
        },
        _ => Err(owned("Unsupported /")),
    }
}

/// The Euclidean quotient of two 64-bit integers leaves the 64-bit range
/// only for `i64::MIN` divided by `-1`.
pub proof fn lemma_quotient_range(a: i64, b: i64)
    requires
        b != 0,
    ensures
        !(i64::MIN <= (a as int) / (b as int) <= i64::MAX) ==> a == i64::MIN && b == -1,
{
    let x = a as int;
    let d = b as int;
    let q = x / d;
    let r = x % d;
    assert(x == d * q + r && 0 <= r < (if d > 0 { d } else { -d })) by (nonlinear_arith)
        requires
            d != 0,
            q == x / d,
            r == x % d,
    ;
    if !(i64::MIN <= q <= i64::MAX) {
        assert(x == i64::MIN && d == -1) by (nonlinear_arith)
            requires
                x == d * q + r,
                0 <= r < (if d > 0 { d } else { -d }),
                d != 0,
                i64::MIN <= x <= i64::MAX,
                i64::MIN <= d <= i64::MAX,
                !(i64::MIN <= q <= i64::MAX),
        ;
    }
}

pub fn binary_floor_div(left: &Value, right: &Value) -> (res: Result<Value, String>)
    ensures
        floor_div_spec(*left, *right, res),
{
    match (left, right) {
        (Value::Integer(a), Value::Integer(b)) => {
            if *b == 0 {
                return Err(owned("Division by zero"));
            }
            match a.checked_div_euclid(*b) {
                Some(q) => {
                    let a = *a;
                    let b = *b;
                    let exact = match a.checked_rem_euclid(b) {
                        Some(r) => r == 0,
                        None => true,
                    };
                    if b < 0 && !exact {
                        proof {
                            let r = (a as int) % (b as int);
                            assert((a as int) == (b as int) * ((a as int) / (b as int)) + r) by (nonlinear_arith)
                                requires
                                    b != 0,
                                    r == (a as int) % (b as int),
                            ;
                            assert(q > i64::MIN) by (nonlinear_arith)
                                requires
                                    b < 0,
                                    0 < r < -(b as int),
                                    (a as int) == (b as int) * (q as int) + r,
                                    a <= i64::MAX,
                            ;
                        }
                        Ok(Value::Integer(q - 1))
                    } else {
                        Ok(Value::Integer(q))
                    }
                },
                None => {
                    proof {
                        lemma_quotient_range(*a, *b);
                    }
                    Err(owned("attempt to divide with overflow"))
                },
            }
        },
        _ => Err(owned("Unsupported //")),
    }
}

pub fn binary_mod(left: &Value, right: &Value) -> (res: Result<Value, String>)
    ensures
        mod_spec(*left, *right, res),
{
    match (left, right) {
        (Value::Integer(a), Value::Integer(b)) => {
            if *b == 0 {
                return Err(owned("Modulo by zero"));
            }
            match a.checked_rem(*b) {
                Some(m) => match m.wrapping_add(*b).checked_rem(*b) {
                    Some(x) => Ok(Value::Integer(x)),
                    None => Err(owned("attempt to calculate the remainder with overflow")),
                },
                None => Err(owned("attempt to calculate the remainder with overflow")),
            }
        },
        _ => Err(owned("Unsupported %")),
    }
}

/// `a` to the power `e`, wrapping around on overflow.
pub fn pow_i64(a: i64, e: u32) -> (r: i64)
    ensures
        r == pow_wrapping(a, e as nat),
{
    let mut acc: i64 = 1;
    let mut k: u32 = 0;
    while k < e
        invariant
            k <= e,
            acc == pow_wrapping(a, k as nat),
        decreases e - k,
    {
        acc = acc.wrapping_mul(a);
        k = k + 1;
    }
    acc
}

pub fn binary_pow(left: &Value, right: &Value) -> (res: Result<Value, String>)
    ensures
        pow_spec(*left, *right, res),
{
    match (left, right) {
        (Value::Integer(a), Value::Integer(b)) => Ok(Value::Integer(pow_i64(*a, *b as u32))),
        _ => Err(owned("Unsupported **")),
    }
}

/// Lexicographic `<` on texts.
pub fn text_less(a: &str, b: &str) -> (r: bool)
    ensures
        r == chars_lt(a@, b@),
{
    let x = str_to_chars(a);
    let y = str_to_chars(b);
    let mut i: usize = 0;
    proof {
        assert(a@.skip(0) =~= a@);
        assert(b@.skip(0) =~= b@);
    }
    while i < x.len() && i < y.len() && x[i] == y[i]
        invariant
            i <= x@.len(),
            i <= y@.len(),
            x@ == a@,
            y@ == b@,
            chars_lt(a@, b@) == chars_lt(a@.skip(i as int), b@.skip(i as int)),
        decreases x@.len() - i,
    {
        proof {
            let xs = a@.skip(i as int);
            let ys = b@.skip(i as int);
            assert(xs[0] == ys[0]);
            assert(xs.drop_first() =~= a@.skip(i + 1));
            assert(ys.drop_first() =~= b@.skip(i + 1));
        }
        i = i + 1;
    }
    proof {
        let xs = a@.skip(i as int);
        let ys = b@.skip(i as int);
        if i < x@.len() && i < y@.len() {
            assert(xs[0] == x@[i as int]);
            assert(ys[0] == y@[i as int]);
        }
    }
    if i == x.len() {
        i < y.len()
    } else if i == y.len() {
        false
    } else {
        (x[i] as u32) < (y[i] as u32)
    }
}

pub fn values_less(left: &Value, right: &Value) -> (r: bool)
    ensures
        r == less_than(*left, *right),
{
    match (left, right) {
        (Value::Integer(a), Value::Integer(b)) => *a < *b,
        (Value::Float(a), Value::Float(b)) => lt_bits(*a, *b),
        (Value::String(a), Value::String(b)) => text_less(a.as_str(), b.as_str()),
        _ => false,
    }
}

pub fn values_less_equal(left: &Value, right: &Value) -> (r: bool)
    ensures
        r == less_equal(*left, *right),
{
    match (left, right) {
        (Value::Integer(a), Value::Integer(b)) => *a <= *b,
        (Value::Float(a), Value::Float(b)) => le_bits(*a, *b),
        _ => false,
    }
}

/// Whether some element equals `v`.
pub fn contains_value(items: &Vec<Value>, v: &Value) -> (r: bool)
    ensures
        r == list_contains(items@, *v),
{
    let mut i: usize = 0;
    while i < items.len()
        invariant
            i <= items@.len(),
            forall|j: int| 0 <= j < i ==> !value_eq(#[trigger] items@[j], *v),
        decreases items@.len() - i,
    {
        if items[i].equals(v) {
            return true;
        }
        i = i + 1;
    }
    false
}

/// Whether `sub` occurs in `s`.
pub fn contains_text(s: &str, sub: &str) -> (r: bool)
    ensures
        r == is_substring(sub@, s@),
{
    let x = str_to_chars(s);
    let y = str_to_chars(sub);
    if y.len() > x.len() {
        proof {
            assert forall|i: int| 0 <= i <= s@.len() - sub@.len() implies #[trigger] s@.subrange(
                i,
                i + sub@.len(),
            ) != sub@ by {}
        }
        return false;
    }
    let mut i: usize = 0;
    while i <= x.len() - y.len()
        invariant
            x@ == s@,
            y@ == sub@,
            y@.len() <= x@.len(),
            x@.len() <= usize::MAX,
            i <= x@.len() - y@.len() + 1,
            forall|p: int| 0 <= p < i ==> #[trigger] s@.subrange(p, p + sub@.len()) != sub@,
        decreases x@.len() - y@.len() + 1 - i,
    {
        let mut j: usize = 0;
        let mut same = true;
        while same && j < y.len()
            invariant
                x@ == s@,
                y@ == sub@,
                i + y@.len() <= x@.len(),
                x@.len() <= usize::MAX,
                j <= y@.len(),
                forall|q: int| 0 <= q < j ==> x@[i + q] == y@[q],
                !same ==> j < y@.len() && x@[i + j] != y@[j as int],
            decreases y@.len() - j, (if same { 1int } else { 0int }),
        {
            if x[i + j] == y[j] {
                j = j + 1;
            } else {
                same = false;
            }
        }
        if j == y.len() {
            proof {
                assert(s@.subrange(i as int, i + sub@.len()) =~= sub@);
            }
            return true;
        }
        proof {
            assert(s@.subrange(i as int, i + sub@.len())[j as int] != sub@[j as int]);
        }
        i = i + 1;
    }
    false
}

pub fn compare_in(left: &Value, right: &Value) -> (res: Result<Value, String>)
    ensures
        in_spec(*left, *right, res),
{
    match right {
        Value::List(items) => Ok(Value::Boolean(contains_value(items, left))),
        Value::String(s) => match left {
            Value::String(sub) => Ok(Value::Boolean(contains_text(s.as_str(), sub.as_str()))),
            _ => Err(owned("Invalid 'in' operand")),
        },
        _ => Err(owned("Invalid 'in' operand")),
    }
}

pub fn compare_not_in(left: &Value, right: &Value) -> (res: Result<Value, String>)
    ensures
        not_in_spec(*left, *right, res),
{
    match right {
        Value::List(items) => Ok(Value::Boolean(!contains_value(items, left))),
        _ => Err(owned("Invalid 'not in' operand")),
    }
}

pub fn unary_neg(v: &Value) -> (res: Result<Value, String>)
    ensures
        neg_spec(*v, res),
{
    match v {
        Value::Integer(n) => Ok(Value::Integer(0i64.wrapping_sub(*n))),
        Value::Float(f) => Ok(Value::Float(neg_bits(*f))),
        _ => Err(owned("Cannot negate")),
    }
}

pub fn subscript(obj: &Value, index: &Value) -> (res: Result<Value, String>)
    ensures
        subscript_spec(*obj, *index, res),
{
    match (obj, index) {
        (Value::List(items), Value::Integer(i)) => {
            let k: usize = if *i < 0 {
                (items.len() as i64).wrapping_add(*i) as usize
            } else {
                *i as usize
            };
            if k < items.len() {
                Ok(items[k].copy())
            } else {
                Err(owned("Index out of range"))
            }
        },
        (Value::String(s), Value::Integer(i)) => {
            let k: usize = if *i < 0 {
                (s.as_str().len() as i64).wrapping_add(*i) as usize
            } else {
                *i as usize
            };
            let chars = str_to_chars(s.as_str());
            if k < chars.len() {
                let one = string_from_chars(&[chars[k]]);
                proof {
                    assert(one@ =~= seq![s@[k as int]]);
                }
                Ok(Value::String(Rc::new(one)))
            } else {
                Err(owned("Index out of range"))
            }
        },
        _ => Err(owned("Invalid index operation")),
    }
}

pub fn length_of(v: &Value) -> (res: Result<Value, String>)
    ensures
        len_spec(*v, res),
{
    match v {
        Value::List(items) => Ok(Value::Integer(items.len() as i64)),
        Value::String(s) => Ok(Value::Integer(s.as_str().len() as i64)),
        _ => Err(owned("Object has no len")),
    }
}

} // verus!
