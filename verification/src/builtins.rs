//! The builtin functions of the Python subset for the bytecode VM's values:
//! str, int, float, bool, len, range, repr, abs, min, max, sum.
use vstd::prelude::*;

use std::rc::Rc;

use crate::bytecode::{display_text, float_free, truthy, Builtin, Value};
use crate::float::{abs_bits, float_lt, float_of_int, float_parse, float_to_int, lt_bits, FloatOps, ONE_BITS};
use crate::lexer::digits_value;
use crate::ops::{chars_lt, text_less};
use crate::symbol::{distinct_names, Interner, Symbol};
use crate::text::{owned, str_to_chars, string_from_range};
use crate::vm::VM;

verus! {

broadcast use vstd::std_specs::vec::group_vec_axioms;

/// Whether `c` has Unicode's White_Space property, as `char::is_whitespace`
/// decides it: tab, line feed, vertical tab, form feed, carriage return,
/// space, next line, no-break space, ogham space mark, the spaces from en
/// quad to hair space, line and paragraph separator, narrow no-break space,
/// medium mathematical space and ideographic space.
pub open spec fn char_whitespace(c: char) -> bool {
    let u = c as u32;
    ||| 0x09 <= u <= 0x0D
    ||| u == 0x20
    ||| u == 0x85
    ||| u == 0xA0
    ||| u == 0x1680
    ||| 0x2000 <= u <= 0x200A
    ||| u == 0x2028
    ||| u == 0x2029
    ||| u == 0x202F
    ||| u == 0x205F
    ||| u == 0x3000
}

/// Whether `c` is whitespace (`char_whitespace`).
fn is_whitespace(c: char) -> (r: bool)
    ensures
        r == char_whitespace(c),
{
    let u = c as u32;
    (0x09 <= u && u <= 0x0D) || u == 0x20 || u == 0x85 || u == 0xA0 || u == 0x1680 || (0x2000 <= u && u
        <= 0x200A) || u == 0x2028 || u == 0x2029 || u == 0x202F || u == 0x205F || u == 0x3000
}

/// The text without its leading whitespace.
pub open spec fn trim_start(s: Seq<char>) -> Seq<char>
    decreases s.len(),
{
    if s.len() > 0 && char_whitespace(s[0]) {
        trim_start(s.drop_first())
    } else {
        s
    }
}

/// The text without its trailing whitespace.
pub open spec fn trim_end(s: Seq<char>) -> Seq<char>
    decreases s.len(),
{
    if s.len() > 0 && char_whitespace(s.last()) {
        trim_end(s.drop_last())
    } else {
        s
    }
}

/// The text without leading and trailing whitespace (`str::trim`).
pub open spec fn trimmed(s: Seq<char>) -> Seq<char> {
    trim_end(trim_start(s))
}

/// Whether every character is an ASCII digit.
pub open spec fn all_digits(s: Seq<char>) -> bool {
    forall|i: int| 0 <= i < s.len() ==> 48 <= (#[trigger] s[i] as u32) <= 57
}

/// The integer a text denotes as `i64::from_str` reads it: an optional `+`
/// or `-`, then one or more ASCII digits, within the range of `i64`.
pub open spec fn parse_int(s: Seq<char>) -> Option<i64> {
    let neg = s.len() > 0 && s[0] == '-';
    let digits = if s.len() > 0 && (s[0] == '-' || s[0] == '+') {
        s.drop_first()
    } else {
        s
    };
    let v: int = if neg {
        -(digits_value(digits) as int)
    } else {
        digits_value(digits) as int
    };
    if digits.len() == 0 || !all_digits(digits) || v < i64::MIN || v > i64::MAX {
        None
    } else {
        Some(v as i64)
    }
}

proof fn lemma_trim_start_skip(s: Seq<char>, i: int)
    requires
        0 <= i <= s.len(),
        forall|j: int| 0 <= j < i ==> char_whitespace(#[trigger] s[j]),
    ensures
        trim_start(s) == trim_start(s.subrange(i, s.len() as int)),
    decreases i,
{
    if i > 0 {
        lemma_trim_start_skip(s.drop_first(), i - 1);
        assert(s.drop_first().subrange(i - 1, s.len() - 1) =~= s.subrange(i, s.len() as int));
    } else {
        assert(s.subrange(0, s.len() as int) =~= s);
    }
}

proof fn lemma_trim_end_cut(s: Seq<char>, j: int)
    requires
        0 <= j <= s.len(),
        forall|k: int| j <= k < s.len() ==> char_whitespace(#[trigger] s[k]),
    ensures
        trim_end(s) == trim_end(s.subrange(0, j)),
    decreases s.len() - j,
{
    if j < s.len() {
        lemma_trim_end_cut(s.drop_last(), j);
        assert(s.drop_last().subrange(0, j) =~= s.subrange(0, j));
    } else {
        assert(s.subrange(0, j) =~= s);
    }
}

/// `s` without leading and trailing whitespace.
pub fn trim_text(s: &str) -> (r: String)
    ensures
        r@ == trimmed(s@),
{
    let chars = str_to_chars(s);
    let mut i: usize = 0;
    while i < chars.len() && is_whitespace(chars[i])
        invariant
            chars@ == s@,
            i <= chars@.len(),
            forall|j: int| 0 <= j < i ==> char_whitespace(#[trigger] chars@[j]),
        decreases chars@.len() - i,
    {
        i = i + 1;
    }
    proof {
        lemma_trim_start_skip(s@, i as int);
    }
    let ghost rest = s@.subrange(i as int, s@.len() as int);
    proof {
        if i < chars@.len() {
            assert(rest[0] == chars@[i as int]);
        }
    }
    let mut j: usize = chars.len();
    while j > i && is_whitespace(chars[j - 1])
        invariant
            chars@ == s@,
            i <= j <= chars@.len(),
            rest == s@.subrange(i as int, s@.len() as int),
            forall|k: int| j <= k < chars@.len() ==> char_whitespace(#[trigger] chars@[k]),
        decreases j,
    {
        j = j - 1;
    }
    proof {
        assert forall|k: int| j - i <= k < rest.len() implies char_whitespace(#[trigger] rest[k]) by {
            assert(rest[k] == chars@[i + k]);
        }
        lemma_trim_end_cut(rest, j - i);
        let cut = rest.subrange(0, j - i);
        assert(cut =~= s@.subrange(i as int, j as int));
        if j > i {
            assert(cut.last() == chars@[j - 1]);
        }
    }
    string_from_range(&chars, i, j)
}

/// `i64::from_str` on a text.
pub fn parse_i64(s: &str) -> (r: Option<i64>)
    ensures
        r == parse_int(s@),
{
    let chars = str_to_chars(s);
    let n = chars.len();
    let neg = n > 0 && chars[0] == '-';
    let start: usize = if n > 0 && (chars[0] == '-' || chars[0] == '+') {
        1
    } else {
        0
    };
    let ghost digits = s@.subrange(start as int, n as int);
    proof {
        if start == 1 {
            assert(digits =~= s@.drop_first());
        } else {
            assert(digits =~= s@);
        }
    }
    if start == n {
        return None;
    }
    // magnitude so far, while it is at most 2^63
    let limit: u64 = 0x8000_0000_0000_0000;
    let mut acc: u64 = 0;
    let mut big = false;
    let mut k: usize = start;
    while k < n
        invariant
            chars@ == s@,
            n == chars@.len(),
            limit == 0x8000_0000_0000_0000u64,
            digits == (if s@.len() > 0 && (s@[0] == '-' || s@[0] == '+') {
                s@.drop_first()
            } else {
                s@
            }),
            neg == (s@.len() > 0 && s@[0] == '-'),
            start <= k <= n,
            digits == s@.subrange(start as int, n as int),
            all_digits(s@.subrange(start as int, k as int)),
            !big ==> acc as nat == digits_value(s@.subrange(start as int, k as int)) && acc <= limit,
            big ==> digits_value(s@.subrange(start as int, k as int)) > limit,
        decreases n - k,
    {
        let c = chars[k];
        let cu = c as u32;
        let ghost prev = s@.subrange(start as int, k as int);
        let ghost next = s@.subrange(start as int, k + 1);
        proof {
            assert(next.drop_last() =~= prev);
            assert(next.last() == c);
        }
        if cu < 48 || cu > 57 {
            proof {
                assert(digits[k - start] == c);
                assert(!all_digits(digits));
            }
            return None;
        }
        let d = (cu - 48) as u64;
        proof {
            assert(digits_value(next) == digits_value(prev) * 10 + d);
        }
        if !big {
            if acc > (limit - d) / 10 {
                big = true;
                proof {
                    assert(digits_value(next) == digits_value(prev) * 10 + d);
                    assert(acc * 10 + d > limit) by (nonlinear_arith)
                        requires acc > (limit - d) / 10, d <= 9;
                }
            } else {
                proof {
                    assert(acc * 10 + d <= limit) by (nonlinear_arith)
                        requires acc <= (limit - d) / 10, d <= 9;
                }
                acc = acc * 10 + d;
            }
        } else {
            proof {
                assert(digits_value(next) >= digits_value(prev) * 10) by (nonlinear_arith)
                    requires digits_value(next) == digits_value(prev) * 10 + d;
                assert(digits_value(prev) * 10 >= digits_value(prev)) by (nonlinear_arith);
            }
        }
        proof {
            assert forall|i: int| 0 <= i < next.len() implies 48 <= (#[trigger] next[i] as u32) <= 57 by {
                if i < prev.len() {
                    assert(next[i] == prev[i]);
                }
            }
        }
        k = k + 1;
    }
    if big {
        return None;
    }
    if neg {
        if acc == limit {
            Some(i64::MIN)
        } else {
            Some(-(acc as i64))
        }
    } else {
        if acc == limit {
            None
        } else {
            Some(acc as i64)
        }
    }
}

/// `str(v)`: the value's `print` text (a float's text comes from
/// `FloatOps::to_text`).
pub open spec fn str_call(args: Seq<Value>, r: Result<Value, String>) -> bool {
    &&& args.len() != 1 ==> r is Err
    &&& args.len() == 1 ==> (r matches Ok(Value::String(s)) && (float_free(args[0]) ==> s@ == display_text(args[0])))
}

pub fn vm_str<F: FloatOps>(args: &[Value]) -> (r: Result<Value, String>)
    ensures
        str_call(args@, r),
{
    if args.len() != 1 {
        return Err(arg_count_error("str", args.len()));
    }
    Ok(Value::String(Rc::new(args[0].to_text::<F>())))
}

/// The message for a wrong number of arguments.
fn arg_count_error(name: &str, got: usize) -> (r: String) {
    let mut msg = owned(name);
    msg.append("() takes 1 argument, got ");
    let n = crate::text::u64_text(got as u64);
    msg.append(n.as_str());
    msg
}

/// `int(v)`: integers as they are, floats truncated, booleans as 1 or 0,
/// strings parsed after trimming whitespace.
pub open spec fn int_spec(v: Value, r: Result<Value, String>) -> bool {
    match v {
        Value::Integer(n) => r == Ok::<Value, String>(Value::Integer(n)),
        Value::Float(_) => r matches Ok(Value::Integer(_)),
        Value::Boolean(b) => r == Ok::<Value, String>(Value::Integer(if b { 1 } else { 0 })),
        Value::String(s) => match parse_int(trimmed(s@)) {
            Some(n) => r == Ok::<Value, String>(Value::Integer(n)),
            None => r is Err,
        },
        _ => r is Err,
    }
}

pub open spec fn int_call(args: Seq<Value>, r: Result<Value, String>) -> bool {
    &&& args.len() != 1 ==> r is Err
    &&& args.len() == 1 ==> int_spec(args[0], r)
}

pub fn vm_int<F: FloatOps>(args: &[Value]) -> (r: Result<Value, String>)
    ensures
        int_call(args@, r),
        args@.len() == 1 ==> (args@[0] matches Value::Float(x) ==> (r matches Ok(Value::Integer(n))
            && float_to_int::<F>(x, n))),
{
    if args.len() != 1 {
        return Err(arg_count_error("int", args.len()));
    }
    match &args[0] {
        Value::Integer(n) => Ok(Value::Integer(*n)),
        Value::Float(f) => Ok(Value::Integer(F::to_int(*f))),
        Value::Boolean(b) => Ok(Value::Integer(if *b { 1 } else { 0 })),
        Value::String(s) => {
            let t = trim_text(s.as_str());
            match parse_i64(t.as_str()) {
                Some(n) => Ok(Value::Integer(n)),
                None => {
                    let mut msg = owned("int() invalid literal: ");
                    msg.append(s.as_str());
                    Err(msg)
                },
            }
        },
        _ => Err(owned("int() cannot convert the value")),
    }
}

/// `float(v)`: floats as they are, integers and booleans converted, strings
/// parsed after trimming whitespace (by `FloatOps::parse`).
pub open spec fn float_spec(v: Value, r: Result<Value, String>) -> bool {
    match v {
        Value::Float(f) => r == Ok::<Value, String>(Value::Float(f)),
        Value::Integer(_) => r matches Ok(Value::Float(_)),
        Value::Boolean(b) => r == Ok::<Value, String>(Value::Float(if b { ONE_BITS } else { 0 })),
        Value::String(_) => r is Err || r matches Ok(Value::Float(_)),
        _ => r is Err,
    }
}

pub open spec fn float_call(args: Seq<Value>, r: Result<Value, String>) -> bool {
    &&& args.len() != 1 ==> r is Err
    &&& args.len() == 1 ==> float_spec(args[0], r)
}

pub fn vm_float<F: FloatOps>(args: &[Value]) -> (r: Result<Value, String>)
    ensures
        float_call(args@, r),
        args@.len() == 1 ==> (args@[0] matches Value::Integer(n) ==> (r matches Ok(Value::Float(x))
            && float_of_int::<F>(n, x))),
        args@.len() == 1 ==> (args@[0] matches Value::String(s) ==> (match r {
            Ok(Value::Float(x)) => float_parse::<F>(trimmed(s@), Some(x)),
            _ => float_parse::<F>(trimmed(s@), None),
        })),
{
    if args.len() != 1 {
        return Err(arg_count_error("float", args.len()));
    }
    match &args[0] {
        Value::Float(f) => Ok(Value::Float(*f)),
        Value::Integer(n) => Ok(Value::Float(F::from_int(*n))),
        Value::Boolean(b) => Ok(Value::Float(if *b { ONE_BITS } else { 0 })),
        Value::String(s) => {
            let t = trim_text(s.as_str());
            let ts: &str = t.as_str();
            let parsed = F::parse(ts);
            proof {
                assert(call_ensures(F::parse, (ts,), parsed));
            }
            match parsed {
                Some(bits) => Ok(Value::Float(bits)),
                None => {
                    let mut msg = owned("float() invalid literal: ");
                    msg.append(s.as_str());
                    Err(msg)
                },
            }
        },
        _ => Err(owned("float() cannot convert the value")),
    }
}

/// `bool()` is false, `bool(v)` is the value's truthiness.
pub open spec fn bool_call(args: Seq<Value>, r: Result<Value, String>) -> bool {
    &&& args.len() == 0 ==> r == Ok::<Value, String>(Value::Boolean(false))
    &&& args.len() == 1 ==> r == Ok::<Value, String>(Value::Boolean(truthy(args[0])))
    &&& args.len() > 1 ==> r is Err
}

pub fn vm_bool(args: &[Value]) -> (r: Result<Value, String>)
    ensures
        bool_call(args@, r),
{
    if args.len() == 0 {
        return Ok(Value::Boolean(false));
    }
    if args.len() != 1 {
        return Err(owned("bool() takes at most 1 argument"));
    }
    Ok(Value::Boolean(args[0].is_truthy()))
}

/// `len(v)`: characters of a string, items of a list or a dict.
pub open spec fn builtin_len_spec(v: Value, r: Result<Value, String>) -> bool {
    match v {
        Value::String(s) => r == Ok::<Value, String>(Value::Integer((s@.len() as usize) as i64)),
        Value::List(items) => r == Ok::<Value, String>(Value::Integer((items@.len() as usize) as i64)),
        Value::Dict(pairs) => r == Ok::<Value, String>(Value::Integer((pairs@.len() as usize) as i64)),
        _ => r is Err,
    }
}

pub open spec fn len_call(args: Seq<Value>, r: Result<Value, String>) -> bool {
    &&& args.len() != 1 ==> r is Err
    &&& args.len() == 1 ==> builtin_len_spec(args[0], r)
}

pub fn vm_len(args: &[Value]) -> (r: Result<Value, String>)
    ensures
        len_call(args@, r),
{
    if args.len() != 1 {
        return Err(arg_count_error("len", args.len()));
    }
    match &args[0] {
        Value::String(s) => {
            let chars = str_to_chars(s.as_str());
            Ok(Value::Integer(chars.len() as i64))
        },
        Value::List(items) => Ok(Value::Integer(items.len() as i64)),
        Value::Dict(pairs) => Ok(Value::Integer(pairs.len() as i64)),
        _ => Err(owned("len() not supported for this value")),
    }
}

/// The numbers `start, start + step, ...` strictly before `stop` (for a
/// positive step) or strictly after it (for a negative one).
pub open spec fn range_items(start: int, stop: int, step: int) -> Seq<int>
    decreases range_measure(start, stop, step),
        when step != 0
{
    if (step > 0 && start < stop) || (step < 0 && start > stop) {
        seq![start] + range_items(start + step, stop, step)
    } else {
        Seq::empty()
    }
}

/// The integer of an argument, for `fname`.
pub fn as_int(v: &Value, fname: &str) -> (r: Result<i64, String>)
    ensures
        match *v {
            Value::Integer(n) => r == Ok::<i64, String>(n),
            _ => r is Err,
        },
{
    match v {
        Value::Integer(n) => Ok(*n),
        _ => {
            let mut msg = owned(fname);
            msg.append("() argument must be int");
            Err(msg)
        },
    }
}

/// The integers of `range(args)`, when the arguments are one to three
/// integers and the step is not zero.
pub open spec fn range_spec(args: Seq<Value>, r: Result<Value, String>) -> bool {
    let ints = forall|i: int| 0 <= i < args.len() ==> #[trigger] args[i] is Integer;
    if 1 <= args.len() <= 3 && ints && !(args.len() == 3 && args[2]->Integer_0 == 0) {
        let start: int = if args.len() == 1 { 0 } else { args[0]->Integer_0 as int };
        let stop: int = if args.len() == 1 { args[0]->Integer_0 as int } else { args[1]->Integer_0 as int };
        let step: int = if args.len() == 3 { args[2]->Integer_0 as int } else { 1 };
        &&& r matches Ok(Value::List(items))
        &&& items@.len() == range_items(start, stop, step).len()
        &&& forall|i: int| 0 <= i < items@.len() ==> #[trigger] items@[i] == Value::Integer(range_items(start, stop, step)[i] as i64)
    } else {
        r is Err
    }
}

pub proof fn lemma_range_step(start: int, stop: int, step: int)
    requires
        step != 0,
        (step > 0 && start < stop) || (step < 0 && start > stop),
    ensures
        range_items(start, stop, step) == seq![start] + range_items(start + step, stop, step),
{
}

/// How far `start` is from passing `stop` in the direction of `step`.
pub open spec fn range_measure(start: int, stop: int, step: int) -> int {
    if step > 0 && start < stop {
        stop - start
    } else if step < 0 && start > stop {
        start - stop
    } else {
        0
    }
}

pub fn vm_range(args: &[Value]) -> (r: Result<Value, String>)
    ensures
        range_spec(args@, r),
{
    let n = args.len();
    if n < 1 || n > 3 {
        return Err(owned("range() takes 1-3 arguments"));
    }
    let first = as_int(&args[0], "range")?;
    let (start, stop, step) = if n == 1 {
        (0i64, first, 1i64)
    } else {
        let second = as_int(&args[1], "range")?;
        if n == 2 {
            (first, second, 1i64)
        } else {
            let s = as_int(&args[2], "range")?;
            if s == 0 {
                return Err(owned("range() step cannot be zero"));
            }
            (first, second, s)
        }
    };
    proof {
        assert forall|i: int| 0 <= i < args@.len() implies #[trigger] args@[i] is Integer by {
            if i == 0 {} else if i == 1 {} else {}
        }
    }
    let ghost full = range_items(start as int, stop as int, step as int);
    proof {
        assert(full.subrange(0, full.len() as int) =~= full);
    }
    let mut items: Vec<Value> = Vec::new();
    let mut i: i64 = start;
    let mut done = false;
    let ghost mut k: int = 0;
    while !done
        invariant
            step != 0,
            0 <= k <= full.len(),
            items@.len() == k,
            forall|j: int| 0 <= j < k ==> #[trigger] items@[j] == Value::Integer(full[j] as i64),
            !done ==> range_items(i as int, stop as int, step as int) == full.subrange(k, full.len() as int),
            done ==> k == full.len(),
        decreases full.len() - k, (if done { 0int } else { 1int }),
    {
        let ghost rest = range_items(i as int, stop as int, step as int);
        if (step > 0 && i < stop) || (step < 0 && i > stop) {
            proof {
                lemma_range_step(i as int, stop as int, step as int);
                assert(rest.len() >= 1);
                assert(rest == full.subrange(k, full.len() as int));
                assert(full[k] == rest[0]);
            }
            items.push(Value::Integer(i));
            proof {
                assert(rest.drop_first() =~= full.subrange(k + 1, full.len() as int));
                k = k + 1;
            }
            match i.checked_add(step) {
                Some(x) => {
                    i = x;
                },
                None => {
                    // the next number lies beyond i64, so past `stop`
                    done = true;
                    proof {
                        let tail = range_items(i + step, stop as int, step as int);
                        assert(tail.len() == 0);
                        assert(full.subrange(k, full.len() as int).len() == 0);
                    }
                },
            }
        } else {
            done = true;
            proof {
                assert(rest.len() == 0);
            }
        }
    }
    Ok(Value::List(Rc::new(items)))
}

/// `repr(v)`: a string in single quotes, any other value as `print` shows it.
pub open spec fn repr_call(args: Seq<Value>, r: Result<Value, String>) -> bool {
    &&& args.len() != 1 ==> r is Err
    &&& args.len() == 1 ==> (r matches Ok(Value::String(s)) && match args[0] {
        Value::String(x) => s@ == "'"@ + x@ + "'"@,
        v => float_free(v) ==> s@ == display_text(v),
    })
}

pub fn vm_repr<F: FloatOps>(args: &[Value]) -> (r: Result<Value, String>)
    ensures
        repr_call(args@, r),
{
    if args.len() != 1 {
        return Err(arg_count_error("repr", args.len()));
    }
    let text = match &args[0] {
        Value::String(s) => {
            let mut t = owned("'");
            t.append(s.as_str());
            t.append("'");
            t
        },
        other => other.to_text::<F>(),
    };
    Ok(Value::String(Rc::new(text)))
}

/// `abs(v)`: integers wrapping at `i64::MIN`, floats with the sign cleared.
pub open spec fn abs_call(args: Seq<Value>, r: Result<Value, String>) -> bool {
    &&& args.len() != 1 ==> r is Err
    &&& args.len() == 1 ==> match args[0] {
        Value::Integer(n) => r == Ok::<Value, String>(Value::Integer(
            if n < 0 { 0i64.wrapping_sub(n) } else { n },
        )),
        Value::Float(f) => r == Ok::<Value, String>(Value::Float(f & crate::float::MAGNITUDE_MASK)),
        _ => r is Err,
    }
}

pub fn vm_abs(args: &[Value]) -> (r: Result<Value, String>)
    ensures
        abs_call(args@, r),
{
    if args.len() != 1 {
        return Err(arg_count_error("abs", args.len()));
    }
    match &args[0] {
        Value::Integer(n) => Ok(Value::Integer(if *n < 0 { 0i64.wrapping_sub(*n) } else { *n })),
        Value::Float(f) => Ok(Value::Float(abs_bits(*f))),
        _ => Err(owned("abs() not supported for this value")),
    }
}

/// The items `min` and `max` range over: the items of a single list
/// argument, else the arguments themselves; none is an error.
pub fn collect_numeric(args: &[Value], fname: &str) -> (r: Result<Vec<Value>, String>)
    ensures
        match r {
            Ok(items) => if args@.len() == 1 && args@[0] is List {
                items@ == (*args@[0]->List_0)@
            } else {
                items@ == args@ && args@.len() > 0
            },
            Err(_) => args@.len() == 0,
        },
{
    if args.len() == 1 {
        match &args[0] {
            Value::List(items) => {
                return Ok(crate::ops::copy_values(items));
            },
            _ => {},
        }
    }
    if args.len() == 0 {
        let mut msg = owned(fname);
        msg.append("() expected at least 1 argument");
        return Err(msg);
    }
    let mut v: Vec<Value> = Vec::new();
    let mut i: usize = 0;
    while i < args.len()
        invariant
            i <= args@.len(),
            v@ == args@.subrange(0, i as int),
        decreases args@.len() - i,
    {
        v.push(args[i].copy());
        proof {
            assert(args@.subrange(0, i + 1) =~= args@.subrange(0, i as int).push(args@[i as int]));
        }
        i = i + 1;
    }
    proof {
        assert(args@.subrange(0, args@.len() as int) =~= args@);
    }
    Ok(v)
}

/// The order `min` and `max` use, where it does not depend on float
/// conversion: integers, floats and strings among themselves; other pairs
/// are not less. An integer compared with a float is converted by
/// `FloatOps::from_int` first.
pub open spec fn order_lt(a: Value, b: Value) -> Option<bool> {
    match (a, b) {
        (Value::Integer(x), Value::Integer(y)) => Some(x < y),
        (Value::Float(x), Value::Float(y)) => Some(float_lt(x, y)),
        (Value::String(x), Value::String(y)) => Some(chars_lt(x@, y@)),
        (Value::Integer(_), Value::Float(_)) => None,
        (Value::Float(_), Value::Integer(_)) => None,
        _ => Some(false),
    }
}

pub fn order_less<F: FloatOps>(a: &Value, b: &Value) -> (r: bool)
    ensures
        order_lt(*a, *b) matches Some(x) ==> r == x,
{
    match (a, b) {
        (Value::Integer(x), Value::Integer(y)) => *x < *y,
        (Value::Float(x), Value::Float(y)) => lt_bits(*x, *y),
        (Value::Integer(x), Value::Float(y)) => lt_bits(F::from_int(*x), *y),
        (Value::Float(x), Value::Integer(y)) => lt_bits(*x, F::from_int(*y)),
        (Value::String(x), Value::String(y)) => text_less(x.as_str(), y.as_str()),
        _ => false,
    }
}

/// Whether no integer is compared with a float among the items.
pub open spec fn unmixed(items: Seq<Value>) -> bool {
    forall|i: int, j: int|
        0 <= i < items.len() && 0 <= j < items.len() ==> (#[trigger] order_lt(items[i], items[j])) is Some
}

/// The left fold of `min`: keep the current value unless the next is not
/// greater (`max` keeps it unless it is less than the next).
pub open spec fn fold_extreme(items: Seq<Value>, want_max: bool) -> Value
    recommends
        items.len() > 0,
    decreases items.len(),
{
    if items.len() <= 1 {
        items[0]
    } else {
        let a = fold_extreme(items.drop_last(), want_max);
        let b = items.last();
        let lt = order_lt(a, b)->Some_0;
        if want_max {
            if lt { b } else { a }
        } else {
            if lt { a } else { b }
        }
    }
}

fn extreme<F: FloatOps>(items: Vec<Value>, want_max: bool) -> (r: Option<Value>)
    ensures
        items@.len() == 0 ==> r is None,
        items@.len() > 0 ==> (r matches Some(v) && items@.contains(v)
            && (unmixed(items@) ==> v == fold_extreme(items@, want_max))),
{
    if items.len() == 0 {
        return None;
    }
    let mut acc = items[0].copy();
    let mut i: usize = 1;
    proof {
        assert(items@.subrange(0, 1).len() == 1);
    }
    while i < items.len()
        invariant
            1 <= i <= items@.len(),
            items@.contains(acc),
            unmixed(items@) ==> acc == fold_extreme(items@.subrange(0, i as int), want_max),
        decreases items@.len() - i,
    {
        let b = &items[i];
        let lt = order_less::<F>(&acc, b);
        let ghost pre = items@.subrange(0, i + 1);
        proof {
            assert(pre.drop_last() =~= items@.subrange(0, i as int));
            if unmixed(items@) {
                let k = choose|k: int| 0 <= k < items@.len() && items@[k] == acc;
                assert(order_lt(items@[k], items@[i as int]) is Some);
            }
        }
        let keep = if want_max { !lt } else { lt };
        if !keep {
            acc = b.copy();
        }
        i = i + 1;
    }
    proof {
        assert(items@.subrange(0, items@.len() as int) =~= items@);
    }
    Some(acc)
}

/// `min(..)` or `max(..)`: over the items of a single list argument, else
/// over the arguments; one of the items, the fold of `fold_extreme` when no
/// integer meets a float.
pub open spec fn extreme_call(args: Seq<Value>, r: Result<Value, String>, want_max: bool) -> bool {
    let items = if args.len() == 1 && args[0] is List {
        (*args[0]->List_0)@
    } else {
        args
    };
    &&& items.len() == 0 ==> r is Err
    &&& items.len() > 0 ==> (r matches Ok(v) && items.contains(v)
        && (unmixed(items) ==> v == fold_extreme(items, want_max)))
}

pub fn vm_min<F: FloatOps>(args: &[Value]) -> (r: Result<Value, String>)
    ensures
        extreme_call(args@, r, false),
{
    let items = collect_numeric(args, "min")?;
    match extreme::<F>(items, false) {
        Some(v) => Ok(v),
        None => Err(owned("min() arg is an empty sequence")),
    }
}

pub fn vm_max<F: FloatOps>(args: &[Value]) -> (r: Result<Value, String>)
    ensures
        extreme_call(args@, r, true),
{
    let items = collect_numeric(args, "max")?;
    match extreme::<F>(items, true) {
        Some(v) => Ok(v),
        None => Err(owned("max() arg is an empty sequence")),
    }
}

/// The wrapping sum of integers.
pub open spec fn int_sum(items: Seq<Value>) -> i64
    decreases items.len(),
{
    if items.len() == 0 {
        0
    } else {
        int_sum(items.drop_last()).wrapping_add(items.last()->Integer_0)
    }
}

/// `sum(list)`: the integer sum when every item is an integer, a float
/// when the items are numbers and some is a float, an error otherwise.
pub open spec fn sum_spec(args: Seq<Value>, r: Result<Value, String>) -> bool {
    if args.len() == 1 && args[0] is List {
        let items = (*args[0]->List_0)@;
        if forall|i: int| 0 <= i < items.len() ==> #[trigger] items[i] is Integer {
            r == Ok::<Value, String>(Value::Integer(int_sum(items)))
        } else if forall|i: int| 0 <= i < items.len() ==> #[trigger] crate::ops::is_number(items[i]) {
            r matches Ok(Value::Float(_))
        } else {
            r is Err
        }
    } else {
        r is Err
    }
}

/// The wrapping sum of the integers among `items`, floats skipped.
pub open spec fn int_part(items: Seq<Value>) -> i64
    decreases items.len(),
{
    if items.len() == 0 {
        0
    } else {
        match items.last() {
            Value::Integer(n) => int_part(items.drop_last()).wrapping_add(n),
            _ => int_part(items.drop_last()),
        }
    }
}

/// `t` is the total of the floats among `items`, added in order to `0.0`
/// by the embedder's `F::add`, the running total on the left.
pub open spec fn floats_total<F: FloatOps>(items: Seq<Value>, t: u64) -> bool
    decreases items.len(),
{
    if items.len() == 0 {
        t == 0
    } else {
        match items.last() {
            Value::Float(f) => exists|p: u64| floats_total::<F>(items.drop_last(), p) && #[trigger] call_ensures(F::add, (p, f), t),
            _ => floats_total::<F>(items.drop_last(), t),
        }
    }
}

/// `x` is the float sum of `items`: the integers' sum converted by
/// `F::from_int`, plus the floats' total, by `F::add`.
pub open spec fn float_sum<F: FloatOps>(items: Seq<Value>, x: u64) -> bool {
    exists|fi: u64, ft: u64|
        float_of_int::<F>(int_part(items), fi) && floats_total::<F>(items, ft) && #[trigger] call_ensures(F::add, (fi, ft), x)
}

pub fn vm_sum<F: FloatOps>(args: &[Value]) -> (r: Result<Value, String>)
    ensures
        sum_spec(args@, r),
        args@.len() == 1 && args@[0] is List ==> (r matches Ok(Value::Float(x)) ==> float_sum::<F>((*args@[0]->List_0)@, x)),
{
    if args.len() != 1 {
        return Err(arg_count_error("sum", args.len()));
    }
    let items = match &args[0] {
        Value::List(items) => items,
        _ => {
            return Err(owned("sum() argument must be a list"));
        },
    };
    let mut int_total: i64 = 0;
    let mut float_total: u64 = 0;
    let mut has_float = false;
    let mut i: usize = 0;
    while i < items.len()
        invariant
            args@.len() == 1,
            args@[0] == Value::List(*items),
            i <= items@.len(),
            forall|j: int| 0 <= j < i ==> crate::ops::is_number(#[trigger] items@[j]),
            !has_float ==> forall|j: int| 0 <= j < i ==> #[trigger] items@[j] is Integer,
            !has_float ==> int_total == int_sum(items@.subrange(0, i as int)),
            has_float ==> exists|j: int| 0 <= j < i && #[trigger] items@[j] is Float,
            int_total == int_part(items@.subrange(0, i as int)),
            floats_total::<F>(items@.subrange(0, i as int), float_total),
        decreases items@.len() - i,
    {
        proof {
            assert(items@.subrange(0, i + 1).drop_last() =~= items@.subrange(0, i as int));
        }
        match &items[i] {
            Value::Integer(n) => {
                int_total = int_total.wrapping_add(*n);
            },
            Value::Float(f) => {
                let ghost before = float_total;
                float_total = F::add(float_total, *f);
                has_float = true;
                proof {
                    assert(floats_total::<F>(items@.subrange(0, i as int), before)
                        && call_ensures(F::add, (before, *f), float_total));
                }
            },
            _ => {
                proof {
                    assert(!crate::ops::is_number(items@[i as int]));
                    assert(!(items@[i as int] is Integer));
                }
                return Err(owned("sum() non-numeric item"));
            },
        }
        i = i + 1;
    }
    proof {
        assert(items@.subrange(0, items@.len() as int) =~= items@);
    }
    if has_float {
        let fi = F::from_int(int_total);
        let x = F::add(fi, float_total);
        proof {
            assert(float_of_int::<F>(int_part(items@), fi) && floats_total::<F>(items@, float_total)
                && call_ensures(F::add, (fi, float_total), x));
        }
        Ok(Value::Float(x))
    } else {
        Ok(Value::Integer(int_total))
    }
}

/// What calling builtin `func` with `args` returns.
pub open spec fn builtin_spec(func: Builtin, args: Seq<Value>, r: Result<Value, String>) -> bool {
    match func {
        Builtin::Str => str_call(args, r),
        Builtin::Int => int_call(args, r),
        Builtin::Float => float_call(args, r),
        Builtin::Bool => bool_call(args, r),
        Builtin::Len => len_call(args, r),
        Builtin::Range => range_spec(args, r),
        Builtin::Repr => repr_call(args, r),
        Builtin::Abs => abs_call(args, r),
        Builtin::Min => extreme_call(args, r, false),
        Builtin::Max => extreme_call(args, r, true),
        Builtin::Sum => sum_spec(args, r),
    }
}

/// Calls a builtin on the VM's values.
pub fn call_builtin<F: FloatOps>(func: Builtin, args: &[Value]) -> (r: Result<Value, String>)
    ensures
        builtin_spec(func, args@, r),
{
    match func {
        Builtin::Str => vm_str::<F>(args),
        Builtin::Int => vm_int::<F>(args),
        Builtin::Float => vm_float::<F>(args),
        Builtin::Bool => vm_bool(args),
        Builtin::Len => vm_len(args),
        Builtin::Range => vm_range(args),
        Builtin::Repr => vm_repr::<F>(args),
        Builtin::Abs => vm_abs(args),
        Builtin::Min => vm_min::<F>(args),
        Builtin::Max => vm_max::<F>(args),
        Builtin::Sum => vm_sum::<F>(args),
    }
}

/// The position of a builtin's name in registration order; 11 for any
/// other text.
pub open spec fn builtin_index(n: Seq<char>) -> int {
    if n == "str"@ {
        0
    } else if n == "int"@ {
        1
    } else if n == "float"@ {
        2
    } else if n == "bool"@ {
        3
    } else if n == "len"@ {
        4
    } else if n == "range"@ {
        5
    } else if n == "repr"@ {
        6
    } else if n == "abs"@ {
        7
    } else if n == "min"@ {
        8
    } else if n == "max"@ {
        9
    } else if n == "sum"@ {
        10
    } else {
        11
    }
}

/// The name of the builtin at position `k` of the registration order.
pub open spec fn builtin_name(k: int) -> Seq<char> {
    if k == 0 {
        "str"@
    } else if k == 1 {
        "int"@
    } else if k == 2 {
        "float"@
    } else if k == 3 {
        "bool"@
    } else if k == 4 {
        "len"@
    } else if k == 5 {
        "range"@
    } else if k == 6 {
        "repr"@
    } else if k == 7 {
        "abs"@
    } else if k == 8 {
        "min"@
    } else if k == 9 {
        "max"@
    } else if k == 10 {
        "sum"@
    } else {
        Seq::empty()
    }
}

/// The interner's names after interning the first `k` builtin names into
/// `names`, in order: a name already there is kept, a new one appended.
pub open spec fn with_builtin_names(names: Seq<Seq<char>>, k: int) -> Seq<Seq<char>>
    decreases k,
{
    if k <= 0 {
        names
    } else {
        let p = with_builtin_names(names, k - 1);
        if p.contains(builtin_name(k - 1)) {
            p
        } else {
            p.push(builtin_name(k - 1))
        }
    }
}

/// The builtins in registration order.
pub open spec fn builtin_funcs() -> Seq<Builtin> {
    seq![
        Builtin::Str,
        Builtin::Int,
        Builtin::Float,
        Builtin::Bool,
        Builtin::Len,
        Builtin::Range,
        Builtin::Repr,
        Builtin::Abs,
        Builtin::Min,
        Builtin::Max,
        Builtin::Sum,
    ]
}

/// Whether `n` names a builtin function.
pub open spec fn is_builtin_name(n: Seq<char>) -> bool {
    builtin_index(n) < 11
}

/// The builtin function named `n`.
pub open spec fn builtin_named(n: Seq<char>) -> Builtin
    recommends
        is_builtin_name(n),
{
    builtin_funcs()[builtin_index(n)]
}

/// `v` is the native function of the builtin named `n`.
pub open spec fn native_for(v: Value, n: Seq<char>) -> bool {
    v matches Value::NativeFunction { name, func } && name@ == n && func == builtin_named(n)
}

/// `after` is `before` with each builtin's symbol (its position in `names`)
/// bound to that builtin's native function, and nothing else changed.
pub open spec fn builtins_bound(names: Seq<Seq<char>>, before: Map<u32, Value>, after: Map<u32, Value>) -> bool {
    &&& forall|s: u32|
        (s as int) < names.len() && is_builtin_name(#[trigger] names[s as int]) ==> after.contains_key(s)
            && native_for(after[s], names[s as int])
    &&& forall|s: u32|
        !((s as int) < names.len() && is_builtin_name(names[s as int])) ==> {
            &&& #[trigger] after.contains_key(s) == before.contains_key(s)
            &&& before.contains_key(s) ==> after[s] == before[s]
        }
}

/// The builtins in registration order, with their names.
pub fn builtin_table() -> (r: Vec<(&'static str, Builtin)>)
    ensures
        r@.len() == 11,
        forall|k: int| 0 <= k < 11 ==> builtin_index((#[trigger] r@[k]).0@) == k && r@[k].1 == builtin_funcs()[k],
        forall|k: int| 0 <= k < 11 ==> (#[trigger] r@[k]).0@ == builtin_name(k),
{
    let mut v: Vec<(&'static str, Builtin)> = Vec::new();
    v.push(("str", Builtin::Str));
    v.push(("int", Builtin::Int));
    v.push(("float", Builtin::Float));
    v.push(("bool", Builtin::Bool));
    v.push(("len", Builtin::Len));
    v.push(("range", Builtin::Range));
    v.push(("repr", Builtin::Repr));
    v.push(("abs", Builtin::Abs));
    v.push(("min", Builtin::Min));
    v.push(("max", Builtin::Max));
    v.push(("sum", Builtin::Sum));
    proof {
        reveal_strlit("str");
        reveal_strlit("int");
        reveal_strlit("float");
        reveal_strlit("bool");
        reveal_strlit("len");
        reveal_strlit("range");
        reveal_strlit("repr");
        reveal_strlit("abs");
        reveal_strlit("min");
        reveal_strlit("max");
        reveal_strlit("sum");
        assert("str"@.len() == 3 && "str"@[0] == 's' && "str"@[1] == 't');
        assert("int"@.len() == 3 && "int"@[0] == 'i' && "int"@[1] == 'n');
        assert("float"@.len() == 5 && "float"@[0] == 'f' && "float"@[1] == 'l');
        assert("bool"@.len() == 4 && "bool"@[0] == 'b' && "bool"@[1] == 'o');
        assert("len"@.len() == 3 && "len"@[0] == 'l' && "len"@[1] == 'e');
        assert("range"@.len() == 5 && "range"@[0] == 'r' && "range"@[1] == 'a');
        assert("repr"@.len() == 4 && "repr"@[0] == 'r' && "repr"@[1] == 'e');
        assert("abs"@.len() == 3 && "abs"@[0] == 'a' && "abs"@[1] == 'b');
        assert("min"@.len() == 3 && "min"@[0] == 'm' && "min"@[1] == 'i');
        assert("max"@.len() == 3 && "max"@[0] == 'm' && "max"@[1] == 'a');
        assert("sum"@.len() == 3 && "sum"@[0] == 's' && "sum"@[1] == 'u');
        assert(builtin_index(v@[0].0@) == 0);
        assert(builtin_index(v@[1].0@) == 1);
        assert(builtin_index(v@[2].0@) == 2);
        assert(builtin_index(v@[3].0@) == 3);
        assert(builtin_index(v@[4].0@) == 4);
        assert(builtin_index(v@[5].0@) == 5);
        assert(builtin_index(v@[6].0@) == 6);
        assert(builtin_index(v@[7].0@) == 7);
        assert(builtin_index(v@[8].0@) == 8);
        assert(builtin_index(v@[9].0@) == 9);
        assert(builtin_index(v@[10].0@) == 10);
    }
    v
}

/// What registering the builtins under `names` does to globals `before`.
proof fn lemma_bind_one(
    names0: Seq<Seq<char>>,
    names1: Seq<Seq<char>>,
    g0: Map<u32, Value>,
    g1: Map<u32, Value>,
    before: Map<u32, Value>,
    sym: u32,
    i: int,
)
    requires
        distinct_names(names1),
        names1.len() >= names0.len(),
        names1.subrange(0, names0.len() as int) == names0,
        names1.len() > names0.len() ==> names1.len() == names0.len() + 1 && sym == names0.len(),
        (sym as int) < names1.len(),
        builtin_index(names1[sym as int]) == i,
        0 <= i < 11,
        g1 == g0.insert(sym, g1[sym]),
        native_for(g1[sym], names1[sym as int]),
        forall|s: u32|
            (s as int) < names0.len() && builtin_index(#[trigger] names0[s as int]) < i ==> g0.contains_key(s)
                && native_for(g0[s], names0[s as int]),
        forall|s: u32|
            !((s as int) < names0.len() && builtin_index(names0[s as int]) < i) ==> {
                &&& #[trigger] g0.contains_key(s) == before.contains_key(s)
                &&& before.contains_key(s) ==> g0[s] == before[s]
            },
    ensures
        forall|s: u32|
            (s as int) < names1.len() && builtin_index(#[trigger] names1[s as int]) < i + 1 ==> g1.contains_key(s)
                && native_for(g1[s], names1[s as int]),
        forall|s: u32|
            !((s as int) < names1.len() && builtin_index(names1[s as int]) < i + 1) ==> {
                &&& #[trigger] g1.contains_key(s) == before.contains_key(s)
                &&& before.contains_key(s) ==> g1[s] == before[s]
            },
{
    assert forall|s: u32|
        (s as int) < names1.len() && builtin_index(#[trigger] names1[s as int]) < i + 1 implies g1.contains_key(s)
            && native_for(g1[s], names1[s as int]) by {
        if s != sym {
            assert(names1[s as int] != names1[sym as int]);
            assert((s as int) < names0.len());
            assert(names0[s as int] == names1[s as int]);
        }
    }
    assert forall|s: u32|
        !((s as int) < names1.len() && builtin_index(names1[s as int]) < i + 1) implies {
            &&& #[trigger] g1.contains_key(s) == before.contains_key(s)
            &&& before.contains_key(s) ==> g1[s] == before[s]
        } by {
        assert(s != sym);
        if (s as int) < names0.len() {
            assert(names0[s as int] == names1[s as int]);
        }
        assert(g1.contains_key(s) == g0.contains_key(s));
        assert(g0.contains_key(s) == before.contains_key(s));
        if before.contains_key(s) {
            assert(g1[s] == g0[s]);
        }
    }
}

/// Interns each builtin's name and binds it as a global of the VM to a
/// native function.
pub fn register_python_builtins_vm(vm: &mut VM)
    requires
        old(vm).interner_view().wf(),
        old(vm).interner_view()@.len() + 11 < u32::MAX,
    ensures
        final(vm).interner_view().wf(),
        final(vm).interner_view()@.len() <= old(vm).interner_view()@.len() + 11,
        final(vm).interner_view()@ == with_builtin_names(old(vm).interner_view()@, 11),
        final(vm).interner_view()@.subrange(0, old(vm).interner_view()@.len() as int) == old(vm).interner_view()@,
        forall|n: Seq<char>| is_builtin_name(n) ==> #[trigger] final(vm).interner_view()@.contains(n),
        builtins_bound(final(vm).interner_view()@, old(vm).globals_view(), final(vm).globals_view()),
        final(vm).stack_view() == old(vm).stack_view(),
        final(vm).pc_view() == old(vm).pc_view(),
        final(vm).code_view() == old(vm).code_view(),
        final(vm).locals_view() == old(vm).locals_view(),
        final(vm).base_view() == old(vm).base_view(),
        final(vm).frames_view() == old(vm).frames_view(),
        final(vm).output_view() == old(vm).output_view(),
        final(vm).suppressed() == old(vm).suppressed(),
{
    let table = builtin_table();
    let ghost names0 = old(vm).interner_view()@;
    let ghost before = old(vm).globals_view();
    let mut i: usize = 0;
    while i < table.len()
        invariant
            table@.len() == 11,
            forall|k: int| 0 <= k < 11 ==> builtin_index((#[trigger] table@[k]).0@) == k && table@[k].1 == builtin_funcs()[k],
            forall|k: int| 0 <= k < 11 ==> (#[trigger] table@[k]).0@ == builtin_name(k),
            vm.interner_view()@ == with_builtin_names(names0, i as int),
            i <= 11,
            names0.len() + 11 < u32::MAX,
            vm.interner_view().wf(),
            names0.len() <= vm.interner_view()@.len() <= names0.len() + i,
            vm.interner_view()@.subrange(0, names0.len() as int) == names0,
            forall|n: Seq<char>| builtin_index(n) < i ==> #[trigger] vm.interner_view()@.contains(n),
            forall|s: u32|
                (s as int) < vm.interner_view()@.len() && builtin_index(#[trigger] vm.interner_view()@[s as int]) < i
                    ==> vm.globals_view().contains_key(s) && native_for(vm.globals_view()[s], vm.interner_view()@[s as int]),
            forall|s: u32|
                !((s as int) < vm.interner_view()@.len() && builtin_index(vm.interner_view()@[s as int]) < i) ==> {
                    &&& #[trigger] vm.globals_view().contains_key(s) == before.contains_key(s)
                    &&& before.contains_key(s) ==> vm.globals_view()[s] == before[s]
                },
            vm.stack_view() == old(vm).stack_view(),
            vm.pc_view() == old(vm).pc_view(),
            vm.code_view() == old(vm).code_view(),
            vm.locals_view() == old(vm).locals_view(),
            vm.base_view() == old(vm).base_view(),
            vm.frames_view() == old(vm).frames_view(),
            vm.output_view() == old(vm).output_view(),
            vm.suppressed() == old(vm).suppressed(),
        decreases 11 - i,
    {
        let (name, func) = table[i];
        let ghost names_a = vm.interner_view()@;
        let ghost g0 = vm.globals_view();
        let interner = vm.interner_mut();
        let sym = interner.intern(name);
        let native = Value::NativeFunction { name: Rc::new(owned(name)), func };
        vm.set_global(sym, native);
        proof {
            let names_b = vm.interner_view()@;
            assert(builtin_index(name@) == i);
            assert(name@ == builtin_name(i as int));
            assert(native_for(native, names_b[sym.0 as int]));
            assert(vm.globals_view() == g0.insert(sym.0, vm.globals_view()[sym.0]));
            if names_a.contains(name@) {
                assert(names_b =~= names_a);
            } else {
                assert(names_b =~= names_a.push(name@));
            }
            assert(names_b.subrange(0, names_a.len() as int) =~= names_a);
            assert(names_b.subrange(0, names0.len() as int) =~= names0) by {
                assert forall|k: int| 0 <= k < names0.len() implies names_b[k] == names0[k] by {
                    assert(names_a.subrange(0, names0.len() as int)[k] == names0[k]);
                }
            }
            lemma_bind_one(names_a, names_b, g0, vm.globals_view(), before, sym.0, i as int);
            assert forall|n: Seq<char>| builtin_index(n) < i + 1 implies #[trigger] names_b.contains(n) by {
                if builtin_index(n) < i {
                    assert(names_a.contains(n));
                    let k = choose|k: int| 0 <= k < names_a.len() && names_a[k] == n;
                    assert(names_b[k] == n);
                } else {
                    assert(names_b[sym.0 as int] == n);
                }
            }
        }
        i = i + 1;
    }
}

} // verus!
