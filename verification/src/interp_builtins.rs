//! The builtin functions of the Python subset for the interpreter's values:
//! str, int, float, bool, len, range, repr, abs, min, max, sum, with the same
//! meaning as for the bytecode VM.
use vstd::prelude::*;

use std::rc::Rc;

use crate::builtins::{
    builtin_funcs, builtin_index, builtin_named, builtin_table, is_builtin_name, lemma_range_step,
    parse_i64, parse_int, range_items, range_measure, trim_text, trimmed,
};
use crate::bytecode::Builtin;
use crate::float::{abs_bits, float_lt, float_of_int, float_parse, float_to_int, lt_bits, FloatOps, ONE_BITS};
use crate::interpreter::{display_text, float_free, truthy, Interpreter, Value};
use crate::ops::{chars_lt, text_less};
use crate::symbol::distinct_names;
use crate::text::{owned, str_to_chars};

verus! {

broadcast use vstd::std_specs::vec::group_vec_axioms;

/// `str(v)`: the value's `print` text (a float's text comes from
/// `FloatOps::to_text`).
pub open spec fn str_call(args: Seq<Value>, r: Result<Value, String>) -> bool {
    &&& args.len() != 1 ==> r is Err
    &&& args.len() == 1 ==> (r matches Ok(Value::String(s)) && (float_free(args[0]) ==> s@ == display_text(args[0])))
}

pub fn interp_str<F: FloatOps>(args: &[Value]) -> (r: Result<Value, String>)
    ensures
        str_call(args@, r),
{
    if args.len() != 1 {
        return Err(arg_count_error("str", args.len()));
    }
    Ok(Value::String(Rc::new(args[0].to_text::<F>())))
}

/// The message for a wrong number of arguments.
fn arg_count_error(name: &str, got: usize) -> (r: String) {
    let mut msg = owned(name);
    msg.append("() takes 1 argument, got ");
    let n = crate::text::u64_text(got as u64);
    msg.append(n.as_str());
    msg
}

/// `int(v)`: integers as they are, floats truncated, booleans as 1 or 0,
/// strings parsed after trimming whitespace.
pub open spec fn int_spec(v: Value, r: Result<Value, String>) -> bool {
    match v {
        Value::Integer(n) => r == Ok::<Value, String>(Value::Integer(n)),
        Value::Float(_) => r matches Ok(Value::Integer(_)),
        Value::Boolean(b) => r == Ok::<Value, String>(Value::Integer(if b { 1 } else { 0 })),
        Value::String(s) => match parse_int(trimmed(s@)) {
            Some(n) => r == Ok::<Value, String>(Value::Integer(n)),
            None => r is Err,
        },
        _ => r is Err,
    }
}

pub open spec fn int_call(args: Seq<Value>, r: Result<Value, String>) -> bool {
    &&& args.len() != 1 ==> r is Err
    &&& args.len() == 1 ==> int_spec(args[0], r)
}

pub fn interp_int<F: FloatOps>(args: &[Value]) -> (r: Result<Value, String>)
    ensures
        int_call(args@, r),
        args@.len() == 1 ==> (args@[0] matches Value::Float(x) ==> (r matches Ok(Value::Integer(n))
            && float_to_int::<F>(x, n))),
{
    if args.len() != 1 {
        return Err(arg_count_error("int", args.len()));
    }
    match &args[0] {
        Value::Integer(n) => Ok(Value::Integer(*n)),
        Value::Float(f) => Ok(Value::Integer(F::to_int(*f))),
        Value::Boolean(b) => Ok(Value::Integer(if *b { 1 } else { 0 })),
        Value::String(s) => {
            let t = trim_text(s.as_str());
            match parse_i64(t.as_str()) {
                Some(n) => Ok(Value::Integer(n)),
                None => {
                    let mut msg = owned("int() invalid literal: ");
                    msg.append(s.as_str());
                    Err(msg)
                },
            }
        },
        _ => Err(owned("int() cannot convert the value")),
    }
}

/// `float(v)`: floats as they are, integers and booleans converted, strings
/// parsed after trimming whitespace (by `FloatOps::parse`).
pub open spec fn float_spec(v: Value, r: Result<Value, String>) -> bool {
    match v {
        Value::Float(f) => r == Ok::<Value, String>(Value::Float(f)),
        Value::Integer(_) => r matches Ok(Value::Float(_)),
        Value::Boolean(b) => r == Ok::<Value, String>(Value::Float(if b { ONE_BITS } else { 0 })),
        Value::String(_) => r is Err || r matches Ok(Value::Float(_)),
        _ => r is Err,
    }
}

pub open spec fn float_call(args: Seq<Value>, r: Result<Value, String>) -> bool {
    &&& args.len() != 1 ==> r is Err
    &&& args.len() == 1 ==> float_spec(args[0], r)
}

pub fn interp_float<F: FloatOps>(args: &[Value]) -> (r: Result<Value, String>)
    ensures
        float_call(args@, r),
        args@.len() == 1 ==> (args@[0] matches Value::Integer(n) ==> (r matches Ok(Value::Float(x))
            && float_of_int::<F>(n, x))),
        args@.len() == 1 ==> (args@[0] matches Value::String(s) ==> (match r {
            Ok(Value::Float(x)) => float_parse::<F>(trimmed(s@), Some(x)),
            _ => float_parse::<F>(trimmed(s@), None),
        })),
{
    if args.len() != 1 {
        return Err(arg_count_error("float", args.len()));
    }
    match &args[0] {
        Value::Float(f) => Ok(Value::Float(*f)),
        Value::Integer(n) => Ok(Value::Float(F::from_int(*n))),
        Value::Boolean(b) => Ok(Value::Float(if *b { ONE_BITS } else { 0 })),
        Value::String(s) => {
            let t = trim_text(s.as_str());
            let ts: &str = t.as_str();
            let parsed = F::parse(ts);
            proof {
                assert(call_ensures(F::parse, (ts,), parsed));
            }
            match parsed {
                Some(bits) => Ok(Value::Float(bits)),
                None => {
                    let mut msg = owned("float() invalid literal: ");
                    msg.append(s.as_str());
                    Err(msg)
                },
            }
        },
        _ => Err(owned("float() cannot convert the value")),
    }
}

/// `bool()` is false, `bool(v)` is the value's truthiness.
pub open spec fn bool_call(args: Seq<Value>, r: Result<Value, String>) -> bool {
    &&& args.len() == 0 ==> r == Ok::<Value, String>(Value::Boolean(false))
    &&& args.len() == 1 ==> r == Ok::<Value, String>(Value::Boolean(truthy(args[0])))
    &&& args.len() > 1 ==> r is Err
}

pub fn interp_bool(args: &[Value]) -> (r: Result<Value, String>)
    ensures
        bool_call(args@, r),
{
    if args.len() == 0 {
        return Ok(Value::Boolean(false));
    }
    if args.len() != 1 {
        return Err(owned("bool() takes at most 1 argument"));
    }
    Ok(Value::Boolean(args[0].is_truthy()))
}

/// `len(v)`: characters of a string, items of a list or a dict.
pub open spec fn builtin_len_spec(v: Value, r: Result<Value, String>) -> bool {
    match v {
        Value::String(s) => r == Ok::<Value, String>(Value::Integer((s@.len() as usize) as i64)),
        Value::List(items) => r == Ok::<Value, String>(Value::Integer((items@.len() as usize) as i64)),
        Value::Dict(pairs) => r == Ok::<Value, String>(Value::Integer((pairs@.len() as usize) as i64)),
        _ => r is Err,
    }
}

pub open spec fn len_call(args: Seq<Value>, r: Result<Value, String>) -> bool {
    &&& args.len() != 1 ==> r is Err
    &&& args.len() == 1 ==> builtin_len_spec(args[0], r)
}

pub fn interp_len(args: &[Value]) -> (r: Result<Value, String>)
    ensures
        len_call(args@, r),
{
    if args.len() != 1 {
        return Err(arg_count_error("len", args.len()));
    }
    match &args[0] {
        Value::String(s) => {
            let chars = str_to_chars(s.as_str());
            Ok(Value::Integer(chars.len() as i64))
        },
        Value::List(items) => Ok(Value::Integer(items.len() as i64)),
        Value::Dict(pairs) => Ok(Value::Integer(pairs.len() as i64)),
        _ => Err(owned("len() not supported for this value")),
    }
}

/// The integer of an argument, for `fname`.
pub fn as_int_interp(v: &Value, fname: &str) -> (r: Result<i64, String>)
    ensures
        match *v {
            Value::Integer(n) => r == Ok::<i64, String>(n),
            _ => r is Err,
        },
{
    match v {
        Value::Integer(n) => Ok(*n),
        _ => {
            let mut msg = owned(fname);
            msg.append("() argument must be int");
            Err(msg)
        },
    }
}

/// The integers of `range(args)`, when the arguments are one to three
/// integers and the step is not zero.
pub open spec fn range_spec(args: Seq<Value>, r: Result<Value, String>) -> bool {
    let ints = forall|i: int| 0 <= i < args.len() ==> #[trigger] args[i] is Integer;
    if 1 <= args.len() <= 3 && ints && !(args.len() == 3 && args[2]->Integer_0 == 0) {
        let start: int = if args.len() == 1 { 0 } else { args[0]->Integer_0 as int };
        let stop: int = if args.len() == 1 { args[0]->Integer_0 as int } else { args[1]->Integer_0 as int };
        let step: int = if args.len() == 3 { args[2]->Integer_0 as int } else { 1 };
        &&& r matches Ok(Value::List(items))
        &&& items@.len() == range_items(start, stop, step).len()
        &&& forall|i: int| 0 <= i < items@.len() ==> #[trigger] items@[i] == Value::Integer(range_items(start, stop, step)[i] as i64)
    } else {
        r is Err
    }
}

pub fn interp_range(args: &[Value]) -> (r: Result<Value, String>)
    ensures
        range_spec(args@, r),
{
    let n = args.len();
    if n < 1 || n > 3 {
        return Err(owned("range() takes 1-3 arguments"));
    }
    let first = as_int_interp(&args[0], "range")?;
    let (start, stop, step) = if n == 1 {
        (0i64, first, 1i64)
    } else {
        let second = as_int_interp(&args[1], "range")?;
        if n == 2 {
            (first, second, 1i64)
        } else {
            let s = as_int_interp(&args[2], "range")?;
            if s == 0 {
                return Err(owned("range() step cannot be zero"));
            }
            (first, second, s)
        }
    };
    proof {
        assert forall|i: int| 0 <= i < args@.len() implies #[trigger] args@[i] is Integer by {
            if i == 0 {} else if i == 1 {} else {}
        }
    }
    let ghost full = range_items(start as int, stop as int, step as int);
    proof {
        assert(full.subrange(0, full.len() as int) =~= full);
    }
    let mut items: Vec<Value> = Vec::new();
    let mut i: i64 = start;
    let mut done = false;
    let ghost mut k: int = 0;
    while !done
        invariant
            step != 0,
            0 <= k <= full.len(),
            items@.len() == k,
            forall|j: int| 0 <= j < k ==> #[trigger] items@[j] == Value::Integer(full[j] as i64),
            !done ==> range_items(i as int, stop as int, step as int) == full.subrange(k, full.len() as int),
            done ==> k == full.len(),
        decreases full.len() - k, (if done { 0int } else { 1int }),
    {
        let ghost rest = range_items(i as int, stop as int, step as int);
        if (step > 0 && i < stop) || (step < 0 && i > stop) {
            proof {
                lemma_range_step(i as int, stop as int, step as int);
                assert(rest.len() >= 1);
                assert(rest == full.subrange(k, full.len() as int));
                assert(full[k] == rest[0]);
            }
            items.push(Value::Integer(i));
            proof {
                assert(rest.drop_first() =~= full.subrange(k + 1, full.len() as int));
                k = k + 1;
            }
            match i.checked_add(step) {
                Some(x) => {
                    i = x;
                },
                None => {
                    // the next number lies beyond i64, so past `stop`
                    done = true;
                    proof {
                        let tail = range_items(i + step, stop as int, step as int);
                        assert(tail.len() == 0);
                        assert(full.subrange(k, full.len() as int).len() == 0);
                    }
                },
            }
        } else {
            done = true;
            proof {
                assert(rest.len() == 0);
            }
        }
    }
    Ok(Value::List(Rc::new(items)))
}

/// `repr(v)`: a string in single quotes, any other value as `print` shows it.
pub open spec fn repr_call(args: Seq<Value>, r: Result<Value, String>) -> bool {
    &&& args.len() != 1 ==> r is Err
    &&& args.len() == 1 ==> (r matches Ok(Value::String(s)) && match args[0] {
        Value::String(x) => s@ == "'"@ + x@ + "'"@,
        v => float_free(v) ==> s@ == display_text(v),
    })
}

pub fn interp_repr<F: FloatOps>(args: &[Value]) -> (r: Result<Value, String>)
    ensures
        repr_call(args@, r),
{
    if args.len() != 1 {
        return Err(arg_count_error("repr", args.len()));
    }
    let text = match &args[0] {
        Value::String(s) => {
            let mut t = owned("'");
            t.append(s.as_str());
            t.append("'");
            t
        },
        other => other.to_text::<F>(),
    };
    Ok(Value::String(Rc::new(text)))
}

/// `abs(v)`: integers wrapping at `i64::MIN`, floats with the sign cleared.
pub open spec fn abs_call(args: Seq<Value>, r: Result<Value, String>) -> bool {
    &&& args.len() != 1 ==> r is Err
    &&& args.len() == 1 ==> match args[0] {
        Value::Integer(n) => r == Ok::<Value, String>(Value::Integer(
            if n < 0 { 0i64.wrapping_sub(n) } else { n },
        )),
        Value::Float(f) => r == Ok::<Value, String>(Value::Float(f & crate::float::MAGNITUDE_MASK)),
        _ => r is Err,
    }
}

pub fn interp_abs(args: &[Value]) -> (r: Result<Value, String>)
    ensures
        abs_call(args@, r),
{
    if args.len() != 1 {
        return Err(arg_count_error("abs", args.len()));
    }
    match &args[0] {
        Value::Integer(n) => Ok(Value::Integer(if *n < 0 { 0i64.wrapping_sub(*n) } else { *n })),
        Value::Float(f) => Ok(Value::Float(abs_bits(*f))),
        _ => Err(owned("abs() not supported for this value")),
    }
}

/// The items `min` and `max` range over: the items of a single list
/// argument, else the arguments themselves; none is an error.
pub fn collect_numeric_interp(args: &[Value], fname: &str) -> (r: Result<Vec<Value>, String>)
    ensures
        match r {
            Ok(items) => if args@.len() == 1 && args@[0] is List {
                items@ == (*args@[0]->List_0)@
            } else {
                items@ == args@ && args@.len() > 0
            },
            Err(_) => args@.len() == 0,
        },
{
    if args.len() == 1 {
        match &args[0] {
            Value::List(items) => {
                return Ok(crate::interp_ops::copy_values(items));
            },
            _ => {},
        }
    }
    if args.len() == 0 {
        let mut msg = owned(fname);
        msg.append("() expected at least 1 argument");
        return Err(msg);
    }
    let mut v: Vec<Value> = Vec::new();
    let mut i: usize = 0;
    while i < args.len()
        invariant
            i <= args@.len(),
            v@ == args@.subrange(0, i as int),
        decreases args@.len() - i,
    {
        v.push(args[i].copy());
        proof {
            assert(args@.subrange(0, i + 1) =~= args@.subrange(0, i as int).push(args@[i as int]));
        }
        i = i + 1;
    }
    proof {
        assert(args@.subrange(0, args@.len() as int) =~= args@);
    }
    Ok(v)
}

/// The order `min` and `max` use, where it does not depend on float
/// conversion: integers, floats and strings among themselves; other pairs
/// are not less. An integer compared with a float is converted by
/// `FloatOps::from_int` first.
pub open spec fn order_lt(a: Value, b: Value) -> Option<bool> {
    match (a, b) {
        (Value::Integer(x), Value::Integer(y)) => Some(x < y),
        (Value::Float(x), Value::Float(y)) => Some(float_lt(x, y)),
        (Value::String(x), Value::String(y)) => Some(chars_lt(x@, y@)),
        (Value::Integer(_), Value::Float(_)) => None,
        (Value::Float(_), Value::Integer(_)) => None,
        _ => Some(false),
    }
}

pub fn order_less_interp<F: FloatOps>(a: &Value, b: &Value) -> (r: bool)
    ensures
        order_lt(*a, *b) matches Some(x) ==> r == x,
{
    match (a, b) {
        (Value::Integer(x), Value::Integer(y)) => *x < *y,
        (Value::Float(x), Value::Float(y)) => lt_bits(*x, *y),
        (Value::Integer(x), Value::Float(y)) => lt_bits(F::from_int(*x), *y),
        (Value::Float(x), Value::Integer(y)) => lt_bits(*x, F::from_int(*y)),
        (Value::String(x), Value::String(y)) => text_less(x.as_str(), y.as_str()),
        _ => false,
    }
}

/// Whether no integer is compared with a float among the items.
pub open spec fn unmixed(items: Seq<Value>) -> bool {
    forall|i: int, j: int|
        0 <= i < items.len() && 0 <= j < items.len() ==> (#[trigger] order_lt(items[i], items[j])) is Some
}

/// The left fold of `min`: keep the current value unless the next is not
/// greater (`max` keeps it unless it is less than the next).
pub open spec fn fold_extreme(items: Seq<Value>, want_max: bool) -> Value
    recommends
        items.len() > 0,
    decreases items.len(),
{
    if items.len() <= 1 {
        items[0]
    } else {
        let a = fold_extreme(items.drop_last(), want_max);
        let b = items.last();
        let lt = order_lt(a, b)->Some_0;
        if want_max {
            if lt { b } else { a }
        } else {
            if lt { a } else { b }
        }
    }
}

fn extreme<F: FloatOps>(items: Vec<Value>, want_max: bool) -> (r: Option<Value>)
    ensures
        items@.len() == 0 ==> r is None,
        items@.len() > 0 ==> (r matches Some(v) && items@.contains(v)
            && (unmixed(items@) ==> v == fold_extreme(items@, want_max))),
{
    if items.len() == 0 {
        return None;
    }
    let mut acc = items[0].copy();
    let mut i: usize = 1;
    proof {
        assert(items@.subrange(0, 1).len() == 1);
    }
    while i < items.len()
        invariant
            1 <= i <= items@.len(),
            items@.contains(acc),
            unmixed(items@) ==> acc == fold_extreme(items@.subrange(0, i as int), want_max),
        decreases items@.len() - i,
    {
        let b = &items[i];
        let lt = order_less_interp::<F>(&acc, b);
        let ghost pre = items@.subrange(0, i + 1);
        proof {
            assert(pre.drop_last() =~= items@.subrange(0, i as int));
            if unmixed(items@) {
                let k = choose|k: int| 0 <= k < items@.len() && items@[k] == acc;
                assert(order_lt(items@[k], items@[i as int]) is Some);
            }
        }
        let keep = if want_max { !lt } else { lt };
        if !keep {
            acc = b.copy();
        }
        i = i + 1;
    }
    proof {
        assert(items@.subrange(0, items@.len() as int) =~= items@);
    }
    Some(acc)
}

/// `min(..)` or `max(..)`: over the items of a single list argument, else
/// over the arguments; one of the items, the fold of `fold_extreme` when no
/// integer meets a float.
pub open spec fn extreme_call(args: Seq<Value>, r: Result<Value, String>, want_max: bool) -> bool {
    let items = if args.len() == 1 && args[0] is List {
        (*args[0]->List_0)@
    } else {
        args
    };
    &&& items.len() == 0 ==> r is Err
    &&& items.len() > 0 ==> (r matches Ok(v) && items.contains(v)
        && (unmixed(items) ==> v == fold_extreme(items, want_max)))
}

pub fn interp_min<F: FloatOps>(args: &[Value]) -> (r: Result<Value, String>)
    ensures
        extreme_call(args@, r, false),
{
    let items = collect_numeric_interp(args, "min")?;
    match extreme::<F>(items, false) {
        Some(v) => Ok(v),
        None => Err(owned("min() arg is an empty sequence")),
    }
}

pub fn interp_max<F: FloatOps>(args: &[Value]) -> (r: Result<Value, String>)
    ensures
        extreme_call(args@, r, true),
{
    let items = collect_numeric_interp(args, "max")?;
    match extreme::<F>(items, true) {
        Some(v) => Ok(v),
        None => Err(owned("max() arg is an empty sequence")),
    }
}

/// The wrapping sum of integers.
pub open spec fn int_sum(items: Seq<Value>) -> i64
    decreases items.len(),
{
    if items.len() == 0 {
        0
    } else {
        int_sum(items.drop_last()).wrapping_add(items.last()->Integer_0)
    }
}

/// `sum(list)`: the integer sum when every item is an integer, a float
/// when the items are numbers and some is a float, an error otherwise.
pub open spec fn sum_spec(args: Seq<Value>, r: Result<Value, String>) -> bool {
    if args.len() == 1 && args[0] is List {
        let items = (*args[0]->List_0)@;
        if forall|i: int| 0 <= i < items.len() ==> #[trigger] items[i] is Integer {
            r == Ok::<Value, String>(Value::Integer(int_sum(items)))
        } else if forall|i: int| 0 <= i < items.len() ==> #[trigger] crate::interp_ops::is_number(items[i]) {
            r matches Ok(Value::Float(_))
        } else {
            r is Err
        }
    } else {
        r is Err
    }
}

/// The wrapping sum of the integers among `items`, floats skipped.
pub open spec fn int_part(items: Seq<Value>) -> i64
    decreases items.len(),
{
    if items.len() == 0 {
        0
    } else {
        match items.last() {
            Value::Integer(n) => int_part(items.drop_last()).wrapping_add(n),
            _ => int_part(items.drop_last()),
        }
    }
}

/// `t` is the total of the floats among `items`, added in order to `0.0`
/// by the embedder's `F::add`, the running total on the left.
pub open spec fn floats_total<F: FloatOps>(items: Seq<Value>, t: u64) -> bool
    decreases items.len(),
{
    if items.len() == 0 {
        t == 0
    } else {
        match items.last() {
            Value::Float(f) => exists|p: u64| floats_total::<F>(items.drop_last(), p) && #[trigger] call_ensures(F::add, (p, f), t),
            _ => floats_total::<F>(items.drop_last(), t),
        }
    }
}

/// `x` is the float sum of `items`: the integers' sum converted by
/// `F::from_int`, plus the floats' total, by `F::add`.
pub open spec fn float_sum<F: FloatOps>(items: Seq<Value>, x: u64) -> bool {
    exists|fi: u64, ft: u64|
        float_of_int::<F>(int_part(items), fi) && floats_total::<F>(items, ft) && #[trigger] call_ensures(F::add, (fi, ft), x)
}

pub fn interp_sum<F: FloatOps>(args: &[Value]) -> (r: Result<Value, String>)
    ensures
        sum_spec(args@, r),
        args@.len() == 1 && args@[0] is List ==> (r matches Ok(Value::Float(x)) ==> float_sum::<F>((*args@[0]->List_0)@, x)),
{
    if args.len() != 1 {
        return Err(arg_count_error("sum", args.len()));
    }
    let items = match &args[0] {
        Value::List(items) => items,
        _ => {
            return Err(owned("sum() argument must be a list"));
        },
    };
    let mut int_total: i64 = 0;
    let mut float_total: u64 = 0;
    let mut has_float = false;
    let mut i: usize = 0;
    while i < items.len()
        invariant
            args@.len() == 1,
            args@[0] == Value::List(*items),
            i <= items@.len(),
            forall|j: int| 0 <= j < i ==> crate::interp_ops::is_number(#[trigger] items@[j]),
            !has_float ==> forall|j: int| 0 <= j < i ==> #[trigger] items@[j] is Integer,
            !has_float ==> int_total == int_sum(items@.subrange(0, i as int)),
            has_float ==> exists|j: int| 0 <= j < i && #[trigger] items@[j] is Float,
            int_total == int_part(items@.subrange(0, i as int)),
            floats_total::<F>(items@.subrange(0, i as int), float_total),
        decreases items@.len() - i,
    {
        proof {
            assert(items@.subrange(0, i + 1).drop_last() =~= items@.subrange(0, i as int));
        }
        match &items[i] {
            Value::Integer(n) => {
                int_total = int_total.wrapping_add(*n);
            },
            Value::Float(f) => {
                let ghost before = float_total;
                float_total = F::add(float_total, *f);
                has_float = true;
                proof {
                    assert(floats_total::<F>(items@.subrange(0, i as int), before)
                        && call_ensures(F::add, (before, *f), float_total));
                }
            },
            _ => {
                proof {
                    assert(!crate::interp_ops::is_number(items@[i as int]));
                    assert(!(items@[i as int] is Integer));
                }
                return Err(owned("sum() non-numeric item"));
            },
        }
        i = i + 1;
    }
    proof {
        assert(items@.subrange(0, items@.len() as int) =~= items@);
    }
    if has_float {
        let fi = F::from_int(int_total);
        let x = F::add(fi, float_total);
        proof {
            assert(float_of_int::<F>(int_part(items@), fi) && floats_total::<F>(items@, float_total)
                && call_ensures(F::add, (fi, float_total), x));
        }
        Ok(Value::Float(x))
    } else {
        Ok(Value::Integer(int_total))
    }
}

/// What calling builtin `func` with `args` returns.
pub open spec fn builtin_spec(func: Builtin, args: Seq<Value>, r: Result<Value, String>) -> bool {
    match func {
        Builtin::Str => str_call(args, r),
        Builtin::Int => int_call(args, r),
        Builtin::Float => float_call(args, r),
        Builtin::Bool => bool_call(args, r),
        Builtin::Len => len_call(args, r),
        Builtin::Range => range_spec(args, r),
        Builtin::Repr => repr_call(args, r),
        Builtin::Abs => abs_call(args, r),
        Builtin::Min => extreme_call(args, r, false),
        Builtin::Max => extreme_call(args, r, true),
        Builtin::Sum => sum_spec(args, r),
    }
}

/// Calls a builtin on the interpreter's values.
pub fn call_builtin_interp<F: FloatOps>(func: Builtin, args: &[Value]) -> (r: Result<Value, String>)
    ensures
        builtin_spec(func, args@, r),
{
    match func {
        Builtin::Str => interp_str::<F>(args),
        Builtin::Int => interp_int::<F>(args),
        Builtin::Float => interp_float::<F>(args),
        Builtin::Bool => interp_bool(args),
        Builtin::Len => interp_len(args),
        Builtin::Range => interp_range(args),
        Builtin::Repr => interp_repr::<F>(args),
        Builtin::Abs => interp_abs(args),
        Builtin::Min => interp_min::<F>(args),
        Builtin::Max => interp_max::<F>(args),
        Builtin::Sum => interp_sum::<F>(args),
    }
}

/// `v` is the native function of the builtin named `n`.
pub open spec fn native_for(v: Value, n: Seq<char>) -> bool {
    v matches Value::NativeFunction { name, func } && name@ == n && func == builtin_named(n)
}

/// `after` is `before` with each builtin's symbol (its position in `names`)
/// bound to that builtin's native function, and nothing else changed.
pub open spec fn builtins_bound(names: Seq<Seq<char>>, before: Map<u32, Value>, after: Map<u32, Value>) -> bool {
    &&& forall|s: u32|
        (s as int) < names.len() && is_builtin_name(#[trigger] names[s as int]) ==> after.contains_key(s)
            && native_for(after[s], names[s as int])
    &&& forall|s: u32|
        !((s as int) < names.len() && is_builtin_name(names[s as int])) ==> {
            &&& #[trigger] after.contains_key(s) == before.contains_key(s)
            &&& before.contains_key(s) ==> after[s] == before[s]
        }
}

/// What registering the builtins under `names` does to globals `before`.
proof fn lemma_bind_one(
    names0: Seq<Seq<char>>,
    names1: Seq<Seq<char>>,
    g0: Map<u32, Value>,
    g1: Map<u32, Value>,
    before: Map<u32, Value>,
    sym: u32,
    i: int,
)
    requires
        distinct_names(names1),
        names1.len() >= names0.len(),
        names1.subrange(0, names0.len() as int) == names0,
        names1.len() > names0.len() ==> names1.len() == names0.len() + 1 && sym == names0.len(),
        (sym as int) < names1.len(),
        builtin_index(names1[sym as int]) == i,
        0 <= i < 11,
        g1 == g0.insert(sym, g1[sym]),
        native_for(g1[sym], names1[sym as int]),
        forall|s: u32|
            (s as int) < names0.len() && builtin_index(#[trigger] names0[s as int]) < i ==> g0.contains_key(s)
                && native_for(g0[s], names0[s as int]),
        forall|s: u32|
            !((s as int) < names0.len() && builtin_index(names0[s as int]) < i) ==> {
                &&& #[trigger] g0.contains_key(s) == before.contains_key(s)
                &&& before.contains_key(s) ==> g0[s] == before[s]
            },
    ensures
        forall|s: u32|
            (s as int) < names1.len() && builtin_index(#[trigger] names1[s as int]) < i + 1 ==> g1.contains_key(s)
                && native_for(g1[s], names1[s as int]),
        forall|s: u32|
            !((s as int) < names1.len() && builtin_index(names1[s as int]) < i + 1) ==> {
                &&& #[trigger] g1.contains_key(s) == before.contains_key(s)
                &&& before.contains_key(s) ==> g1[s] == before[s]
            },
{
    assert forall|s: u32|
        (s as int) < names1.len() && builtin_index(#[trigger] names1[s as int]) < i + 1 implies g1.contains_key(s)
            && native_for(g1[s], names1[s as int]) by {
        if s != sym {
            assert(names1[s as int] != names1[sym as int]);
            assert((s as int) < names0.len());
            assert(names0[s as int] == names1[s as int]);
        }
    }
    assert forall|s: u32|
        !((s as int) < names1.len() && builtin_index(names1[s as int]) < i + 1) implies {
            &&& #[trigger] g1.contains_key(s) == before.contains_key(s)
            &&& before.contains_key(s) ==> g1[s] == before[s]
        } by {
        assert(s != sym);
        if (s as int) < names0.len() {
            assert(names0[s as int] == names1[s as int]);
        }
        assert(g1.contains_key(s) == g0.contains_key(s));
        assert(g0.contains_key(s) == before.contains_key(s));
        if before.contains_key(s) {
            assert(g1[s] == g0[s]);
        }
    }
}

/// Interns each builtin's name and binds it as a global of the interpreter
/// to a native function.
pub fn register_python_builtins_interp(interp: &mut Interpreter)
    requires
        old(interp).interner_view().wf(),
        old(interp).interner_view()@.len() + 11 < u32::MAX,
    ensures
        final(interp).interner_view().wf(),
        final(interp).interner_view()@.len() <= old(interp).interner_view()@.len() + 11,
        final(interp).interner_view()@.subrange(0, old(interp).interner_view()@.len() as int)
            == old(interp).interner_view()@,
        forall|n: Seq<char>| is_builtin_name(n) ==> #[trigger] final(interp).interner_view()@.contains(n),
        builtins_bound(
            final(interp).interner_view()@,
            old(interp).env_view().globals_view(),
            final(interp).env_view().globals_view(),
        ),
        final(interp).env_view().depth() == old(interp).env_view().depth(),
        final(interp).output_view() == old(interp).output_view(),
        final(interp).suppressed() == old(interp).suppressed(),
{
    let table = builtin_table();
    let ghost names0 = old(interp).interner_view()@;
    let ghost before = old(interp).env_view().globals_view();
    let mut i: usize = 0;
    while i < table.len()
        invariant
            table@.len() == 11,
            forall|k: int| 0 <= k < 11 ==> builtin_index((#[trigger] table@[k]).0@) == k && table@[k].1 == builtin_funcs()[k],
            i <= 11,
            names0.len() + 11 < u32::MAX,
            interp.interner_view().wf(),
            names0.len() <= interp.interner_view()@.len() <= names0.len() + i,
            interp.interner_view()@.subrange(0, names0.len() as int) == names0,
            forall|n: Seq<char>| builtin_index(n) < i ==> #[trigger] interp.interner_view()@.contains(n),
            forall|s: u32|
                (s as int) < interp.interner_view()@.len() && builtin_index(#[trigger] interp.interner_view()@[s as int]) < i
                    ==> interp.env_view().globals_view().contains_key(s)
                    && native_for(interp.env_view().globals_view()[s], interp.interner_view()@[s as int]),
            forall|s: u32|
                !((s as int) < interp.interner_view()@.len() && builtin_index(interp.interner_view()@[s as int]) < i) ==> {
                    &&& #[trigger] interp.env_view().globals_view().contains_key(s) == before.contains_key(s)
                    &&& before.contains_key(s) ==> interp.env_view().globals_view()[s] == before[s]
                },
            interp.env_view().depth() == old(interp).env_view().depth(),
            interp.output_view() == old(interp).output_view(),
            interp.suppressed() == old(interp).suppressed(),
        decreases 11 - i,
    {
        let (name, func) = table[i];
        let ghost names_a = interp.interner_view()@;
        let ghost g0 = interp.env_view().globals_view();
        let interner = interp.interner_mut();
        let sym = interner.intern(name);
        let native = Value::NativeFunction { name: Rc::new(owned(name)), func };
        interp.set_global(sym, native);
        proof {
            let names_b = interp.interner_view()@;
            let g1 = interp.env_view().globals_view();
            assert(builtin_index(name@) == i);
            assert(native_for(native, names_b[sym.0 as int]));
            assert(g1 == g0.insert(sym.0, g1[sym.0]));
            if names_a.contains(name@) {
                assert(names_b =~= names_a);
            } else {
                assert(names_b =~= names_a.push(name@));
            }
            assert(names_b.subrange(0, names_a.len() as int) =~= names_a);
            assert(names_b.subrange(0, names0.len() as int) =~= names0) by {
                assert forall|k: int| 0 <= k < names0.len() implies names_b[k] == names0[k] by {
                    assert(names_a.subrange(0, names0.len() as int)[k] == names0[k]);
                }
            }
            lemma_bind_one(names_a, names_b, g0, g1, before, sym.0, i as int);
            assert forall|n: Seq<char>| builtin_index(n) < i + 1 implies #[trigger] names_b.contains(n) by {
                if builtin_index(n) < i {
                    assert(names_a.contains(n));
                    let k = choose|k: int| 0 <= k < names_a.len() && names_a[k] == n;
                    assert(names_b[k] == n);
                } else {
                    assert(names_b[sym.0 as int] == n);
                }
            }
        }
        i = i + 1;
    }
}

} // verus!
