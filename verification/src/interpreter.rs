//! The tree-walking interpreter: it runs the syntax tree directly, with
//! globals in a map and each call's locals in slots of its frame.
use vstd::prelude::*;

use std::collections::HashMap;
use std::rc::Rc;

use crate::ast::{BinOp, CmpOp, Expr, Stmt, UnaryOp};
use crate::bytecode::{rc_clone, Builtin};
use crate::float::{float_literal, float_eq, float_is_zero, eq_bits, is_zero_bits, FloatOps};
use crate::symbol::{Interner, Symbol};
use crate::interp_builtins::call_builtin_interp;
use crate::interp_ops::{
    add_spec, binary_add, binary_div, binary_floor_div, binary_mod, binary_mul, binary_pow,
    binary_sub, compare_in, compare_not_in, contains_value, copy_values, div_spec, floor_div_spec,
    in_spec, less_equal, less_than, list_contains, mod_spec, mul_spec, not_in_spec, pow_spec,
    sub_spec, subscript, values_less, values_less_equal,
};
use crate::ops::{chars_lt, is_substring};
use crate::semantics::{
    bind_params, call_entry, floats_absent, print_text, with_env,
    block_rel, call_rel, compare_rel, elifs_rel, eval_rel, exec_rel, exprs_rel, for_items_rel,
    for_rel, if_rel, leaf, pairs_rel, pick_block, pick_call, pick_compare, pick_elifs, pick_eval,
    pick_exec, pick_exprs, pick_for, pick_for_items, pick_if, pick_pairs, pick_run, pick_while,
    run_rel, steps, valid_block, valid_call, valid_compare, valid_elifs, valid_eval, valid_exec,
    valid_exprs, valid_for, valid_for_items, valid_if, valid_pairs, valid_run, valid_while,
    while_rel, IState, Outcome,
};
use crate::text::{decimal_digits, i64_text, int_text, owned, push_char, str_equal, str_to_chars, string_from_chars, u64_text};

verus! {

broadcast use vstd::std_specs::vec::group_vec_axioms;

/// A function value: its definition, and a slot for each local variable
/// (parameters first, then every name the body assigns).
pub struct FunctionObj {
    pub name: Symbol,
    pub params: Vec<Symbol>,
    pub body: Vec<Stmt>,
    /// Local variable slots, keyed by the symbol's id.
    pub local_slots: HashMap<u32, usize>,
    pub num_locals: usize,
}

/// A value of the interpreter. A float is kept as its IEEE-754 bit pattern;
/// strings, lists and dicts are shared, never changed in place.
pub enum Value {
    Integer(i64),
    Float(u64),
    String(Rc<String>),
    Boolean(bool),
    List(Rc<Vec<Value>>),
    Dict(Rc<Vec<(Value, Value)>>),
    NoneVal,
    Function(Rc<FunctionObj>),
    NativeFunction { name: Rc<String>, func: Builtin },
}

/// Python truthiness.
pub open spec fn truthy(v: Value) -> bool {
    match v {
        Value::Boolean(b) => b,
        Value::Integer(n) => n != 0,
        Value::Float(f) => !float_is_zero(f),
        Value::String(s) => s@.len() != 0,
        Value::List(l) => l@.len() != 0,
        Value::Dict(d) => d@.len() != 0,
        Value::NoneVal => false,
        Value::Function(_) => true,
        Value::NativeFunction { .. } => true,
    }
}

/// Equality of values as `==` computes it: numbers, strings, booleans and
/// `None` by value, lists and dicts element by element, functions by name
/// and parameters, builtins by name and function.
pub open spec fn value_eq(a: Value, b: Value) -> bool
    decreases a, 1int,
{
    match a {
        Value::Integer(x) => b matches Value::Integer(y) && x == y,
        Value::Float(x) => b matches Value::Float(y) && float_eq(x, y),
        Value::String(x) => b matches Value::String(y) && x@ == y@,
        Value::Boolean(x) => b matches Value::Boolean(y) && x == y,
        Value::List(x) => b matches Value::List(y) && values_eq(x@, y@),
        Value::Dict(x) => b matches Value::Dict(y) && pairs_eq(x@, y@),
        Value::Function(f) => b matches Value::Function(g) && f.name == g.name && f.params@ == g.params@,
        Value::NativeFunction { name: x, func: fx } => b matches Value::NativeFunction { name: y, func: fy }
            && x@ == y@ && fx == fy,
        Value::NoneVal => b is NoneVal,
    }
}

/// Element-wise equality of two sequences of key-value pairs.
pub open spec fn pairs_eq(xs: Seq<(Value, Value)>, ys: Seq<(Value, Value)>) -> bool
    decreases xs, 0int,
{
    xs.len() == ys.len() && (xs.len() == 0 || (pair_eq(xs[0], ys[0]) && pairs_eq(
        xs.subrange(1, xs.len() as int),
        ys.subrange(1, ys.len() as int),
    )))
}

/// Equal keys and equal values.
pub open spec fn pair_eq(p: (Value, Value), q: (Value, Value)) -> bool
    decreases p, 0int,
{
    value_eq(p.0, q.0) && value_eq(p.1, q.1)
}

/// Whether no float occurs in the value (their text comes from `FloatOps`).
pub open spec fn float_free(v: Value) -> bool
    decreases v, 2int,
{
    match v {
        Value::Float(_) => false,
        Value::List(x) => all_float_free(x@),
        Value::Dict(d) => pairs_float_free(d@),
        _ => true,
    }
}

pub open spec fn all_float_free(xs: Seq<Value>) -> bool
    decreases xs, 1int,
{
    xs.len() == 0 || (all_float_free(xs.subrange(0, xs.len() - 1)) && float_free(xs[xs.len() - 1]))
}

pub open spec fn pairs_float_free(ps: Seq<(Value, Value)>) -> bool
    decreases ps, 1int,
{
    ps.len() == 0 || (pairs_float_free(ps.subrange(0, ps.len() - 1)) && float_free(
        ps[ps.len() - 1].0,
    ) && float_free(ps[ps.len() - 1].1))
}

/// The text `print` shows for a value (for floats, see `FloatOps::to_text`).
pub open spec fn display_text(v: Value) -> Seq<char>
    decreases v, 2int,
{
    match v {
        Value::Integer(n) => int_text(n as int),
        Value::Float(_) => Seq::empty(),
        Value::String(s) => s@,
        Value::Boolean(b) => if b {
            "True"@
        } else {
            "False"@
        },
        Value::List(x) => "["@ + items_text(x@) + "]"@,
        Value::Dict(d) => "{"@ + pairs_text(d@) + "}"@,
        Value::NoneVal => "None"@,
        Value::Function(f) => "<function Symbol("@ + decimal_digits(f.name.0 as nat) + ")>"@,
        Value::NativeFunction { name, .. } => "<native:"@ + name@ + ">"@,
    }
}

/// Items of a list, separated by `, `; strings in single quotes.
pub open spec fn items_text(xs: Seq<Value>) -> Seq<char>
    decreases xs, 1int,
{
    if xs.len() == 0 {
        Seq::empty()
    } else {
        let init = xs.subrange(0, xs.len() - 1);
        let item = xs[xs.len() - 1];
        let sep = if xs.len() > 1 {
            ", "@
        } else {
            Seq::empty()
        };
        items_text(init) + sep + match item {
            Value::String(s) => "'"@ + s@ + "'"@,
            _ => display_text(item),
        }
    }
}

/// Entries of a dict as `key: value`, separated by `, `.
pub open spec fn pairs_text(ps: Seq<(Value, Value)>) -> Seq<char>
    decreases ps, 1int,
{
    if ps.len() == 0 {
        Seq::empty()
    } else {
        let init = ps.subrange(0, ps.len() - 1);
        let p = ps[ps.len() - 1];
        let sep = if ps.len() > 1 {
            ", "@
        } else {
            Seq::empty()
        };
        pairs_text(init) + sep + display_text(p.0) + ": "@ + display_text(p.1)
    }
}

/// Element-wise equality of two sequences of values.
pub open spec fn values_eq(xs: Seq<Value>, ys: Seq<Value>) -> bool
    decreases xs, 0int,
{
    xs.len() == ys.len() && (xs.len() == 0 || (value_eq(xs[0], ys[0]) && values_eq(
        xs.subrange(1, xs.len() as int),
        ys.subrange(1, ys.len() as int),
    )))
}

/// `values_eq` holds when the sequences have equal lengths and equal
/// elements at every position.
pub proof fn lemma_values_eq(xs: Seq<Value>, ys: Seq<Value>)
    ensures
        values_eq(xs, ys) <==> (xs.len() == ys.len() && forall|i: int|
            0 <= i < xs.len() ==> #[trigger] value_eq(xs[i], ys[i])),
    decreases xs.len(),
{
    if xs.len() == ys.len() && xs.len() > 0 {
        let xt = xs.subrange(1, xs.len() as int);
        let yt = ys.subrange(1, ys.len() as int);
        lemma_values_eq(xt, yt);
        if values_eq(xs, ys) {
            assert forall|i: int| 0 <= i < xs.len() implies #[trigger] value_eq(xs[i], ys[i]) by {
                if i > 0 {
                    assert(xt[i - 1] == xs[i]);
                    assert(yt[i - 1] == ys[i]);
                }
            }
        }
        if forall|i: int| 0 <= i < xs.len() ==> #[trigger] value_eq(xs[i], ys[i]) {
            assert forall|i: int| 0 <= i < xt.len() implies #[trigger] value_eq(xt[i], yt[i]) by {
                assert(value_eq(xs[i + 1], ys[i + 1]));
            }
            assert(value_eq(xs[0], ys[0]));
            assert(values_eq(xt, yt));
            assert(values_eq(xs, ys));
        }
    }
}

/// `pairs_eq` holds when the sequences have equal lengths and equal keys
/// and values at every position.
pub proof fn lemma_pairs_eq(xs: Seq<(Value, Value)>, ys: Seq<(Value, Value)>)
    ensures
        pairs_eq(xs, ys) <==> (xs.len() == ys.len() && forall|i: int|
            0 <= i < xs.len() ==> #[trigger] pair_eq(xs[i], ys[i])),
    decreases xs.len(),
{
    if xs.len() == ys.len() && xs.len() > 0 {
        let xt = xs.subrange(1, xs.len() as int);
        let yt = ys.subrange(1, ys.len() as int);
        lemma_pairs_eq(xt, yt);
        if pairs_eq(xs, ys) {
            assert forall|i: int| 0 <= i < xs.len() implies #[trigger] pair_eq(xs[i], ys[i]) by {
                if i > 0 {
                    assert(xt[i - 1] == xs[i]);
                    assert(yt[i - 1] == ys[i]);
                }
            }
        }
        if forall|i: int| 0 <= i < xs.len() ==> #[trigger] pair_eq(xs[i], ys[i]) {
            assert forall|i: int| 0 <= i < xt.len() implies #[trigger] pair_eq(xt[i], yt[i]) by {
                assert(pair_eq(xs[i + 1], ys[i + 1]));
            }
            assert(pair_eq(xs[0], ys[0]));
            assert(pairs_eq(xt, yt));
            assert(pairs_eq(xs, ys));
        }
    }
}

proof fn lemma_all_float_free_prefix(xs: Seq<Value>, k: int)
    requires
        0 <= k <= xs.len(),
        all_float_free(xs),
    ensures
        all_float_free(xs.subrange(0, k)),
        k > 0 ==> float_free(xs[k - 1]),
    decreases xs.len() - k,
{
    if k < xs.len() {
        lemma_all_float_free_prefix(xs, k + 1);
        let p = xs.subrange(0, k + 1);
        assert(p.subrange(0, p.len() - 1) =~= xs.subrange(0, k));
        assert(p[p.len() - 1] == xs[k]);
    } else {
        assert(xs.subrange(0, k) =~= xs);
    }
    if k > 0 {
        let q = xs.subrange(0, k);
        assert(q[q.len() - 1] == xs[k - 1]);
        assert(all_float_free(q));
        assert(float_free(q[q.len() - 1]));
    }
}

proof fn lemma_pairs_float_free_prefix(ps: Seq<(Value, Value)>, k: int)
    requires
        0 <= k <= ps.len(),
        pairs_float_free(ps),
    ensures
        pairs_float_free(ps.subrange(0, k)),
    decreases ps.len() - k,
{
    if k < ps.len() {
        lemma_pairs_float_free_prefix(ps, k + 1);
        let p = ps.subrange(0, k + 1);
        assert(p.subrange(0, p.len() - 1) =~= ps.subrange(0, k));
    } else {
        assert(ps.subrange(0, k) =~= ps);
    }
}

impl Value {
    pub fn is_truthy(&self) -> (r: bool)
        ensures
            r == truthy(*self),
    {
        match self {
            Value::Boolean(b) => *b,
            Value::Integer(n) => *n != 0,
            Value::Float(f) => !is_zero_bits(*f),
            Value::String(s) => !s.as_str().is_empty(),
            Value::List(l) => l.len() != 0,
            Value::Dict(d) => d.len() != 0,
            Value::NoneVal => false,
            Value::Function(_) => true,
            Value::NativeFunction { .. } => true,
        }
    }

    /// A copy of the value; shared parts are shared.
    pub fn copy(&self) -> (r: Value)
        ensures
            r == *self,
    {
        match self {
            Value::Integer(n) => Value::Integer(*n),
            Value::Float(f) => Value::Float(*f),
            Value::String(s) => Value::String(rc_clone(s)),
            Value::Boolean(b) => Value::Boolean(*b),
            Value::List(l) => Value::List(rc_clone(l)),
            Value::Dict(pairs) => Value::Dict(rc_clone(pairs)),
            Value::NoneVal => Value::NoneVal,
            Value::Function(f) => Value::Function(rc_clone(f)),
            Value::NativeFunction { name, func } => Value::NativeFunction {
                name: rc_clone(name),
                func: *func,
            },
        }
    }

    /// The text `print` shows for the value; floats are rendered by `F`.
    pub fn to_text<F: FloatOps>(&self) -> (r: String)
        ensures
            float_free(*self) ==> r@ == display_text(*self),
            *self matches Value::Float(x) ==> call_ensures(F::to_text, (x,), r),
        decreases self,
    {
        match self {
            Value::Integer(n) => i64_text(*n),
            Value::Float(f) => F::to_text(*f),
            Value::String(s) => owned(s.as_str()),
            Value::Boolean(b) => if *b {
                owned("True")
            } else {
                owned("False")
            },
            Value::List(items) => {
                let mut out = owned("[");
                let mut i: usize = 0;
                while i < items.len()
                    invariant
                        *self == Value::List(*items),
                        i <= items@.len(),
                        all_float_free(items@) ==> out@ == "["@ + items_text(items@.subrange(0, i as int)),
                    decreases items@.len() - i,
                {
                    let ghost sv: Value = *self;
                    let ghost pre = items@.subrange(0, i as int);
                    let ghost next = items@.subrange(0, i + 1);
                    proof {
                        assert(sv->List_0@[i as int] == items@[i as int]);
                        assert(decreases_to!(sv => sv->List_0@[i as int]));
                        assert(next.subrange(0, next.len() - 1) =~= pre);
                        if all_float_free(items@) {
                            lemma_all_float_free_prefix(items@, i + 1);
                        }
                    }
                    if i > 0 {
                        out.append(", ");
                    }
                    match &items[i] {
                        Value::String(s) => {
                            out.append("'");
                            out.append(s.as_str());
                            out.append("'");
                        },
                        item => {
                            let t = item.to_text::<F>();
                            out.append(t.as_str());
                        },
                    }
                    proof {
                        if all_float_free(items@) {
                            assert(all_float_free(next));
                            assert(float_free(next[next.len() - 1]));
                            assert(out@ =~= "["@ + items_text(next));
                        }
                    }
                    i = i + 1;
                }
                out.append("]");
                proof {
                    assert(items@.subrange(0, items@.len() as int) =~= items@);
                }
                out
            },
            Value::Dict(pairs) => {
                let mut out = owned("{");
                let mut i: usize = 0;
                while i < pairs.len()
                    invariant
                        *self == Value::Dict(*pairs),
                        i <= pairs@.len(),
                        pairs_float_free(pairs@) ==> out@ == "{"@ + pairs_text(pairs@.subrange(0, i as int)),
                    decreases pairs@.len() - i,
                {
                    let ghost sv: Value = *self;
                    let ghost pre = pairs@.subrange(0, i as int);
                    let ghost next = pairs@.subrange(0, i + 1);
                    proof {
                        assert(sv->Dict_0@[i as int] == pairs@[i as int]);
                        assert(decreases_to!(sv => sv->Dict_0@[i as int]));
                        assert(decreases_to!(sv => sv->Dict_0@[i as int].0));
                        assert(decreases_to!(sv => sv->Dict_0@[i as int].1));
                        assert(next.subrange(0, next.len() - 1) =~= pre);
                        if pairs_float_free(pairs@) {
                            lemma_pairs_float_free_prefix(pairs@, i + 1);
                        }
                    }
                    if i > 0 {
                        out.append(", ");
                    }
                    let k = pairs[i].0.to_text::<F>();
                    let v = pairs[i].1.to_text::<F>();
                    out.append(k.as_str());
                    out.append(": ");
                    out.append(v.as_str());
                    proof {
                        if pairs_float_free(pairs@) {
                            assert(pairs_float_free(next));
                            assert(out@ =~= "{"@ + pairs_text(next));
                        }
                    }
                    i = i + 1;
                }
                out.append("}");
                proof {
                    assert(pairs@.subrange(0, pairs@.len() as int) =~= pairs@);
                }
                out
            },
            Value::NoneVal => owned("None"),
            Value::Function(f) => {
                let mut out = owned("<function Symbol(");
                let id = u64_text(f.name.0 as u64);
                out.append(id.as_str());
                out.append(")>");
                out
            },
            Value::NativeFunction { name, .. } => {
                let mut out = owned("<native:");
                out.append(name.as_str());
                out.append(">");
                out
            },
        }
    }

    /// `==` on values, as `value_eq` states.
    pub fn equals(&self, other: &Value) -> (r: bool)
        ensures
            r == value_eq(*self, *other),
        decreases self,
    {
        match self {
            Value::Integer(a) => match other {
                Value::Integer(b) => *a == *b,
                _ => false,
            },
            Value::Float(a) => match other {
                Value::Float(b) => eq_bits(*a, *b),
                _ => false,
            },
            Value::String(a) => match other {
                Value::String(b) => {
                    let r = **a == **b;
                    assert(r == value_eq(*self, *other));
                    r
                },
                _ => false,
            },
            Value::Boolean(a) => match other {
                Value::Boolean(b) => *a == *b,
                _ => false,
            },
            Value::List(a) => match other {
                Value::List(b) => {
                    if a.len() != b.len() {
                        return false;
                    }
                    let mut i: usize = 0;
                    proof {
                        lemma_values_eq(a@, b@);
                    }
                    while i < a.len()
                        invariant
                            values_eq(a@, b@) <==> (a@.len() == b@.len() && forall|j: int|
                                0 <= j < a@.len() ==> #[trigger] value_eq(a@[j], b@[j])),
                            *self == Value::List(*a),
                            *other == Value::List(*b),
                            i <= a@.len(),
                            a@.len() == b@.len(),
                            forall|j: int| 0 <= j < i ==> #[trigger] value_eq(a@[j], b@[j]),
                        decreases a@.len() - i,
                    {
                        proof {
                            let ghost sv: Value = *self;
                            assert(sv is List);
                            assert(sv->List_0@[i as int] == a@[i as int]);
                            assert(decreases_to!(sv => sv->List_0@[i as int]));
                        }
                        if !a[i].equals(&b[i]) {
                            return false;
                        }
                        i = i + 1;
                    }
                    true
                },
                _ => false,
            },
            Value::Dict(a) => match other {
                Value::Dict(b) => {
                    if a.len() != b.len() {
                        return false;
                    }
                    let mut i: usize = 0;
                    proof {
                        lemma_pairs_eq(a@, b@);
                    }
                    while i < a.len()
                        invariant
                            pairs_eq(a@, b@) <==> (a@.len() == b@.len() && forall|j: int|
                                0 <= j < a@.len() ==> #[trigger] pair_eq(a@[j], b@[j])),
                            *self == Value::Dict(*a),
                            *other == Value::Dict(*b),
                            i <= a@.len(),
                            a@.len() == b@.len(),
                            forall|j: int| 0 <= j < i ==> #[trigger] pair_eq(a@[j], b@[j]),
                        decreases a@.len() - i,
                    {
                        proof {
                            let ghost sv: Value = *self;
                            assert(sv->Dict_0@[i as int] == a@[i as int]);
                            assert(decreases_to!(sv => sv->Dict_0@[i as int].0));
                            assert(decreases_to!(sv => sv->Dict_0@[i as int].1));
                        }
                        if !a[i].0.equals(&b[i].0) || !a[i].1.equals(&b[i].1) {
                            proof {
                                assert(!pair_eq(a@[i as int], b@[i as int]));
                            }
                            return false;
                        }
                        i = i + 1;
                    }
                    true
                },
                _ => false,
            },
            Value::Function(f) => match other {
                Value::Function(g) => {
                    if f.name != g.name || f.params.len() != g.params.len() {
                        return false;
                    }
                    let mut i: usize = 0;
                    while i < f.params.len()
                        invariant
                            *self == Value::Function(*f),
                            *other == Value::Function(*g),
                            i <= f.params@.len(),
                            f.params@.len() == g.params@.len(),
                            forall|j: int| 0 <= j < i ==> f.params@[j] == g.params@[j],
                        decreases f.params@.len() - i,
                    {
                        if f.params[i] != g.params[i] {
                            proof {
                                assert(f.params@[i as int] != g.params@[i as int]);
                                assert(f.params@ != g.params@);
                            }
                            return false;
                        }
                        i = i + 1;
                    }
                    proof {
                        assert(f.params@ =~= g.params@);
                    }
                    true
                },
                _ => false,
            },
            Value::NativeFunction { name: a, func: fa } => match other {
                Value::NativeFunction { name: b, func: fb } => **a == **b && *fa == *fb,
                _ => false,
            },
            Value::NoneVal => match other {
                Value::NoneVal => true,
                _ => false,
            },
        }
    }
}


/// The slots of the parameters `ps[..k]`: parameter `i` gets slot `i` (a
/// name given twice keeps its last slot).
pub open spec fn param_slots(ps: Seq<Symbol>, k: int) -> Map<u32, usize>
    decreases k,
{
    if k <= 0 {
        Map::empty()
    } else {
        param_slots(ps, k - 1).insert(ps[k - 1].0, (k - 1) as usize)
    }
}

/// Giving `name` the next free slot `idx`, unless it has a slot or every
/// slot is taken.
pub open spec fn give_slot_spec(m: Map<u32, usize>, idx: usize, name: u32) -> (Map<u32, usize>, usize) {
    if !m.contains_key(name) && idx < usize::MAX {
        (m.insert(name, idx), (idx + 1) as usize)
    } else {
        (m, idx)
    }
}

/// The slots after giving one to every name that `ss[i..]` assigns (as a
/// target of `=`, an augmented assignment or a `for`), in order, looking
/// into nested blocks but not into nested function definitions.
pub open spec fn scan_stmts(ss: Seq<Stmt>, i: int, m: Map<u32, usize>, idx: usize) -> (Map<u32, usize>, usize)
    decreases ss, 0int, ss.len() - i,
{
    if i < 0 || i >= ss.len() {
        (m, idx)
    } else {
        let (m1, idx1) = scan_stmt(ss[i], m, idx);
        scan_stmts(ss, i + 1, m1, idx1)
    }
}

/// The slots after scanning one statement.
pub open spec fn scan_stmt(st: Stmt, m: Map<u32, usize>, idx: usize) -> (Map<u32, usize>, usize)
    decreases st, 1int, 0int,
{
    match st {
        Stmt::Assign { target, .. } => give_slot_spec(m, idx, target.0),
        Stmt::AugAssign { target, .. } => give_slot_spec(m, idx, target.0),
        Stmt::For { target, body, .. } => {
            let (m1, idx1) = give_slot_spec(m, idx, target.0);
            scan_stmts(body@, 0, m1, idx1)
        },
        Stmt::If { body, else_body, .. } => {
            let (m1, idx1) = scan_stmts(body@, 0, m, idx);
            let (m2, idx2) = scan_elifs(st, 0, m1, idx1);
            match else_body {
                Some(b) => scan_stmts(b@, 0, m2, idx2),
                None => (m2, idx2),
            }
        },
        Stmt::While { body, .. } => scan_stmts(body@, 0, m, idx),
        _ => (m, idx),
    }
}

/// The slots after scanning the `elif` blocks of `st` from clause `j` on.
pub open spec fn scan_elifs(st: Stmt, j: int, m: Map<u32, usize>, idx: usize) -> (Map<u32, usize>, usize)
    decreases st, 0int, st->elif_clauses@.len() - j,
{
    if st is If && 0 <= j < st->elif_clauses@.len() {
        let (m1, idx1) = scan_stmts(st->elif_clauses@[j].1@, 0, m, idx);
        scan_elifs(st, j + 1, m1, idx1)
    } else {
        (m, idx)
    }
}

/// A scan of a function body: the slots given so far and the next free one.
/// Every slot lies below the next free one.
pub open spec fn slots_below(slots: Map<u32, usize>, next: usize) -> bool {
    forall|k: u32| slots.contains_key(k) ==> #[trigger] slots[k] < next
}

/// Gives every parameter and every name the body assigns a slot:
/// parameters first, in order, then assigned names in order of first
/// assignment (`scan_stmts`). Returns the slots and their number; every slot
/// lies below that number.
pub fn collect_locals(params: &[Symbol], body: &[Stmt]) -> (r: (HashMap<u32, usize>, usize))
    ensures
        (r.0@, r.1) == scan_stmts(body@, 0, param_slots(params@, params@.len() as int), params@.len() as usize),
        slots_below(r.0@, r.1),
        forall|i: int| 0 <= i < params@.len() ==> r.0@.contains_key(#[trigger] params@[i].0),
{
    let mut slots: HashMap<u32, usize> = HashMap::new();
    let mut idx: usize = 0;
    let mut i: usize = 0;
    assert(slots@ =~= param_slots(params@, 0));
    while i < params.len()
        invariant
            i <= params@.len(),
            idx == i,
            slots@ == param_slots(params@, i as int),
            slots_below(slots@, idx),
            forall|j: int| 0 <= j < i ==> slots@.contains_key(#[trigger] params@[j].0),
        decreases params@.len() - i,
    {
        slots.insert(params[i].0, idx);
        idx = idx + 1;
        i = i + 1;
    }
    scan_assigns(body, &mut slots, &mut idx);
    (slots, idx)
}

/// Gives a slot to every name the statements assign (`scan_stmts`). Names
/// that have a slot keep it.
fn scan_assigns(stmts: &[Stmt], slots: &mut HashMap<u32, usize>, idx: &mut usize)
    requires
        slots_below(old(slots)@, *old(idx)),
    ensures
        (final(slots)@, *final(idx)) == scan_stmts(stmts@, 0, old(slots)@, *old(idx)),
        slots_below(final(slots)@, *final(idx)),
        *old(idx) <= *final(idx),
        forall|k: u32| old(slots)@.contains_key(k) ==> #[trigger] final(slots)@.contains_key(k),
    decreases stmts@,
{
    let mut i: usize = 0;
    while i < stmts.len()
        invariant
            i <= stmts@.len(),
            scan_stmts(stmts@, 0, old(slots)@, *old(idx)) == scan_stmts(stmts@, i as int, slots@, *idx),
            slots_below(slots@, *idx),
            *old(idx) <= *idx,
            forall|k: u32| old(slots)@.contains_key(k) ==> #[trigger] slots@.contains_key(k),
        decreases stmts@.len() - i,
    {
        let ghost st: Stmt = stmts@[i as int];
        let ghost m0 = slots@;
        let ghost i0 = *idx;
        match &stmts[i] {
            Stmt::Assign { target, .. } | Stmt::AugAssign { target, .. } => {
                give_slot(slots, idx, target.0);
            },
            Stmt::For { target, body, .. } => {
                give_slot(slots, idx, target.0);
                proof {
                    assert(decreases_to!(stmts@ => st));
                    assert(decreases_to!(st => st->For_body@));
                }
                scan_assigns(body.as_slice(), slots, idx);
            },
            Stmt::If { body, elif_clauses, else_body, .. } => {
                proof {
                    assert(decreases_to!(stmts@ => st));
                    assert(decreases_to!(st => st->If_body@));
                }
                scan_assigns(body.as_slice(), slots, idx);
                let ghost after_body = (slots@, *idx);
                let mut j: usize = 0;
                while j < elif_clauses.len()
                    invariant
                        st == (Stmt::If { condition: st->If_condition, body: *body, elif_clauses: *elif_clauses, else_body: *else_body }),
                        decreases_to!(stmts@ => st),
                        j <= elif_clauses@.len(),
                        scan_elifs(st, 0, after_body.0, after_body.1) == scan_elifs(st, j as int, slots@, *idx),
                        slots_below(slots@, *idx),
                        *old(idx) <= *idx,
                        forall|k: u32| old(slots)@.contains_key(k) ==> #[trigger] slots@.contains_key(k),
                    decreases elif_clauses@.len() - j,
                {
                    proof {
                        assert(decreases_to!(st => st->elif_clauses@[j as int].1@));
                    }
                    scan_assigns(elif_clauses[j].1.as_slice(), slots, idx);
                    j = j + 1;
                }
                match else_body {
                    Some(b) => {
                        proof {
                            assert(decreases_to!(st => st->else_body->Some_0@));
                        }
                        scan_assigns(b.as_slice(), slots, idx);
                    },
                    None => {},
                }
            },
            Stmt::While { body, .. } => {
                proof {
                    assert(decreases_to!(stmts@ => st));
                    assert(decreases_to!(st => st->While_body@));
                }
                scan_assigns(body.as_slice(), slots, idx);
            },
            _ => {},
        }
        proof {
            assert((slots@, *idx) == scan_stmt(st, m0, i0));
        }
        i = i + 1;
    }
}

/// Gives `name` the next free slot unless it has one (`give_slot_spec`).
/// (With every `usize` slot taken, which no program in memory can reach,
/// the name stays without one and is then a global.)
fn give_slot(slots: &mut HashMap<u32, usize>, idx: &mut usize, name: u32)
    requires
        slots_below(old(slots)@, *old(idx)),
    ensures
        (final(slots)@, *final(idx)) == give_slot_spec(old(slots)@, *old(idx), name),
        slots_below(final(slots)@, *final(idx)),
        *old(idx) <= *final(idx),
        forall|k: u32| old(slots)@.contains_key(k) ==> #[trigger] final(slots)@.contains_key(k),
        *old(idx) < usize::MAX ==> final(slots)@.contains_key(name),
{
    if !slots.contains_key(&name) && *idx < usize::MAX {
        let i = *idx;
        slots.insert(name, i);
        *idx = i + 1;
    }
}

/// A call's frame: a slot for each local, unset until assigned.
struct CallFrame {
    locals: Vec<Option<Value>>,
    func: Rc<FunctionObj>,
}

/// A call's frame as the semantics sees it: the called function's slots and
/// the locals.
pub struct FrameV {
    pub slots: Map<u32, usize>,
    pub locals: Seq<Option<Value>>,
}

/// The variables: globals, and the frames of the calls in progress,
/// innermost last.
pub struct EnvV {
    pub globals: Map<u32, Value>,
    pub frames: Seq<FrameV>,
}

/// The slot of `n` in the innermost frame, when there is a frame, the name
/// has a slot and the slot lies inside the frame.
pub open spec fn env_slot(e: EnvV, n: u32) -> Option<int> {
    if e.frames.len() > 0 {
        let f = e.frames.last();
        if f.slots.contains_key(n) && f.slots[n] < f.locals.len() {
            Some(f.slots[n] as int)
        } else {
            None
        }
    } else {
        None
    }
}

/// The value of `n`: its local when it has a set slot in the innermost
/// frame, else its global.
pub open spec fn env_get(e: EnvV, n: u32) -> Option<Value> {
    match env_slot(e, n) {
        Some(k) if e.frames.last().locals[k] is Some => e.frames.last().locals[k],
        _ => if e.globals.contains_key(n) {
            Some(e.globals[n])
        } else {
            None
        },
    }
}

/// Assigning `n`: its slot in the innermost frame when it has one, else its
/// global.
pub open spec fn env_set(e: EnvV, n: u32, v: Value) -> EnvV {
    match env_slot(e, n) {
        Some(k) => {
            let f = e.frames.last();
            EnvV {
                globals: e.globals,
                frames: e.frames.update(
                    e.frames.len() - 1,
                    FrameV { slots: f.slots, locals: f.locals.update(k, Some(v)) },
                ),
            }
        },
        None => EnvV { globals: e.globals.insert(n, v), frames: e.frames },
    }
}

/// Assigning the global `n`.
pub open spec fn env_set_global(e: EnvV, n: u32, v: Value) -> EnvV {
    EnvV { globals: e.globals.insert(n, v), frames: e.frames }
}

/// Entering a call of `f`: a new frame with all its locals unset.
pub open spec fn env_push(e: EnvV, f: FunctionObj) -> EnvV {
    EnvV {
        globals: e.globals,
        frames: e.frames.push(
            FrameV { slots: f.local_slots@, locals: Seq::new(f.num_locals as nat, |i: int| None::<Value>) },
        ),
    }
}

/// Leaving the innermost call.
pub open spec fn env_pop(e: EnvV) -> EnvV {
    if e.frames.len() > 0 {
        EnvV { globals: e.globals, frames: e.frames.drop_last() }
    } else {
        e
    }
}

/// The frame of a call as the semantics sees it.
spec fn frame_view(f: CallFrame) -> FrameV {
    FrameV { slots: f.func.local_slots@, locals: f.locals@ }
}

/// Global variables, and the frames of the calls in progress.
pub struct Environment {
    globals: HashMap<u32, Value>,
    call_stack: Vec<CallFrame>,
}

impl Environment {
    /// The variables as the semantics sees them.
    pub closed spec fn model(&self) -> EnvV {
        EnvV { globals: self.globals@, frames: self.call_stack@.map_values(|f: CallFrame| frame_view(f)) }
    }

    pub open spec fn globals_view(&self) -> Map<u32, Value> {
        self.model().globals
    }

    /// The number of calls in progress.
    pub open spec fn depth(&self) -> nat {
        self.model().frames.len()
    }

    /// The slot of `name` in the current frame (`env_slot`).
    pub open spec fn local_slot(&self, name: u32) -> Option<int> {
        env_slot(self.model(), name)
    }

    /// The value a name has (`env_get`).
    pub open spec fn lookup(&self, name: u32) -> Option<Value> {
        env_get(self.model(), name)
    }

    pub fn new() -> (r: Self)
        ensures
            r.model() == (EnvV { globals: Map::empty(), frames: Seq::empty() }),
    {
        let r = Environment { globals: HashMap::new(), call_stack: Vec::new() };
        assert(r.model().frames =~= Seq::<FrameV>::empty());
        r
    }

    /// Enters a call of `func`, with all its locals unset.
    pub fn push_frame(&mut self, func: Rc<FunctionObj>)
        ensures
            final(self).model() == env_push(old(self).model(), *func),
    {
        let mut locals: Vec<Option<Value>> = Vec::new();
        let mut k: usize = 0;
        while k < func.num_locals
            invariant
                k <= func.num_locals,
                locals@.len() == k,
                forall|j: int| 0 <= j < k ==> #[trigger] locals@[j] is None,
            decreases func.num_locals - k,
        {
            locals.push(None);
            k = k + 1;
        }
        let ghost before = self.model();
        let ghost fr = CallFrame { locals, func };
        assert(locals@ =~= Seq::new(func.num_locals as nat, |i: int| None::<Value>));
        self.call_stack.push(CallFrame { locals, func });
        assert(self.model().frames =~= before.frames.push(frame_view(fr)));
    }

    /// Leaves the current call.
    pub fn pop_frame(&mut self)
        ensures
            final(self).model() == env_pop(old(self).model()),
    {
        let ghost before = self.model();
        self.call_stack.pop();
        assert(self.model().frames =~= env_pop(before).frames);
    }

    /// The value of a name (`lookup`).
    pub fn get(&self, name: Symbol) -> (r: Option<&Value>)
        ensures
            match r {
                Some(v) => self.lookup(name.0) == Some(*v),
                None => self.lookup(name.0) is None,
            },
    {
        let n = self.call_stack.len();
        if n > 0 {
            let frame = &self.call_stack[n - 1];
            assert(self.model().frames.last() == frame_view(*frame));
            match frame.func.local_slots.get(&name.0) {
                Some(slot) => {
                    if *slot < frame.locals.len() {
                        match &frame.locals[*slot] {
                            Some(v) => {
                                return Some(v);
                            },
                            None => {},
                        }
                    }
                },
                None => {},
            }
        }
        self.globals.get(&name.0)
    }

    /// Assigns a name: its local slot in the current frame when it has one,
    /// else its global (`env_set`). Reading the name afterwards gives the
    /// value.
    pub fn set(&mut self, name: Symbol, value: Value)
        ensures
            final(self).model() == env_set(old(self).model(), name.0, value),
            final(self).lookup(name.0) == Some(value),
    {
        let ghost before = self.model();
        let n = self.call_stack.len();
        if n > 0 {
            assert(before.frames.last() == frame_view(self.call_stack@[n - 1]));
            let slot_opt = match self.call_stack[n - 1].func.local_slots.get(&name.0) {
                Some(slot) => Some(*slot),
                None => None,
            };
            match slot_opt {
                Some(slot) => {
                    if slot < self.call_stack[n - 1].locals.len() {
                        let mut frame = self.call_stack.pop().unwrap();
                        frame.locals.set(slot, Some(value));
                        self.call_stack.push(frame);
                        assert(self.model().frames =~= env_set(before, name.0, value).frames);
                        return;
                    }
                },
                None => {},
            }
        }
        self.globals.insert(name.0, value);
    }

    /// Assigns a global variable.
    pub fn set_global(&mut self, name: Symbol, value: Value)
        ensures
            final(self).model() == env_set_global(old(self).model(), name.0, value),
    {
        self.globals.insert(name.0, value);
    }
}


/// How a statement ends other than by running to its end.
pub enum ControlFlow {
    Return(Value),
    Break,
    Continue,
}

pub struct Interpreter {
    env: Environment,
    interner: Interner,
    output: Vec<String>,
    suppress_output: bool,
}

/// The result of an arithmetic or boolean operator.
pub open spec fn binop_spec(op: BinOp, l: Value, r: Value, res: Result<Value, String>) -> bool {
    match op {
        BinOp::Add => add_spec(l, r, res),
        BinOp::Sub => sub_spec(l, r, res),
        BinOp::Mul => mul_spec(l, r, res),
        BinOp::Div => div_spec(l, r, res),
        BinOp::FloorDiv => floor_div_spec(l, r, res),
        BinOp::Mod => mod_spec(l, r, res),
        BinOp::Pow => pow_spec(l, r, res),
        BinOp::And => res == Ok::<Value, String>(if truthy(l) { r } else { l }),
        BinOp::Or => res == Ok::<Value, String>(if truthy(l) { l } else { r }),
    }
}

/// The result of a comparison: `==`, `!=`, `in` and `not in` on any values
/// (`in` also on strings); the orderings on two integers or two floats, and
/// `<`, `>` on two strings. Any other pair is an error.
pub open spec fn comparison_spec(op: CmpOp, l: Value, r: Value, res: Result<bool, String>) -> bool {
    match op {
        CmpOp::Eq => res == Ok::<bool, String>(value_eq(l, r)),
        CmpOp::NotEq => res == Ok::<bool, String>(!value_eq(l, r)),
        CmpOp::In => match r {
            Value::List(items) => res == Ok::<bool, String>(list_contains(items@, l)),
            Value::String(s) => match l {
                Value::String(sub) => res == Ok::<bool, String>(is_substring(sub@, s@)),
                _ => res is Err,
            },
            _ => res is Err,
        },
        CmpOp::NotIn => match r {
            Value::List(items) => res == Ok::<bool, String>(!list_contains(items@, l)),
            _ => res is Err,
        },
        _ => {
            let strings_ok = op == CmpOp::Lt || op == CmpOp::Gt;
            match (l, r) {
                (Value::Integer(_), Value::Integer(_)) | (Value::Float(_), Value::Float(_)) => res
                    == Ok::<bool, String>(match op {
                    CmpOp::Lt => less_than(l, r),
                    CmpOp::LtE => less_equal(l, r),
                    CmpOp::Gt => less_than(r, l),
                    _ => less_equal(r, l),
                }),
                (Value::String(a), Value::String(b)) => if strings_ok {
                    res == Ok::<bool, String>(if op == CmpOp::Lt {
                        chars_lt(a@, b@)
                    } else {
                        chars_lt(b@, a@)
                    })
                } else {
                    res is Err
                },
                _ => res is Err,
            }
        },
    }
}

impl Interpreter {
    pub closed spec fn env_view(&self) -> Environment {
        self.env
    }

    pub closed spec fn interner_view(&self) -> Interner {
        self.interner
    }

    pub closed spec fn output_view(&self) -> Seq<Seq<char>> {
        self.output@.map_values(|s: String| s@)
    }

    pub closed spec fn suppressed(&self) -> bool {
        self.suppress_output
    }

    /// The state the semantics speaks of: variables, printed lines, names.
    pub open spec fn istate(&self) -> IState {
        IState {
            env: self.env_view().model(),
            out: self.output_view(),
            names: self.interner_view()@,
            quiet: self.suppressed(),
        }
    }

    /// Whether `t` has the lines of `s` followed by zero or more new ones.
    pub open spec fn output_extends(s: Seq<Seq<char>>, t: Seq<Seq<char>>) -> bool {
        t.len() >= s.len() && t.subrange(0, s.len() as int) == s
    }

    pub fn new(interner: Interner) -> (r: Self)
        ensures
            r.env_view().globals_view() == Map::<u32, Value>::empty(),
            r.env_view().depth() == 0,
            r.interner_view() == interner,
            r.output_view().len() == 0,
            !r.suppressed(),
    {
        let r = Interpreter { env: Environment::new(), interner, output: Vec::new(), suppress_output: false };
        proof {
            assert(r.output_view() =~= Seq::<Seq<char>>::empty());
        }
        r
    }

    pub fn interner_mut(&mut self) -> (r: &mut Interner)
        ensures
            *r == old(self).interner_view(),
            final(self).interner_view() == *final(r),
            final(self).env_view() == old(self).env_view(),
            final(self).output_view() == old(self).output_view(),
            final(self).suppressed() == old(self).suppressed(),
    {
        &mut self.interner
    }

    pub fn set_global(&mut self, name: Symbol, value: Value)
        ensures
            final(self).env_view().globals_view() == old(self).env_view().globals_view().insert(name.0, value),
            final(self).env_view().depth() == old(self).env_view().depth(),
            final(self).interner_view() == old(self).interner_view(),
            final(self).output_view() == old(self).output_view(),
            final(self).suppressed() == old(self).suppressed(),
    {
        self.env.set_global(name, value);
    }

    /// Whether printed lines are shown as well as recorded; the program
    /// that embeds the interpreter does the showing.
    pub fn set_suppress_output(&mut self, suppress: bool)
        ensures
            final(self).suppressed() == suppress,
            final(self).env_view() == old(self).env_view(),
            final(self).interner_view() == old(self).interner_view(),
            final(self).output_view() == old(self).output_view(),
    {
        self.suppress_output = suppress;
    }

    pub fn is_output_suppressed(&self) -> (r: bool)
        ensures
            r == self.suppressed(),
    {
        self.suppress_output
    }

    /// The lines printed so far, oldest first.
    pub fn get_output(&self) -> (r: &[String])
        ensures
            r@.map_values(|s: String| s@) == self.output_view(),
    {
        self.output.as_slice()
    }

    /// Runs a program (`run_rel`), each statement with the fuel `u64::MAX`.
    /// A `return`, `break` or `continue` that reaches the top level is an
    /// error. Printed lines are appended to the output.
    pub fn run<F: FloatOps>(&mut self, stmts: &[Stmt]) -> (r: Result<(), String>)
        ensures
            final(self).suppressed() == old(self).suppressed(),
            run_rel(old(self).istate(), stmts@, 0, final(self).istate(), r),
            Interpreter::output_extends(old(self).output_view(), final(self).output_view()),
            final(self).interner_view() == old(self).interner_view(),
    {
        let ghost s0 = self.istate();
        let mut i: usize = 0;
        proof {
            assert(self.output_view().subrange(0, self.output_view().len() as int) =~= self.output_view());
        }
        while i < stmts.len()
            invariant
                self.suppressed() == old(self).suppressed(),
                i <= stmts@.len(),
                s0 == old(self).istate(),
                forall|t: IState, rr: Result<(), String>|
                    #[trigger] run_rel(self.istate(), stmts@, i as int, t, rr) ==> run_rel(s0, stmts@, 0, t, rr),
                Interpreter::output_extends(old(self).output_view(), self.output_view()),
                self.interner_view() == old(self).interner_view(),
            decreases stmts@.len() - i,
        {
            let ghost before = self.output_view();
            let ghost sa = self.istate();
            let res = self.exec_stmt::<F>(&stmts[i], u64::MAX);
            let ghost sb = self.istate();
            let ghost dx = pick_exec(u64::MAX as nat, sa, stmts@[i as int], sb, res);
            let ghost dd = steps(seq![dx], seq![sb], seq![Outcome::Flow(res)]);
            proof {
                Interpreter::lemma_extends_trans(old(self).output_view(), before, self.output_view());
            }
            let err = match res {
                Ok(Some(ControlFlow::Return(_))) => owned("'return' outside function"),
                Ok(Some(ControlFlow::Break)) => owned("'break' outside loop"),
                Ok(Some(ControlFlow::Continue)) => owned("'continue' outside loop"),
                Ok(None) => {
                    proof {
                        assert forall|t: IState, rr: Result<(), String>|
                            #[trigger] run_rel(sb, stmts@, i + 1, t, rr) implies run_rel(s0, stmts@, 0, t, rr) by {
                            let dt = pick_run(sb, stmts@, i + 1, t, rr);
                            assert(valid_run(steps(seq![dx, dt], seq![sb, sb], seq![Outcome::Flow(res), Outcome::Flow(res)]), sa, stmts@, i as int, t, rr));
                            assert(run_rel(sa, stmts@, i as int, t, rr));
                        }
                    }
                    i = i + 1;
                    continue;
                },
                Err(e) => e,
            };
            proof {
                assert(valid_run(dd, sa, stmts@, i as int, sb, Err::<(), String>(err)));
                assert(run_rel(sa, stmts@, i as int, sb, Err::<(), String>(err)));
            }
            return Err(err);
        }
        proof {
            assert(valid_run(leaf(), self.istate(), stmts@, i as int, self.istate(), Ok::<(), String>(())));
            assert(run_rel(self.istate(), stmts@, i as int, self.istate(), Ok::<(), String>(())));
        }
        Ok(())
    }

    pub proof fn lemma_extends_trans(a: Seq<Seq<char>>, b: Seq<Seq<char>>, c: Seq<Seq<char>>)
        requires
            Interpreter::output_extends(a, b),
            Interpreter::output_extends(b, c),
        ensures
            Interpreter::output_extends(a, c),
    {
        assert(c.subrange(0, a.len() as int) =~= c.subrange(0, b.len() as int).subrange(0, a.len() as int));
    }

    /// The name of a symbol, for error messages.
    fn name_of(&self, sym: Symbol) -> (r: String)
        ensures
            r@ == (if (sym.0 as int) < self.interner@.len() {
                self.interner@[sym.0 as int]
            } else {
                "?"@
            }),
    {
        if (sym.0 as usize) < self.interner.len() {
            owned(self.interner.resolve(sym))
        } else {
            owned("?")
        }
    }

    /// Applies an arithmetic or boolean operator to two values.
    fn apply_binop<F: FloatOps>(&self, op: &BinOp, left: &Value, right: &Value) -> (r: Result<Value, String>)
        ensures
            binop_spec(*op, *left, *right, r),
    {
        match op {
            BinOp::Add => binary_add::<F>(left.copy(), right.copy()),
            BinOp::Sub => binary_sub::<F>(left, right),
            BinOp::Mul => binary_mul::<F>(left, right),
            BinOp::Div => binary_div::<F>(left, right),
            BinOp::FloorDiv => binary_floor_div(left, right),
            BinOp::Mod => binary_mod(left, right),
            BinOp::Pow => binary_pow(left, right),
            BinOp::And => Ok(if left.is_truthy() { right.copy() } else { left.copy() }),
            BinOp::Or => Ok(if left.is_truthy() { left.copy() } else { right.copy() }),
        }
    }

    /// Applies a comparison operator to two values.
    fn apply_comparison(&self, op: &CmpOp, left: &Value, right: &Value) -> (r: Result<bool, String>)
        ensures
            comparison_spec(*op, *left, *right, r),
    {
        match op {
            CmpOp::Eq => Ok(left.equals(right)),
            CmpOp::NotEq => Ok(!left.equals(right)),
            CmpOp::In => match compare_in(left, right) {
                Ok(Value::Boolean(b)) => Ok(b),
                _ => Err(owned("Cannot compare these values")),
            },
            CmpOp::NotIn => match compare_not_in(left, right) {
                Ok(Value::Boolean(b)) => Ok(b),
                _ => Err(owned("Cannot compare these values")),
            },
            _ => {
                let same_number_kind = match (left, right) {
                    (Value::Integer(_), Value::Integer(_)) => true,
                    (Value::Float(_), Value::Float(_)) => true,
                    _ => false,
                };
                if same_number_kind {
                    Ok(match op {
                        CmpOp::Lt => values_less(left, right),
                        CmpOp::LtE => values_less_equal(left, right),
                        CmpOp::Gt => values_less(right, left),
                        _ => values_less_equal(right, left),
                    })
                } else {
                    match (left, right) {
                        (Value::String(_), Value::String(_)) => match op {
                            CmpOp::Lt => Ok(values_less(left, right)),
                            CmpOp::Gt => Ok(values_less(right, left)),
                            _ => Err(owned("Cannot compare these values")),
                        },
                        _ => Err(owned("Cannot compare these values")),
                    }
                }
            },
        }
    }
}


impl Interpreter {
    /// Runs one statement (`exec_rel`). `fuel` bounds the depth of nested
    /// calls and the number of rounds of each `while` loop; the top level
    /// gives `u64::MAX`.
    #[verifier::rlimit(100)]
    #[verifier::spinoff_prover]
    fn exec_stmt<F: FloatOps>(&mut self, stmt: &Stmt, fuel: u64) -> (r: Result<Option<ControlFlow>, String>)
        ensures
            final(self).suppressed() == old(self).suppressed(),
            exec_rel(fuel as nat, old(self).istate(), *stmt, final(self).istate(), r),
            Interpreter::output_extends(old(self).output_view(), final(self).output_view()),
            final(self).interner_view() == old(self).interner_view(),
            final(self).env_view().depth() == old(self).env_view().depth(),
        decreases fuel, 2int, stmt, 1int,
    {
        let ghost st: Stmt = *stmt;
        let ghost s0 = self.istate();
        let ghost fl = fuel as nat;
        proof {
            assert(self.output_view().subrange(0, self.output_view().len() as int) =~= self.output_view());
        }
        match stmt {
            Stmt::Expression(expr) => {
                let vr = self.eval_expr::<F>(expr, fuel);
                let ghost s1 = self.istate();
                let res = match vr {
                    Ok(_) => Ok(None),
                    Err(e) => Err(e),
                };
                proof {
                    let d1 = pick_eval(fl, s0, *expr, s1, vr);
                    assert(valid_exec(steps(seq![d1], seq![s1], seq![Outcome::Val(vr)]), fl, s0, st, s1, res));
                }
                res
            },
            Stmt::Assign { target, value } => {
                let vr = self.eval_expr::<F>(value, fuel);
                let ghost s1 = self.istate();
                let ghost dd = steps(seq![pick_eval(fl, s0, *value, s1, vr)], seq![s1], seq![Outcome::Val(vr)]);
                let val = match vr {
                    Ok(v) => v,
                    Err(e) => {
                        proof {
                            assert(valid_exec(dd, fl, s0, st, s1, Err::<Option<ControlFlow>, String>(e)));
                        }
                        return Err(e);
                    },
                };
                self.env.set(*target, val);
                proof {
                    assert(valid_exec(dd, fl, s0, st, self.istate(), Ok::<Option<ControlFlow>, String>(None)));
                }
                Ok(None)
            },
            Stmt::AugAssign { target, op, value } => {
                let current = match self.env.get(*target) {
                    Some(v) => v.copy(),
                    None => {
                        let mut msg = owned("Undefined variable: ");
                        let n = self.name_of(*target);
                        msg.append(n.as_str());
                        proof {
                            assert(valid_exec(leaf(), fl, s0, st, s0, Err::<Option<ControlFlow>, String>(msg)));
                        }
                        return Err(msg);
                    },
                };
                let vr = self.eval_expr::<F>(value, fuel);
                let ghost s1 = self.istate();
                let ghost d1 = pick_eval(fl, s0, *value, s1, vr);
                let rhs = match vr {
                    Ok(v) => v,
                    Err(e) => {
                        proof {
                            assert(valid_exec(steps(seq![d1, leaf()], seq![s1, s1], seq![Outcome::Val(vr), Outcome::Val(vr)]), fl, s0, st, s1, Err::<Option<ControlFlow>, String>(e)));
                        }
                        return Err(e);
                    },
                };
                let br = self.apply_binop::<F>(op, &current, &rhs);
                let ghost dd = steps(seq![d1, leaf()], seq![s1, s1], seq![Outcome::Val(vr), Outcome::Val(br)]);
                let result = match br {
                    Ok(v) => v,
                    Err(e) => {
                        proof {
                            assert(valid_exec(dd, fl, s0, st, s1, Err::<Option<ControlFlow>, String>(e)));
                        }
                        return Err(e);
                    },
                };
                self.env.set(*target, result);
                proof {
                    assert(valid_exec(dd, fl, s0, st, self.istate(), Ok::<Option<ControlFlow>, String>(None)));
                }
                Ok(None)
            },
            Stmt::Print(args) => {
                let mut line = String::new();
                let ghost mut vals: Seq<Value> = Seq::empty();
                let mut i: usize = 0;
                proof {
                    reveal_strlit(" ");
                }
                while i < args.len()
                    invariant
                        self.suppressed() == old(self).suppressed(),
                        st == *stmt,
                        st == Stmt::Print(*args),
                        s0 == old(self).istate(),
                        fl == fuel as nat,
                        i <= args@.len(),
                        vals.len() == i,
                        forall|t: IState, rr: Result<Seq<Value>, String>|
                            #[trigger] exprs_rel(fl, self.istate(), args@, i as int, vals, t, rr)
                                ==> exprs_rel(fl, s0, args@, 0, Seq::empty(), t, rr),
                        floats_absent(vals) ==> line@ == print_text(vals),
                        " "@ == seq![' '],
                        Interpreter::output_extends(old(self).output_view(), self.output_view()),
                        self.interner_view() == old(self).interner_view(),
                        self.env_view().depth() == old(self).env_view().depth(),
                    decreases args@.len() - i,
                {
                    let ghost before = self.output_view();
                    let ghost sa = self.istate();
                    let ghost acc = vals;
                    let v = self.eval_expr::<F>(&args[i], fuel);
                    let ghost sb = self.istate();
                    let ghost dx = pick_eval(fl, sa, args@[i as int], sb, v);
                    proof {
                        Interpreter::lemma_extends_trans(old(self).output_view(), before, self.output_view());
                    }
                    let x = match v {
                        Ok(x) => x,
                        Err(e) => {
                            let ghost er = Err::<Seq<Value>, String>(e);
                            proof {
                                assert(valid_exprs(steps(seq![dx], seq![sb], seq![Outcome::Val(v)]), fl, sa, args@, i as int, acc, sb, er));
                                assert(exprs_rel(fl, sa, args@, i as int, acc, sb, er));
                                let da = pick_exprs(fl, s0, args@, 0, Seq::empty(), sb, er);
                                assert(valid_exec(steps(seq![da], seq![sb], seq![Outcome::Vals(er)]), fl, s0, st, sb, Err::<Option<ControlFlow>, String>(e)));
                            }
                            return Err(e);
                        },
                    };
                    proof {
                        assert forall|t: IState, rr: Result<Seq<Value>, String>|
                            #[trigger] exprs_rel(fl, sb, args@, i + 1, acc.push(x), t, rr)
                            implies exprs_rel(fl, s0, args@, 0, Seq::empty(), t, rr) by {
                            let dt = pick_exprs(fl, sb, args@, i + 1, acc.push(x), t, rr);
                            assert(valid_exprs(steps(seq![dx, dt], seq![sb, sb], seq![Outcome::Val(v), Outcome::Val(v)]), fl, sa, args@, i as int, acc, t, rr));
                            assert(exprs_rel(fl, sa, args@, i as int, acc, t, rr));
                        }
                    }
                    let ghost line0 = line@;
                    if i > 0 {
                        line.append(" ");
                    }
                    let t = x.to_text::<F>();
                    line.append(t.as_str());
                    proof {
                        vals = acc.push(x);
                        assert(vals.drop_last() =~= acc);
                        if floats_absent(vals) {
                            assert(floats_absent(acc)) by {
                                assert forall|k: int| 0 <= k < acc.len() implies crate::interpreter::float_free(#[trigger] acc[k]) by {
                                    assert(vals[k] == acc[k]);
                                }
                            }
                            assert(crate::interpreter::float_free(vals[i as int]));
                            if i == 0 {
                                assert(line@ =~= print_text(vals));
                            } else {
                                assert(line@ =~= print_text(vals));
                            }
                        }
                    }
                    i = i + 1;
                }
                let ghost s1 = self.istate();
                let ghost ar = Ok::<Seq<Value>, String>(vals);
                proof {
                    assert(valid_exprs(leaf(), fl, s1, args@, i as int, vals, s1, ar));
                    assert(exprs_rel(fl, s1, args@, i as int, vals, s1, ar));
                }
                let ghost before = self.output_view();
                self.output.push(line);
                proof {
                    assert(self.output_view() =~= before.push(line@));
                    assert(self.output_view().subrange(0, before.len() as int) =~= before);
                    Interpreter::lemma_extends_trans(old(self).output_view(), before, self.output_view());
                    assert(self.output_view().drop_last() =~= before);
                    let da = pick_exprs(fl, s0, args@, 0, Seq::empty(), s1, ar);
                    assert(valid_exec(steps(seq![da], seq![s1], seq![Outcome::Vals(ar)]), fl, s0, st, self.istate(), Ok::<Option<ControlFlow>, String>(None)));
                }
                Ok(None)
            },
            Stmt::If { .. } => {
                let res = self.exec_if::<F>(stmt, fuel);
                proof {
                    let d1 = pick_if(fl, s0, st, self.istate(), res);
                    assert(valid_exec(steps(seq![d1], seq![self.istate()], seq![Outcome::Flow(res)]), fl, s0, st, self.istate(), res));
                }
                res
            },
            Stmt::While { .. } => {
                let res = self.exec_while::<F>(stmt, fuel);
                proof {
                    let d1 = pick_while(fl, s0, st, fl, self.istate(), res);
                    assert(valid_exec(steps(seq![d1], seq![self.istate()], seq![Outcome::Flow(res)]), fl, s0, st, self.istate(), res));
                }
                res
            },
            Stmt::For { .. } => {
                let res = self.exec_for::<F>(stmt, fuel);
                proof {
                    let d1 = pick_for(fl, s0, st, self.istate(), res);
                    assert(valid_exec(steps(seq![d1], seq![self.istate()], seq![Outcome::Flow(res)]), fl, s0, st, self.istate(), res));
                }
                res
            },
            Stmt::FunctionDef { name, params, body } => {
                let (local_slots, num_locals) = collect_locals(params.as_slice(), body.as_slice());
                let mut ps: Vec<Symbol> = Vec::new();
                let mut i: usize = 0;
                while i < params.len()
                    invariant
                        i <= params@.len(),
                        ps@ == params@.subrange(0, i as int),
                    decreases params@.len() - i,
                {
                    ps.push(params[i]);
                    proof {
                        assert(params@.subrange(0, i + 1) =~= params@.subrange(0, i as int).push(params@[i as int]));
                    }
                    i = i + 1;
                }
                proof {
                    assert(params@.subrange(0, params@.len() as int) =~= params@);
                }
                let func = FunctionObj {
                    name: *name,
                    params: ps,
                    body: crate::ast::copy_stmts(body.as_slice()),
                    local_slots,
                    num_locals,
                };
                let f = Rc::new(func);
                let ghost fv = f;
                self.env.set_global(*name, Value::Function(f));
                proof {
                    assert(valid_exec(steps(seq![leaf()], seq![s0], seq![Outcome::Func(fv)]), fl, s0, st, self.istate(), Ok::<Option<ControlFlow>, String>(None)));
                }
                Ok(None)
            },
            Stmt::Return(expr) => {
                match expr {
                    Some(e) => {
                        let vr = self.eval_expr::<F>(e, fuel);
                        let ghost s1 = self.istate();
                        let res = match vr {
                            Ok(v) => Ok(Some(ControlFlow::Return(v))),
                            Err(m) => Err(m),
                        };
                        proof {
                            let d1 = pick_eval(fl, s0, *e, s1, vr);
                            assert(valid_exec(steps(seq![d1], seq![s1], seq![Outcome::Val(vr)]), fl, s0, st, s1, res));
                        }
                        res
                    },
                    None => {
                        let res = Ok(Some(ControlFlow::Return(Value::NoneVal)));
                        proof {
                            assert(valid_exec(leaf(), fl, s0, st, s0, res));
                        }
                        res
                    },
                }
            },
            Stmt::Break => {
                let res = Ok(Some(ControlFlow::Break));
                proof {
                    assert(valid_exec(leaf(), fl, s0, st, s0, res));
                }
                res
            },
            Stmt::Continue => {
                let res = Ok(Some(ControlFlow::Continue));
                proof {
                    assert(valid_exec(leaf(), fl, s0, st, s0, res));
                }
                res
            },
            Stmt::Pass => {
                let res = Ok(None);
                proof {
                    assert(valid_exec(leaf(), fl, s0, st, s0, res));
                }
                res
            },
        }
    }

    /// Runs an `if` statement (`if_rel`).
    #[verifier::rlimit(100)]
    #[verifier::spinoff_prover]
    fn exec_if<F: FloatOps>(&mut self, stmt: &Stmt, fuel: u64) -> (r: Result<Option<ControlFlow>, String>)
        requires
            *stmt is If,
        ensures
            final(self).suppressed() == old(self).suppressed(),
            if_rel(fuel as nat, old(self).istate(), *stmt, final(self).istate(), r),
            Interpreter::output_extends(old(self).output_view(), final(self).output_view()),
            final(self).interner_view() == old(self).interner_view(),
            final(self).env_view().depth() == old(self).env_view().depth(),
        decreases fuel, 2int, stmt, 0int,
    {
        let ghost st: Stmt = *stmt;
        let ghost s0 = self.istate();
        let ghost fl = fuel as nat;
        proof {
            assert(self.output_view().subrange(0, self.output_view().len() as int) =~= self.output_view());
        }
        match stmt {
            Stmt::If { condition, body, elif_clauses, else_body } => {
                let cr = self.eval_expr::<F>(condition, fuel);
                let ghost s1 = self.istate();
                let ghost d1 = pick_eval(fl, s0, *condition, s1, cr);
                let cond = match cr {
                    Ok(c) => c,
                    Err(e) => {
                        proof {
                            assert(valid_if(steps(seq![d1], seq![s1], seq![Outcome::Val(cr)]), fl, s0, st, s1, Err::<Option<ControlFlow>, String>(e)));
                        }
                        return Err(e);
                    },
                };
                if cond.is_truthy() {
                    proof {
                        assert(decreases_to!(st => st->If_body@));
                    }
                    let ghost before = self.output_view();
                    let res = self.exec_block::<F>(body.as_slice(), fuel);
                    proof {
                        Interpreter::lemma_extends_trans(old(self).output_view(), before, self.output_view());
                        let db = pick_block(fl, s1, body@, 0, self.istate(), res);
                        assert(valid_if(steps(seq![d1, db], seq![s1, self.istate()], seq![Outcome::Val(cr), Outcome::Flow(res)]), fl, s0, st, self.istate(), res));
                    }
                    return res;
                }
                let mut i: usize = 0;
                while i < elif_clauses.len()
                    invariant
                        self.suppressed() == old(self).suppressed(),
                        st == *stmt,
                        st == (Stmt::If { condition: *condition, body: *body, elif_clauses: *elif_clauses, else_body: *else_body }),
                        s0 == old(self).istate(),
                        fl == fuel as nat,
                        eval_rel(fl, s0, *condition, s1, cr),
                        d1 == pick_eval(fl, s0, *condition, s1, cr),
                        cr == Ok::<Value, String>(cond),
                        !truthy(cond),
                        i <= elif_clauses@.len(),
                        forall|t: IState, rr: Result<Option<ControlFlow>, String>|
                            #[trigger] elifs_rel(fl, self.istate(), st, i as int, t, rr) ==> elifs_rel(fl, s1, st, 0, t, rr),
                        Interpreter::output_extends(old(self).output_view(), self.output_view()),
                        self.interner_view() == old(self).interner_view(),
                        self.env_view().depth() == old(self).env_view().depth(),
                    decreases elif_clauses@.len() - i,
                {
                    let ghost before = self.output_view();
                    let ghost sa = self.istate();
                    let c = self.eval_expr::<F>(&elif_clauses[i].0, fuel);
                    let ghost sb = self.istate();
                    let ghost dx = pick_eval(fl, sa, elif_clauses@[i as int].0, sb, c);
                    proof {
                        Interpreter::lemma_extends_trans(old(self).output_view(), before, self.output_view());
                    }
                    let cv = match c {
                        Ok(v) => v,
                        Err(e) => {
                            let ghost er = Err::<Option<ControlFlow>, String>(e);
                            proof {
                                assert(valid_elifs(steps(seq![dx], seq![sb], seq![Outcome::Val(c)]), fl, sa, st, i as int, sb, er));
                                assert(elifs_rel(fl, sa, st, i as int, sb, er));
                                let de = pick_elifs(fl, s1, st, 0, sb, er);
                                assert(valid_if(steps(seq![d1, de], seq![s1, sb], seq![Outcome::Val(cr), Outcome::Flow(er)]), fl, s0, st, sb, er));
                            }
                            return Err(e);
                        },
                    };
                    if cv.is_truthy() {
                        proof {
                            assert(decreases_to!(st => st->elif_clauses@[i as int].1@));
                        }
                        let ghost before2 = self.output_view();
                        let res = self.exec_block::<F>(elif_clauses[i].1.as_slice(), fuel);
                        proof {
                            Interpreter::lemma_extends_trans(old(self).output_view(), before2, self.output_view());
                            let sc = self.istate();
                            let db = pick_block(fl, sb, elif_clauses@[i as int].1@, 0, sc, res);
                            assert(valid_elifs(steps(seq![dx, db], seq![sb, sc], seq![Outcome::Val(c), Outcome::Flow(res)]), fl, sa, st, i as int, sc, res));
                            assert(elifs_rel(fl, sa, st, i as int, sc, res));
                            let de = pick_elifs(fl, s1, st, 0, sc, res);
                            assert(valid_if(steps(seq![d1, de], seq![s1, sc], seq![Outcome::Val(cr), Outcome::Flow(res)]), fl, s0, st, sc, res));
                        }
                        return res;
                    }
                    proof {
                        assert forall|t: IState, rr: Result<Option<ControlFlow>, String>|
                            #[trigger] elifs_rel(fl, sb, st, i + 1, t, rr) implies elifs_rel(fl, s1, st, 0, t, rr) by {
                            let dt = pick_elifs(fl, sb, st, i + 1, t, rr);
                            assert(valid_elifs(steps(seq![dx, dt], seq![sb, sb], seq![Outcome::Val(c), Outcome::Val(c)]), fl, sa, st, i as int, t, rr));
                            assert(elifs_rel(fl, sa, st, i as int, t, rr));
                        }
                    }
                    i = i + 1;
                }
                let ghost s2 = self.istate();
                match else_body {
                    Some(b) => {
                        proof {
                            assert(decreases_to!(st => st->else_body->Some_0@));
                        }
                        let ghost before = self.output_view();
                        let res = self.exec_block::<F>(b.as_slice(), fuel);
                        proof {
                            Interpreter::lemma_extends_trans(old(self).output_view(), before, self.output_view());
                            let sc = self.istate();
                            let db = pick_block(fl, s2, b@, 0, sc, res);
                            assert(valid_elifs(steps(seq![db], seq![sc], seq![Outcome::Flow(res)]), fl, s2, st, i as int, sc, res));
                            assert(elifs_rel(fl, s2, st, i as int, sc, res));
                            let de = pick_elifs(fl, s1, st, 0, sc, res);
                            assert(valid_if(steps(seq![d1, de], seq![s1, sc], seq![Outcome::Val(cr), Outcome::Flow(res)]), fl, s0, st, sc, res));
                        }
                        res
                    },
                    None => {
                        let res = Ok(None);
                        proof {
                            assert(valid_elifs(leaf(), fl, s2, st, i as int, s2, res));
                            assert(elifs_rel(fl, s2, st, i as int, s2, res));
                            let de = pick_elifs(fl, s1, st, 0, s2, res);
                            assert(valid_if(steps(seq![d1, de], seq![s1, s2], seq![Outcome::Val(cr), Outcome::Flow(res)]), fl, s0, st, s2, res));
                        }
                        res
                    },
                }
            },
            _ => {
                let res = Ok(None);
                proof {
                    assert(valid_if(leaf(), fl, s0, st, s0, res));
                }
                res
            },
        }
    }

    /// Runs a `while` loop (`while_rel`), for at most `fuel` rounds.
    #[verifier::rlimit(100)]
    #[verifier::spinoff_prover]
    fn exec_while<F: FloatOps>(&mut self, stmt: &Stmt, fuel: u64) -> (r: Result<Option<ControlFlow>, String>)
        requires
            *stmt is While,
        ensures
            final(self).suppressed() == old(self).suppressed(),
            while_rel(fuel as nat, old(self).istate(), *stmt, fuel as nat, final(self).istate(), r),
            Interpreter::output_extends(old(self).output_view(), final(self).output_view()),
            final(self).interner_view() == old(self).interner_view(),
            final(self).env_view().depth() == old(self).env_view().depth(),
        decreases fuel, 2int, stmt, 0int,
    {
        let ghost st: Stmt = *stmt;
        let ghost s0 = self.istate();
        let ghost fl = fuel as nat;
        proof {
            assert(self.output_view().subrange(0, self.output_view().len() as int) =~= self.output_view());
        }
        match stmt {
            Stmt::While { condition, body } => {
                let mut budget: u64 = fuel;
                loop
                    invariant
                        self.suppressed() == old(self).suppressed(),
                        st == *stmt,
                        st == (Stmt::While { condition: *condition, body: *body }),
                        s0 == old(self).istate(),
                        fl == fuel as nat,
                        forall|t: IState, rr: Result<Option<ControlFlow>, String>|
                            #[trigger] while_rel(fl, self.istate(), st, budget as nat, t, rr) ==> while_rel(fl, s0, st, fl, t, rr),
                        Interpreter::output_extends(old(self).output_view(), self.output_view()),
                        self.interner_view() == old(self).interner_view(),
                        self.env_view().depth() == old(self).env_view().depth(),
                    decreases budget,
                {
                    let ghost sa = self.istate();
                    let ghost b0 = budget as nat;
                    if budget == 0 {
                        let res = Err(owned("loop iteration limit reached"));
                        proof {
                            assert(valid_while(leaf(), fl, sa, st, b0, sa, res));
                            assert(while_rel(fl, sa, st, b0, sa, res));
                        }
                        return res;
                    }
                    budget = budget - 1;
                    let ghost before = self.output_view();
                    let cr = self.eval_expr::<F>(condition, fuel);
                    let ghost sb = self.istate();
                    let ghost dx = pick_eval(fl, sa, *condition, sb, cr);
                    proof {
                        Interpreter::lemma_extends_trans(old(self).output_view(), before, self.output_view());
                    }
                    let cond = match cr {
                        Ok(c) => c,
                        Err(e) => {
                            proof {
                                assert(valid_while(steps(seq![dx], seq![sb], seq![Outcome::Val(cr)]), fl, sa, st, b0, sb, Err::<Option<ControlFlow>, String>(e)));
                                assert(while_rel(fl, sa, st, b0, sb, Err::<Option<ControlFlow>, String>(e)));
                            }
                            return Err(e);
                        },
                    };
                    if !cond.is_truthy() {
                        let res = Ok(None);
                        proof {
                            assert(valid_while(steps(seq![dx], seq![sb], seq![Outcome::Val(cr)]), fl, sa, st, b0, sb, res));
                            assert(while_rel(fl, sa, st, b0, sb, res));
                        }
                        return res;
                    }
                    proof {
                        assert(decreases_to!(st => st->While_body@));
                    }
                    let ghost before2 = self.output_view();
                    let res = self.exec_block::<F>(body.as_slice(), fuel);
                    let ghost sc = self.istate();
                    let ghost db = pick_block(fl, sb, body@, 0, sc, res);
                    let ghost dd = steps(seq![dx, db], seq![sb, sc], seq![Outcome::Val(cr), Outcome::Flow(res)]);
                    proof {
                        Interpreter::lemma_extends_trans(old(self).output_view(), before2, self.output_view());
                    }
                    match res {
                        Err(e) => {
                            proof {
                                assert(valid_while(dd, fl, sa, st, b0, sc, Err::<Option<ControlFlow>, String>(e)));
                                assert(while_rel(fl, sa, st, b0, sc, Err::<Option<ControlFlow>, String>(e)));
                            }
                            return Err(e);
                        },
                        Ok(Some(ControlFlow::Break)) => {
                            proof {
                                assert(valid_while(dd, fl, sa, st, b0, sc, Ok::<Option<ControlFlow>, String>(None)));
                                assert(while_rel(fl, sa, st, b0, sc, Ok::<Option<ControlFlow>, String>(None)));
                            }
                            return Ok(None);
                        },
                        Ok(Some(ControlFlow::Return(v))) => {
                            let out = Ok(Some(ControlFlow::Return(v)));
                            proof {
                                assert(valid_while(dd, fl, sa, st, b0, sc, out));
                                assert(while_rel(fl, sa, st, b0, sc, out));
                            }
                            return out;
                        },
                        _ => {},
                    }
                    proof {
                        assert forall|t: IState, rr: Result<Option<ControlFlow>, String>|
                            #[trigger] while_rel(fl, sc, st, budget as nat, t, rr) implies while_rel(fl, s0, st, fl, t, rr) by {
                            let dt = pick_while(fl, sc, st, budget as nat, t, rr);
                            assert(valid_while(steps(seq![dx, db, dt], seq![sb, sc, sc], seq![Outcome::Val(cr), Outcome::Flow(res), Outcome::Flow(res)]), fl, sa, st, b0, t, rr));
                            assert(while_rel(fl, sa, st, b0, t, rr));
                        }
                    }
                }
            },
            _ => {
                let res = Ok(None);
                proof {
                    assert(valid_while(leaf(), fl, s0, st, fl, s0, res));
                }
                res
            },
        }
    }

    /// Runs a `for` loop (`for_rel`).
    #[verifier::rlimit(100)]
    #[verifier::spinoff_prover]
    fn exec_for<F: FloatOps>(&mut self, stmt: &Stmt, fuel: u64) -> (r: Result<Option<ControlFlow>, String>)
        requires
            *stmt is For,
        ensures
            final(self).suppressed() == old(self).suppressed(),
            for_rel(fuel as nat, old(self).istate(), *stmt, final(self).istate(), r),
            Interpreter::output_extends(old(self).output_view(), final(self).output_view()),
            final(self).interner_view() == old(self).interner_view(),
            final(self).env_view().depth() == old(self).env_view().depth(),
        decreases fuel, 2int, stmt, 0int,
    {
        let ghost st: Stmt = *stmt;
        let ghost s0 = self.istate();
        let ghost fl = fuel as nat;
        proof {
            assert(self.output_view().subrange(0, self.output_view().len() as int) =~= self.output_view());
        }
        match stmt {
            Stmt::For { target, iter, body } => {
                let ir = self.eval_expr::<F>(iter, fuel);
                let ghost s1 = self.istate();
                let ghost d1 = pick_eval(fl, s0, *iter, s1, ir);
                let iterable = match ir {
                    Ok(v) => v,
                    Err(e) => {
                        proof {
                            assert(valid_for(steps(seq![d1], seq![s1], seq![Outcome::Val(ir)]), fl, s0, st, s1, Err::<Option<ControlFlow>, String>(e)));
                        }
                        return Err(e);
                    },
                };
                let ghost itv = iterable;
                let items: Vec<Value> = match iterable {
                    Value::List(items) => copy_values(&items),
                    Value::String(s) => {
                        let chars = str_to_chars(s.as_str());
                        let mut v: Vec<Value> = Vec::new();
                        let mut k: usize = 0;
                        while k < chars.len()
                            invariant
                                k <= chars@.len(),
                                chars@ == s@,
                                v@.len() == k,
                                forall|j: int| 0 <= j < k ==> (#[trigger] v@[j] matches Value::String(c) && c@ == seq![chars@[j]]),
                            decreases chars@.len() - k,
                        {
                            let one = [chars[k]];
                            let text = string_from_chars(&one);
                            proof {
                                assert(one@ =~= seq![chars@[k as int]]);
                            }
                            v.push(Value::String(Rc::new(text)));
                            k = k + 1;
                        }
                        v
                    },
                    _ => {
                        let res = Err(owned("Cannot iterate over non-iterable"));
                        proof {
                            assert(valid_for(steps(seq![d1], seq![s1], seq![Outcome::Val(ir)]), fl, s0, st, s1, res));
                        }
                        return res;
                    },
                };
                proof {
                    assert(crate::semantics::iter_items(itv, items@));
                }
                let ghost after_iter = self.output_view();
                let mut i: usize = 0;
                while i < items.len()
                    invariant
                        self.suppressed() == old(self).suppressed(),
                        st == *stmt,
                        st == (Stmt::For { target: *target, iter: *iter, body: *body }),
                        s0 == old(self).istate(),
                        fl == fuel as nat,
                        i <= items@.len(),
                        eval_rel(fl, s0, *iter, s1, ir),
                        d1 == pick_eval(fl, s0, *iter, s1, ir),
                        ir == Ok::<Value, String>(itv),
                        itv is List || itv is String,
                        crate::semantics::iter_items(itv, items@),
                        forall|t: IState, rr: Result<Option<ControlFlow>, String>|
                            #[trigger] for_items_rel(fl, self.istate(), st, items@, i as int, t, rr)
                                ==> for_items_rel(fl, s1, st, items@, 0, t, rr),
                        Interpreter::output_extends(old(self).output_view(), self.output_view()),
                        self.interner_view() == old(self).interner_view(),
                        self.env_view().depth() == old(self).env_view().depth(),
                    decreases items@.len() - i,
                {
                    let ghost sa = self.istate();
                    self.env.set(*target, items[i].copy());
                    let ghost sset = self.istate();
                    proof {
                        assert(decreases_to!(st => st->For_body@));
                    }
                    let ghost before = self.output_view();
                    let res = self.exec_block::<F>(body.as_slice(), fuel);
                    let ghost sb = self.istate();
                    let ghost db = pick_block(fl, sset, body@, 0, sb, res);
                    proof {
                        Interpreter::lemma_extends_trans(old(self).output_view(), before, self.output_view());
                    }
                    match res {
                        Err(e) => {
                            proof {
                                assert(valid_for_items(steps(seq![db], seq![sb], seq![Outcome::Flow(res)]), fl, sa, st, items@, i as int, sb, Err::<Option<ControlFlow>, String>(e)));
                                assert(for_items_rel(fl, sa, st, items@, i as int, sb, Err::<Option<ControlFlow>, String>(e)));
                                let di = pick_for_items(fl, s1, st, items@, 0, sb, Err::<Option<ControlFlow>, String>(e));
                                assert(valid_for(steps(seq![d1, di], seq![s1, sb], seq![Outcome::Val(ir), Outcome::Items(items@)]), fl, s0, st, sb, Err::<Option<ControlFlow>, String>(e)));
                            }
                            return Err(e);
                        },
                        Ok(Some(ControlFlow::Break)) => {
                            let out = Ok(None);
                            proof {
                                assert(valid_for_items(steps(seq![db], seq![sb], seq![Outcome::Flow(res)]), fl, sa, st, items@, i as int, sb, out));
                                assert(for_items_rel(fl, sa, st, items@, i as int, sb, out));
                                let di = pick_for_items(fl, s1, st, items@, 0, sb, out);
                                assert(valid_for(steps(seq![d1, di], seq![s1, sb], seq![Outcome::Val(ir), Outcome::Items(items@)]), fl, s0, st, sb, out));
                            }
                            return out;
                        },
                        Ok(Some(ControlFlow::Return(v))) => {
                            let out = Ok(Some(ControlFlow::Return(v)));
                            proof {
                                assert(valid_for_items(steps(seq![db], seq![sb], seq![Outcome::Flow(res)]), fl, sa, st, items@, i as int, sb, out));
                                assert(for_items_rel(fl, sa, st, items@, i as int, sb, out));
                                let di = pick_for_items(fl, s1, st, items@, 0, sb, out);
                                assert(valid_for(steps(seq![d1, di], seq![s1, sb], seq![Outcome::Val(ir), Outcome::Items(items@)]), fl, s0, st, sb, out));
                            }
                            return out;
                        },
                        _ => {},
                    }
                    proof {
                        assert forall|t: IState, rr: Result<Option<ControlFlow>, String>|
                            #[trigger] for_items_rel(fl, sb, st, items@, i + 1, t, rr)
                            implies for_items_rel(fl, s1, st, items@, 0, t, rr) by {
                            let dt = pick_for_items(fl, sb, st, items@, i + 1, t, rr);
                            assert(valid_for_items(steps(seq![db, dt], seq![sb, sb], seq![Outcome::Flow(res), Outcome::Flow(res)]), fl, sa, st, items@, i as int, t, rr));
                            assert(for_items_rel(fl, sa, st, items@, i as int, t, rr));
                        }
                    }
                    i = i + 1;
                }
                let ghost s2 = self.istate();
                let res = Ok(None);
                proof {
                    assert(valid_for_items(leaf(), fl, s2, st, items@, i as int, s2, res));
                    assert(for_items_rel(fl, s2, st, items@, i as int, s2, res));
                    let di = pick_for_items(fl, s1, st, items@, 0, s2, res);
                    assert(valid_for(steps(seq![d1, di], seq![s1, s2], seq![Outcome::Val(ir), Outcome::Items(items@)]), fl, s0, st, s2, res));
                }
                res
            },
            _ => {
                let res = Ok(None);
                proof {
                    assert(valid_for(leaf(), fl, s0, st, s0, res));
                }
                res
            },
        }
    }

    /// Runs the statements of a block in order (`block_rel`).
    #[verifier::rlimit(100)]
    #[verifier::spinoff_prover]
    fn exec_block<F: FloatOps>(&mut self, stmts: &[Stmt], fuel: u64) -> (r: Result<Option<ControlFlow>, String>)
        ensures
            final(self).suppressed() == old(self).suppressed(),
            block_rel(fuel as nat, old(self).istate(), stmts@, 0, final(self).istate(), r),
            Interpreter::output_extends(old(self).output_view(), final(self).output_view()),
            final(self).interner_view() == old(self).interner_view(),
            final(self).env_view().depth() == old(self).env_view().depth(),
        decreases fuel, 2int, stmts@, 1int,
    {
        let ghost s0 = self.istate();
        let ghost fl = fuel as nat;
        proof {
            assert(self.output_view().subrange(0, self.output_view().len() as int) =~= self.output_view());
        }
        let mut i: usize = 0;
        while i < stmts.len()
            invariant
                self.suppressed() == old(self).suppressed(),
                i <= stmts@.len(),
                s0 == old(self).istate(),
                fl == fuel as nat,
                forall|t: IState, rr: Result<Option<ControlFlow>, String>|
                    #[trigger] block_rel(fl, self.istate(), stmts@, i as int, t, rr) ==> block_rel(fl, s0, stmts@, 0, t, rr),
                Interpreter::output_extends(old(self).output_view(), self.output_view()),
                self.interner_view() == old(self).interner_view(),
                self.env_view().depth() == old(self).env_view().depth(),
            decreases stmts@.len() - i,
        {
            proof {
                assert(decreases_to!(stmts@ => stmts@[i as int]));
            }
            let ghost before = self.output_view();
            let ghost sa = self.istate();
            let res = self.exec_stmt::<F>(&stmts[i], fuel);
            let ghost sb = self.istate();
            let ghost dx = pick_exec(fl, sa, stmts@[i as int], sb, res);
            proof {
                Interpreter::lemma_extends_trans(old(self).output_view(), before, self.output_view());
            }
            match res {
                Ok(None) => {},
                _ => {
                    proof {
                        assert(valid_block(steps(seq![dx], seq![sb], seq![Outcome::Flow(res)]), fl, sa, stmts@, i as int, sb, res));
                        assert(block_rel(fl, sa, stmts@, i as int, sb, res));
                    }
                    return res;
                },
            }
            proof {
                assert forall|t: IState, rr: Result<Option<ControlFlow>, String>|
                    #[trigger] block_rel(fl, sb, stmts@, i + 1, t, rr) implies block_rel(fl, s0, stmts@, 0, t, rr) by {
                    let dt = pick_block(fl, sb, stmts@, i + 1, t, rr);
                    assert(valid_block(steps(seq![dx, dt], seq![sb, sb], seq![Outcome::Flow(res), Outcome::Flow(res)]), fl, sa, stmts@, i as int, t, rr));
                    assert(block_rel(fl, sa, stmts@, i as int, t, rr));
                }
            }
            i = i + 1;
        }
        let res = Ok(None);
        proof {
            assert(valid_block(leaf(), fl, self.istate(), stmts@, i as int, self.istate(), res));
            assert(block_rel(fl, self.istate(), stmts@, i as int, self.istate(), res));
        }
        res
    }
}

impl Interpreter {
    /// Evaluates an expression (`eval_rel`). Both operands of `and` and
    /// `or` are evaluated.
    #[verifier::rlimit(100)]
    #[verifier::spinoff_prover]
    fn eval_expr<F: FloatOps>(&mut self, expr: &Expr, fuel: u64) -> (r: Result<Value, String>)
        ensures
            final(self).suppressed() == old(self).suppressed(),
            eval_rel(fuel as nat, old(self).istate(), *expr, final(self).istate(), r),
            Interpreter::output_extends(old(self).output_view(), final(self).output_view()),
            final(self).interner_view() == old(self).interner_view(),
            final(self).env_view().depth() == old(self).env_view().depth(),
            *expr matches Expr::Float(text) ==> (r matches Ok(Value::Float(x)) && float_literal::<F>(text@, x)),
        decreases fuel, 1int, expr, 0int,
    {
        let ghost g: Expr = *expr;
        let ghost s0 = self.istate();
        let ghost fl = fuel as nat;
        proof {
            assert(self.output_view().subrange(0, self.output_view().len() as int) =~= self.output_view());
        }
        match expr {
            Expr::Integer(n) => {
                let res = Ok(Value::Integer(*n));
                proof {
                    assert(valid_eval(leaf(), fl, s0, g, s0, res));
                }
                res
            },
            Expr::Float(text) => {
                let ts: &str = text.as_str();
                let x = F::from_literal(ts);
                let res = Ok(Value::Float(x));
                proof {
                    assert(call_ensures(F::from_literal, (ts,), x));
                    assert(valid_eval(leaf(), fl, s0, g, s0, res));
                }
                res
            },
            Expr::StringLiteral(text) => {
                let res = Ok(Value::String(Rc::new(text.clone())));
                proof {
                    assert(valid_eval(leaf(), fl, s0, g, s0, res));
                }
                res
            },
            Expr::Boolean(b) => {
                let res = Ok(Value::Boolean(*b));
                proof {
                    assert(valid_eval(leaf(), fl, s0, g, s0, res));
                }
                res
            },
            Expr::NoneLit => {
                let res = Ok(Value::NoneVal);
                proof {
                    assert(valid_eval(leaf(), fl, s0, g, s0, res));
                }
                res
            },
            Expr::Identifier(name) => {
                let res = match self.env.get(*name) {
                    Some(v) => Ok(v.copy()),
                    None => {
                        let mut msg = owned("Undefined variable: ");
                        let n = self.name_of(*name);
                        msg.append(n.as_str());
                        Err(msg)
                    },
                };
                proof {
                    assert(valid_eval(leaf(), fl, s0, g, s0, res));
                }
                res
            },
            Expr::BinaryOp { left, op, right } => {
                let l = self.eval_expr::<F>(left, fuel);
                let ghost mid = self.output_view();
                let ghost s1 = self.istate();
                let ghost lr = l;
                let ghost dl = pick_eval(fl, s0, **left, s1, lr);
                let lv = match l {
                    Ok(v) => v,
                    Err(e) => {
                        proof {
                            assert(valid_eval(steps(seq![dl], seq![s1], seq![Outcome::Val(lr)]), fl, s0, g, s1, lr));
                        }
                        return Err(e);
                    },
                };
                let r = self.eval_expr::<F>(right, fuel);
                let ghost s2 = self.istate();
                let ghost rr = r;
                let ghost dr = pick_eval(fl, s1, **right, s2, rr);
                let ghost dd = steps(seq![dl, dr], seq![s1, s2], seq![Outcome::Val(lr), Outcome::Val(rr)]);
                proof {
                    Interpreter::lemma_extends_trans(old(self).output_view(), mid, self.output_view());
                }
                let rv = match r {
                    Ok(v) => v,
                    Err(e) => {
                        proof {
                            assert(valid_eval(dd, fl, s0, g, s2, rr));
                        }
                        return Err(e);
                    },
                };
                let res = self.apply_binop::<F>(op, &lv, &rv);
                proof {
                    assert(valid_eval(dd, fl, s0, g, s2, res));
                }
                res
            },
            Expr::UnaryOp { op, operand } => {
                let vr = self.eval_expr::<F>(operand, fuel);
                let ghost s1 = self.istate();
                let ghost d1 = pick_eval(fl, s0, **operand, s1, vr);
                let ghost dd = steps(seq![d1], seq![s1], seq![Outcome::Val(vr)]);
                let v = match vr {
                    Ok(v) => v,
                    Err(e) => {
                        proof {
                            assert(valid_eval(dd, fl, s0, g, s1, vr));
                        }
                        return Err(e);
                    },
                };
                let res = match op {
                    UnaryOp::Neg => match v {
                        Value::Integer(n) => Ok(Value::Integer(0i64.wrapping_sub(n))),
                        Value::Float(f) => Ok(Value::Float(crate::float::neg_bits(f))),
                        _ => Err(owned("Cannot negate non-numeric value")),
                    },
                    UnaryOp::Not => Ok(Value::Boolean(!v.is_truthy())),
                };
                proof {
                    assert(valid_eval(dd, fl, s0, g, s1, res));
                }
                res
            },
            Expr::Call { function, args } => {
                let fr = self.eval_expr::<F>(function, fuel);
                let ghost s1 = self.istate();
                let ghost d1 = pick_eval(fl, s0, **function, s1, fr);
                let func = match fr {
                    Ok(f) => f,
                    Err(e) => {
                        proof {
                            assert(valid_eval(steps(seq![d1], seq![s1], seq![Outcome::Val(fr)]), fl, s0, g, s1, fr));
                        }
                        return Err(e);
                    },
                };
                let mut eval_args: Vec<Value> = Vec::new();
                let mut i: usize = 0;
                while i < args.len()
                    invariant
                        self.suppressed() == old(self).suppressed(),
                        g == *expr,
                        g == (Expr::Call { function: *function, args: *args }),
                        i <= args@.len(),
                        eval_rel(fl, s0, **function, s1, fr),
                        d1 == pick_eval(fl, s0, **function, s1, fr),
                        fr == Ok::<Value, String>(func),
                        s0 == old(self).istate(),
                        forall|t: IState, rr: Result<Seq<Value>, String>|
                            #[trigger] exprs_rel(fl, self.istate(), args@, i as int, eval_args@, t, rr)
                                ==> exprs_rel(fl, s1, args@, 0, Seq::empty(), t, rr),
                        fl == fuel as nat,
                        Interpreter::output_extends(old(self).output_view(), self.output_view()),
                        self.interner_view() == old(self).interner_view(),
                        self.env_view().depth() == old(self).env_view().depth(),
                    decreases args@.len() - i,
                {
                    proof {
                        assert(decreases_to!(g => g->args@[i as int]));
                    }
                    let ghost before = self.output_view();
                    let ghost sa = self.istate();
                    let ghost acc = eval_args@;
                    let v = self.eval_expr::<F>(&args[i], fuel);
                    let ghost sb = self.istate();
                    let ghost dx = pick_eval(fl, sa, args@[i as int], sb, v);
                    proof {
                        Interpreter::lemma_extends_trans(old(self).output_view(), before, self.output_view());
                    }
                    match v {
                        Ok(x) => {
                            proof {
                                assert forall|t: IState, rr: Result<Seq<Value>, String>|
                                    #[trigger] exprs_rel(fl, sb, args@, i + 1, acc.push(x), t, rr)
                                    implies exprs_rel(fl, s1, args@, 0, Seq::empty(), t, rr) by {
                                    let dt = pick_exprs(fl, sb, args@, i + 1, acc.push(x), t, rr);
                                    assert(valid_exprs(steps(seq![dx, dt], seq![sb, sb], seq![Outcome::Val(v), Outcome::Val(v)]), fl, sa, args@, i as int, acc, t, rr));
                                    assert(exprs_rel(fl, sa, args@, i as int, acc, t, rr));
                                }
                            }
                            eval_args.push(x);
                        },
                        Err(e) => {
                            proof {
                                assert(valid_exprs(steps(seq![dx], seq![sb], seq![Outcome::Val(v)]), fl, sa, args@, i as int, acc, sb, Err::<Seq<Value>, String>(e)));
                                assert(exprs_rel(fl, sa, args@, i as int, acc, sb, Err::<Seq<Value>, String>(e)));
                            }
                            let ghost ar = Err::<Seq<Value>, String>(e);
                            proof {
                                let da = pick_exprs(fl, s1, args@, 0, Seq::empty(), sb, ar);
                                assert(exprs_rel(fl, s1, args@, 0, Seq::empty(), sb, ar));
                                assert(valid_exprs(da, fl, s1, args@, 0, Seq::empty(), sb, ar));
                                assert(valid_eval(d1, fl, s0, **function, s1, fr));
                                assert(valid_eval(steps(seq![d1, da], seq![s1, sb], seq![Outcome::Val(fr), Outcome::Vals(ar)]), fl, s0, g, sb, Err::<Value, String>(e)));
                            }
                            return Err(e);
                        },
                    }
                    i = i + 1;
                }
                let ghost s2 = self.istate();
                let ghost ar = Ok::<Seq<Value>, String>(eval_args@);
                proof {
                    assert(valid_exprs(leaf(), fl, s2, args@, i as int, eval_args@, s2, ar));
                    assert(exprs_rel(fl, s2, args@, i as int, eval_args@, s2, ar));
                }
                let ghost da = pick_exprs(fl, s1, args@, 0, Seq::empty(), s2, ar);
                if fuel == 0 {
                    let res = Err(owned("maximum recursion depth exceeded"));
                    proof {
                        assert(valid_eval(steps(seq![d1, da], seq![s1, s2], seq![Outcome::Val(fr), Outcome::Vals(ar)]), fl, s0, g, s2, res));
                    }
                    return res;
                }
                let ghost before = self.output_view();
                let ghost vals = eval_args@;
                let res = self.call_function::<F>(&func, eval_args, fuel - 1);
                proof {
                    Interpreter::lemma_extends_trans(old(self).output_view(), before, self.output_view());
                    let dc = pick_call((fl - 1) as nat, s2, func, vals, self.istate(), res);
                    assert(valid_eval(steps(seq![d1, da, dc], seq![s1, s2, self.istate()], seq![Outcome::Val(fr), Outcome::Vals(ar), Outcome::Val(res)]), fl, s0, g, self.istate(), res));
                }
                res
            },
            Expr::Index { object, index } => {
                let obj = self.eval_expr::<F>(object, fuel);
                let ghost mid = self.output_view();
                let ghost s1 = self.istate();
                let ghost d1 = pick_eval(fl, s0, **object, s1, obj);
                let ov = match obj {
                    Ok(v) => v,
                    Err(e) => {
                        proof {
                            assert(valid_eval(steps(seq![d1], seq![s1], seq![Outcome::Val(obj)]), fl, s0, g, s1, obj));
                        }
                        return Err(e);
                    },
                };
                let idx = self.eval_expr::<F>(index, fuel);
                let ghost s2 = self.istate();
                let ghost d2 = pick_eval(fl, s1, **index, s2, idx);
                let ghost dd = steps(seq![d1, d2], seq![s1, s2], seq![Outcome::Val(obj), Outcome::Val(idx)]);
                proof {
                    Interpreter::lemma_extends_trans(old(self).output_view(), mid, self.output_view());
                }
                let iv = match idx {
                    Ok(v) => v,
                    Err(e) => {
                        proof {
                            assert(valid_eval(dd, fl, s0, g, s2, idx));
                        }
                        return Err(e);
                    },
                };
                let res = subscript(&ov, &iv);
                proof {
                    assert(valid_eval(dd, fl, s0, g, s2, res));
                }
                res
            },
            Expr::Attribute { object, name } => {
                let objr = self.eval_expr::<F>(object, fuel);
                let ghost s1 = self.istate();
                let ghost d1 = pick_eval(fl, s0, **object, s1, objr);
                let ghost dd = steps(seq![d1], seq![s1], seq![Outcome::Val(objr)]);
                let obj = match objr {
                    Ok(v) => v,
                    Err(e) => {
                        proof {
                            assert(valid_eval(dd, fl, s0, g, s1, objr));
                        }
                        return Err(e);
                    },
                };
                let attr = self.name_of(*name);
                let is_len = str_equal(attr.as_str(), "len");
                proof {
                    reveal_strlit("len");
                    reveal_strlit("?");
                    assert("?"@ != "len"@) by {
                        assert("?"@.len() != "len"@.len());
                    }
                    assert(is_len == ((name.0 as int) < s0.names.len() && s0.names[name.0 as int] == "len"@));
                }
                if is_len {
                    match obj {
                        Value::List(items) => {
                            let res = Ok(Value::Integer(crate::text::count_i64(items.len())));
                            proof {
                                assert(valid_eval(dd, fl, s0, g, s1, res));
                            }
                            return res;
                        },
                        Value::String(text) => {
                            let res = Ok(Value::Integer(crate::text::count_i64(text.as_str().len())));
                            proof {
                                assert(valid_eval(dd, fl, s0, g, s1, res));
                            }
                            return res;
                        },
                        _ => {},
                    }
                }
                let mut msg = owned("No attribute '");
                msg.append(attr.as_str());
                msg.append("'");
                let res = Err(msg);
                proof {
                    assert(valid_eval(dd, fl, s0, g, s1, res));
                }
                res
            },
            Expr::List(elements) => {
                let mut items: Vec<Value> = Vec::new();
                let mut i: usize = 0;
                while i < elements.len()
                    invariant
                        self.suppressed() == old(self).suppressed(),
                        g == *expr,
                        g == Expr::List(*elements),
                        i <= elements@.len(),
                        s0 == old(self).istate(),
                        forall|t: IState, rr: Result<Seq<Value>, String>|
                            #[trigger] exprs_rel(fl, self.istate(), elements@, i as int, items@, t, rr)
                                ==> exprs_rel(fl, s0, elements@, 0, Seq::empty(), t, rr),
                        fl == fuel as nat,
                        Interpreter::output_extends(old(self).output_view(), self.output_view()),
                        self.interner_view() == old(self).interner_view(),
                        self.env_view().depth() == old(self).env_view().depth(),
                    decreases elements@.len() - i,
                {
                    proof {
                        assert(decreases_to!(g => g->List_0@[i as int]));
                    }
                    let ghost before = self.output_view();
                    let ghost sa = self.istate();
                    let ghost acc = items@;
                    let v = self.eval_expr::<F>(&elements[i], fuel);
                    let ghost sb = self.istate();
                    let ghost dx = pick_eval(fl, sa, elements@[i as int], sb, v);
                    proof {
                        Interpreter::lemma_extends_trans(old(self).output_view(), before, self.output_view());
                    }
                    match v {
                        Ok(x) => {
                            proof {
                                assert forall|t: IState, rr: Result<Seq<Value>, String>|
                                    #[trigger] exprs_rel(fl, sb, elements@, i + 1, acc.push(x), t, rr)
                                    implies exprs_rel(fl, s0, elements@, 0, Seq::empty(), t, rr) by {
                                    let dt = pick_exprs(fl, sb, elements@, i + 1, acc.push(x), t, rr);
                                    assert(valid_exprs(steps(seq![dx, dt], seq![sb, sb], seq![Outcome::Val(v), Outcome::Val(v)]), fl, sa, elements@, i as int, acc, t, rr));
                                    assert(exprs_rel(fl, sa, elements@, i as int, acc, t, rr));
                                }
                            }
                            items.push(x);
                        },
                        Err(e) => {
                            let ghost er = Err::<Seq<Value>, String>(e);
                            proof {
                                assert(valid_exprs(steps(seq![dx], seq![sb], seq![Outcome::Val(v)]), fl, sa, elements@, i as int, acc, sb, er));
                                assert(exprs_rel(fl, sa, elements@, i as int, acc, sb, er));
                                let da = pick_exprs(fl, s0, elements@, 0, Seq::empty(), sb, er);
                                assert(valid_eval(steps(seq![da], seq![sb], seq![Outcome::Vals(er)]), fl, s0, g, sb, Err::<Value, String>(e)));
                            }
                            return Err(e);
                        },
                    }
                    i = i + 1;
                }
                let ghost s1 = self.istate();
                let ghost ar = Ok::<Seq<Value>, String>(items@);
                proof {
                    assert(valid_exprs(leaf(), fl, s1, elements@, i as int, items@, s1, ar));
                    assert(exprs_rel(fl, s1, elements@, i as int, items@, s1, ar));
                }
                let res = Ok(Value::List(Rc::new(items)));
                proof {
                    let da = pick_exprs(fl, s0, elements@, 0, Seq::empty(), s1, ar);
                    assert(valid_eval(steps(seq![da], seq![s1], seq![Outcome::Vals(ar)]), fl, s0, g, s1, res));
                }
                res
            },
            Expr::Dict(pairs) => {
                let mut result: Vec<(Value, Value)> = Vec::new();
                let mut i: usize = 0;
                while i < pairs.len()
                    invariant
                        self.suppressed() == old(self).suppressed(),
                        g == *expr,
                        g == Expr::Dict(*pairs),
                        i <= pairs@.len(),
                        s0 == old(self).istate(),
                        forall|t: IState, rr: Result<Seq<(Value, Value)>, String>|
                            #[trigger] pairs_rel(fl, self.istate(), pairs@, i as int, result@, t, rr)
                                ==> pairs_rel(fl, s0, pairs@, 0, Seq::empty(), t, rr),
                        fl == fuel as nat,
                        Interpreter::output_extends(old(self).output_view(), self.output_view()),
                        self.interner_view() == old(self).interner_view(),
                        self.env_view().depth() == old(self).env_view().depth(),
                    decreases pairs@.len() - i,
                {
                    proof {
                        assert(decreases_to!(g => g->Dict_0@[i as int].0));
                        assert(decreases_to!(g => g->Dict_0@[i as int].1));
                    }
                    let ghost before = self.output_view();
                    let ghost sa = self.istate();
                    let ghost acc = result@;
                    let k = self.eval_expr::<F>(&pairs[i].0, fuel);
                    let ghost mid = self.output_view();
                    let ghost sm = self.istate();
                    let ghost dk = pick_eval(fl, sa, pairs@[i as int].0, sm, k);
                    let kv = match k {
                        Ok(kv) => kv,
                        Err(e) => {
                            let ghost er = Err::<Seq<(Value, Value)>, String>(e);
                            proof {
                                Interpreter::lemma_extends_trans(old(self).output_view(), before, self.output_view());
                                assert(valid_pairs(steps(seq![dk], seq![sm], seq![Outcome::Val(k)]), fl, sa, pairs@, i as int, acc, sm, er));
                                assert(pairs_rel(fl, sa, pairs@, i as int, acc, sm, er));
                                let da = pick_pairs(fl, s0, pairs@, 0, Seq::empty(), sm, er);
                                assert(valid_eval(steps(seq![da], seq![sm], seq![Outcome::Pairs(er)]), fl, s0, g, sm, Err::<Value, String>(e)));
                            }
                            return Err(e);
                        },
                    };
                    let v = self.eval_expr::<F>(&pairs[i].1, fuel);
                    let ghost sb = self.istate();
                    let ghost dv = pick_eval(fl, sm, pairs@[i as int].1, sb, v);
                    proof {
                        Interpreter::lemma_extends_trans(old(self).output_view(), before, mid);
                        Interpreter::lemma_extends_trans(old(self).output_view(), mid, self.output_view());
                    }
                    match v {
                        Ok(x) => {
                            proof {
                                assert forall|t: IState, rr: Result<Seq<(Value, Value)>, String>|
                                    #[trigger] pairs_rel(fl, sb, pairs@, i + 1, acc.push((kv, x)), t, rr)
                                    implies pairs_rel(fl, s0, pairs@, 0, Seq::empty(), t, rr) by {
                                    let dt = pick_pairs(fl, sb, pairs@, i + 1, acc.push((kv, x)), t, rr);
                                    assert(valid_pairs(steps(seq![dk, dv, dt], seq![sm, sb, sb], seq![Outcome::Val(k), Outcome::Val(v), Outcome::Val(v)]), fl, sa, pairs@, i as int, acc, t, rr));
                                    assert(pairs_rel(fl, sa, pairs@, i as int, acc, t, rr));
                                }
                            }
                            result.push((kv, x));
                        },
                        Err(e) => {
                            let ghost er = Err::<Seq<(Value, Value)>, String>(e);
                            proof {
                                assert(valid_pairs(steps(seq![dk, dv], seq![sm, sb], seq![Outcome::Val(k), Outcome::Val(v)]), fl, sa, pairs@, i as int, acc, sb, er));
                                assert(pairs_rel(fl, sa, pairs@, i as int, acc, sb, er));
                                let da = pick_pairs(fl, s0, pairs@, 0, Seq::empty(), sb, er);
                                assert(valid_eval(steps(seq![da], seq![sb], seq![Outcome::Pairs(er)]), fl, s0, g, sb, Err::<Value, String>(e)));
                            }
                            return Err(e);
                        },
                    }
                    i = i + 1;
                }
                let ghost s1 = self.istate();
                let ghost ar = Ok::<Seq<(Value, Value)>, String>(result@);
                proof {
                    assert(valid_pairs(leaf(), fl, s1, pairs@, i as int, result@, s1, ar));
                    assert(pairs_rel(fl, s1, pairs@, i as int, result@, s1, ar));
                }
                let res = Ok(Value::Dict(Rc::new(result)));
                proof {
                    let da = pick_pairs(fl, s0, pairs@, 0, Seq::empty(), s1, ar);
                    assert(valid_eval(steps(seq![da], seq![s1], seq![Outcome::Pairs(ar)]), fl, s0, g, s1, res));
                }
                res
            },
            Expr::Compare { left, ops, comparators } => {
                let lr = self.eval_expr::<F>(left, fuel);
                let ghost s1 = self.istate();
                let ghost d1 = pick_eval(fl, s0, **left, s1, lr);
                let mut current = match lr {
                    Ok(v) => v,
                    Err(e) => {
                        proof {
                            assert(valid_eval(steps(seq![d1], seq![s1], seq![Outcome::Val(lr)]), fl, s0, g, s1, lr));
                        }
                        return Err(e);
                    },
                };
                let ghost v0 = current;
                let mut i: usize = 0;
                while i < ops.len() && i < comparators.len()
                    invariant
                        self.suppressed() == old(self).suppressed(),
                        g == *expr,
                        g == (Expr::Compare { left: *left, ops: *ops, comparators: *comparators }),
                        i <= comparators@.len(),
                        eval_rel(fl, s0, **left, s1, lr),
                        d1 == pick_eval(fl, s0, **left, s1, lr),
                        lr == Ok::<Value, String>(v0),
                        s0 == old(self).istate(),
                        forall|t: IState, rr: Result<Value, String>|
                            #[trigger] compare_rel(fl, self.istate(), current, ops@, comparators@, i as int, t, rr)
                                ==> compare_rel(fl, s1, v0, ops@, comparators@, 0, t, rr),
                        fl == fuel as nat,
                        Interpreter::output_extends(old(self).output_view(), self.output_view()),
                        self.interner_view() == old(self).interner_view(),
                        self.env_view().depth() == old(self).env_view().depth(),
                    decreases comparators@.len() - i,
                {
                    proof {
                        assert(decreases_to!(g => g->comparators@[i as int]));
                    }
                    let ghost before = self.output_view();
                    let ghost sa = self.istate();
                    let ghost cur = current;
                    let right = self.eval_expr::<F>(&comparators[i], fuel);
                    let ghost sb = self.istate();
                    let ghost dx = pick_eval(fl, sa, comparators@[i as int], sb, right);
                    proof {
                        Interpreter::lemma_extends_trans(old(self).output_view(), before, self.output_view());
                    }
                    let rv = match right {
                        Ok(v) => v,
                        Err(e) => {
                            proof {
                                assert(valid_compare(steps(seq![dx, leaf()], seq![sb, sb], seq![Outcome::Val(right), Outcome::Val(right)]), fl, sa, cur, ops@, comparators@, i as int, sb, Err::<Value, String>(e)));
                                assert(compare_rel(fl, sa, cur, ops@, comparators@, i as int, sb, Err::<Value, String>(e)));
                                let dc = pick_compare(fl, s1, v0, ops@, comparators@, 0, sb, Err::<Value, String>(e));
                                assert(valid_eval(steps(seq![d1, dc], seq![s1, sb], seq![Outcome::Val(lr), Outcome::Val(lr)]), fl, s0, g, sb, Err::<Value, String>(e)));
                            }
                            return Err(e);
                        },
                    };
                    let result = self.apply_comparison(&ops[i], &current, &rv);
                    let ghost cres = result;
                    match result {
                        Ok(b) => {
                            if !b {
                                let res = Ok(Value::Boolean(false));
                                proof {
                                    assert(valid_compare(steps(seq![dx, leaf()], seq![sb, sb], seq![Outcome::Val(right), Outcome::Test(cres)]), fl, sa, cur, ops@, comparators@, i as int, sb, res));
                                    assert(compare_rel(fl, sa, cur, ops@, comparators@, i as int, sb, res));
                                    let dc = pick_compare(fl, s1, v0, ops@, comparators@, 0, sb, res);
                                    assert(valid_eval(steps(seq![d1, dc], seq![s1, sb], seq![Outcome::Val(lr), Outcome::Val(lr)]), fl, s0, g, sb, res));
                                }
                                return res;
                            }
                        },
                        Err(e) => {
                            proof {
                                assert(valid_compare(steps(seq![dx, leaf()], seq![sb, sb], seq![Outcome::Val(right), Outcome::Test(cres)]), fl, sa, cur, ops@, comparators@, i as int, sb, Err::<Value, String>(e)));
                                assert(compare_rel(fl, sa, cur, ops@, comparators@, i as int, sb, Err::<Value, String>(e)));
                                let dc = pick_compare(fl, s1, v0, ops@, comparators@, 0, sb, Err::<Value, String>(e));
                                assert(valid_eval(steps(seq![d1, dc], seq![s1, sb], seq![Outcome::Val(lr), Outcome::Val(lr)]), fl, s0, g, sb, Err::<Value, String>(e)));
                            }
                            return Err(e);
                        },
                    }
                    proof {
                        assert forall|t: IState, rr: Result<Value, String>|
                            #[trigger] compare_rel(fl, sb, rv, ops@, comparators@, i + 1, t, rr)
                            implies compare_rel(fl, s1, v0, ops@, comparators@, 0, t, rr) by {
                            let dt = pick_compare(fl, sb, rv, ops@, comparators@, i + 1, t, rr);
                            assert(valid_compare(steps(seq![dx, dt], seq![sb, sb], seq![Outcome::Val(right), Outcome::Test(cres)]), fl, sa, cur, ops@, comparators@, i as int, t, rr));
                            assert(compare_rel(fl, sa, cur, ops@, comparators@, i as int, t, rr));
                        }
                    }
                    current = rv;
                    i = i + 1;
                }
                let ghost s2 = self.istate();
                let res = Ok(Value::Boolean(true));
                proof {
                    assert(valid_compare(leaf(), fl, s2, current, ops@, comparators@, i as int, s2, res));
                    assert(compare_rel(fl, s2, current, ops@, comparators@, i as int, s2, res));
                    let dc = pick_compare(fl, s1, v0, ops@, comparators@, 0, s2, res);
                    assert(valid_eval(steps(seq![d1, dc], seq![s1, s2], seq![Outcome::Val(lr), Outcome::Val(lr)]), fl, s0, g, s2, res));
                }
                res
            },
        }
    }

    /// Calls a function value with evaluated arguments (`call_rel`): a user
    /// function in a new frame, a builtin directly.
    #[verifier::rlimit(100)]
    #[verifier::spinoff_prover]
    fn call_function<F: FloatOps>(&mut self, func: &Value, args: Vec<Value>, fuel: u64) -> (r: Result<Value, String>)
        ensures
            final(self).suppressed() == old(self).suppressed(),
            call_rel(fuel as nat, old(self).istate(), *func, args@, final(self).istate(), r),
            Interpreter::output_extends(old(self).output_view(), final(self).output_view()),
            final(self).interner_view() == old(self).interner_view(),
            final(self).env_view().depth() == old(self).env_view().depth(),
            func is Function && args@.len() != (*func->Function_0).params@.len() ==> r is Err,
            !(func is Function || func is NativeFunction) ==> r is Err,
        decreases fuel, 3int, func, 0int,
    {
        let ghost s0 = self.istate();
        let ghost fl = fuel as nat;
        proof {
            assert(self.output_view().subrange(0, self.output_view().len() as int) =~= self.output_view());
        }
        match func {
            Value::Function(f) => {
                if args.len() != f.params.len() {
                    let mut msg = owned("Expected ");
                    let a = u64_text(f.params.len() as u64);
                    msg.append(a.as_str());
                    msg.append(" arguments, got ");
                    let b = u64_text(args.len() as u64);
                    msg.append(b.as_str());
                    proof {
                        assert(valid_call(leaf(), fl, s0, *func, args@, s0, Err::<Value, String>(msg)));
                    }
                    return Err(msg);
                }
                let fobj = rc_clone(f);
                self.env.push_frame(rc_clone(&fobj));
                let ghost e1 = call_entry(s0.env, fobj, args@);
                let mut i: usize = 0;
                while i < args.len()
                    invariant
                        i <= args@.len(),
                        args@.len() == fobj.params@.len(),
                        bind_params(self.env.model(), fobj.params@, args@, i as int) == e1,
                        self.env_view().depth() == old(self).env_view().depth() + 1,
                        self.output_view() == old(self).output_view(),
                        self.interner_view() == old(self).interner_view(),
                        self.suppressed() == old(self).suppressed(),
                    decreases args@.len() - i,
                {
                    self.env.set(fobj.params[i], args[i].copy());
                    i = i + 1;
                }
                let ghost s1 = self.istate();
                proof {
                    assert(s1 == with_env(s0, e1));
                }
                let ghost before = self.output_view();
                let result = self.exec_block::<F>(fobj.body.as_slice(), fuel);
                let ghost s2 = self.istate();
                let ghost db = pick_block(fl, s1, fobj.body@, 0, s2, result);
                self.env.pop_frame();
                let res = match result {
                    Ok(Some(ControlFlow::Return(v))) => Ok(v),
                    Ok(_) => Ok(Value::NoneVal),
                    Err(e) => Err(e),
                };
                proof {
                    assert(self.istate() == with_env(s2, env_pop(s2.env)));
                    assert(valid_call(steps(seq![db], seq![s2], seq![Outcome::Flow(result)]), fl, s0, *func, args@, self.istate(), res));
                }
                res
            },
            Value::NativeFunction { func: b, .. } => {
                let res = call_builtin_interp::<F>(*b, args.as_slice());
                proof {
                    assert(valid_call(leaf(), fl, s0, *func, args@, s0, res));
                }
                res
            },
            _ => {
                let res = Err(owned("value is not callable"));
                proof {
                    assert(valid_call(leaf(), fl, s0, *func, args@, s0, res));
                }
                res
            },
        }
    }
}

} // verus!
