//! The meaning of programs for the tree-walking interpreter, as relations
//! between the state before and after running a piece of syntax and its
//! result. The interpreter is proved to satisfy them.
//!
//! Each relation is exact except where floating point is involved: what a
//! float literal, a float operation or the text of a float gives is left
//! open, and so is the text of an error a primitive gives; an error of a
//! part is passed on unchanged (`fails_with`). `fuel` bounds the depth of nested
//! calls and the number of rounds of each `while` loop.
use vstd::prelude::*;

use crate::ast::{BinOp, CmpOp, Expr, Stmt, UnaryOp};
use crate::float::SIGN_BIT;
use crate::grammar::stmts_view;
use crate::interp_builtins::builtin_spec;
use crate::interpreter::{
    binop_spec, comparison_spec, display_text, env_get, env_pop, env_push, env_set, env_set_global,
    param_slots, scan_stmts, truthy, ControlFlow, EnvV, FunctionObj, Value,
};
use crate::interp_ops::subscript_spec;
use std::rc::Rc;
use crate::symbol::Symbol;

verus! {

/// What running a program can see and change: the variables, the lines
/// printed so far, the interned names (which only error texts and the
/// attribute `len` read) and whether printed lines are kept from the
/// console (which no part of a program changes).
pub struct IState {
    pub env: EnvV,
    pub out: Seq<Seq<char>>,
    pub names: Seq<Seq<char>>,
    pub quiet: bool,
}

/// `r` is the error `e`: a failure passed on unchanged.
pub open spec fn fails_with<T>(r: Result<T, String>, e: String) -> bool {
    r matches Err(x) && x == e
}

/// The error for a name without a value.
pub open spec fn undefined_name(names: Seq<Seq<char>>, name: Symbol) -> Seq<char> {
    "Undefined variable: "@ + if (name.0 as int) < names.len() {
        names[name.0 as int]
    } else {
        "?"@
    }
}

/// `s` with the variables `e`.
pub open spec fn with_env(s: IState, e: EnvV) -> IState {
    IState { env: e, out: s.out, names: s.names, quiet: s.quiet }
}

/// `s` with one more printed line.
pub open spec fn with_line(s: IState, line: Seq<char>) -> IState {
    IState { env: s.env, out: s.out.push(line), names: s.names, quiet: s.quiet }
}

/// The line `print` shows for its arguments: their texts separated by
/// spaces.
pub open spec fn print_text(vals: Seq<Value>) -> Seq<char>
    decreases vals.len(),
{
    if vals.len() == 0 {
        Seq::empty()
    } else if vals.len() == 1 {
        display_text(vals[0])
    } else {
        print_text(vals.drop_last()) + seq![' '] + display_text(vals.last())
    }
}

/// Whether no value is or holds a float.
pub open spec fn floats_absent(vals: Seq<Value>) -> bool {
    forall|i: int| 0 <= i < vals.len() ==> crate::interpreter::float_free(#[trigger] vals[i])
}

/// A unary operator applied to a value.
pub open spec fn unary_spec(op: UnaryOp, v: Value, r: Result<Value, String>) -> bool {
    match op {
        UnaryOp::Neg => match v {
            Value::Integer(n) => r == Ok::<Value, String>(Value::Integer(0i64.wrapping_sub(n))),
            Value::Float(f) => r == Ok::<Value, String>(Value::Float(f ^ SIGN_BIT)),
            _ => r is Err,
        },
        UnaryOp::Not => r == Ok::<Value, String>(Value::Boolean(!truthy(v))),
    }
}

/// The attribute `name` of a value: `len` of a list (its items) or a string
/// (its UTF-8 bytes); anything else is an error.
pub open spec fn attribute_spec(names: Seq<Seq<char>>, v: Value, name: Symbol, r: Result<Value, String>) -> bool {
    let is_len = (name.0 as int) < names.len() && names[name.0 as int] == "len"@;
    match v {
        Value::List(items) if is_len => r == Ok::<Value, String>(Value::Integer((items@.len() as usize) as i64)),
        Value::String(text) if is_len => r == Ok::<Value, String>(
            Value::Integer((vstd::utf8::encode_utf8(text@).len() as usize) as i64),
        ),
        _ => r is Err,
    }
}

/// The items a `for` loop runs over: a list's items, or a string's
/// characters each as a string.
pub open spec fn iter_items(v: Value, items: Seq<Value>) -> bool {
    match v {
        Value::List(l) => items == l@,
        Value::String(text) => items.len() == text@.len() && forall|k: int|
            0 <= k < items.len() ==> (#[trigger] items[k] matches Value::String(c) && c@ == seq![text@[k]]),
        _ => false,
    }
}

/// The variables after binding `args` to the parameters `ps[i..]` in order.
pub open spec fn bind_params(e: EnvV, ps: Seq<Symbol>, args: Seq<Value>, i: int) -> EnvV
    decreases ps.len() - i,
{
    if i < 0 || i >= ps.len() {
        e
    } else {
        bind_params(env_set(e, ps[i].0, args[i]), ps, args, i + 1)
    }
}

/// What a step of a run gave, as recorded in a derivation.
pub enum Outcome {
    Val(Result<Value, String>),
    Vals(Result<Seq<Value>, String>),
    Pairs(Result<Seq<(Value, Value)>, String>),
    Flow(Result<Option<ControlFlow>, String>),
    Test(Result<bool, String>),
    Items(Seq<Value>),
    Func(Rc<FunctionObj>),
}

/// A derivation: how a run went, step by step. Step `k` is derived by
/// `kids[k]`, ends in `states[k]` and gives `outs[k]`.
pub struct Deriv {
    pub kids: Seq<Deriv>,
    pub states: Seq<IState>,
    pub outs: Seq<Outcome>,
}

/// Whether the derivation records at least `n` steps.
pub open spec fn has(d: Deriv, n: int) -> bool {
    d.kids.len() >= n && d.states.len() >= n && d.outs.len() >= n
}

/// The variables on entering a call of `f` with `args`: a new frame with
/// the parameters bound in order.
pub open spec fn call_entry(e: EnvV, f: Rc<FunctionObj>, args: Seq<Value>) -> EnvV {
    bind_params(env_push(e, *f), f.params@, args, 0)
}

/// `d` derives that evaluating `e` in `s` ends in `t` with `r`. Both
/// operands of `and` and `or` are evaluated; a call needs fuel.
pub open spec fn valid_eval(d: Deriv, fuel: nat, s: IState, e: Expr, t: IState, r: Result<Value, String>) -> bool
    decreases d,
{
    match e {
        Expr::Integer(n) => t == s && r == Ok::<Value, String>(Value::Integer(n)),
        Expr::Float(_) => t == s && r matches Ok(Value::Float(_)),
        Expr::StringLiteral(text) => t == s && (r matches Ok(Value::String(x)) && x@ == text@),
        Expr::Boolean(b) => t == s && r == Ok::<Value, String>(Value::Boolean(b)),
        Expr::NoneLit => t == s && r == Ok::<Value, String>(Value::NoneVal),
        Expr::Identifier(name) => t == s && match env_get(s.env, name.0) {
            Some(v) => r == Ok::<Value, String>(v),
            None => r matches Err(m) && m@ == undefined_name(s.names, name),
        },
        Expr::BinaryOp { left, op, right } => has(d, 1) && (d.outs[0] matches Outcome::Val(r1) && valid_eval(
            d.kids[0],
            fuel,
            s,
            *left,
            d.states[0],
            r1,
        ) && match r1 {
            Err(e) => t == d.states[0] && fails_with(r, e),
            Ok(v1) => has(d, 2) && (d.outs[1] matches Outcome::Val(r2) && valid_eval(
                d.kids[1],
                fuel,
                d.states[0],
                *right,
                d.states[1],
                r2,
            ) && t == d.states[1] && match r2 {
                Err(e) => fails_with(r, e),
                Ok(v2) => binop_spec(op, v1, v2, r),
            }),
        }),
        Expr::UnaryOp { op, operand } => has(d, 1) && (d.outs[0] matches Outcome::Val(r1) && valid_eval(
            d.kids[0],
            fuel,
            s,
            *operand,
            d.states[0],
            r1,
        ) && t == d.states[0] && match r1 {
            Err(e) => fails_with(r, e),
            Ok(v) => unary_spec(op, v, r),
        }),
        Expr::Call { function, args } => has(d, 1) && (d.outs[0] matches Outcome::Val(r1) && valid_eval(
            d.kids[0],
            fuel,
            s,
            *function,
            d.states[0],
            r1,
        ) && match r1 {
            Err(e) => t == d.states[0] && fails_with(r, e),
            Ok(f) => has(d, 2) && (d.outs[1] matches Outcome::Vals(r2) && valid_exprs(
                d.kids[1],
                fuel,
                d.states[0],
                args@,
                0,
                Seq::empty(),
                d.states[1],
                r2,
            ) && match r2 {
                Err(e) => t == d.states[1] && fails_with(r, e),
                Ok(vals) => if fuel == 0 {
                    t == d.states[1] && r is Err
                } else {
                    has(d, 3) && valid_call(d.kids[2], (fuel - 1) as nat, d.states[1], f, vals, t, r)
                },
            }),
        }),
        Expr::Index { object, index } => has(d, 1) && (d.outs[0] matches Outcome::Val(r1) && valid_eval(
            d.kids[0],
            fuel,
            s,
            *object,
            d.states[0],
            r1,
        ) && match r1 {
            Err(e) => t == d.states[0] && fails_with(r, e),
            Ok(o) => has(d, 2) && (d.outs[1] matches Outcome::Val(r2) && valid_eval(
                d.kids[1],
                fuel,
                d.states[0],
                *index,
                d.states[1],
                r2,
            ) && t == d.states[1] && match r2 {
                Err(e) => fails_with(r, e),
                Ok(i) => subscript_spec(o, i, r),
            }),
        }),
        Expr::Attribute { object, name } => has(d, 1) && (d.outs[0] matches Outcome::Val(r1) && valid_eval(
            d.kids[0],
            fuel,
            s,
            *object,
            d.states[0],
            r1,
        ) && t == d.states[0] && match r1 {
            Err(e) => fails_with(r, e),
            Ok(o) => attribute_spec(s.names, o, name, r),
        }),
        Expr::List(items) => has(d, 1) && (d.outs[0] matches Outcome::Vals(r1) && valid_exprs(
            d.kids[0],
            fuel,
            s,
            items@,
            0,
            Seq::empty(),
            d.states[0],
            r1,
        ) && t == d.states[0] && match r1 {
            Err(e) => fails_with(r, e),
            Ok(vals) => r matches Ok(Value::List(l)) && l@ == vals,
        }),
        Expr::Dict(pairs) => has(d, 1) && (d.outs[0] matches Outcome::Pairs(r1) && valid_pairs(
            d.kids[0],
            fuel,
            s,
            pairs@,
            0,
            Seq::empty(),
            d.states[0],
            r1,
        ) && t == d.states[0] && match r1 {
            Err(e) => fails_with(r, e),
            Ok(ps) => r matches Ok(Value::Dict(m)) && m@ == ps,
        }),
        Expr::Compare { left, ops, comparators } => has(d, 1) && (d.outs[0] matches Outcome::Val(r1)
            && valid_eval(d.kids[0], fuel, s, *left, d.states[0], r1) && match r1 {
            Err(e) => t == d.states[0] && fails_with(r, e),
            Ok(v0) => has(d, 2) && valid_compare(d.kids[1], fuel, d.states[0], v0, ops@, comparators@, 0, t, r),
        }),
    }
}

/// `d` derives evaluating `es[i..]` in order after the values `acc`; the
/// first error ends it.
pub open spec fn valid_exprs(
    d: Deriv,
    fuel: nat,
    s: IState,
    es: Seq<Expr>,
    i: int,
    acc: Seq<Value>,
    t: IState,
    r: Result<Seq<Value>, String>,
) -> bool
    decreases d,
{
    if i < 0 || i >= es.len() {
        t == s && r == Ok::<Seq<Value>, String>(acc)
    } else {
        has(d, 1) && (d.outs[0] matches Outcome::Val(r1) && valid_eval(d.kids[0], fuel, s, es[i], d.states[0], r1)
            && match r1 {
            Err(e) => t == d.states[0] && fails_with(r, e),
            Ok(v) => has(d, 2) && valid_exprs(d.kids[1], fuel, d.states[0], es, i + 1, acc.push(v), t, r),
        })
    }
}

/// `d` derives evaluating the key-value pairs `ps[i..]` in order after
/// `acc`.
pub open spec fn valid_pairs(
    d: Deriv,
    fuel: nat,
    s: IState,
    ps: Seq<(Expr, Expr)>,
    i: int,
    acc: Seq<(Value, Value)>,
    t: IState,
    r: Result<Seq<(Value, Value)>, String>,
) -> bool
    decreases d,
{
    if i < 0 || i >= ps.len() {
        t == s && r == Ok::<Seq<(Value, Value)>, String>(acc)
    } else {
        has(d, 1) && (d.outs[0] matches Outcome::Val(r1) && valid_eval(d.kids[0], fuel, s, ps[i].0, d.states[0], r1)
            && match r1 {
            Err(e) => t == d.states[0] && fails_with(r, e),
            Ok(k) => has(d, 2) && (d.outs[1] matches Outcome::Val(r2) && valid_eval(
                d.kids[1],
                fuel,
                d.states[0],
                ps[i].1,
                d.states[1],
                r2,
            ) && match r2 {
                Err(e) => t == d.states[1] && fails_with(r, e),
                Ok(v) => has(d, 3) && valid_pairs(d.kids[2], fuel, d.states[1], ps, i + 1, acc.push((k, v)), t, r),
            }),
        })
    }
}

/// `d` derives a comparison chain from operator `i` on, `cur` being the
/// value on the left: it stops with `False` at the first comparison that
/// fails.
pub open spec fn valid_compare(
    d: Deriv,
    fuel: nat,
    s: IState,
    cur: Value,
    ops: Seq<CmpOp>,
    cs: Seq<Expr>,
    i: int,
    t: IState,
    r: Result<Value, String>,
) -> bool
    decreases d,
{
    if !(0 <= i < ops.len() && i < cs.len()) {
        t == s && r == Ok::<Value, String>(Value::Boolean(true))
    } else {
        has(d, 2) && (d.outs[0] matches Outcome::Val(r1) && valid_eval(d.kids[0], fuel, s, cs[i], d.states[0], r1)
            && match r1 {
            Err(e) => t == d.states[0] && fails_with(r, e),
            Ok(rv) => d.outs[1] matches Outcome::Test(c) && comparison_spec(ops[i], cur, rv, c) && match c {
                Err(e) => t == d.states[0] && fails_with(r, e),
                Ok(false) => t == d.states[0] && r == Ok::<Value, String>(Value::Boolean(false)),
                Ok(true) => valid_compare(d.kids[1], fuel, d.states[0], rv, ops, cs, i + 1, t, r),
            },
        })
    }
}

/// `d` derives calling the value `f` with `args`: a user function runs its
/// body in a new frame with the parameters bound, and gives what it returns
/// (`None` when it ends without `return`); a builtin gives its result.
pub open spec fn valid_call(
    d: Deriv,
    fuel: nat,
    s: IState,
    f: Value,
    args: Seq<Value>,
    t: IState,
    r: Result<Value, String>,
) -> bool
    decreases d,
{
    match f {
        Value::Function(fo) => if args.len() != fo.params@.len() {
            t == s && r is Err
        } else {
            let s1 = with_env(s, call_entry(s.env, fo, args));
            has(d, 1) && (d.outs[0] matches Outcome::Flow(r2) && valid_block(d.kids[0], fuel, s1, fo.body@, 0, d.states[0], r2)
                && t == with_env(d.states[0], env_pop(d.states[0].env)) && match r2 {
                Err(e) => fails_with(r, e),
                Ok(Some(ControlFlow::Return(v))) => r == Ok::<Value, String>(v),
                Ok(_) => r == Ok::<Value, String>(Value::NoneVal),
            })
        },
        Value::NativeFunction { func, .. } => t == s && builtin_spec(func, args, r),
        _ => t == s && r is Err,
    }
}

/// `d` derives running the statements `ss[i..]` in order; a `return`,
/// `break` or `continue`, or an error, ends the block.
pub open spec fn valid_block(
    d: Deriv,
    fuel: nat,
    s: IState,
    ss: Seq<Stmt>,
    i: int,
    t: IState,
    r: Result<Option<ControlFlow>, String>,
) -> bool
    decreases d,
{
    if i < 0 || i >= ss.len() {
        t == s && r == Ok::<Option<ControlFlow>, String>(None)
    } else {
        has(d, 1) && (d.outs[0] matches Outcome::Flow(r1) && valid_exec(d.kids[0], fuel, s, ss[i], d.states[0], r1)
            && match r1 {
            Ok(None) => has(d, 2) && valid_block(d.kids[1], fuel, d.states[0], ss, i + 1, t, r),
            _ => t == d.states[0] && r == r1,
        })
    }
}

/// `d` derives running one statement.
pub open spec fn valid_exec(
    d: Deriv,
    fuel: nat,
    s: IState,
    st: Stmt,
    t: IState,
    r: Result<Option<ControlFlow>, String>,
) -> bool
    decreases d,
{
    match st {
        Stmt::Expression(e) => has(d, 1) && (d.outs[0] matches Outcome::Val(r1) && valid_eval(
            d.kids[0],
            fuel,
            s,
            e,
            d.states[0],
            r1,
        ) && t == d.states[0] && match r1 {
            Err(e) => fails_with(r, e),
            Ok(_) => r == Ok::<Option<ControlFlow>, String>(None),
        }),
        Stmt::Assign { target, value } => has(d, 1) && (d.outs[0] matches Outcome::Val(r1) && valid_eval(
            d.kids[0],
            fuel,
            s,
            value,
            d.states[0],
            r1,
        ) && match r1 {
            Err(e) => t == d.states[0] && fails_with(r, e),
            Ok(v) => t == with_env(d.states[0], env_set(d.states[0].env, target.0, v)) && r == Ok::<
                Option<ControlFlow>,
                String,
            >(None),
        }),
        Stmt::AugAssign { target, op, value } => match env_get(s.env, target.0) {
            None => t == s && (r matches Err(m) && m@ == undefined_name(s.names, target)),
            Some(cur) => has(d, 2) && (d.outs[0] matches Outcome::Val(r1) && valid_eval(
                d.kids[0],
                fuel,
                s,
                value,
                d.states[0],
                r1,
            ) && match r1 {
                Err(e) => t == d.states[0] && fails_with(r, e),
                Ok(rhs) => d.outs[1] matches Outcome::Val(b) && binop_spec(op, cur, rhs, b) && match b {
                    Err(e) => t == d.states[0] && fails_with(r, e),
                    Ok(v) => t == with_env(d.states[0], env_set(d.states[0].env, target.0, v)) && r == Ok::<
                        Option<ControlFlow>,
                        String,
                    >(None),
                },
            }),
        },
        Stmt::Print(args) => has(d, 1) && (d.outs[0] matches Outcome::Vals(r1) && valid_exprs(
            d.kids[0],
            fuel,
            s,
            args@,
            0,
            Seq::empty(),
            d.states[0],
            r1,
        ) && match r1 {
            Err(e) => t == d.states[0] && fails_with(r, e),
            Ok(vals) => r == Ok::<Option<ControlFlow>, String>(None) && t.env == d.states[0].env && t.names
                == d.states[0].names && t.out.len() == d.states[0].out.len() + 1 && t.out.drop_last()
                == d.states[0].out && (floats_absent(vals) ==> t.out.last() == print_text(vals)),
        }),
        Stmt::If { .. } => has(d, 1) && valid_if(d.kids[0], fuel, s, st, t, r),
        Stmt::While { .. } => has(d, 1) && valid_while(d.kids[0], fuel, s, st, fuel, t, r),
        Stmt::For { .. } => has(d, 1) && valid_for(d.kids[0], fuel, s, st, t, r),
        Stmt::FunctionDef { name, params, body } => r == Ok::<Option<ControlFlow>, String>(None) && has(d, 1)
            && (d.outs[0] matches Outcome::Func(f) && t == with_env(
            s,
            env_set_global(s.env, name.0, Value::Function(f)),
        ) && f.name == name && f.params@ == params@ && stmts_view(f.body@) == stmts_view(body@) && (
            f.local_slots@,
            f.num_locals,
        ) == scan_stmts(body@, 0, param_slots(params@, params@.len() as int), params@.len() as usize)),
        Stmt::Return(value) => match value {
            None => t == s && r == Ok::<Option<ControlFlow>, String>(Some(ControlFlow::Return(Value::NoneVal))),
            Some(e) => has(d, 1) && (d.outs[0] matches Outcome::Val(r1) && valid_eval(
                d.kids[0],
                fuel,
                s,
                e,
                d.states[0],
                r1,
            ) && t == d.states[0] && match r1 {
                Err(e) => fails_with(r, e),
                Ok(v) => r == Ok::<Option<ControlFlow>, String>(Some(ControlFlow::Return(v))),
            }),
        },
        Stmt::Break => t == s && r == Ok::<Option<ControlFlow>, String>(Some(ControlFlow::Break)),
        Stmt::Continue => t == s && r == Ok::<Option<ControlFlow>, String>(Some(ControlFlow::Continue)),
        Stmt::Pass => t == s && r == Ok::<Option<ControlFlow>, String>(None),
    }
}

/// `d` derives an `if` statement: the first true condition among `if` and
/// `elif` chooses its block, else the `else` block runs if there is one.
pub open spec fn valid_if(
    d: Deriv,
    fuel: nat,
    s: IState,
    st: Stmt,
    t: IState,
    r: Result<Option<ControlFlow>, String>,
) -> bool
    decreases d,
{
    match st {
        Stmt::If { condition, body, .. } => has(d, 1) && (d.outs[0] matches Outcome::Val(r1) && valid_eval(
            d.kids[0],
            fuel,
            s,
            condition,
            d.states[0],
            r1,
        ) && match r1 {
            Err(e) => t == d.states[0] && fails_with(r, e),
            Ok(c) => has(d, 2) && if truthy(c) {
                valid_block(d.kids[1], fuel, d.states[0], body@, 0, t, r)
            } else {
                valid_elifs(d.kids[1], fuel, d.states[0], st, 0, t, r)
            },
        }),
        _ => t == s && r == Ok::<Option<ControlFlow>, String>(None),
    }
}

/// `d` derives the `elif` clauses of `st` from clause `j` on, then its
/// `else` block.
pub open spec fn valid_elifs(
    d: Deriv,
    fuel: nat,
    s: IState,
    st: Stmt,
    j: int,
    t: IState,
    r: Result<Option<ControlFlow>, String>,
) -> bool
    decreases d,
{
    match st {
        Stmt::If { elif_clauses, else_body, .. } => if 0 <= j < elif_clauses@.len() {
            has(d, 1) && (d.outs[0] matches Outcome::Val(r1) && valid_eval(
                d.kids[0],
                fuel,
                s,
                elif_clauses@[j].0,
                d.states[0],
                r1,
            ) && match r1 {
                Err(e) => t == d.states[0] && fails_with(r, e),
                Ok(c) => has(d, 2) && if truthy(c) {
                    valid_block(d.kids[1], fuel, d.states[0], elif_clauses@[j].1@, 0, t, r)
                } else {
                    valid_elifs(d.kids[1], fuel, d.states[0], st, j + 1, t, r)
                },
            })
        } else {
            match else_body {
                Some(b) => has(d, 1) && valid_block(d.kids[0], fuel, s, b@, 0, t, r),
                None => t == s && r == Ok::<Option<ControlFlow>, String>(None),
            }
        },
        _ => t == s && r == Ok::<Option<ControlFlow>, String>(None),
    }
}

/// `d` derives a `while` loop with `budget` rounds left: out of rounds it
/// is an error; a false condition ends it; `break` ends it, `return` leaves
/// it with the value, `continue` and the end of the block go to the next
/// round.
pub open spec fn valid_while(
    d: Deriv,
    fuel: nat,
    s: IState,
    st: Stmt,
    budget: nat,
    t: IState,
    r: Result<Option<ControlFlow>, String>,
) -> bool
    decreases d,
{
    match st {
        Stmt::While { condition, body } => if budget == 0 {
            t == s && r is Err
        } else {
            has(d, 1) && (d.outs[0] matches Outcome::Val(r1) && valid_eval(
                d.kids[0],
                fuel,
                s,
                condition,
                d.states[0],
                r1,
            ) && match r1 {
                Err(e) => t == d.states[0] && fails_with(r, e),
                Ok(c) => if !truthy(c) {
                    t == d.states[0] && r == Ok::<Option<ControlFlow>, String>(None)
                } else {
                    has(d, 2) && (d.outs[1] matches Outcome::Flow(r2) && valid_block(
                        d.kids[1],
                        fuel,
                        d.states[0],
                        body@,
                        0,
                        d.states[1],
                        r2,
                    ) && match r2 {
                        Err(e) => t == d.states[1] && fails_with(r, e),
                        Ok(Some(ControlFlow::Break)) => t == d.states[1] && r == Ok::<Option<ControlFlow>, String>(
                            None,
                        ),
                        Ok(Some(ControlFlow::Return(v))) => t == d.states[1] && r == Ok::<
                            Option<ControlFlow>,
                            String,
                        >(Some(ControlFlow::Return(v))),
                        Ok(_) => has(d, 3) && valid_while(d.kids[2], fuel, d.states[1], st, (budget - 1) as nat, t, r),
                    })
                },
            })
        },
        _ => t == s && r == Ok::<Option<ControlFlow>, String>(None),
    }
}

/// `d` derives a `for` loop: the iterable is evaluated once, then the body
/// runs with the target bound to each item in turn.
pub open spec fn valid_for(
    d: Deriv,
    fuel: nat,
    s: IState,
    st: Stmt,
    t: IState,
    r: Result<Option<ControlFlow>, String>,
) -> bool
    decreases d,
{
    match st {
        Stmt::For { iter, .. } => has(d, 1) && (d.outs[0] matches Outcome::Val(r1) && valid_eval(
            d.kids[0],
            fuel,
            s,
            iter,
            d.states[0],
            r1,
        ) && match r1 {
            Err(e) => t == d.states[0] && fails_with(r, e),
            Ok(it) => if it is List || it is String {
                has(d, 2) && (d.outs[1] matches Outcome::Items(items) && iter_items(it, items) && valid_for_items(
                    d.kids[1],
                    fuel,
                    d.states[0],
                    st,
                    items,
                    0,
                    t,
                    r,
                ))
            } else {
                t == d.states[0] && r is Err
            },
        }),
        _ => t == s && r == Ok::<Option<ControlFlow>, String>(None),
    }
}

/// `d` derives the rounds of a `for` loop from item `i` on.
pub open spec fn valid_for_items(
    d: Deriv,
    fuel: nat,
    s: IState,
    st: Stmt,
    items: Seq<Value>,
    i: int,
    t: IState,
    r: Result<Option<ControlFlow>, String>,
) -> bool
    decreases d,
{
    match st {
        Stmt::For { target, body, .. } => if 0 <= i < items.len() {
            let s1 = with_env(s, env_set(s.env, target.0, items[i]));
            has(d, 1) && (d.outs[0] matches Outcome::Flow(r2) && valid_block(d.kids[0], fuel, s1, body@, 0, d.states[0], r2)
                && match r2 {
                Err(e) => t == d.states[0] && fails_with(r, e),
                Ok(Some(ControlFlow::Break)) => t == d.states[0] && r == Ok::<Option<ControlFlow>, String>(None),
                Ok(Some(ControlFlow::Return(v))) => t == d.states[0] && r == Ok::<Option<ControlFlow>, String>(
                    Some(ControlFlow::Return(v)),
                ),
                Ok(_) => has(d, 2) && valid_for_items(d.kids[1], fuel, d.states[0], st, items, i + 1, t, r),
            })
        } else {
            t == s && r == Ok::<Option<ControlFlow>, String>(None)
        },
        _ => t == s && r == Ok::<Option<ControlFlow>, String>(None),
    }
}

/// `d` derives running a program from statement `i` on, at the top level: a
/// `return`, `break` or `continue` that reaches it is an error.
pub open spec fn valid_run(d: Deriv, s: IState, ss: Seq<Stmt>, i: int, t: IState, r: Result<(), String>) -> bool
    decreases d,
{
    if i < 0 || i >= ss.len() {
        t == s && r == Ok::<(), String>(())
    } else {
        has(d, 1) && (d.outs[0] matches Outcome::Flow(r1) && valid_exec(d.kids[0], u64::MAX as nat, s, ss[i], d.states[0], r1)
            && match r1 {
            Ok(None) => has(d, 2) && valid_run(d.kids[1], d.states[0], ss, i + 1, t, r),
            Err(e) => t == d.states[0] && fails_with(r, e),
            Ok(Some(ControlFlow::Return(_))) => t == d.states[0] && (r matches Err(m) && m@
                == "'return' outside function"@),
            Ok(Some(ControlFlow::Break)) => t == d.states[0] && (r matches Err(m) && m@ == "'break' outside loop"@),
            Ok(Some(ControlFlow::Continue)) => t == d.states[0] && (r matches Err(m) && m@
                == "'continue' outside loop"@),
        })
    }
}

/// Evaluating `e` in `s` can end in `t` with `r`.
pub open spec fn eval_rel(fuel: nat, s: IState, e: Expr, t: IState, r: Result<Value, String>) -> bool {
    exists|d: Deriv| valid_eval(d, fuel, s, e, t, r)
}

/// Evaluating `es[i..]` after `acc` can end in `t` with `r`.
pub open spec fn exprs_rel(
    fuel: nat,
    s: IState,
    es: Seq<Expr>,
    i: int,
    acc: Seq<Value>,
    t: IState,
    r: Result<Seq<Value>, String>,
) -> bool {
    exists|d: Deriv| valid_exprs(d, fuel, s, es, i, acc, t, r)
}

/// Evaluating the pairs `ps[i..]` after `acc` can end in `t` with `r`.
pub open spec fn pairs_rel(
    fuel: nat,
    s: IState,
    ps: Seq<(Expr, Expr)>,
    i: int,
    acc: Seq<(Value, Value)>,
    t: IState,
    r: Result<Seq<(Value, Value)>, String>,
) -> bool {
    exists|d: Deriv| valid_pairs(d, fuel, s, ps, i, acc, t, r)
}

/// A comparison chain from operator `i` on can end in `t` with `r`.
pub open spec fn compare_rel(
    fuel: nat,
    s: IState,
    cur: Value,
    ops: Seq<CmpOp>,
    cs: Seq<Expr>,
    i: int,
    t: IState,
    r: Result<Value, String>,
) -> bool {
    exists|d: Deriv| valid_compare(d, fuel, s, cur, ops, cs, i, t, r)
}

/// Calling `f` with `args` can end in `t` with `r`.
pub open spec fn call_rel(fuel: nat, s: IState, f: Value, args: Seq<Value>, t: IState, r: Result<Value, String>) -> bool {
    exists|d: Deriv| valid_call(d, fuel, s, f, args, t, r)
}

/// Running `ss[i..]` can end in `t` with `r`.
pub open spec fn block_rel(
    fuel: nat,
    s: IState,
    ss: Seq<Stmt>,
    i: int,
    t: IState,
    r: Result<Option<ControlFlow>, String>,
) -> bool {
    exists|d: Deriv| valid_block(d, fuel, s, ss, i, t, r)
}

/// Running `st` can end in `t` with `r`.
pub open spec fn exec_rel(fuel: nat, s: IState, st: Stmt, t: IState, r: Result<Option<ControlFlow>, String>) -> bool {
    exists|d: Deriv| valid_exec(d, fuel, s, st, t, r)
}

/// Running the `if` statement `st` can end in `t` with `r`.
pub open spec fn if_rel(fuel: nat, s: IState, st: Stmt, t: IState, r: Result<Option<ControlFlow>, String>) -> bool {
    exists|d: Deriv| valid_if(d, fuel, s, st, t, r)
}

/// The `elif` clauses of `st` from `j` on can end in `t` with `r`.
pub open spec fn elifs_rel(
    fuel: nat,
    s: IState,
    st: Stmt,
    j: int,
    t: IState,
    r: Result<Option<ControlFlow>, String>,
) -> bool {
    exists|d: Deriv| valid_elifs(d, fuel, s, st, j, t, r)
}

/// The `while` loop `st` with `budget` rounds left can end in `t` with `r`.
pub open spec fn while_rel(
    fuel: nat,
    s: IState,
    st: Stmt,
    budget: nat,
    t: IState,
    r: Result<Option<ControlFlow>, String>,
) -> bool {
    exists|d: Deriv| valid_while(d, fuel, s, st, budget, t, r)
}

/// The `for` loop `st` can end in `t` with `r`.
pub open spec fn for_rel(fuel: nat, s: IState, st: Stmt, t: IState, r: Result<Option<ControlFlow>, String>) -> bool {
    exists|d: Deriv| valid_for(d, fuel, s, st, t, r)
}

/// The rounds of the `for` loop `st` from item `i` on can end in `t` with
/// `r`.
pub open spec fn for_items_rel(
    fuel: nat,
    s: IState,
    st: Stmt,
    items: Seq<Value>,
    i: int,
    t: IState,
    r: Result<Option<ControlFlow>, String>,
) -> bool {
    exists|d: Deriv| valid_for_items(d, fuel, s, st, items, i, t, r)
}

/// Running the program `ss` from statement `i` on can end in `t` with `r`.
pub open spec fn run_rel(s: IState, ss: Seq<Stmt>, i: int, t: IState, r: Result<(), String>) -> bool {
    exists|d: Deriv| valid_run(d, s, ss, i, t, r)
}

/// A derivation with no steps.
pub open spec fn leaf() -> Deriv {
    Deriv { kids: Seq::empty(), states: Seq::empty(), outs: Seq::empty() }
}

/// A derivation of the given steps.
pub open spec fn steps(kids: Seq<Deriv>, states: Seq<IState>, outs: Seq<Outcome>) -> Deriv {
    Deriv { kids, states, outs }
}

/// A derivation for `eval_rel`, when there is one.
pub open spec fn pick_eval(fuel: nat, s: IState, e: Expr, t: IState, r: Result<Value, String>) -> Deriv {
    choose|d: Deriv| valid_eval(d, fuel, s, e, t, r)
}

pub open spec fn pick_exprs(
    fuel: nat,
    s: IState,
    es: Seq<Expr>,
    i: int,
    acc: Seq<Value>,
    t: IState,
    r: Result<Seq<Value>, String>,
) -> Deriv {
    choose|d: Deriv| valid_exprs(d, fuel, s, es, i, acc, t, r)
}

pub open spec fn pick_pairs(
    fuel: nat,
    s: IState,
    ps: Seq<(Expr, Expr)>,
    i: int,
    acc: Seq<(Value, Value)>,
    t: IState,
    r: Result<Seq<(Value, Value)>, String>,
) -> Deriv {
    choose|d: Deriv| valid_pairs(d, fuel, s, ps, i, acc, t, r)
}

pub open spec fn pick_compare(
    fuel: nat,
    s: IState,
    cur: Value,
    ops: Seq<CmpOp>,
    cs: Seq<Expr>,
    i: int,
    t: IState,
    r: Result<Value, String>,
) -> Deriv {
    choose|d: Deriv| valid_compare(d, fuel, s, cur, ops, cs, i, t, r)
}

pub open spec fn pick_call(fuel: nat, s: IState, f: Value, args: Seq<Value>, t: IState, r: Result<Value, String>) -> Deriv {
    choose|d: Deriv| valid_call(d, fuel, s, f, args, t, r)
}

pub open spec fn pick_block(
    fuel: nat,
    s: IState,
    ss: Seq<Stmt>,
    i: int,
    t: IState,
    r: Result<Option<ControlFlow>, String>,
) -> Deriv {
    choose|d: Deriv| valid_block(d, fuel, s, ss, i, t, r)
}

pub open spec fn pick_exec(fuel: nat, s: IState, st: Stmt, t: IState, r: Result<Option<ControlFlow>, String>) -> Deriv {
    choose|d: Deriv| valid_exec(d, fuel, s, st, t, r)
}

pub open spec fn pick_if(fuel: nat, s: IState, st: Stmt, t: IState, r: Result<Option<ControlFlow>, String>) -> Deriv {
    choose|d: Deriv| valid_if(d, fuel, s, st, t, r)
}

pub open spec fn pick_elifs(
    fuel: nat,
    s: IState,
    st: Stmt,
    j: int,
    t: IState,
    r: Result<Option<ControlFlow>, String>,
) -> Deriv {
    choose|d: Deriv| valid_elifs(d, fuel, s, st, j, t, r)
}

pub open spec fn pick_while(
    fuel: nat,
    s: IState,
    st: Stmt,
    budget: nat,
    t: IState,
    r: Result<Option<ControlFlow>, String>,
) -> Deriv {
    choose|d: Deriv| valid_while(d, fuel, s, st, budget, t, r)
}

pub open spec fn pick_for(fuel: nat, s: IState, st: Stmt, t: IState, r: Result<Option<ControlFlow>, String>) -> Deriv {
    choose|d: Deriv| valid_for(d, fuel, s, st, t, r)
}

pub open spec fn pick_for_items(
    fuel: nat,
    s: IState,
    st: Stmt,
    items: Seq<Value>,
    i: int,
    t: IState,
    r: Result<Option<ControlFlow>, String>,
) -> Deriv {
    choose|d: Deriv| valid_for_items(d, fuel, s, st, items, i, t, r)
}

pub open spec fn pick_run(s: IState, ss: Seq<Stmt>, i: int, t: IState, r: Result<(), String>) -> Deriv {
    choose|d: Deriv| valid_run(d, s, ss, i, t, r)
}

} // verus!
