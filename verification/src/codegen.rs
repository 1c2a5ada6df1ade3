//! What the compiler emits, stated as relations between the syntax tree and
//! the instruction sequence: `expr_code(e, seg, base, ..)` says that `seg`,
//! placed at offset `base` of the code, is exactly the code of `e`. Jump
//! targets are absolute offsets; constant operands index the final constant
//! pool.
use vstd::prelude::*;

use crate::ast::{BinOp, CmpOp, Expr, Stmt, UnaryOp};
use crate::bytecode::{CodeObject, Op, Value};
use crate::compiler::{binop_instruction, comparison_instruction, optimized, with_target};
use crate::symbol::Symbol;

verus! {

/// The names a function body reads from slots, and whether the code is a
/// function body.
pub struct Scope {
    pub locals: Map<u32, u16>,
    pub in_fn: bool,
}

/// `b` starts with all of `a`: the constant pool only grows.
pub open spec fn extends(a: Seq<Value>, b: Seq<Value>) -> bool {
    &&& a.len() <= b.len()
    &&& forall|i: int| 0 <= i < a.len() ==> #[trigger] b[i] == a[i]
}

/// `b` keeps every instruction of `a` at its offset.
pub open spec fn prefix_kept(a: Seq<Op>, b: Seq<Op>) -> bool {
    &&& a.len() <= b.len()
    &&& forall|i: int| 0 <= i < a.len() ==> #[trigger] b[i] == a[i]
}

/// Reading a name: its slot if it has one, else the global.
pub open spec fn load_op(sc: Scope, name: Symbol) -> Op {
    if sc.locals.contains_key(name.0) {
        Op::LoadLocal(sc.locals[name.0])
    } else {
        Op::LoadGlobal(name)
    }
}

/// Writing a name: its slot if it has one, else the global.
pub open spec fn store_op(sc: Scope, name: Symbol) -> Op {
    if sc.locals.contains_key(name.0) {
        Op::StoreLocal(sc.locals[name.0])
    } else {
        Op::StoreGlobal(name)
    }
}

/// A call whose callee is a name that is no local of the enclosing function:
/// the callee is looked up as a global by the call instruction itself.
pub open spec fn global_callee(function: Expr, sc: Scope) -> bool {
    function matches Expr::Identifier(name) && !(sc.in_fn && sc.locals.contains_key(name.0))
}

/// The constant that a literal loads.
pub open spec fn literal_value(e: Expr, v: Value) -> bool {
    match e {
        Expr::Integer(n) => v == Value::Integer(n),
        Expr::Boolean(b) => v == Value::Boolean(b),
        Expr::NoneLit => v == Value::NoneVal,
        Expr::StringLiteral(s) => v matches Value::String(r) && r@ == s@,
        Expr::Float(_) => v is Float,
        _ => false,
    }
}

pub open spec fn is_literal(e: Expr) -> bool {
    e is Integer || e is Boolean || e is NoneLit || e is StringLiteral || e is Float
}

/// The constant indices that `ins` loads, each at its first `LoadConst`, in
/// the order of those first loads.
pub open spec fn first_loads(ins: Seq<Op>) -> Seq<int>
    decreases ins.len(),
{
    if ins.len() == 0 {
        Seq::empty()
    } else {
        let p = first_loads(ins.drop_last());
        match ins.last() {
            Op::LoadConst(c) => if p.contains(c as int) {
                p
            } else {
                p.push(c as int)
            },
            _ => p,
        }
    }
}

/// A pool of `n` constants fits the code `ins` exactly: every constant is
/// loaded, and the constants come in the order of their first loads (so
/// the pool holds nothing unused, and each new constant goes to the next
/// index when it is first loaded).
pub open spec fn loads_in_order(ins: Seq<Op>, n: nat) -> bool {
    first_loads(ins) == Seq::new(n, |i: int| i)
}

/// Appending an instruction adds its constant to the first loads when it
/// is the first load of that constant.
pub proof fn lemma_first_loads_push(ins: Seq<Op>, op: Op)
    ensures
        first_loads(ins.push(op)) == match op {
            Op::LoadConst(c) => if first_loads(ins).contains(c as int) {
                first_loads(ins)
            } else {
                first_loads(ins).push(c as int)
            },
            _ => first_loads(ins),
        },
{
    assert(ins.push(op).drop_last() =~= ins);
}

/// Replacing an instruction that loads no constant by another that loads
/// none keeps the first loads.
pub proof fn lemma_first_loads_update(ins: Seq<Op>, i: int, op: Op)
    requires
        0 <= i < ins.len(),
        !(ins[i] is LoadConst),
        !(op is LoadConst),
    ensures
        first_loads(ins.update(i, op)) == first_loads(ins),
    decreases ins.len(),
{
    let u = ins.update(i, op);
    if i == ins.len() - 1 {
        assert(u.drop_last() =~= ins.drop_last());
    } else {
        assert(u.drop_last() =~= ins.drop_last().update(i, op));
        lemma_first_loads_update(ins.drop_last(), i, op);
    }
}

/// Constant `c` of the pool holds the literal `e`.
pub open spec fn const_for(consts: Seq<Value>, c: u16, e: Expr) -> bool {
    (c as int) < consts.len() && literal_value(e, consts[c as int])
}

pub open spec fn unary_instruction(op: UnaryOp) -> Op {
    match op {
        UnaryOp::Neg => Op::UnaryNeg,
        UnaryOp::Not => Op::UnaryNot,
    }
}

/// The number of instructions of an expression's code.
pub open spec fn expr_len(e: Expr, sc: Scope) -> nat
    decreases e, 1int,
{
    match e {
        Expr::BinaryOp { left, right, .. } => expr_len(*left, sc) + expr_len(*right, sc) + 1,
        Expr::UnaryOp { operand, .. } => expr_len(*operand, sc) + 1,
        Expr::Call { function, args } => (if global_callee(*function, sc) {
            0
        } else {
            expr_len(*function, sc)
        }) + exprs_len(args@, sc) + 1,
        Expr::Index { object, index } => expr_len(*object, sc) + expr_len(*index, sc) + 1,
        Expr::Attribute { object, .. } => expr_len(*object, sc) + 1,
        Expr::List(items) => exprs_len(items@, sc) + 1,
        Expr::Dict(pairs) => pairs_len(pairs@, sc) + 1,
        Expr::Compare { left, ops, comparators } => {
            if comparators@.len() == 0 {
                0
            } else {
                expr_len(*left, sc) + expr_len(comparators@[0], sc) + 1 + links_len(
                    comparators@,
                    ops@.len() as int,
                    sc,
                )
            }
        },
        _ => 1,
    }
}

pub open spec fn exprs_len(es: Seq<Expr>, sc: Scope) -> nat
    decreases es, 0int,
{
    if es.len() == 0 {
        0
    } else {
        exprs_len(es.subrange(0, es.len() - 1), sc) + expr_len(es[es.len() - 1], sc)
    }
}

pub open spec fn pairs_len(ps: Seq<(Expr, Expr)>, sc: Scope) -> nat
    decreases ps, 0int,
{
    if ps.len() == 0 {
        0
    } else {
        pairs_len(ps.subrange(0, ps.len() - 1), sc) + expr_len(ps[ps.len() - 1].0, sc) + expr_len(
            ps[ps.len() - 1].1,
            sc,
        )
    }
}

/// The length of the links of a comparison chain after its first
/// comparison, up to comparison `n - 1`: each link is a conditional jump,
/// the two comparands and the comparison.
pub open spec fn links_len(cs: Seq<Expr>, n: int, sc: Scope) -> nat
    decreases cs, n,
{
    if n <= 1 || n > cs.len() {
        0
    } else {
        links_len(cs, n - 1, sc) + 1 + expr_len(cs[n - 2], sc) + expr_len(cs[n - 1], sc) + 1
    }
}

/// `seg`, placed at offset `base`, is the code of `e`: the code of its
/// operands in evaluation order, then the instruction of the operator. An
/// `and` / `or` jumps past the right operand keeping the left one when it
/// decides the value; a comparison chain does the same after each link.
pub open spec fn expr_code(e: Expr, seg: Seq<Op>, base: int, sc: Scope, consts: Seq<Value>) -> bool
    decreases e, 1int,
{
    &&& seg.len() == expr_len(e, sc)
    &&& match e {
        Expr::Identifier(name) => seg[0] == load_op(sc, name),
        Expr::BinaryOp { left, op, right } => {
            let l = expr_len(*left, sc) as int;
            let r = expr_len(*right, sc) as int;
            &&& expr_code(*left, seg.subrange(0, l), base, sc, consts)
            &&& if op == BinOp::And || op == BinOp::Or {
                &&& seg[l] == (if op == BinOp::And {
                    Op::JumpIfFalseOrPop((base + seg.len()) as u32)
                } else {
                    Op::JumpIfTrueOrPop((base + seg.len()) as u32)
                })
                &&& expr_code(*right, seg.subrange(l + 1, l + 1 + r), base + l + 1, sc, consts)
            } else {
                &&& expr_code(*right, seg.subrange(l, l + r), base + l, sc, consts)
                &&& seg[l + r] == binop_instruction(op)
            }
        },
        Expr::UnaryOp { op, operand } => {
            let n = expr_len(*operand, sc) as int;
            &&& expr_code(*operand, seg.subrange(0, n), base, sc, consts)
            &&& seg[n] == unary_instruction(op)
        },
        Expr::Call { function, args } => {
            let f = if global_callee(*function, sc) {
                0
            } else {
                expr_len(*function, sc) as int
            };
            let a = exprs_len(args@, sc) as int;
            &&& (!global_callee(*function, sc) ==> expr_code(
                *function,
                seg.subrange(0, f),
                base,
                sc,
                consts,
            ))
            &&& exprs_code(args@, seg.subrange(f, f + a), base + f, sc, consts)
            &&& seg[f + a] == (if global_callee(*function, sc) {
                Op::CallGlobal(function->Identifier_0, args@.len() as u8)
            } else {
                Op::Call(args@.len() as u8)
            })
        },
        Expr::Index { object, index } => {
            let o = expr_len(*object, sc) as int;
            let i = expr_len(*index, sc) as int;
            &&& expr_code(*object, seg.subrange(0, o), base, sc, consts)
            &&& expr_code(*index, seg.subrange(o, o + i), base + o, sc, consts)
            &&& seg[o + i] == Op::BinarySubscript
        },
        Expr::Attribute { object, name } => {
            let o = expr_len(*object, sc) as int;
            &&& expr_code(*object, seg.subrange(0, o), base, sc, consts)
            &&& seg[o] == Op::LoadAttr(name)
        },
        Expr::List(items) => {
            let n = exprs_len(items@, sc) as int;
            &&& exprs_code(items@, seg.subrange(0, n), base, sc, consts)
            &&& seg[n] == Op::BuildList(items@.len() as u16)
        },
        Expr::Dict(pairs) => {
            let n = pairs_len(pairs@, sc) as int;
            &&& pairs_code(pairs@, seg.subrange(0, n), base, sc, consts)
            &&& seg[n] == Op::BuildDict(pairs@.len() as u16)
        },
        Expr::Compare { left, ops, comparators } => {
            let l = expr_len(*left, sc) as int;
            let c = expr_len(comparators@[0], sc) as int;
            &&& comparators@.len() > 0
            &&& expr_code(*left, seg.subrange(0, l), base, sc, consts)
            &&& expr_code(comparators@[0], seg.subrange(l, l + c), base + l, sc, consts)
            &&& seg[l + c] == comparison_instruction(ops@[0])
            &&& links_code(
                comparators@,
                ops@,
                ops@.len() as int,
                seg.subrange(l + c + 1, seg.len() as int),
                base + l + c + 1,
                base + seg.len(),
                sc,
                consts,
            )
        },
        _ => seg[0] matches Op::LoadConst(c) && const_for(consts, c, e),
    }
}

/// The code of a sequence of expressions, one after another.
pub open spec fn exprs_code(es: Seq<Expr>, seg: Seq<Op>, base: int, sc: Scope, consts: Seq<Value>) -> bool
    decreases es, 0int,
{
    if es.len() == 0 {
        seg.len() == 0
    } else {
        let init = es.subrange(0, es.len() - 1);
        let p = exprs_len(init, sc) as int;
        &&& seg.len() == p + expr_len(es[es.len() - 1], sc)
        &&& exprs_code(init, seg.subrange(0, p), base, sc, consts)
        &&& expr_code(es[es.len() - 1], seg.subrange(p, seg.len() as int), base + p, sc, consts)
    }
}

/// The code of the entries of a dictionary display: key, then value.
pub open spec fn pairs_code(ps: Seq<(Expr, Expr)>, seg: Seq<Op>, base: int, sc: Scope, consts: Seq<Value>) -> bool
    decreases ps, 0int,
{
    if ps.len() == 0 {
        seg.len() == 0
    } else {
        let init = ps.subrange(0, ps.len() - 1);
        let p = pairs_len(init, sc) as int;
        let k = expr_len(ps[ps.len() - 1].0, sc) as int;
        &&& seg.len() == p + k + expr_len(ps[ps.len() - 1].1, sc)
        &&& pairs_code(init, seg.subrange(0, p), base, sc, consts)
        &&& expr_code(ps[ps.len() - 1].0, seg.subrange(p, p + k), base + p, sc, consts)
        &&& expr_code(ps[ps.len() - 1].1, seg.subrange(p + k, seg.len() as int), base + p + k, sc, consts)
    }
}

/// The links of a comparison chain up to comparison `n - 1`: for each,
/// a jump to `end` that keeps a false result, the previous comparand again,
/// the next one, and the comparison.
pub open spec fn links_code(
    cs: Seq<Expr>,
    ops: Seq<CmpOp>,
    n: int,
    seg: Seq<Op>,
    base: int,
    end: int,
    sc: Scope,
    consts: Seq<Value>,
) -> bool
    decreases cs, n,
{
    if n <= 1 || n > cs.len() {
        seg.len() == 0
    } else {
        let p = links_len(cs, n - 1, sc) as int;
        let a = expr_len(cs[n - 2], sc) as int;
        let b = expr_len(cs[n - 1], sc) as int;
        &&& seg.len() == p + 1 + a + b + 1
        &&& links_code(cs, ops, n - 1, seg.subrange(0, p), base, end, sc, consts)
        &&& seg[p] == Op::JumpIfFalseOrPop(end as u32)
        &&& expr_code(cs[n - 2], seg.subrange(p + 1, p + 1 + a), base + p + 1, sc, consts)
        &&& expr_code(cs[n - 1], seg.subrange(p + 1 + a, p + 1 + a + b), base + p + 1 + a, sc, consts)
        &&& seg[p + 1 + a + b] == comparison_instruction(ops[n - 1])
    }
}

/// `n + k` in 16-bit wrapping arithmetic, as local slots are counted.
pub open spec fn add16(n: u16, k: int) -> u16 {
    ((n as int + k) % 65536) as u16
}

/// `x = x + "..."` or `x = x + [..]` on a global `x`: the value is taken out
/// of the global so that the addition can reuse it.
pub open spec fn takes_global(target: Symbol, value: Expr, sc: Scope) -> bool {
    value matches Expr::BinaryOp { left, op, right } && op == BinOp::Add && *left == Expr::Identifier(
        target,
    ) && !(sc.in_fn && sc.locals.contains_key(target.0)) && (*right is StringLiteral || *right is List)
}

/// `x += [e]`: the element is appended in place.
pub open spec fn appends_one(op: BinOp, value: Expr) -> bool {
    op == BinOp::Add && (value matches Expr::List(items) && items@.len() == 1)
}

/// The hidden local slots a statement takes: two for each `for` loop.
pub open spec fn stmt_hidden(s: Stmt) -> nat
    decreases s, 1int,
{
    match s {
        Stmt::For { body, .. } => 2 + block_hidden(body@),
        Stmt::While { body, .. } => block_hidden(body@),
        Stmt::If { body, elif_clauses, else_body, .. } => block_hidden(body@) + elifs_hidden(elif_clauses@)
            + match else_body {
            Some(b) => block_hidden(b@),
            None => 0,
        },
        _ => 0,
    }
}

pub open spec fn block_hidden(b: Seq<Stmt>) -> nat
    decreases b, 0int,
{
    if b.len() == 0 {
        0
    } else {
        block_hidden(b.subrange(0, b.len() - 1)) + stmt_hidden(b[b.len() - 1])
    }
}

pub open spec fn elifs_hidden(cs: Seq<(Expr, Vec<Stmt>)>) -> nat
    decreases cs, 0int,
{
    if cs.len() == 0 {
        0
    } else {
        elifs_hidden(cs.subrange(0, cs.len() - 1)) + block_hidden(cs[cs.len() - 1].1@)
    }
}

/// Whether an `if` has `elif` or `else` parts.
pub open spec fn has_alternatives(s: Stmt) -> bool {
    s matches Stmt::If { elif_clauses, else_body, .. } && (elif_clauses@.len() > 0 || else_body is Some)
}

/// The number of instructions of a statement's code.
pub open spec fn stmt_len(s: Stmt, sc: Scope) -> nat
    decreases s, 1int,
{
    match s {
        Stmt::Expression(e) => expr_len(e, sc) + 1,
        Stmt::Assign { target, value } => if takes_global(target, value, sc) {
            expr_len(*value->right, sc) + 3
        } else {
            expr_len(value, sc) + 1
        },
        Stmt::AugAssign { op, value, .. } => if appends_one(op, value) {
            expr_len(value->List_0@[0], sc) + 3
        } else {
            expr_len(value, sc) + 3
        },
        Stmt::Print(args) => exprs_len(args@, sc) + 1,
        Stmt::If { condition, body, elif_clauses, else_body } => if has_alternatives(s) {
            expr_len(condition, sc) + block_len(body@, sc) + 2 + elifs_len(elif_clauses@, sc)
                + match else_body {
                Some(b) => block_len(b@, sc),
                None => 0,
            }
        } else {
            expr_len(condition, sc) + 1 + block_len(body@, sc)
        },
        Stmt::While { condition, body } => expr_len(condition, sc) + block_len(body@, sc) + 2,
        Stmt::For { iter, body, .. } => expr_len(iter, sc) + block_len(body@, sc) + 17,
        Stmt::FunctionDef { .. } => 2,
        Stmt::Return(Some(e)) => expr_len(e, sc) + 1,
        Stmt::Pass => 0,
        _ => 1,
    }
}

pub open spec fn block_len(b: Seq<Stmt>, sc: Scope) -> nat
    decreases b, 0int,
{
    if b.len() == 0 {
        0
    } else {
        block_len(b.subrange(0, b.len() - 1), sc) + stmt_len(b[b.len() - 1], sc)
    }
}

pub open spec fn elifs_len(cs: Seq<(Expr, Vec<Stmt>)>, sc: Scope) -> nat
    decreases cs, 0int,
{
    if cs.len() == 0 {
        0
    } else {
        elifs_len(cs.subrange(0, cs.len() - 1), sc) + expr_len(cs[cs.len() - 1].0, sc) + block_len(
            cs[cs.len() - 1].1@,
            sc,
        ) + 2
    }
}

/// Whether relative offset `q` of a statement's code holds one of its
/// `break` jumps that leave the innermost enclosing loop (not one of a loop
/// nested inside the statement).
pub open spec fn stmt_breaks(s: Stmt, q: int, sc: Scope) -> bool
    decreases s, 1int,
{
    match s {
        Stmt::Break => q == 0,
        Stmt::If { condition, body, elif_clauses, else_body } => {
            let c = expr_len(condition, sc) as int;
            let bl = block_len(body@, sc) as int;
            let el = elifs_len(elif_clauses@, sc) as int;
            ||| block_breaks(body@, q - c - 1, sc)
            ||| (has_alternatives(s) && elifs_breaks(elif_clauses@, q - c - bl - 2, sc))
            ||| (has_alternatives(s) && (else_body matches Some(b) && block_breaks(b@, q - c - bl - 2 - el, sc)))
        },
        _ => false,
    }
}

pub open spec fn block_breaks(b: Seq<Stmt>, q: int, sc: Scope) -> bool
    decreases b, 0int,
{
    if b.len() == 0 {
        false
    } else {
        let init = b.subrange(0, b.len() - 1);
        block_breaks(init, q, sc) || stmt_breaks(b[b.len() - 1], q - block_len(init, sc), sc)
    }
}

pub open spec fn elifs_breaks(cs: Seq<(Expr, Vec<Stmt>)>, q: int, sc: Scope) -> bool
    decreases cs, 0int,
{
    if cs.len() == 0 {
        false
    } else {
        let init = cs.subrange(0, cs.len() - 1);
        let p = elifs_len(init, sc) as int;
        let c = expr_len(cs[cs.len() - 1].0, sc) as int;
        elifs_breaks(init, q, sc) || block_breaks(cs[cs.len() - 1].1@, q - p - c - 1, sc)
    }
}

/// Every `break` of the block's loop level jumps to `target`.
pub open spec fn breaks_to(b: Seq<Stmt>, seg: Seq<Op>, target: int, sc: Scope) -> bool {
    forall|q: int| 0 <= q < seg.len() && block_breaks(b, q, sc) ==> #[trigger] seg[q] == Op::Jump(target as u32)
}

/// The function object a definition stores: its name, its parameters and
/// their slots, and, when its constant pool fits 16-bit indices, the code of
/// its body (`function_code`).
pub open spec fn defines(v: Value, name: Symbol, params: Seq<Symbol>, body: Seq<Stmt>) -> bool
    decreases body, 3int,
{
    match v {
        Value::Function(f) => {
            &&& f.name == name
            &&& f.params@ == params
            &&& f.param_slots@.len() == params.len()
            &&& forall|i: int|
                0 <= i < params.len() ==> f.code.local_slots@.contains_key(#[trigger] params[i].0)
                    && f.param_slots@[i] == f.code.local_slots@[params[i].0]
            &&& f.code.constants@.len() <= block_len(body, Scope { locals: function_slots(params, body).0, in_fn: true })
            &&& f.code.constants@.len() <= 65536 ==> function_code(params, body, *f.code)
        },
        _ => false,
    }
}

/// A function's code object: its local slots (`function_slots`), and the
/// code of its body in the function's scope, its hidden slots after its
/// named ones, then `ReturnNone`, optimized; its pool holds exactly the
/// constants the body's code loads, in the order of their first loads.
pub open spec fn function_code(params: Seq<Symbol>, body: Seq<Stmt>, code: CodeObject) -> bool
    decreases body, 2int,
{
    let (m, n) = function_slots(params, body);
    &&& code.local_slots@ == m
    &&& code.num_locals == add16(n, block_hidden(body) as int)
    &&& exists|seg: Seq<Op>|
        #![trigger optimized(seg.push(Op::ReturnNone), code.constants@)]
        block_code(body, seg, 0, Scope { locals: m, in_fn: true }, code.constants@, n, 0)
            && code.instructions@ == optimized(seg.push(Op::ReturnNone), code.constants@)
            && loads_in_order(seg, code.constants@.len())
}

/// A module's code object: the code of its statements at module level (no
/// local names, hidden slots from 0), optimized; its pool holds exactly the
/// constants that code loads, in the order of their first loads.
pub open spec fn module_code(stmts: Seq<Stmt>, code: CodeObject) -> bool {
    exists|pre: Seq<Op>|
        #![trigger block_code(stmts, pre, 0, Scope { locals: Map::empty(), in_fn: false }, code.constants@, 0, 0)]
        block_code(stmts, pre, 0, Scope { locals: Map::empty(), in_fn: false }, code.constants@, 0, 0)
            && code.instructions@ == optimized(pre, code.constants@)
            && code.num_locals == add16(0, block_hidden(stmts) as int)
            && loads_in_order(pre, code.constants@.len())
}

/// `seg`, at offset `base`, is the code of statement `s`; `nl` is the next
/// free local slot (for the hidden slots of `for` loops) and `cont` the
/// offset `continue` jumps to. A `break` is a jump whose target the
/// enclosing loop fixes (`breaks_to`).
pub open spec fn stmt_code(s: Stmt, seg: Seq<Op>, base: int, sc: Scope, consts: Seq<Value>, nl: u16, cont: int) -> bool
    decreases s, 1int,
{
    &&& seg.len() == stmt_len(s, sc)
    &&& match s {
        Stmt::Expression(e) => {
            let n = expr_len(e, sc) as int;
            &&& expr_code(e, seg.subrange(0, n), base, sc, consts)
            &&& seg[n] == Op::Pop
        },
        Stmt::Assign { target, value } => if takes_global(target, value, sc) {
            let r = expr_len(*value->right, sc) as int;
            &&& seg[0] == Op::TakeGlobal(target)
            &&& expr_code(*value->right, seg.subrange(1, 1 + r), base + 1, sc, consts)
            &&& seg[1 + r] == Op::BinaryAdd
            &&& seg[2 + r] == store_op(sc, target)
        } else {
            let n = expr_len(value, sc) as int;
            &&& expr_code(value, seg.subrange(0, n), base, sc, consts)
            &&& seg[n] == store_op(sc, target)
        },
        Stmt::AugAssign { target, op, value } => if appends_one(op, value) {
            let k = expr_len(value->List_0@[0], sc) as int;
            &&& seg[0] == load_op(sc, target)
            &&& expr_code(value->List_0@[0], seg.subrange(1, 1 + k), base + 1, sc, consts)
            &&& seg[1 + k] == Op::ListAppend
            &&& seg[2 + k] == store_op(sc, target)
        } else {
            let k = expr_len(value, sc) as int;
            &&& seg[0] == load_op(sc, target)
            &&& expr_code(value, seg.subrange(1, 1 + k), base + 1, sc, consts)
            &&& seg[1 + k] == binop_instruction(op)
            &&& seg[2 + k] == store_op(sc, target)
        },
        Stmt::Print(args) => {
            let n = exprs_len(args@, sc) as int;
            &&& exprs_code(args@, seg.subrange(0, n), base, sc, consts)
            &&& seg[n] == Op::Print(args@.len() as u8)
        },
        Stmt::If { condition, body, elif_clauses, else_body } => {
            let c = expr_len(condition, sc) as int;
            let bl = block_len(body@, sc) as int;
            let el = elifs_len(elif_clauses@, sc) as int;
            let nl1 = add16(nl, block_hidden(body@) as int);
            let nl2 = add16(nl1, elifs_hidden(elif_clauses@) as int);
            &&& expr_code(condition, seg.subrange(0, c), base, sc, consts)
            &&& block_code(body@, seg.subrange(c + 1, c + 1 + bl), base + c + 1, sc, consts, nl, cont)
            &&& if has_alternatives(s) {
                &&& seg[c] == Op::PopJumpIfFalse((base + c + bl + 2) as u32)
                &&& seg[c + 1 + bl] == Op::Jump((base + seg.len()) as u32)
                &&& elifs_code(
                    elif_clauses@,
                    seg.subrange(c + bl + 2, c + bl + 2 + el),
                    base + c + bl + 2,
                    base + seg.len(),
                    sc,
                    consts,
                    nl1,
                    cont,
                )
                &&& match else_body {
                    Some(b) => block_code(
                        b@,
                        seg.subrange(c + bl + 2 + el, seg.len() as int),
                        base + c + bl + 2 + el,
                        sc,
                        consts,
                        nl2,
                        cont,
                    ),
                    None => true,
                }
            } else {
                seg[c] == Op::PopJumpIfFalse((base + seg.len()) as u32)
            }
        },
        Stmt::While { condition, body } => {
            let c = expr_len(condition, sc) as int;
            let bl = block_len(body@, sc) as int;
            let body_seg = seg.subrange(c + 1, c + 1 + bl);
            &&& expr_code(condition, seg.subrange(0, c), base, sc, consts)
            &&& seg[c] == Op::PopJumpIfFalse((base + seg.len()) as u32)
            &&& block_code(body@, body_seg, base + c + 1, sc, consts, nl, base)
            &&& breaks_to(body@, body_seg, base + seg.len(), sc)
            &&& seg[c + 1 + bl] == Op::Jump(base as u32)
        },
        Stmt::For { target, iter, body } => {
            let i = expr_len(iter, sc) as int;
            let bl = block_len(body@, sc) as int;
            let list_slot = nl;
            let idx_slot = add16(nl, 1);
            let body_seg = seg.subrange(i + 16, i + 16 + bl);
            &&& expr_code(iter, seg.subrange(0, i), base, sc, consts)
            &&& seg[i] == Op::StoreLocal(list_slot)
            &&& seg[i + 1] matches Op::LoadConst(z) && const_for(consts, z, Expr::Integer(-1i64))
            &&& seg[i + 2] == Op::StoreLocal(idx_slot)
            &&& seg[i + 3] == Op::LoadLocal(idx_slot)
            &&& seg[i + 4] matches Op::LoadConst(o) && const_for(consts, o, Expr::Integer(1))
            &&& seg[i + 5] == Op::BinaryAdd
            &&& seg[i + 6] == Op::StoreLocal(idx_slot)
            &&& seg[i + 7] == Op::LoadLocal(idx_slot)
            &&& seg[i + 8] == Op::LoadLocal(list_slot)
            &&& seg[i + 9] == Op::Len
            &&& seg[i + 10] == Op::CompareLt
            &&& seg[i + 11] == Op::PopJumpIfFalse((base + seg.len()) as u32)
            &&& seg[i + 12] == Op::LoadLocal(list_slot)
            &&& seg[i + 13] == Op::LoadLocal(idx_slot)
            &&& seg[i + 14] == Op::BinarySubscript
            &&& seg[i + 15] == store_op(sc, target)
            &&& block_code(body@, body_seg, base + i + 16, sc, consts, add16(nl, 2), base + i + 3)
            &&& breaks_to(body@, body_seg, base + seg.len(), sc)
            &&& seg[i + 16 + bl] == Op::Jump((base + i + 3) as u32)
        },
        Stmt::FunctionDef { name, params, body } => {
            &&& seg[0] matches Op::LoadConst(c) && (c as int) < consts.len() && defines(
                consts[c as int],
                name,
                params@,
                body@,
            )
            &&& seg[1] == Op::StoreGlobal(name)
        },
        Stmt::Return(Some(e)) => {
            let n = expr_len(e, sc) as int;
            &&& expr_code(e, seg.subrange(0, n), base, sc, consts)
            &&& seg[n] == Op::Return
        },
        Stmt::Return(None) => seg[0] == Op::ReturnNone,
        Stmt::Break => seg[0] is Jump,
        Stmt::Continue => seg[0] == Op::Jump(cont as u32),
        Stmt::Pass => true,
    }
}

/// The code of a block: its statements one after another, each taking its
/// hidden slots after those of the statements before it.
pub open spec fn block_code(b: Seq<Stmt>, seg: Seq<Op>, base: int, sc: Scope, consts: Seq<Value>, nl: u16, cont: int) -> bool
    decreases b, 0int,
{
    if b.len() == 0 {
        seg.len() == 0
    } else {
        let init = b.subrange(0, b.len() - 1);
        let p = block_len(init, sc) as int;
        &&& seg.len() == p + stmt_len(b[b.len() - 1], sc)
        &&& block_code(init, seg.subrange(0, p), base, sc, consts, nl, cont)
        &&& stmt_code(
            b[b.len() - 1],
            seg.subrange(p, seg.len() as int),
            base + p,
            sc,
            consts,
            add16(nl, block_hidden(init) as int),
            cont,
        )
    }
}

/// The `elif` parts of an `if`: each condition, a jump to the next part when
/// it is false, the block, and a jump to `end`.
pub open spec fn elifs_code(
    cs: Seq<(Expr, Vec<Stmt>)>,
    seg: Seq<Op>,
    base: int,
    end: int,
    sc: Scope,
    consts: Seq<Value>,
    nl: u16,
    cont: int,
) -> bool
    decreases cs, 0int,
{
    if cs.len() == 0 {
        seg.len() == 0
    } else {
        let init = cs.subrange(0, cs.len() - 1);
        let p = elifs_len(init, sc) as int;
        let c = expr_len(cs[cs.len() - 1].0, sc) as int;
        let bl = block_len(cs[cs.len() - 1].1@, sc) as int;
        &&& seg.len() == p + c + bl + 2
        &&& elifs_code(init, seg.subrange(0, p), base, end, sc, consts, nl, cont)
        &&& expr_code(cs[cs.len() - 1].0, seg.subrange(p, p + c), base + p, sc, consts)
        &&& seg[p + c] == Op::PopJumpIfFalse((base + seg.len()) as u32)
        &&& block_code(
            cs[cs.len() - 1].1@,
            seg.subrange(p + c + 1, p + c + 1 + bl),
            base + p + c + 1,
            sc,
            consts,
            add16(nl, elifs_hidden(init) as int),
            cont,
        )
        &&& seg[p + c + 1 + bl] == Op::Jump(end as u32)
    }
}

/// Giving `name` the next slot `n` of a function being compiled, unless it
/// has one; slots count in 16 bits, wrapping.
pub open spec fn add_slot(m: Map<u32, u16>, n: u16, name: u32) -> (Map<u32, u16>, u16) {
    if m.contains_key(name) {
        (m, n)
    } else {
        (m.insert(name, n), add16(n, 1))
    }
}

/// The slots of the first `k` parameters: each gets the next slot, a
/// repeated name the later one.
pub open spec fn param_slots16(ps: Seq<Symbol>, k: int) -> (Map<u32, u16>, u16)
    decreases k,
{
    if k <= 0 {
        (Map::empty(), 0)
    } else {
        let (m, n) = param_slots16(ps, k - 1);
        (m.insert(ps[k - 1].0, n), add16(n, 1))
    }
}

/// The slots after giving one to every name that `ss[i..]` assigns (as a
/// target of `=`, an augmented assignment or a `for`), in order, looking
/// into nested blocks but not into nested function definitions.
pub open spec fn assign_slots(ss: Seq<Stmt>, i: int, m: Map<u32, u16>, n: u16) -> (Map<u32, u16>, u16)
    decreases ss, 0int, ss.len() - i,
{
    if i < 0 || i >= ss.len() {
        (m, n)
    } else {
        let (m1, n1) = assign_slots_stmt(ss[i], m, n);
        assign_slots(ss, i + 1, m1, n1)
    }
}

pub open spec fn assign_slots_stmt(st: Stmt, m: Map<u32, u16>, n: u16) -> (Map<u32, u16>, u16)
    decreases st, 1int, 0int,
{
    match st {
        Stmt::Assign { target, .. } => add_slot(m, n, target.0),
        Stmt::AugAssign { target, .. } => add_slot(m, n, target.0),
        Stmt::For { target, body, .. } => {
            let (m1, n1) = add_slot(m, n, target.0);
            assign_slots(body@, 0, m1, n1)
        },
        Stmt::If { body, else_body, .. } => {
            let (m1, n1) = assign_slots(body@, 0, m, n);
            let (m2, n2) = assign_slots_elifs(st, 0, m1, n1);
            match else_body {
                Some(b) => assign_slots(b@, 0, m2, n2),
                None => (m2, n2),
            }
        },
        Stmt::While { body, .. } => assign_slots(body@, 0, m, n),
        _ => (m, n),
    }
}

pub open spec fn assign_slots_elifs(st: Stmt, j: int, m: Map<u32, u16>, n: u16) -> (Map<u32, u16>, u16)
    decreases st, 0int, st->elif_clauses@.len() - j,
{
    if st is If && 0 <= j < st->elif_clauses@.len() {
        let (m1, n1) = assign_slots(st->elif_clauses@[j].1@, 0, m, n);
        assign_slots_elifs(st, j + 1, m1, n1)
    } else {
        (m, n)
    }
}

/// A function's local slots and the first slot after them: the parameters
/// first, then the names its body assigns.
pub open spec fn function_slots(params: Seq<Symbol>, body: Seq<Stmt>) -> (Map<u32, u16>, u16) {
    let (m, n) = param_slots16(params, params.len() as int);
    assign_slots(body, 0, m, n)
}

/// Giving slots keeps the slots given before.
pub proof fn lemma_assign_slots_keeps(ss: Seq<Stmt>, i: int, m: Map<u32, u16>, n: u16, k: u32)
    requires
        m.contains_key(k),
    ensures
        assign_slots(ss, i, m, n).0.contains_key(k),
        assign_slots(ss, i, m, n).0[k] == m[k],
    decreases ss, 0int, ss.len() - i,
{
    if 0 <= i < ss.len() {
        let (m1, n1) = assign_slots_stmt(ss[i], m, n);
        lemma_assign_slots_stmt_keeps(ss[i], m, n, k);
        lemma_assign_slots_keeps(ss, i + 1, m1, n1, k);
    }
}

pub proof fn lemma_assign_slots_stmt_keeps(st: Stmt, m: Map<u32, u16>, n: u16, k: u32)
    requires
        m.contains_key(k),
    ensures
        assign_slots_stmt(st, m, n).0.contains_key(k),
        assign_slots_stmt(st, m, n).0[k] == m[k],
    decreases st, 1int, 0int,
{
    match st {
        Stmt::For { target, body, .. } => {
            let (m1, n1) = add_slot(m, n, target.0);
            lemma_assign_slots_keeps(body@, 0, m1, n1, k);
        },
        Stmt::If { body, else_body, .. } => {
            let (m1, n1) = assign_slots(body@, 0, m, n);
            lemma_assign_slots_keeps(body@, 0, m, n, k);
            let (m2, n2) = assign_slots_elifs(st, 0, m1, n1);
            lemma_assign_slots_elifs_keeps(st, 0, m1, n1, k);
            match else_body {
                Some(b) => {
                    lemma_assign_slots_keeps(b@, 0, m2, n2, k);
                },
                None => {},
            }
        },
        Stmt::While { body, .. } => {
            lemma_assign_slots_keeps(body@, 0, m, n, k);
        },
        _ => {},
    }
}

pub proof fn lemma_assign_slots_elifs_keeps(st: Stmt, j: int, m: Map<u32, u16>, n: u16, k: u32)
    requires
        m.contains_key(k),
    ensures
        assign_slots_elifs(st, j, m, n).0.contains_key(k),
        assign_slots_elifs(st, j, m, n).0[k] == m[k],
    decreases st, 0int, st->elif_clauses@.len() - j,
{
    if st is If && 0 <= j < st->elif_clauses@.len() {
        let (m1, n1) = assign_slots(st->elif_clauses@[j].1@, 0, m, n);
        lemma_assign_slots_keeps(st->elif_clauses@[j].1@, 0, m, n, k);
        lemma_assign_slots_elifs_keeps(st, j + 1, m1, n1, k);
    }
}

/// The code of an expression stays its code as the constant pool grows.
pub proof fn lemma_expr_code_mono(e: Expr, seg: Seq<Op>, base: int, sc: Scope, c1: Seq<Value>, c2: Seq<Value>)
    requires
        expr_code(e, seg, base, sc, c1),
        extends(c1, c2),
    ensures
        expr_code(e, seg, base, sc, c2),
    decreases e, 1int,
{
    match e {
        Expr::BinaryOp { left, op, right } => {
            let l = expr_len(*left, sc) as int;
            let r = expr_len(*right, sc) as int;
            lemma_expr_code_mono(*left, seg.subrange(0, l), base, sc, c1, c2);
            if op == BinOp::And || op == BinOp::Or {
                lemma_expr_code_mono(*right, seg.subrange(l + 1, l + 1 + r), base + l + 1, sc, c1, c2);
            } else {
                lemma_expr_code_mono(*right, seg.subrange(l, l + r), base + l, sc, c1, c2);
            }
        },
        Expr::UnaryOp { op, operand } => {
            let n = expr_len(*operand, sc) as int;
            lemma_expr_code_mono(*operand, seg.subrange(0, n), base, sc, c1, c2);
        },
        Expr::Call { function, args } => {
            let f = if global_callee(*function, sc) {
                0
            } else {
                expr_len(*function, sc) as int
            };
            let a = exprs_len(args@, sc) as int;
            if !global_callee(*function, sc) {
                lemma_expr_code_mono(*function, seg.subrange(0, f), base, sc, c1, c2);
            }
            lemma_exprs_code_mono(args@, seg.subrange(f, f + a), base + f, sc, c1, c2);
        },
        Expr::Index { object, index } => {
            let o = expr_len(*object, sc) as int;
            let i = expr_len(*index, sc) as int;
            lemma_expr_code_mono(*object, seg.subrange(0, o), base, sc, c1, c2);
            lemma_expr_code_mono(*index, seg.subrange(o, o + i), base + o, sc, c1, c2);
        },
        Expr::Attribute { object, name } => {
            let o = expr_len(*object, sc) as int;
            lemma_expr_code_mono(*object, seg.subrange(0, o), base, sc, c1, c2);
        },
        Expr::List(items) => {
            let n = exprs_len(items@, sc) as int;
            lemma_exprs_code_mono(items@, seg.subrange(0, n), base, sc, c1, c2);
        },
        Expr::Dict(pairs) => {
            let n = pairs_len(pairs@, sc) as int;
            lemma_pairs_code_mono(pairs@, seg.subrange(0, n), base, sc, c1, c2);
        },
        Expr::Compare { left, ops, comparators } => {
            let l = expr_len(*left, sc) as int;
            let c = expr_len(comparators@[0], sc) as int;
            lemma_expr_code_mono(*left, seg.subrange(0, l), base, sc, c1, c2);
            lemma_expr_code_mono(comparators@[0], seg.subrange(l, l + c), base + l, sc, c1, c2);
            lemma_links_code_mono(
                comparators@,
                ops@,
                ops@.len() as int,
                seg.subrange(l + c + 1, seg.len() as int),
                base + l + c + 1,
                base + seg.len(),
                sc,
                c1,
                c2,
            );
        },
        _ => {},
    }
}

pub proof fn lemma_exprs_code_mono(es: Seq<Expr>, seg: Seq<Op>, base: int, sc: Scope, c1: Seq<Value>, c2: Seq<Value>)
    requires
        exprs_code(es, seg, base, sc, c1),
        extends(c1, c2),
    ensures
        exprs_code(es, seg, base, sc, c2),
    decreases es, 0int,
{
    if es.len() > 0 {
        let init = es.subrange(0, es.len() - 1);
        let p = exprs_len(init, sc) as int;
        lemma_exprs_code_mono(init, seg.subrange(0, p), base, sc, c1, c2);
        lemma_expr_code_mono(es[es.len() - 1], seg.subrange(p, seg.len() as int), base + p, sc, c1, c2);
    }
}

pub proof fn lemma_pairs_code_mono(
    ps: Seq<(Expr, Expr)>,
    seg: Seq<Op>,
    base: int,
    sc: Scope,
    c1: Seq<Value>,
    c2: Seq<Value>,
)
    requires
        pairs_code(ps, seg, base, sc, c1),
        extends(c1, c2),
    ensures
        pairs_code(ps, seg, base, sc, c2),
    decreases ps, 0int,
{
    if ps.len() > 0 {
        let init = ps.subrange(0, ps.len() - 1);
        let p = pairs_len(init, sc) as int;
        let k = expr_len(ps[ps.len() - 1].0, sc) as int;
        lemma_pairs_code_mono(init, seg.subrange(0, p), base, sc, c1, c2);
        lemma_expr_code_mono(ps[ps.len() - 1].0, seg.subrange(p, p + k), base + p, sc, c1, c2);
        lemma_expr_code_mono(ps[ps.len() - 1].1, seg.subrange(p + k, seg.len() as int), base + p + k, sc, c1, c2);
    }
}

pub proof fn lemma_links_code_mono(
    cs: Seq<Expr>,
    ops: Seq<CmpOp>,
    n: int,
    seg: Seq<Op>,
    base: int,
    end: int,
    sc: Scope,
    c1: Seq<Value>,
    c2: Seq<Value>,
)
    requires
        links_code(cs, ops, n, seg, base, end, sc, c1),
        extends(c1, c2),
    ensures
        links_code(cs, ops, n, seg, base, end, sc, c2),
    decreases cs, n,
{
    if !(n <= 1 || n > cs.len()) {
        let p = links_len(cs, n - 1, sc) as int;
        let a = expr_len(cs[n - 2], sc) as int;
        let b = expr_len(cs[n - 1], sc) as int;
        lemma_links_code_mono(cs, ops, n - 1, seg.subrange(0, p), base, end, sc, c1, c2);
        lemma_expr_code_mono(cs[n - 2], seg.subrange(p + 1, p + 1 + a), base + p + 1, sc, c1, c2);
        lemma_expr_code_mono(cs[n - 1], seg.subrange(p + 1 + a, p + 1 + a + b), base + p + 1 + a, sc, c1, c2);
    }
}

/// Whether relative offset `q` holds the jump of one of the links of a
/// comparison chain up to comparison `n - 1`.
pub open spec fn is_link_jump(cs: Seq<Expr>, n: int, q: int, sc: Scope) -> bool
    decreases n,
{
    if n <= 1 || n > cs.len() {
        false
    } else {
        q == links_len(cs, n - 1, sc) || is_link_jump(cs, n - 1, q, sc)
    }
}

/// The link jumps lie inside the links' code.
pub proof fn lemma_link_jump_bound(cs: Seq<Expr>, n: int, q: int, sc: Scope)
    requires
        is_link_jump(cs, n, q, sc),
    ensures
        0 <= q < links_len(cs, n, sc),
    decreases n,
{
    if q != links_len(cs, n - 1, sc) {
        lemma_link_jump_bound(cs, n - 1, q, sc);
    }
}

/// The link jump of link `k + 1` sits at the end of the links before it.
pub proof fn lemma_link_jump_at(cs: Seq<Expr>, n: int, k: int, sc: Scope)
    requires
        0 <= k,
        k + 1 < n,
        n <= cs.len(),
    ensures
        is_link_jump(cs, n, links_len(cs, k + 1, sc) as int, sc),
    decreases n,
{
    if k + 1 < n - 1 {
        lemma_link_jump_at(cs, n - 1, k, sc);
    }
}

/// Every link jump is the jump of some link.
pub proof fn lemma_link_jump_index(cs: Seq<Expr>, n: int, q: int, sc: Scope) -> (k: int)
    requires
        is_link_jump(cs, n, q, sc),
    ensures
        0 <= k,
        k + 1 < n,
        q == links_len(cs, k + 1, sc),
    decreases n,
{
    if q == links_len(cs, n - 1, sc) {
        n - 2
    } else {
        lemma_link_jump_index(cs, n - 1, q, sc)
    }
}

/// Pointing the link jumps of a chain at another end keeps it the code of
/// the links, with that end.
pub proof fn lemma_links_retarget(
    cs: Seq<Expr>,
    ops: Seq<CmpOp>,
    n: int,
    seg: Seq<Op>,
    seg2: Seq<Op>,
    base: int,
    e1: int,
    e2: int,
    sc: Scope,
    consts: Seq<Value>,
)
    requires
        links_code(cs, ops, n, seg, base, e1, sc, consts),
        seg2.len() == seg.len(),
        forall|q: int|
            0 <= q < seg.len() ==> if is_link_jump(cs, n, q, sc) {
                #[trigger] seg2[q] == with_target(seg[q], e2 as u32)
            } else {
                seg2[q] == seg[q]
            },
    ensures
        links_code(cs, ops, n, seg2, base, e2, sc, consts),
    decreases n,
{
    if !(n <= 1 || n > cs.len()) {
        let p = links_len(cs, n - 1, sc) as int;
        let a = expr_len(cs[n - 2], sc) as int;
        let b = expr_len(cs[n - 1], sc) as int;
        assert forall|q: int| 0 <= q < p implies if is_link_jump(cs, n - 1, q, sc) {
            #[trigger] seg2.subrange(0, p)[q] == with_target(seg.subrange(0, p)[q], e2 as u32)
        } else {
            seg2.subrange(0, p)[q] == seg.subrange(0, p)[q]
        } by {
            assert(seg2.subrange(0, p)[q] == seg2[q]);
            assert(seg.subrange(0, p)[q] == seg[q]);
        }
        lemma_links_retarget(cs, ops, n - 1, seg.subrange(0, p), seg2.subrange(0, p), base, e1, e2, sc, consts);
        assert forall|q: int| p < q < seg.len() implies !is_link_jump(cs, n, q, sc) by {
            if is_link_jump(cs, n - 1, q, sc) {
                lemma_link_jump_bound(cs, n - 1, q, sc);
            }
        }
        assert(seg2.subrange(p + 1, p + 1 + a) =~= seg.subrange(p + 1, p + 1 + a));
        assert(seg2.subrange(p + 1 + a, p + 1 + a + b) =~= seg.subrange(p + 1 + a, p + 1 + a + b));
        assert(seg2[p + 1 + a + b] == seg[p + 1 + a + b]);
    }
}

/// The code of a statement stays its code as the constant pool grows.
pub proof fn lemma_stmt_code_mono(
    s: Stmt,
    seg: Seq<Op>,
    base: int,
    sc: Scope,
    c1: Seq<Value>,
    c2: Seq<Value>,
    nl: u16,
    cont: int,
)
    requires
        stmt_code(s, seg, base, sc, c1, nl, cont),
        extends(c1, c2),
    ensures
        stmt_code(s, seg, base, sc, c2, nl, cont),
    decreases s, 1int,
{
    match s {
        Stmt::Expression(e) => {
            lemma_expr_code_mono(e, seg.subrange(0, expr_len(e, sc) as int), base, sc, c1, c2);
        },
        Stmt::Assign { target, value } => {
            if takes_global(target, value, sc) {
                let r = expr_len(*value->right, sc) as int;
                lemma_expr_code_mono(*value->right, seg.subrange(1, 1 + r), base + 1, sc, c1, c2);
            } else {
                lemma_expr_code_mono(value, seg.subrange(0, expr_len(value, sc) as int), base, sc, c1, c2);
            }
        },
        Stmt::AugAssign { target, op, value } => {
            if appends_one(op, value) {
                let k = expr_len(value->List_0@[0], sc) as int;
                lemma_expr_code_mono(value->List_0@[0], seg.subrange(1, 1 + k), base + 1, sc, c1, c2);
            } else {
                let k = expr_len(value, sc) as int;
                lemma_expr_code_mono(value, seg.subrange(1, 1 + k), base + 1, sc, c1, c2);
            }
        },
        Stmt::Print(args) => {
            lemma_exprs_code_mono(args@, seg.subrange(0, exprs_len(args@, sc) as int), base, sc, c1, c2);
        },
        Stmt::If { condition, body, elif_clauses, else_body } => {
            let c = expr_len(condition, sc) as int;
            let bl = block_len(body@, sc) as int;
            let el = elifs_len(elif_clauses@, sc) as int;
            let nl1 = add16(nl, block_hidden(body@) as int);
            let nl2 = add16(nl1, elifs_hidden(elif_clauses@) as int);
            lemma_expr_code_mono(condition, seg.subrange(0, c), base, sc, c1, c2);
            lemma_block_code_mono(body@, seg.subrange(c + 1, c + 1 + bl), base + c + 1, sc, c1, c2, nl, cont);
            if has_alternatives(s) {
                lemma_elifs_code_mono(
                    elif_clauses@,
                    seg.subrange(c + bl + 2, c + bl + 2 + el),
                    base + c + bl + 2,
                    base + seg.len(),
                    sc,
                    c1,
                    c2,
                    nl1,
                    cont,
                );
                match else_body {
                    Some(b) => {
                        lemma_block_code_mono(
                            b@,
                            seg.subrange(c + bl + 2 + el, seg.len() as int),
                            base + c + bl + 2 + el,
                            sc,
                            c1,
                            c2,
                            nl2,
                            cont,
                        );
                    },
                    None => {},
                }
            }
        },
        Stmt::While { condition, body } => {
            let c = expr_len(condition, sc) as int;
            let bl = block_len(body@, sc) as int;
            lemma_expr_code_mono(condition, seg.subrange(0, c), base, sc, c1, c2);
            lemma_block_code_mono(body@, seg.subrange(c + 1, c + 1 + bl), base + c + 1, sc, c1, c2, nl, base);
        },
        Stmt::For { target, iter, body } => {
            let i = expr_len(iter, sc) as int;
            let bl = block_len(body@, sc) as int;
            lemma_expr_code_mono(iter, seg.subrange(0, i), base, sc, c1, c2);
            lemma_block_code_mono(
                body@,
                seg.subrange(i + 16, i + 16 + bl),
                base + i + 16,
                sc,
                c1,
                c2,
                add16(nl, 2),
                base + i + 3,
            );
        },
        Stmt::Return(Some(e)) => {
            lemma_expr_code_mono(e, seg.subrange(0, expr_len(e, sc) as int), base, sc, c1, c2);
        },
        _ => {},
    }
}

pub proof fn lemma_block_code_mono(
    b: Seq<Stmt>,
    seg: Seq<Op>,
    base: int,
    sc: Scope,
    c1: Seq<Value>,
    c2: Seq<Value>,
    nl: u16,
    cont: int,
)
    requires
        block_code(b, seg, base, sc, c1, nl, cont),
        extends(c1, c2),
    ensures
        block_code(b, seg, base, sc, c2, nl, cont),
    decreases b, 0int,
{
    if b.len() > 0 {
        let init = b.subrange(0, b.len() - 1);
        let p = block_len(init, sc) as int;
        lemma_block_code_mono(init, seg.subrange(0, p), base, sc, c1, c2, nl, cont);
        lemma_stmt_code_mono(
            b[b.len() - 1],
            seg.subrange(p, seg.len() as int),
            base + p,
            sc,
            c1,
            c2,
            add16(nl, block_hidden(init) as int),
            cont,
        );
    }
}

pub proof fn lemma_elifs_code_mono(
    cs: Seq<(Expr, Vec<Stmt>)>,
    seg: Seq<Op>,
    base: int,
    end: int,
    sc: Scope,
    c1: Seq<Value>,
    c2: Seq<Value>,
    nl: u16,
    cont: int,
)
    requires
        elifs_code(cs, seg, base, end, sc, c1, nl, cont),
        extends(c1, c2),
    ensures
        elifs_code(cs, seg, base, end, sc, c2, nl, cont),
    decreases cs, 0int,
{
    if cs.len() > 0 {
        let init = cs.subrange(0, cs.len() - 1);
        let p = elifs_len(init, sc) as int;
        let c = expr_len(cs[cs.len() - 1].0, sc) as int;
        let bl = block_len(cs[cs.len() - 1].1@, sc) as int;
        lemma_elifs_code_mono(init, seg.subrange(0, p), base, end, sc, c1, c2, nl, cont);
        lemma_expr_code_mono(cs[cs.len() - 1].0, seg.subrange(p, p + c), base + p, sc, c1, c2);
        lemma_block_code_mono(
            cs[cs.len() - 1].1@,
            seg.subrange(p + c + 1, p + c + 1 + bl),
            base + p + c + 1,
            sc,
            c1,
            c2,
            add16(nl, elifs_hidden(init) as int),
            cont,
        );
    }
}

/// A statement's `break` jumps lie inside its code.
pub proof fn lemma_stmt_breaks_range(s: Stmt, q: int, sc: Scope)
    requires
        stmt_breaks(s, q, sc),
    ensures
        0 <= q < stmt_len(s, sc),
    decreases s, 1int,
{
    match s {
        Stmt::If { condition, body, elif_clauses, else_body } => {
            let c = expr_len(condition, sc) as int;
            let bl = block_len(body@, sc) as int;
            let el = elifs_len(elif_clauses@, sc) as int;
            if block_breaks(body@, q - c - 1, sc) {
                lemma_block_breaks_range(body@, q - c - 1, sc);
            } else if has_alternatives(s) && elifs_breaks(elif_clauses@, q - c - bl - 2, sc) {
                lemma_elifs_breaks_range(elif_clauses@, q - c - bl - 2, sc);
            } else {
                match else_body {
                    Some(b) => {
                        lemma_block_breaks_range(b@, q - c - bl - 2 - el, sc);
                    },
                    None => {},
                }
            }
        },
        _ => {},
    }
}

pub proof fn lemma_block_breaks_range(b: Seq<Stmt>, q: int, sc: Scope)
    requires
        block_breaks(b, q, sc),
    ensures
        0 <= q < block_len(b, sc),
    decreases b, 0int,
{
    let init = b.subrange(0, b.len() - 1);
    if block_breaks(init, q, sc) {
        lemma_block_breaks_range(init, q, sc);
    } else {
        lemma_stmt_breaks_range(b[b.len() - 1], q - block_len(init, sc), sc);
    }
}

pub proof fn lemma_elifs_breaks_range(cs: Seq<(Expr, Vec<Stmt>)>, q: int, sc: Scope)
    requires
        elifs_breaks(cs, q, sc),
    ensures
        0 <= q < elifs_len(cs, sc),
    decreases cs, 0int,
{
    let init = cs.subrange(0, cs.len() - 1);
    let p = elifs_len(init, sc) as int;
    let c = expr_len(cs[cs.len() - 1].0, sc) as int;
    if elifs_breaks(init, q, sc) {
        lemma_elifs_breaks_range(init, q, sc);
    } else {
        lemma_block_breaks_range(cs[cs.len() - 1].1@, q - p - c - 1, sc);
    }
}

/// A statement's `break`s are jumps.
pub proof fn lemma_stmt_breaks_jump(
    s: Stmt,
    seg: Seq<Op>,
    base: int,
    sc: Scope,
    consts: Seq<Value>,
    nl: u16,
    cont: int,
    q: int,
)
    requires
        stmt_code(s, seg, base, sc, consts, nl, cont),
        stmt_breaks(s, q, sc),
    ensures
        0 <= q < seg.len(),
        seg[q] is Jump,
    decreases s, 1int,
{
    lemma_stmt_breaks_range(s, q, sc);
    match s {
        Stmt::If { condition, body, elif_clauses, else_body } => {
            let c = expr_len(condition, sc) as int;
            let bl = block_len(body@, sc) as int;
            let el = elifs_len(elif_clauses@, sc) as int;
            let nl1 = add16(nl, block_hidden(body@) as int);
            let nl2 = add16(nl1, elifs_hidden(elif_clauses@) as int);
            if block_breaks(body@, q - c - 1, sc) {
                lemma_block_breaks_jump(body@, seg.subrange(c + 1, c + 1 + bl), base + c + 1, sc, consts, nl, cont, q - c - 1);
            } else if has_alternatives(s) && elifs_breaks(elif_clauses@, q - c - bl - 2, sc) {
                lemma_elifs_breaks_jump(
                    elif_clauses@,
                    seg.subrange(c + bl + 2, c + bl + 2 + el),
                    base + c + bl + 2,
                    base + seg.len(),
                    sc,
                    consts,
                    nl1,
                    cont,
                    q - c - bl - 2,
                );
            } else {
                match else_body {
                    Some(b) => {
                        lemma_block_breaks_jump(
                            b@,
                            seg.subrange(c + bl + 2 + el, seg.len() as int),
                            base + c + bl + 2 + el,
                            sc,
                            consts,
                            nl2,
                            cont,
                            q - c - bl - 2 - el,
                        );
                    },
                    None => {},
                }
            }
        },
        _ => {},
    }
}

pub proof fn lemma_block_breaks_jump(
    b: Seq<Stmt>,
    seg: Seq<Op>,
    base: int,
    sc: Scope,
    consts: Seq<Value>,
    nl: u16,
    cont: int,
    q: int,
)
    requires
        block_code(b, seg, base, sc, consts, nl, cont),
        block_breaks(b, q, sc),
    ensures
        0 <= q < seg.len(),
        seg[q] is Jump,
    decreases b, 0int,
{
    let init = b.subrange(0, b.len() - 1);
    let p = block_len(init, sc) as int;
    if block_breaks(init, q, sc) {
        lemma_block_breaks_jump(init, seg.subrange(0, p), base, sc, consts, nl, cont, q);
    } else {
        lemma_stmt_breaks_jump(
            b[b.len() - 1],
            seg.subrange(p, seg.len() as int),
            base + p,
            sc,
            consts,
            add16(nl, block_hidden(init) as int),
            cont,
            q - p,
        );
    }
}

pub proof fn lemma_elifs_breaks_jump(
    cs: Seq<(Expr, Vec<Stmt>)>,
    seg: Seq<Op>,
    base: int,
    end: int,
    sc: Scope,
    consts: Seq<Value>,
    nl: u16,
    cont: int,
    q: int,
)
    requires
        elifs_code(cs, seg, base, end, sc, consts, nl, cont),
        elifs_breaks(cs, q, sc),
    ensures
        0 <= q < seg.len(),
        seg[q] is Jump,
    decreases cs, 0int,
{
    let init = cs.subrange(0, cs.len() - 1);
    let p = elifs_len(init, sc) as int;
    let c = expr_len(cs[cs.len() - 1].0, sc) as int;
    let bl = block_len(cs[cs.len() - 1].1@, sc) as int;
    if elifs_breaks(init, q, sc) {
        lemma_elifs_breaks_jump(init, seg.subrange(0, p), base, end, sc, consts, nl, cont, q);
    } else {
        lemma_block_breaks_jump(
            cs[cs.len() - 1].1@,
            seg.subrange(p + c + 1, p + c + 1 + bl),
            base + p + c + 1,
            sc,
            consts,
            add16(nl, elifs_hidden(init) as int),
            cont,
            q - p - c - 1,
        );
    }
}

/// Replacing the `break` jumps of a statement by other jumps keeps it the
/// statement's code.
pub proof fn lemma_stmt_retarget(
    s: Stmt,
    seg: Seq<Op>,
    seg2: Seq<Op>,
    base: int,
    sc: Scope,
    consts: Seq<Value>,
    nl: u16,
    cont: int,
)
    requires
        stmt_code(s, seg, base, sc, consts, nl, cont),
        seg2.len() == seg.len(),
        forall|q: int|
            0 <= q < seg.len() ==> if stmt_breaks(s, q, sc) {
                #[trigger] seg2[q] is Jump
            } else {
                seg2[q] == seg[q]
            },
    ensures
        stmt_code(s, seg2, base, sc, consts, nl, cont),
    decreases s, 1int,
{
    if s is If {
        lemma_if_retarget(s, seg, seg2, base, sc, consts, nl, cont);
    } else if !(s is Break) {
        assert forall|q: int| 0 <= q < seg.len() implies seg2[q] == seg[q] by {
            assert(!stmt_breaks(s, q, sc));
        }
        assert(seg2 =~= seg);
    }
}

#[verifier::rlimit(40)]
proof fn lemma_if_retarget(
    s: Stmt,
    seg: Seq<Op>,
    seg2: Seq<Op>,
    base: int,
    sc: Scope,
    consts: Seq<Value>,
    nl: u16,
    cont: int,
)
    requires
        s is If,
        stmt_code(s, seg, base, sc, consts, nl, cont),
        seg2.len() == seg.len(),
        forall|q: int|
            0 <= q < seg.len() ==> if stmt_breaks(s, q, sc) {
                #[trigger] seg2[q] is Jump
            } else {
                seg2[q] == seg[q]
            },
    ensures
        stmt_code(s, seg2, base, sc, consts, nl, cont),
    decreases s, 0int,
{
    match s {
        Stmt::If { condition, body, elif_clauses, else_body } => {
            let c = expr_len(condition, sc) as int;
            let bl = block_len(body@, sc) as int;
            let el = elifs_len(elif_clauses@, sc) as int;
            let nl1 = add16(nl, block_hidden(body@) as int);
            let nl2 = add16(nl1, elifs_hidden(elif_clauses@) as int);
            let n = seg.len() as int;
            assert forall|q: int| 0 <= q < n && !(c + 1 <= q < c + 1 + bl) && !(has_alternatives(s)
                && c + bl + 2 <= q < n) implies !stmt_breaks(s, q, sc) by {
                if block_breaks(body@, q - c - 1, sc) {
                    lemma_block_breaks_range(body@, q - c - 1, sc);
                }
                if has_alternatives(s) && elifs_breaks(elif_clauses@, q - c - bl - 2, sc) {
                    lemma_elifs_breaks_range(elif_clauses@, q - c - bl - 2, sc);
                }
                match else_body {
                    Some(b) => {
                        if has_alternatives(s) && block_breaks(b@, q - c - bl - 2 - el, sc) {
                            lemma_block_breaks_range(b@, q - c - bl - 2 - el, sc);
                        }
                    },
                    None => {},
                }
            }
            assert(seg2.subrange(0, c) =~= seg.subrange(0, c));
            assert(seg2[c] == seg[c]);
            let bs = seg.subrange(c + 1, c + 1 + bl);
            let bs2 = seg2.subrange(c + 1, c + 1 + bl);
            assert forall|q: int| 0 <= q < bs.len() implies if block_breaks(body@, q, sc) {
                #[trigger] bs2[q] is Jump
            } else {
                bs2[q] == bs[q]
            } by {
                assert(bs2[q] == seg2[q + c + 1]);
                assert(bs[q] == seg[q + c + 1]);
                if has_alternatives(s) && elifs_breaks(elif_clauses@, q - bl - 1, sc) {
                    lemma_elifs_breaks_range(elif_clauses@, q - bl - 1, sc);
                }
                match else_body {
                    Some(b) => {
                        if has_alternatives(s) && block_breaks(b@, q - bl - 1 - el, sc) {
                            lemma_block_breaks_range(b@, q - bl - 1 - el, sc);
                        }
                    },
                    None => {},
                }
            }
            lemma_block_retarget(body@, bs, bs2, base + c + 1, sc, consts, nl, cont);
            if has_alternatives(s) {
                assert(seg2[c + 1 + bl] == seg[c + 1 + bl]);
                let es = seg.subrange(c + bl + 2, c + bl + 2 + el);
                let es2 = seg2.subrange(c + bl + 2, c + bl + 2 + el);
                assert forall|q: int| 0 <= q < es.len() implies if elifs_breaks(elif_clauses@, q, sc) {
                    #[trigger] es2[q] is Jump
                } else {
                    es2[q] == es[q]
                } by {
                    assert(es2[q] == seg2[q + c + bl + 2]);
                    assert(es[q] == seg[q + c + bl + 2]);
                    if block_breaks(body@, q + bl + 1, sc) {
                        lemma_block_breaks_range(body@, q + bl + 1, sc);
                    }
                    match else_body {
                        Some(b) => {
                            if block_breaks(b@, q - el, sc) {
                                lemma_block_breaks_range(b@, q - el, sc);
                            }
                        },
                        None => {},
                    }
                }
                lemma_elifs_retarget(elif_clauses@, es, es2, base + c + bl + 2, base + n, sc, consts, nl1, cont);
                match else_body {
                    Some(b) => {
                        let ls = seg.subrange(c + bl + 2 + el, n);
                        let ls2 = seg2.subrange(c + bl + 2 + el, n);
                        assert forall|q: int| 0 <= q < ls.len() implies if block_breaks(b@, q, sc) {
                            #[trigger] ls2[q] is Jump
                        } else {
                            ls2[q] == ls[q]
                        } by {
                            assert(ls2[q] == seg2[q + c + bl + 2 + el]);
                            assert(ls[q] == seg[q + c + bl + 2 + el]);
                            if block_breaks(body@, q + bl + 1 + el, sc) {
                                lemma_block_breaks_range(body@, q + bl + 1 + el, sc);
                            }
                            if elifs_breaks(elif_clauses@, q + el, sc) {
                                lemma_elifs_breaks_range(elif_clauses@, q + el, sc);
                            }
                        }
                        lemma_block_retarget(b@, ls, ls2, base + c + bl + 2 + el, sc, consts, nl2, cont);
                    },
                    None => {},
                }
            }
        
        },
        _ => {},
    }
}

pub proof fn lemma_block_retarget(
    b: Seq<Stmt>,
    seg: Seq<Op>,
    seg2: Seq<Op>,
    base: int,
    sc: Scope,
    consts: Seq<Value>,
    nl: u16,
    cont: int,
)
    requires
        block_code(b, seg, base, sc, consts, nl, cont),
        seg2.len() == seg.len(),
        forall|q: int|
            0 <= q < seg.len() ==> if block_breaks(b, q, sc) {
                #[trigger] seg2[q] is Jump
            } else {
                seg2[q] == seg[q]
            },
    ensures
        block_code(b, seg2, base, sc, consts, nl, cont),
    decreases b, 0int,
{
    if b.len() > 0 {
        let init = b.subrange(0, b.len() - 1);
        let p = block_len(init, sc) as int;
        let last = b[b.len() - 1];
        let is = seg.subrange(0, p);
        let is2 = seg2.subrange(0, p);
        assert forall|q: int| 0 <= q < is.len() implies if block_breaks(init, q, sc) {
            #[trigger] is2[q] is Jump
        } else {
            is2[q] == is[q]
        } by {
            assert(is2[q] == seg2[q]);
            assert(is[q] == seg[q]);
            if stmt_breaks(last, q - p, sc) {
                lemma_stmt_breaks_range(last, q - p, sc);
            }
        }
        lemma_block_retarget(init, is, is2, base, sc, consts, nl, cont);
        let ls = seg.subrange(p, seg.len() as int);
        let ls2 = seg2.subrange(p, seg.len() as int);
        assert forall|q: int| 0 <= q < ls.len() implies if stmt_breaks(last, q, sc) {
            #[trigger] ls2[q] is Jump
        } else {
            ls2[q] == ls[q]
        } by {
            assert(ls2[q] == seg2[q + p]);
            assert(ls[q] == seg[q + p]);
            if block_breaks(init, q + p, sc) {
                lemma_block_breaks_range(init, q + p, sc);
            }
        }
        lemma_stmt_retarget(last, ls, ls2, base + p, sc, consts, add16(nl, block_hidden(init) as int), cont);
    }
}

pub proof fn lemma_elifs_retarget(
    cs: Seq<(Expr, Vec<Stmt>)>,
    seg: Seq<Op>,
    seg2: Seq<Op>,
    base: int,
    end: int,
    sc: Scope,
    consts: Seq<Value>,
    nl: u16,
    cont: int,
)
    requires
        elifs_code(cs, seg, base, end, sc, consts, nl, cont),
        seg2.len() == seg.len(),
        forall|q: int|
            0 <= q < seg.len() ==> if elifs_breaks(cs, q, sc) {
                #[trigger] seg2[q] is Jump
            } else {
                seg2[q] == seg[q]
            },
    ensures
        elifs_code(cs, seg2, base, end, sc, consts, nl, cont),
    decreases cs, 0int,
{
    if cs.len() > 0 {
        let init = cs.subrange(0, cs.len() - 1);
        let p = elifs_len(init, sc) as int;
        let c = expr_len(cs[cs.len() - 1].0, sc) as int;
        let bl = block_len(cs[cs.len() - 1].1@, sc) as int;
        let lb = cs[cs.len() - 1].1@;
        let is = seg.subrange(0, p);
        let is2 = seg2.subrange(0, p);
        assert forall|q: int| 0 <= q < is.len() implies if elifs_breaks(init, q, sc) {
            #[trigger] is2[q] is Jump
        } else {
            is2[q] == is[q]
        } by {
            assert(is2[q] == seg2[q]);
            assert(is[q] == seg[q]);
            if block_breaks(lb, q - p - c - 1, sc) {
                lemma_block_breaks_range(lb, q - p - c - 1, sc);
            }
        }
        lemma_elifs_retarget(init, is, is2, base, end, sc, consts, nl, cont);
        assert forall|q: int| p <= q < p + c + 1 || q == p + c + 1 + bl implies !elifs_breaks(cs, q, sc) by {
            if elifs_breaks(init, q, sc) {
                lemma_elifs_breaks_range(init, q, sc);
            }
            if block_breaks(lb, q - p - c - 1, sc) {
                lemma_block_breaks_range(lb, q - p - c - 1, sc);
            }
        }
        assert(seg2.subrange(p, p + c) =~= seg.subrange(p, p + c));
        let bs = seg.subrange(p + c + 1, p + c + 1 + bl);
        let bs2 = seg2.subrange(p + c + 1, p + c + 1 + bl);
        assert forall|q: int| 0 <= q < bs.len() implies if block_breaks(lb, q, sc) {
            #[trigger] bs2[q] is Jump
        } else {
            bs2[q] == bs[q]
        } by {
            assert(bs2[q] == seg2[q + p + c + 1]);
            assert(bs[q] == seg[q + p + c + 1]);
            if elifs_breaks(init, q + p + c + 1, sc) {
                lemma_elifs_breaks_range(init, q + p + c + 1, sc);
            }
        }
        lemma_block_retarget(lb, bs, bs2, base + p + c + 1, sc, consts, add16(nl, elifs_hidden(init) as int), cont);
    }
}

/// Whether relative offset `q` of the `elif` parts holds the jump to the end
/// of the `if` that closes one of them.
pub open spec fn is_elif_end(cs: Seq<(Expr, Vec<Stmt>)>, q: int, sc: Scope) -> bool
    decreases cs.len(),
{
    if cs.len() == 0 {
        false
    } else {
        q == elifs_len(cs, sc) - 1 || is_elif_end(cs.subrange(0, cs.len() - 1), q, sc)
    }
}

pub proof fn lemma_elif_end_range(cs: Seq<(Expr, Vec<Stmt>)>, q: int, sc: Scope)
    requires
        is_elif_end(cs, q, sc),
    ensures
        0 <= q < elifs_len(cs, sc),
    decreases cs.len(),
{
    if q != elifs_len(cs, sc) - 1 {
        lemma_elif_end_range(cs.subrange(0, cs.len() - 1), q, sc);
    }
}

/// The end jump of the `k`-th part closes the first `k` parts.
pub proof fn lemma_elif_end_at(cs: Seq<(Expr, Vec<Stmt>)>, k: int, sc: Scope)
    requires
        1 <= k <= cs.len(),
    ensures
        is_elif_end(cs, elifs_len(cs.subrange(0, k), sc) - 1, sc),
    decreases cs.len(),
{
    if k < cs.len() {
        let init = cs.subrange(0, cs.len() - 1);
        assert(init.subrange(0, k) =~= cs.subrange(0, k));
        lemma_elif_end_at(init, k, sc);
    } else {
        assert(cs.subrange(0, k) =~= cs);
    }
}

/// Every end jump closes some first parts.
pub proof fn lemma_elif_end_index(cs: Seq<(Expr, Vec<Stmt>)>, q: int, sc: Scope) -> (k: int)
    requires
        is_elif_end(cs, q, sc),
    ensures
        1 <= k <= cs.len(),
        q == elifs_len(cs.subrange(0, k), sc) - 1,
    decreases cs.len(),
{
    if q == elifs_len(cs, sc) - 1 {
        assert(cs.subrange(0, cs.len() as int) =~= cs);
        cs.len() as int
    } else {
        let init = cs.subrange(0, cs.len() - 1);
        let k = lemma_elif_end_index(init, q, sc);
        assert(init.subrange(0, k) =~= cs.subrange(0, k));
        k
    }
}

/// Pointing the end jumps of the `elif` parts at another end keeps them the
/// code of the parts, with that end.
pub proof fn lemma_elifs_end_retarget(
    cs: Seq<(Expr, Vec<Stmt>)>,
    seg: Seq<Op>,
    seg2: Seq<Op>,
    base: int,
    e1: int,
    e2: int,
    sc: Scope,
    consts: Seq<Value>,
    nl: u16,
    cont: int,
)
    requires
        elifs_code(cs, seg, base, e1, sc, consts, nl, cont),
        seg2.len() == seg.len(),
        forall|q: int|
            0 <= q < seg.len() ==> if is_elif_end(cs, q, sc) {
                #[trigger] seg2[q] == with_target(seg[q], e2 as u32)
            } else {
                seg2[q] == seg[q]
            },
    ensures
        elifs_code(cs, seg2, base, e2, sc, consts, nl, cont),
    decreases cs.len(),
{
    if cs.len() > 0 {
        let init = cs.subrange(0, cs.len() - 1);
        let p = elifs_len(init, sc) as int;
        let c = expr_len(cs[cs.len() - 1].0, sc) as int;
        let bl = block_len(cs[cs.len() - 1].1@, sc) as int;
        assert forall|q: int| 0 <= q < p implies if is_elif_end(init, q, sc) {
            #[trigger] seg2.subrange(0, p)[q] == with_target(seg.subrange(0, p)[q], e2 as u32)
        } else {
            seg2.subrange(0, p)[q] == seg.subrange(0, p)[q]
        } by {
            assert(seg2.subrange(0, p)[q] == seg2[q]);
            assert(seg.subrange(0, p)[q] == seg[q]);
        }
        lemma_elifs_end_retarget(init, seg.subrange(0, p), seg2.subrange(0, p), base, e1, e2, sc, consts, nl, cont);
        assert forall|q: int| p <= q < p + c + 1 + bl implies !is_elif_end(cs, q, sc) by {
            if is_elif_end(init, q, sc) {
                lemma_elif_end_range(init, q, sc);
            }
        }
        assert(seg2.subrange(p, p + c) =~= seg.subrange(p, p + c));
        assert(seg2.subrange(p + c + 1, p + c + 1 + bl) =~= seg.subrange(p + c + 1, p + c + 1 + bl));
        assert(seg2[p + c] == seg[p + c]);
    }
}

/// The first `k` `elif` parts take no more code than all of them.
pub proof fn lemma_elifs_len_prefix(cs: Seq<(Expr, Vec<Stmt>)>, k: int, sc: Scope)
    requires
        0 <= k <= cs.len(),
    ensures
        elifs_len(cs.subrange(0, k), sc) <= elifs_len(cs, sc),
        k > 0 ==> elifs_len(cs.subrange(0, k), sc) >= 2,
    decreases cs.len(),
{
    if k < cs.len() {
        let init = cs.subrange(0, cs.len() - 1);
        assert(init.subrange(0, k) =~= cs.subrange(0, k));
        lemma_elifs_len_prefix(init, k, sc);
    } else {
        assert(cs.subrange(0, k) =~= cs);
    }
}

} // verus!
