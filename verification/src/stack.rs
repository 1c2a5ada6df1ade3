//! Stack depths of compiled code. An annotation gives, before each
//! instruction, a number of values that is surely on the operand stack;
//! code is stack safe when some annotation starting at 0 is consistent: each
//! instruction finds the values it takes, and the depth it leaves (after
//! falling through or at its jump target) is at least the annotated one.
use vstd::prelude::*;

use crate::ast::{BinOp, Expr, Stmt};
use crate::bytecode::Op;
use crate::compiler::{block_ok, elifs_ok, stmt_ok};
use crate::codegen::{
    appends_one, block_breaks, block_code, block_len, elifs_breaks, elifs_code, elifs_len, expr_code,
    expr_len, exprs_code, exprs_len, global_callee, has_alternatives, links_code, links_len, pairs_code,
    pairs_len, stmt_breaks, stmt_code, stmt_len, takes_global, Scope,
};
use crate::compiler::{
    fuse4, fuse_pairs, fuse_quads, is_target, jump_target, optimized, remap_target, remove_ops, with_target,
};
use crate::bytecode::Value;

verus! {

/// The number of values an instruction takes from the stack.
pub open spec fn pops(op: Op) -> int {
    match op {
        Op::StoreLocal(_) | Op::StoreGlobal(_) | Op::Pop | Op::PopJumpIfFalse(_) | Op::JumpIfTrueOrPop(_)
        | Op::JumpIfFalseOrPop(_) | Op::Return | Op::UnaryNeg | Op::UnaryNot | Op::Len | Op::LoadAttr(_) => 1,
        Op::BinaryAdd | Op::BinarySub | Op::BinaryMul | Op::BinaryDiv | Op::BinaryFloorDiv | Op::BinaryMod
        | Op::BinaryPow | Op::CompareEq | Op::CompareNotEq | Op::CompareLt | Op::CompareLtE | Op::CompareGt
        | Op::CompareGtE | Op::CompareIn | Op::CompareNotIn | Op::BinarySubscript | Op::ListAppend => 2,
        Op::Call(n) => n + 1,
        Op::CallGlobal(_, n) => n as int,
        Op::BuildList(n) => n as int,
        Op::BuildDict(n) => 2 * n,
        Op::Print(n) => n as int,
        _ => 0,
    }
}

/// The number of values an instruction leaves on the stack when it falls
/// through.
pub open spec fn pushes(op: Op) -> int {
    match op {
        Op::LoadConst(_) | Op::LoadLocal(_) | Op::LoadGlobal(_) | Op::TakeGlobal(_) => 1,
        Op::LoadLocalPair(_) => 2,
        Op::BinaryAdd | Op::BinarySub | Op::BinaryMul | Op::BinaryDiv | Op::BinaryFloorDiv | Op::BinaryMod
        | Op::BinaryPow | Op::CompareEq | Op::CompareNotEq | Op::CompareLt | Op::CompareLtE | Op::CompareGt
        | Op::CompareGtE | Op::CompareIn | Op::CompareNotIn | Op::BinarySubscript | Op::ListAppend
        | Op::UnaryNeg | Op::UnaryNot | Op::Len | Op::LoadAttr(_) | Op::Call(_) | Op::CallGlobal(_, _)
        | Op::BuildList(_) | Op::BuildDict(_) => 1,
        _ => 0,
    }
}

/// Whether execution can continue with the next instruction.
pub open spec fn falls_through(op: Op) -> bool {
    !(op is Jump || op is Return || op is ReturnNone)
}

/// The depth at the target of a jump taken from depth `d`: a conditional
/// jump that pops its condition leaves one fewer.
pub open spec fn target_depth(op: Op, d: int) -> int {
    if op is PopJumpIfFalse {
        d - 1
    } else {
        d
    }
}

/// The depth after falling through from depth `d`.
pub open spec fn next_depth(op: Op, d: int) -> int {
    d - pops(op) + pushes(op)
}

/// Instruction `i` of `ins` respects the annotation `ann`.
pub open spec fn depth_ok_at(ins: Seq<Op>, ann: Seq<int>, i: int) -> bool {
    &&& ann[i] >= pops(ins[i])
    &&& falls_through(ins[i]) ==> ann[i + 1] <= next_depth(ins[i], ann[i])
    &&& jump_target(ins[i]) matches Some(t) ==> t <= ins.len() && ann[t as int] <= target_depth(ins[i], ann[i])
}

/// `ann` is a consistent stack-depth annotation of `ins` starting at 0.
pub open spec fn safe_with(ins: Seq<Op>, ann: Seq<int>) -> bool {
    &&& ann.len() == ins.len() + 1
    &&& ann[0] == 0
    &&& forall|i: int| 0 <= i < ins.len() ==> #[trigger] depth_ok_at(ins, ann, i)
}

/// Running `ins` from an empty stack, no instruction takes more values than
/// the stack holds.
pub open spec fn stack_safe(ins: Seq<Op>) -> bool {
    exists|ann: Seq<int>| safe_with(ins, ann)
}

/// Relative instruction `k` of the code `seg`, placed at `base`, respects
/// the depths `depth` (relative offsets, up to the end of `seg`): it finds
/// its values, and where it continues the depth is at least the annotated
/// one; a jump out of `seg` must satisfy `ext` (given the instruction's
/// offset, the target and the depth there).
pub open spec fn step_ok(
    seg: Seq<Op>,
    base: int,
    depth: spec_fn(int) -> int,
    ext: spec_fn(int, int, int) -> bool,
    k: int,
) -> bool {
    let d = depth(k);
    &&& d >= pops(seg[k])
    &&& falls_through(seg[k]) ==> depth(k + 1) <= next_depth(seg[k], d)
    &&& jump_target(seg[k]) matches Some(t) ==> ((base <= t <= base + seg.len() && depth(t - base)
        <= target_depth(seg[k], d)) || ext(k, t as int, target_depth(seg[k], d)))
}

/// A part's steps are steps of the whole, where the whole's depths on the
/// part are the part's plus `off`.
pub proof fn lemma_shift(
    pseg: Seq<Op>,
    pbase: int,
    pd: spec_fn(int) -> int,
    pext: spec_fn(int, int, int) -> bool,
    cseg: Seq<Op>,
    cd: spec_fn(int) -> int,
    cext: spec_fn(int, int, int) -> bool,
    s: int,
    off: int,
    k: int,
)
    requires
        0 <= s,
        s + cseg.len() <= pseg.len(),
        forall|j: int| 0 <= j < cseg.len() ==> #[trigger] cseg[j] == pseg[s + j],
        forall|j: int| 0 <= j <= cseg.len() ==> #[trigger] pd(s + j) == off + cd(j),
        off >= 0,
        s <= k < s + cseg.len(),
        step_ok(cseg, pbase + s, cd, cext, k - s),
        forall|kk: int, t: int, td: int|
            #[trigger] cext(kk, t, td) ==> ((pbase <= t <= pbase + pseg.len() && pd(t - pbase) <= td + off)
                || pext(kk + s, t, td + off)),
    ensures
        step_ok(pseg, pbase, pd, pext, k),
{
    let j = k - s;
    assert(cseg[j] == pseg[k]);
    assert(pd(s + j) == off + cd(j));
    if falls_through(pseg[k]) {
        assert(pd(s + (j + 1)) == off + cd(j + 1));
    }
    if jump_target(pseg[k]) is Some {
        let t = jump_target(pseg[k])->Some_0 as int;
        let td = target_depth(pseg[k], cd(j));
        if pbase + s <= t <= pbase + s + cseg.len() && cd(t - pbase - s) <= td {
            assert(pd(s + (t - pbase - s)) == off + cd(t - pbase - s));
        } else {
            assert(cext(j, t, td));
        }
    }
}

/// No jump leaves an expression's code.
pub open spec fn no_ext() -> spec_fn(int, int, int) -> bool {
    |k: int, t: int, td: int| false
}

/// The depth before relative instruction `k` of an expression's code,
/// entered with an empty stack; its code ends with one value.
pub open spec fn expr_depth(e: Expr, sc: Scope, k: int) -> int
    decreases e, 1int,
{
    match e {
        Expr::BinaryOp { left, op, right } => {
            let l = expr_len(*left, sc) as int;
            let r = expr_len(*right, sc) as int;
            if op == BinOp::And || op == BinOp::Or {
                if k <= l {
                    expr_depth(*left, sc, k)
                } else {
                    expr_depth(*right, sc, k - l - 1)
                }
            } else if k <= l {
                expr_depth(*left, sc, k)
            } else if k <= l + r {
                1 + expr_depth(*right, sc, k - l)
            } else {
                1
            }
        },
        Expr::UnaryOp { operand, .. } => if k <= expr_len(*operand, sc) {
            expr_depth(*operand, sc, k)
        } else {
            1
        },
        Expr::Call { function, args } => {
            let a = exprs_len(args@, sc) as int;
            if global_callee(*function, sc) {
                if k <= a {
                    exprs_depth(args@, sc, k)
                } else {
                    1
                }
            } else {
                let f = expr_len(*function, sc) as int;
                if k <= f {
                    expr_depth(*function, sc, k)
                } else if k <= f + a {
                    1 + exprs_depth(args@, sc, k - f)
                } else {
                    1
                }
            }
        },
        Expr::Index { object, index } => {
            let o = expr_len(*object, sc) as int;
            let i = expr_len(*index, sc) as int;
            if k <= o {
                expr_depth(*object, sc, k)
            } else if k <= o + i {
                1 + expr_depth(*index, sc, k - o)
            } else {
                1
            }
        },
        Expr::Attribute { object, .. } => if k <= expr_len(*object, sc) {
            expr_depth(*object, sc, k)
        } else {
            1
        },
        Expr::List(items) => if k <= exprs_len(items@, sc) {
            exprs_depth(items@, sc, k)
        } else {
            1
        },
        Expr::Dict(pairs) => if k <= pairs_len(pairs@, sc) {
            pairs_depth(pairs@, sc, k)
        } else {
            1
        },
        Expr::Compare { left, ops, comparators } => {
            let l = expr_len(*left, sc) as int;
            let c = if comparators@.len() > 0 {
                expr_len(comparators@[0], sc) as int
            } else {
                0
            };
            if comparators@.len() == 0 {
                0
            } else if k <= l {
                expr_depth(*left, sc, k)
            } else if k <= l + c {
                1 + expr_depth(comparators@[0], sc, k - l)
            } else {
                links_depth(comparators@, ops@.len() as int, sc, k - l - c - 1)
            }
        },
        _ => if k <= 0 {
            0
        } else {
            1
        },
    }
}

/// The depth inside the code of a sequence of expressions: one more value
/// after each.
pub open spec fn exprs_depth(es: Seq<Expr>, sc: Scope, k: int) -> int
    decreases es, 0int,
{
    if es.len() == 0 {
        0
    } else {
        let init = es.subrange(0, es.len() - 1);
        let p = exprs_len(init, sc) as int;
        if k <= p {
            exprs_depth(init, sc, k)
        } else {
            (es.len() - 1) + expr_depth(es[es.len() - 1], sc, k - p)
        }
    }
}

/// The depth inside the code of dictionary entries: two more values after
/// each.
pub open spec fn pairs_depth(ps: Seq<(Expr, Expr)>, sc: Scope, k: int) -> int
    decreases ps, 0int,
{
    if ps.len() == 0 {
        0
    } else {
        let init = ps.subrange(0, ps.len() - 1);
        let p = pairs_len(init, sc) as int;
        let a = expr_len(ps[ps.len() - 1].0, sc) as int;
        if k <= p {
            pairs_depth(init, sc, k)
        } else if k <= p + a {
            2 * (ps.len() - 1) + expr_depth(ps[ps.len() - 1].0, sc, k - p)
        } else {
            2 * (ps.len() - 1) + 1 + expr_depth(ps[ps.len() - 1].1, sc, k - p - a)
        }
    }
}

/// The depth inside the links of a comparison chain, entered with the
/// result so far on the stack.
pub open spec fn links_depth(cs: Seq<Expr>, n: int, sc: Scope, k: int) -> int
    decreases cs, n,
{
    if n <= 1 || n > cs.len() {
        1
    } else {
        let p = links_len(cs, n - 1, sc) as int;
        let a = expr_len(cs[n - 2], sc) as int;
        let b = expr_len(cs[n - 1], sc) as int;
        if k <= p {
            links_depth(cs, n - 1, sc, k)
        } else if k <= p + 1 + a {
            expr_depth(cs[n - 2], sc, k - p - 1)
        } else if k <= p + 1 + a + b {
            1 + expr_depth(cs[n - 1], sc, k - p - 1 - a)
        } else {
            1
        }
    }
}

pub open spec fn expr_depths(e: Expr, sc: Scope) -> spec_fn(int) -> int {
    |j: int| expr_depth(e, sc, j)
}

pub open spec fn exprs_depths(es: Seq<Expr>, sc: Scope) -> spec_fn(int) -> int {
    |j: int| exprs_depth(es, sc, j)
}

pub open spec fn pairs_depths(ps: Seq<(Expr, Expr)>, sc: Scope) -> spec_fn(int) -> int {
    |j: int| pairs_depth(ps, sc, j)
}

pub open spec fn links_depths(cs: Seq<Expr>, n: int, sc: Scope) -> spec_fn(int) -> int {
    |j: int| links_depth(cs, n, sc, j)
}

/// The only jumps out of a chain's links go to `end`, keeping the result.
pub open spec fn links_ext(end: int) -> spec_fn(int, int, int) -> bool {
    |k: int, t: int, td: int| t == end && td >= 1
}

/// The depths of an expression's code are consistent: it starts with an
/// empty stack, ends with its value, and no jump leaves it.
pub proof fn lemma_expr_stack(e: Expr, seg: Seq<Op>, base: int, sc: Scope, consts: Seq<Value>)
    requires
        expr_code(e, seg, base, sc, consts),
        0 <= base,
        base + seg.len() <= u32::MAX,
    ensures
        expr_depth(e, sc, 0) == 0,
        expr_depth(e, sc, seg.len() as int) == 1,
        forall|k: int| 0 <= k < seg.len() ==> #[trigger] step_ok(seg, base, expr_depths(e, sc), no_ext(), k),
    decreases e, 1int,
{
    let pd = expr_depths(e, sc);
    let n = seg.len() as int;
    match e {
        Expr::BinaryOp { left, op, right } => {
            let l = expr_len(*left, sc) as int;
            let r = expr_len(*right, sc) as int;
            let ls = seg.subrange(0, l);
            lemma_expr_stack(*left, ls, base, sc, consts);
            if op == BinOp::And || op == BinOp::Or {
                let rs = seg.subrange(l + 1, l + 1 + r);
                lemma_expr_stack(*right, rs, base + l + 1, sc, consts);
                assert forall|k: int| 0 <= k < n implies #[trigger] step_ok(seg, base, pd, no_ext(), k) by {
                    if k < l {
                        assert forall|j: int| 0 <= j <= ls.len() implies #[trigger] pd(0 + j) == 0 + expr_depths(*left, sc)(j) by {}
                        lemma_shift(seg, base, pd, no_ext(), ls, expr_depths(*left, sc), no_ext(), 0, 0, k);
                    } else if k == l {
                        assert(((base + n) as u32) as int == base + n);
                    } else {
                        assert forall|j: int| 0 <= j <= rs.len() implies #[trigger] pd(l + 1 + j) == 0 + expr_depths(*right, sc)(j) by {}
                        assert forall|j: int| 0 <= j < rs.len() implies #[trigger] rs[j] == seg[l + 1 + j] by {}
                        lemma_shift(seg, base, pd, no_ext(), rs, expr_depths(*right, sc), no_ext(), l + 1, 0, k);
                    }
                }
            } else {
                let rs = seg.subrange(l, l + r);
                lemma_expr_stack(*right, rs, base + l, sc, consts);
                assert forall|k: int| 0 <= k < n implies #[trigger] step_ok(seg, base, pd, no_ext(), k) by {
                    if k < l {
                        assert forall|j: int| 0 <= j <= ls.len() implies #[trigger] pd(0 + j) == 0 + expr_depths(*left, sc)(j) by {}
                        lemma_shift(seg, base, pd, no_ext(), ls, expr_depths(*left, sc), no_ext(), 0, 0, k);
                    } else if k < l + r {
                        assert forall|j: int| 0 <= j <= rs.len() implies #[trigger] pd(l + j) == 1 + expr_depths(*right, sc)(j) by {}
                        assert forall|j: int| 0 <= j < rs.len() implies #[trigger] rs[j] == seg[l + j] by {}
                        lemma_shift(seg, base, pd, no_ext(), rs, expr_depths(*right, sc), no_ext(), l, 1, k);
                    }
                }
            }
        },
        Expr::UnaryOp { op, operand } => {
            let m = expr_len(*operand, sc) as int;
            let os = seg.subrange(0, m);
            lemma_expr_stack(*operand, os, base, sc, consts);
            assert forall|k: int| 0 <= k < n implies #[trigger] step_ok(seg, base, pd, no_ext(), k) by {
                if k < m {
                    assert forall|j: int| 0 <= j <= os.len() implies #[trigger] pd(0 + j) == 0 + expr_depths(*operand, sc)(j) by {}
                    lemma_shift(seg, base, pd, no_ext(), os, expr_depths(*operand, sc), no_ext(), 0, 0, k);
                }
            }
        },
        Expr::Call { function, args } => {
            let a = exprs_len(args@, sc) as int;
            if global_callee(*function, sc) {
                let as_ = seg.subrange(0, a);
                lemma_exprs_stack(args@, as_, base, sc, consts);
                assert forall|k: int| 0 <= k < n implies #[trigger] step_ok(seg, base, pd, no_ext(), k) by {
                    if k < a {
                        assert forall|j: int| 0 <= j <= as_.len() implies #[trigger] pd(0 + j) == 0 + exprs_depths(args@, sc)(j) by {}
                        lemma_shift(seg, base, pd, no_ext(), as_, exprs_depths(args@, sc), no_ext(), 0, 0, k);
                    }
                }
            } else {
                let f = expr_len(*function, sc) as int;
                let fs = seg.subrange(0, f);
                let as_ = seg.subrange(f, f + a);
                lemma_expr_stack(*function, fs, base, sc, consts);
                lemma_exprs_stack(args@, as_, base + f, sc, consts);
                assert forall|k: int| 0 <= k < n implies #[trigger] step_ok(seg, base, pd, no_ext(), k) by {
                    if k < f {
                        assert forall|j: int| 0 <= j <= fs.len() implies #[trigger] pd(0 + j) == 0 + expr_depths(*function, sc)(j) by {}
                        lemma_shift(seg, base, pd, no_ext(), fs, expr_depths(*function, sc), no_ext(), 0, 0, k);
                    } else if k < f + a {
                        assert forall|j: int| 0 <= j <= as_.len() implies #[trigger] pd(f + j) == 1 + exprs_depths(args@, sc)(j) by {}
                        assert forall|j: int| 0 <= j < as_.len() implies #[trigger] as_[j] == seg[f + j] by {}
                        lemma_shift(seg, base, pd, no_ext(), as_, exprs_depths(args@, sc), no_ext(), f, 1, k);
                    }
                }
            }
        },
        Expr::Index { object, index } => {
            let o = expr_len(*object, sc) as int;
            let i = expr_len(*index, sc) as int;
            let os = seg.subrange(0, o);
            let is = seg.subrange(o, o + i);
            lemma_expr_stack(*object, os, base, sc, consts);
            lemma_expr_stack(*index, is, base + o, sc, consts);
            assert forall|k: int| 0 <= k < n implies #[trigger] step_ok(seg, base, pd, no_ext(), k) by {
                if k < o {
                    assert forall|j: int| 0 <= j <= os.len() implies #[trigger] pd(0 + j) == 0 + expr_depths(*object, sc)(j) by {}
                    lemma_shift(seg, base, pd, no_ext(), os, expr_depths(*object, sc), no_ext(), 0, 0, k);
                } else if k < o + i {
                    assert forall|j: int| 0 <= j <= is.len() implies #[trigger] pd(o + j) == 1 + expr_depths(*index, sc)(j) by {}
                    assert forall|j: int| 0 <= j < is.len() implies #[trigger] is[j] == seg[o + j] by {}
                    lemma_shift(seg, base, pd, no_ext(), is, expr_depths(*index, sc), no_ext(), o, 1, k);
                }
            }
        },
        Expr::Attribute { object, .. } => {
            let m = expr_len(*object, sc) as int;
            let os = seg.subrange(0, m);
            lemma_expr_stack(*object, os, base, sc, consts);
            assert forall|k: int| 0 <= k < n implies #[trigger] step_ok(seg, base, pd, no_ext(), k) by {
                if k < m {
                    assert forall|j: int| 0 <= j <= os.len() implies #[trigger] pd(0 + j) == 0 + expr_depths(*object, sc)(j) by {}
                    lemma_shift(seg, base, pd, no_ext(), os, expr_depths(*object, sc), no_ext(), 0, 0, k);
                }
            }
        },
        Expr::List(items) => {
            let m = exprs_len(items@, sc) as int;
            let is = seg.subrange(0, m);
            lemma_exprs_stack(items@, is, base, sc, consts);
            assert forall|k: int| 0 <= k < n implies #[trigger] step_ok(seg, base, pd, no_ext(), k) by {
                if k < m {
                    assert forall|j: int| 0 <= j <= is.len() implies #[trigger] pd(0 + j) == 0 + exprs_depths(items@, sc)(j) by {}
                    lemma_shift(seg, base, pd, no_ext(), is, exprs_depths(items@, sc), no_ext(), 0, 0, k);
                }
            }
        },
        Expr::Dict(pairs) => {
            let m = pairs_len(pairs@, sc) as int;
            let ps = seg.subrange(0, m);
            lemma_pairs_stack(pairs@, ps, base, sc, consts);
            assert forall|k: int| 0 <= k < n implies #[trigger] step_ok(seg, base, pd, no_ext(), k) by {
                if k < m {
                    assert forall|j: int| 0 <= j <= ps.len() implies #[trigger] pd(0 + j) == 0 + pairs_depths(pairs@, sc)(j) by {}
                    lemma_shift(seg, base, pd, no_ext(), ps, pairs_depths(pairs@, sc), no_ext(), 0, 0, k);
                }
            }
        },
        Expr::Compare { left, ops, comparators } => {
            let l = expr_len(*left, sc) as int;
            let c = expr_len(comparators@[0], sc) as int;
            let ls = seg.subrange(0, l);
            let cs0 = seg.subrange(l, l + c);
            let ks = seg.subrange(l + c + 1, n);
            let nn = ops@.len() as int;
            lemma_expr_stack(*left, ls, base, sc, consts);
            lemma_expr_stack(comparators@[0], cs0, base + l, sc, consts);
            lemma_links_stack(comparators@, ops@, nn, ks, base + l + c + 1, base + n, sc, consts);
            assert forall|k: int| 0 <= k < n implies #[trigger] step_ok(seg, base, pd, no_ext(), k) by {
                if k < l {
                    assert forall|j: int| 0 <= j <= ls.len() implies #[trigger] pd(0 + j) == 0 + expr_depths(*left, sc)(j) by {}
                    lemma_shift(seg, base, pd, no_ext(), ls, expr_depths(*left, sc), no_ext(), 0, 0, k);
                } else if k < l + c {
                    assert forall|j: int| 0 <= j <= cs0.len() implies #[trigger] pd(l + j) == 1 + expr_depths(comparators@[0], sc)(j) by {}
                    assert forall|j: int| 0 <= j < cs0.len() implies #[trigger] cs0[j] == seg[l + j] by {}
                    lemma_shift(seg, base, pd, no_ext(), cs0, expr_depths(comparators@[0], sc), no_ext(), l, 1, k);
                } else if k > l + c {
                    assert forall|j: int| 0 <= j <= ks.len() implies #[trigger] pd(l + c + 1 + j) == 0 + links_depths(comparators@, nn, sc)(j) by {}
                    assert forall|j: int| 0 <= j < ks.len() implies #[trigger] ks[j] == seg[l + c + 1 + j] by {}
                    lemma_shift(seg, base, pd, no_ext(), ks, links_depths(comparators@, nn, sc), links_ext(base + n), l + c + 1, 0, k);
                }
            }
        },
        _ => {},
    }
}

pub proof fn lemma_exprs_stack(es: Seq<Expr>, seg: Seq<Op>, base: int, sc: Scope, consts: Seq<Value>)
    requires
        exprs_code(es, seg, base, sc, consts),
        0 <= base,
        base + seg.len() <= u32::MAX,
    ensures
        exprs_depth(es, sc, 0) == 0,
        exprs_depth(es, sc, seg.len() as int) == es.len(),
        forall|k: int| 0 <= k < seg.len() ==> #[trigger] step_ok(seg, base, exprs_depths(es, sc), no_ext(), k),
    decreases es, 0int,
{
    if es.len() > 0 {
        let pd = exprs_depths(es, sc);
        let init = es.subrange(0, es.len() - 1);
        let last = es[es.len() - 1];
        let p = exprs_len(init, sc) as int;
        let n = seg.len() as int;
        let is = seg.subrange(0, p);
        let ls = seg.subrange(p, n);
        lemma_exprs_stack(init, is, base, sc, consts);
        lemma_expr_stack(last, ls, base + p, sc, consts);
        assert forall|k: int| 0 <= k < n implies #[trigger] step_ok(seg, base, pd, no_ext(), k) by {
            if k < p {
                assert forall|j: int| 0 <= j <= is.len() implies #[trigger] pd(0 + j) == 0 + exprs_depths(init, sc)(j) by {}
                lemma_shift(seg, base, pd, no_ext(), is, exprs_depths(init, sc), no_ext(), 0, 0, k);
            } else {
                assert forall|j: int| 0 <= j <= ls.len() implies #[trigger] pd(p + j) == (es.len() - 1) + expr_depths(last, sc)(j) by {}
                assert forall|j: int| 0 <= j < ls.len() implies #[trigger] ls[j] == seg[p + j] by {}
                lemma_shift(seg, base, pd, no_ext(), ls, expr_depths(last, sc), no_ext(), p, es.len() - 1, k);
            }
        }
    }
}

pub proof fn lemma_pairs_stack(ps: Seq<(Expr, Expr)>, seg: Seq<Op>, base: int, sc: Scope, consts: Seq<Value>)
    requires
        pairs_code(ps, seg, base, sc, consts),
        0 <= base,
        base + seg.len() <= u32::MAX,
    ensures
        pairs_depth(ps, sc, 0) == 0,
        pairs_depth(ps, sc, seg.len() as int) == 2 * ps.len(),
        forall|k: int| 0 <= k < seg.len() ==> #[trigger] step_ok(seg, base, pairs_depths(ps, sc), no_ext(), k),
    decreases ps, 0int,
{
    if ps.len() > 0 {
        let pd = pairs_depths(ps, sc);
        let init = ps.subrange(0, ps.len() - 1);
        let key = ps[ps.len() - 1].0;
        let val = ps[ps.len() - 1].1;
        let p = pairs_len(init, sc) as int;
        let a = expr_len(key, sc) as int;
        let n = seg.len() as int;
        let is = seg.subrange(0, p);
        let ks = seg.subrange(p, p + a);
        let vs = seg.subrange(p + a, n);
        let off = 2 * (ps.len() - 1);
        lemma_pairs_stack(init, is, base, sc, consts);
        lemma_expr_stack(key, ks, base + p, sc, consts);
        lemma_expr_stack(val, vs, base + p + a, sc, consts);
        assert forall|k: int| 0 <= k < n implies #[trigger] step_ok(seg, base, pd, no_ext(), k) by {
            if k < p {
                assert forall|j: int| 0 <= j <= is.len() implies #[trigger] pd(0 + j) == 0 + pairs_depths(init, sc)(j) by {}
                lemma_shift(seg, base, pd, no_ext(), is, pairs_depths(init, sc), no_ext(), 0, 0, k);
            } else if k < p + a {
                assert forall|j: int| 0 <= j <= ks.len() implies #[trigger] pd(p + j) == off + expr_depths(key, sc)(j) by {}
                assert forall|j: int| 0 <= j < ks.len() implies #[trigger] ks[j] == seg[p + j] by {}
                lemma_shift(seg, base, pd, no_ext(), ks, expr_depths(key, sc), no_ext(), p, off, k);
            } else {
                assert forall|j: int| 0 <= j <= vs.len() implies #[trigger] pd(p + a + j) == (off + 1) + expr_depths(val, sc)(j) by {}
                assert forall|j: int| 0 <= j < vs.len() implies #[trigger] vs[j] == seg[p + a + j] by {}
                lemma_shift(seg, base, pd, no_ext(), vs, expr_depths(val, sc), no_ext(), p + a, off + 1, k);
            }
        }
    }
}

pub proof fn lemma_links_stack(
    cs: Seq<Expr>,
    ops: Seq<crate::ast::CmpOp>,
    n: int,
    seg: Seq<Op>,
    base: int,
    end: int,
    sc: Scope,
    consts: Seq<Value>,
)
    requires
        links_code(cs, ops, n, seg, base, end, sc, consts),
        0 <= base,
        base + seg.len() <= u32::MAX,
        0 <= end <= u32::MAX,
    ensures
        links_depth(cs, n, sc, 0) == 1,
        links_depth(cs, n, sc, seg.len() as int) == 1,
        forall|k: int|
            0 <= k < seg.len() ==> #[trigger] step_ok(seg, base, links_depths(cs, n, sc), links_ext(end), k),
    decreases cs, n,
{
    if !(n <= 1 || n > cs.len()) {
        let pd = links_depths(cs, n, sc);
        let p = links_len(cs, n - 1, sc) as int;
        let a = expr_len(cs[n - 2], sc) as int;
        let b = expr_len(cs[n - 1], sc) as int;
        let m = seg.len() as int;
        let is = seg.subrange(0, p);
        let xs = seg.subrange(p + 1, p + 1 + a);
        let ys = seg.subrange(p + 1 + a, p + 1 + a + b);
        lemma_links_stack(cs, ops, n - 1, is, base, end, sc, consts);
        lemma_expr_stack(cs[n - 2], xs, base + p + 1, sc, consts);
        lemma_expr_stack(cs[n - 1], ys, base + p + 1 + a, sc, consts);
        assert forall|k: int| 0 <= k < m implies #[trigger] step_ok(seg, base, pd, links_ext(end), k) by {
            if k < p {
                assert forall|j: int| 0 <= j <= is.len() implies #[trigger] pd(0 + j) == 0 + links_depths(cs, n - 1, sc)(j) by {}
                lemma_shift(seg, base, pd, links_ext(end), is, links_depths(cs, n - 1, sc), links_ext(end), 0, 0, k);
            } else if k == p {
                assert((end as u32) as int == end);
            } else if k < p + 1 + a {
                assert forall|j: int| 0 <= j <= xs.len() implies #[trigger] pd(p + 1 + j) == 0 + expr_depths(cs[n - 2], sc)(j) by {}
                assert forall|j: int| 0 <= j < xs.len() implies #[trigger] xs[j] == seg[p + 1 + j] by {}
                lemma_shift(seg, base, pd, links_ext(end), xs, expr_depths(cs[n - 2], sc), no_ext(), p + 1, 0, k);
            } else if k < p + 1 + a + b {
                assert forall|j: int| 0 <= j <= ys.len() implies #[trigger] pd(p + 1 + a + j) == 1 + expr_depths(cs[n - 1], sc)(j) by {}
                assert forall|j: int| 0 <= j < ys.len() implies #[trigger] ys[j] == seg[p + 1 + a + j] by {}
                lemma_shift(seg, base, pd, links_ext(end), ys, expr_depths(cs[n - 1], sc), no_ext(), p + 1 + a, 1, k);
            }
        }
    }
}

/// Jumps out of a statement's code go to the innermost loop's `continue`
/// target or its end, with an empty stack.
pub open spec fn loop_ext(cont: int, brk: int) -> spec_fn(int, int, int) -> bool {
    |k: int, t: int, td: int| td >= 0 && (t == cont || t == brk)
}

/// Jumps out of `elif` parts go where a statement's may, or to the end of
/// the `if`.
pub open spec fn elif_ext(cont: int, brk: int, end: int) -> spec_fn(int, int, int) -> bool {
    |k: int, t: int, td: int| td >= 0 && (t == cont || t == brk || t == end)
}

/// The depths inside the fixed part of a `for` loop before its body.
pub open spec fn for_head_depth(j: int) -> int {
    if j == 0 || j == 2 || j == 4 || j == 6 || j == 8 || j == 11 || j == 13 || j == 15 {
        1
    } else if j == 5 || j == 9 || j == 10 || j == 14 {
        2
    } else {
        0
    }
}

/// The depth before relative instruction `k` of a statement's code: the
/// stack is empty between statements.
pub open spec fn stmt_depth(s: Stmt, sc: Scope, k: int) -> int
    decreases s, 1int,
{
    match s {
        Stmt::Expression(e) => if k <= expr_len(e, sc) {
            expr_depth(e, sc, k)
        } else {
            0
        },
        Stmt::Assign { target, value } => if takes_global(target, value, sc) {
            let r = expr_len(*value->right, sc) as int;
            if k <= 0 {
                0
            } else if k <= 1 + r {
                1 + expr_depth(*value->right, sc, k - 1)
            } else if k == 2 + r {
                1
            } else {
                0
            }
        } else if k <= expr_len(value, sc) {
            expr_depth(value, sc, k)
        } else {
            0
        },
        Stmt::AugAssign { op, value, .. } => {
            let v = if appends_one(op, value) {
                value->List_0@[0]
            } else {
                value
            };
            let m = expr_len(v, sc) as int;
            if k <= 0 {
                0
            } else if k <= 1 + m {
                1 + expr_depth(v, sc, k - 1)
            } else if k == 2 + m {
                1
            } else {
                0
            }
        },
        Stmt::Print(args) => if k <= exprs_len(args@, sc) {
            exprs_depth(args@, sc, k)
        } else {
            0
        },
        Stmt::If { condition, body, elif_clauses, else_body } => {
            let c = expr_len(condition, sc) as int;
            let bl = block_len(body@, sc) as int;
            let el = elifs_len(elif_clauses@, sc) as int;
            if k <= c {
                expr_depth(condition, sc, k)
            } else if k <= c + 1 + bl {
                block_depth(body@, sc, k - c - 1)
            } else if has_alternatives(s) && k <= c + bl + 2 + el {
                elifs_depth(elif_clauses@, sc, k - c - bl - 2)
            } else if has_alternatives(s) && else_body is Some {
                block_depth(else_body->Some_0@, sc, k - c - bl - 2 - el)
            } else {
                0
            }
        },
        Stmt::While { condition, body } => {
            let c = expr_len(condition, sc) as int;
            let bl = block_len(body@, sc) as int;
            if k <= c {
                expr_depth(condition, sc, k)
            } else if k <= c + 1 + bl {
                block_depth(body@, sc, k - c - 1)
            } else {
                0
            }
        },
        Stmt::For { iter, body, .. } => {
            let i = expr_len(iter, sc) as int;
            let bl = block_len(body@, sc) as int;
            if k <= i {
                expr_depth(iter, sc, k)
            } else if k < i + 16 {
                for_head_depth(k - i)
            } else if k <= i + 16 + bl {
                block_depth(body@, sc, k - i - 16)
            } else {
                0
            }
        },
        Stmt::FunctionDef { .. } => if k == 1 {
            1
        } else {
            0
        },
        Stmt::Return(Some(e)) => if k <= expr_len(e, sc) {
            expr_depth(e, sc, k)
        } else {
            0
        },
        _ => 0,
    }
}

pub open spec fn block_depth(b: Seq<Stmt>, sc: Scope, k: int) -> int
    decreases b, 0int,
{
    if b.len() == 0 {
        0
    } else {
        let init = b.subrange(0, b.len() - 1);
        let p = block_len(init, sc) as int;
        if k <= p {
            block_depth(init, sc, k)
        } else {
            stmt_depth(b[b.len() - 1], sc, k - p)
        }
    }
}

pub open spec fn elifs_depth(cs: Seq<(Expr, Vec<Stmt>)>, sc: Scope, k: int) -> int
    decreases cs, 0int,
{
    if cs.len() == 0 {
        0
    } else {
        let init = cs.subrange(0, cs.len() - 1);
        let p = elifs_len(init, sc) as int;
        let c = expr_len(cs[cs.len() - 1].0, sc) as int;
        let bl = block_len(cs[cs.len() - 1].1@, sc) as int;
        if k <= p {
            elifs_depth(init, sc, k)
        } else if k <= p + c {
            expr_depth(cs[cs.len() - 1].0, sc, k - p)
        } else if k <= p + c + 1 + bl {
            block_depth(cs[cs.len() - 1].1@, sc, k - p - c - 1)
        } else {
            0
        }
    }
}

pub open spec fn stmt_depths(s: Stmt, sc: Scope) -> spec_fn(int) -> int {
    |j: int| stmt_depth(s, sc, j)
}

pub open spec fn block_depths(b: Seq<Stmt>, sc: Scope) -> spec_fn(int) -> int {
    |j: int| block_depth(b, sc, j)
}

pub open spec fn elifs_depths(cs: Seq<(Expr, Vec<Stmt>)>, sc: Scope) -> spec_fn(int) -> int {
    |j: int| elifs_depth(cs, sc, j)
}

/// Offsets that fit the 32-bit jump targets.
pub open spec fn offsets_fit(base: int, len: int, cont: int, brk: int) -> bool {
    &&& 0 <= base
    &&& base + len <= u32::MAX
    &&& 0 <= cont <= u32::MAX
    &&& 0 <= brk <= u32::MAX
}

/// The depths of a statement's code are consistent: the stack is empty
/// before and after it, and jumps out of it (`continue` and, when its
/// `break`s jump to `brk`, `break`) leave an empty stack.
pub proof fn lemma_stmt_stack(
    s: Stmt,
    seg: Seq<Op>,
    base: int,
    sc: Scope,
    consts: Seq<Value>,
    nl: u16,
    cont: int,
    brk: int,
)
    requires
        stmt_code(s, seg, base, sc, consts, nl, cont),
        offsets_fit(base, seg.len() as int, cont, brk),
        forall|q: int| 0 <= q < seg.len() && stmt_breaks(s, q, sc) ==> #[trigger] seg[q] == Op::Jump(brk as u32),
    ensures
        stmt_depth(s, sc, 0) == 0,
        stmt_depth(s, sc, seg.len() as int) == 0,
        forall|k: int| 0 <= k < seg.len() ==> #[trigger] step_ok(seg, base, stmt_depths(s, sc), loop_ext(cont, brk), k),
    decreases s, 2int,
{
    let pd = stmt_depths(s, sc);
    let ext = loop_ext(cont, brk);
    let n = seg.len() as int;
    match s {
        Stmt::If { .. } => {
            lemma_if_stack(s, seg, base, sc, consts, nl, cont, brk);
        },
        Stmt::While { .. } => {
            lemma_while_stack(s, seg, base, sc, consts, nl, cont, brk);
        },
        Stmt::For { .. } => {
            lemma_for_stack(s, seg, base, sc, consts, nl, cont, brk);
        },
        Stmt::Expression(e) => {
            let m = expr_len(e, sc) as int;
            let es = seg.subrange(0, m);
            lemma_expr_stack(e, es, base, sc, consts);
            assert forall|k: int| 0 <= k < n implies #[trigger] step_ok(seg, base, pd, ext, k) by {
                if k < m {
                    assert forall|j: int| 0 <= j <= es.len() implies #[trigger] pd(0 + j) == 0 + expr_depths(e, sc)(j) by {}
                    lemma_shift(seg, base, pd, ext, es, expr_depths(e, sc), no_ext(), 0, 0, k);
                }
            }
        },
        Stmt::Assign { target, value } => {
            if takes_global(target, value, sc) {
                let r = expr_len(*value->right, sc) as int;
                let rs = seg.subrange(1, 1 + r);
                lemma_expr_stack(*value->right, rs, base + 1, sc, consts);
                assert forall|k: int| 0 <= k < n implies #[trigger] step_ok(seg, base, pd, ext, k) by {
                    if 1 <= k < 1 + r {
                        assert forall|j: int| 0 <= j <= rs.len() implies #[trigger] pd(1 + j) == 1 + expr_depths(*value->right, sc)(j) by {}
                        assert forall|j: int| 0 <= j < rs.len() implies #[trigger] rs[j] == seg[1 + j] by {}
                        lemma_shift(seg, base, pd, ext, rs, expr_depths(*value->right, sc), no_ext(), 1, 1, k);
                    }
                }
            } else {
                let m = expr_len(value, sc) as int;
                let es = seg.subrange(0, m);
                lemma_expr_stack(value, es, base, sc, consts);
                assert forall|k: int| 0 <= k < n implies #[trigger] step_ok(seg, base, pd, ext, k) by {
                    if k < m {
                        assert forall|j: int| 0 <= j <= es.len() implies #[trigger] pd(0 + j) == 0 + expr_depths(value, sc)(j) by {}
                        lemma_shift(seg, base, pd, ext, es, expr_depths(value, sc), no_ext(), 0, 0, k);
                    }
                }
            }
        },
        Stmt::AugAssign { op, value, .. } => {
            let v = if appends_one(op, value) {
                value->List_0@[0]
            } else {
                value
            };
            let m = expr_len(v, sc) as int;
            let vs = seg.subrange(1, 1 + m);
            lemma_expr_stack(v, vs, base + 1, sc, consts);
            assert forall|k: int| 0 <= k < n implies #[trigger] step_ok(seg, base, pd, ext, k) by {
                if 1 <= k < 1 + m {
                    assert forall|j: int| 0 <= j <= vs.len() implies #[trigger] pd(1 + j) == 1 + expr_depths(v, sc)(j) by {}
                    assert forall|j: int| 0 <= j < vs.len() implies #[trigger] vs[j] == seg[1 + j] by {}
                    lemma_shift(seg, base, pd, ext, vs, expr_depths(v, sc), no_ext(), 1, 1, k);
                }
            }
        },
        Stmt::Print(args) => {
            let m = exprs_len(args@, sc) as int;
            let as_ = seg.subrange(0, m);
            lemma_exprs_stack(args@, as_, base, sc, consts);
            assert forall|k: int| 0 <= k < n implies #[trigger] step_ok(seg, base, pd, ext, k) by {
                if k < m {
                    assert forall|j: int| 0 <= j <= as_.len() implies #[trigger] pd(0 + j) == 0 + exprs_depths(args@, sc)(j) by {}
                    lemma_shift(seg, base, pd, ext, as_, exprs_depths(args@, sc), no_ext(), 0, 0, k);
                }
            }
        },
        Stmt::Return(Some(e)) => {
            let m = expr_len(e, sc) as int;
            let es = seg.subrange(0, m);
            lemma_expr_stack(e, es, base, sc, consts);
            assert forall|k: int| 0 <= k < n implies #[trigger] step_ok(seg, base, pd, ext, k) by {
                if k < m {
                    assert forall|j: int| 0 <= j <= es.len() implies #[trigger] pd(0 + j) == 0 + expr_depths(e, sc)(j) by {}
                    lemma_shift(seg, base, pd, ext, es, expr_depths(e, sc), no_ext(), 0, 0, k);
                }
            }
        },
        Stmt::Break => {
            assert(stmt_breaks(s, 0, sc));
            assert(((brk as u32) as int) == brk);
        },
        Stmt::Continue => {
            assert(((cont as u32) as int) == cont);
        },
        _ => {},
    }
}

pub proof fn lemma_block_stack(
    b: Seq<Stmt>,
    seg: Seq<Op>,
    base: int,
    sc: Scope,
    consts: Seq<Value>,
    nl: u16,
    cont: int,
    brk: int,
)
    requires
        block_code(b, seg, base, sc, consts, nl, cont),
        offsets_fit(base, seg.len() as int, cont, brk),
        forall|q: int| 0 <= q < seg.len() && block_breaks(b, q, sc) ==> #[trigger] seg[q] == Op::Jump(brk as u32),
    ensures
        block_depth(b, sc, 0) == 0,
        block_depth(b, sc, seg.len() as int) == 0,
        forall|k: int| 0 <= k < seg.len() ==> #[trigger] step_ok(seg, base, block_depths(b, sc), loop_ext(cont, brk), k),
    decreases b, 1int,
{
    if b.len() > 0 {
        let pd = block_depths(b, sc);
        let ext = loop_ext(cont, brk);
        let init = b.subrange(0, b.len() - 1);
        let last = b[b.len() - 1];
        let p = block_len(init, sc) as int;
        let n = seg.len() as int;
        let is = seg.subrange(0, p);
        let ls = seg.subrange(p, n);
        assert forall|q: int| 0 <= q < is.len() && block_breaks(init, q, sc) implies #[trigger] is[q] == Op::Jump(brk as u32) by {
            assert(block_breaks(b, q, sc));
            assert(is[q] == seg[q]);
        }
        assert forall|q: int| 0 <= q < ls.len() && stmt_breaks(last, q, sc) implies #[trigger] ls[q] == Op::Jump(brk as u32) by {
            assert(block_breaks(b, q + p, sc));
            assert(ls[q] == seg[q + p]);
        }
        lemma_block_stack(init, is, base, sc, consts, nl, cont, brk);
        lemma_stmt_stack(last, ls, base + p, sc, consts, crate::codegen::add16(nl, crate::codegen::block_hidden(init) as int), cont, brk);
        assert forall|k: int| 0 <= k < n implies #[trigger] step_ok(seg, base, pd, ext, k) by {
            if k < p {
                assert forall|j: int| 0 <= j <= is.len() implies #[trigger] pd(0 + j) == 0 + block_depths(init, sc)(j) by {}
                lemma_shift(seg, base, pd, ext, is, block_depths(init, sc), ext, 0, 0, k);
            } else {
                assert forall|j: int| 0 <= j <= ls.len() implies #[trigger] pd(p + j) == 0 + stmt_depths(last, sc)(j) by {}
                assert forall|j: int| 0 <= j < ls.len() implies #[trigger] ls[j] == seg[p + j] by {}
                lemma_shift(seg, base, pd, ext, ls, stmt_depths(last, sc), ext, p, 0, k);
            }
        }
    }
}

pub proof fn lemma_elifs_stack(
    cs: Seq<(Expr, Vec<Stmt>)>,
    seg: Seq<Op>,
    base: int,
    end: int,
    sc: Scope,
    consts: Seq<Value>,
    nl: u16,
    cont: int,
    brk: int,
)
    requires
        elifs_code(cs, seg, base, end, sc, consts, nl, cont),
        offsets_fit(base, seg.len() as int, cont, brk),
        0 <= end <= u32::MAX,
        forall|q: int| 0 <= q < seg.len() && elifs_breaks(cs, q, sc) ==> #[trigger] seg[q] == Op::Jump(brk as u32),
    ensures
        elifs_depth(cs, sc, 0) == 0,
        elifs_depth(cs, sc, seg.len() as int) == 0,
        forall|k: int|
            0 <= k < seg.len() ==> #[trigger] step_ok(seg, base, elifs_depths(cs, sc), elif_ext(cont, brk, end), k),
    decreases cs, 1int,
{
    if cs.len() > 0 {
        let pd = elifs_depths(cs, sc);
        let ext = elif_ext(cont, brk, end);
        let init = cs.subrange(0, cs.len() - 1);
        let cond = cs[cs.len() - 1].0;
        let blk = cs[cs.len() - 1].1@;
        let p = elifs_len(init, sc) as int;
        let c = expr_len(cond, sc) as int;
        let bl = block_len(blk, sc) as int;
        let n = seg.len() as int;
        let is = seg.subrange(0, p);
        let xs = seg.subrange(p, p + c);
        let bs = seg.subrange(p + c + 1, p + c + 1 + bl);
        assert forall|q: int| 0 <= q < is.len() && elifs_breaks(init, q, sc) implies #[trigger] is[q] == Op::Jump(brk as u32) by {
            assert(elifs_breaks(cs, q, sc));
            assert(is[q] == seg[q]);
        }
        assert forall|q: int| 0 <= q < bs.len() && block_breaks(blk, q, sc) implies #[trigger] bs[q] == Op::Jump(brk as u32) by {
            assert(elifs_breaks(cs, q + p + c + 1, sc));
            assert(bs[q] == seg[q + p + c + 1]);
        }
        lemma_elifs_stack(init, is, base, end, sc, consts, nl, cont, brk);
        lemma_expr_stack(cond, xs, base + p, sc, consts);
        lemma_block_stack(blk, bs, base + p + c + 1, sc, consts, crate::codegen::add16(nl, crate::codegen::elifs_hidden(init) as int), cont, brk);
        assert forall|k: int| 0 <= k < n implies #[trigger] step_ok(seg, base, pd, ext, k) by {
            if k < p {
                assert forall|j: int| 0 <= j <= is.len() implies #[trigger] pd(0 + j) == 0 + elifs_depths(init, sc)(j) by {}
                lemma_shift(seg, base, pd, ext, is, elifs_depths(init, sc), ext, 0, 0, k);
            } else if k < p + c {
                assert forall|j: int| 0 <= j <= xs.len() implies #[trigger] pd(p + j) == 0 + expr_depths(cond, sc)(j) by {}
                assert forall|j: int| 0 <= j < xs.len() implies #[trigger] xs[j] == seg[p + j] by {}
                lemma_shift(seg, base, pd, ext, xs, expr_depths(cond, sc), no_ext(), p, 0, k);
            } else if k == p + c {
                assert(((base + n) as u32) as int == base + n);
            } else if k < p + c + 1 + bl {
                assert forall|j: int| 0 <= j <= bs.len() implies #[trigger] pd(p + c + 1 + j) == 0 + block_depths(blk, sc)(j) by {}
                assert forall|j: int| 0 <= j < bs.len() implies #[trigger] bs[j] == seg[p + c + 1 + j] by {}
                lemma_shift(seg, base, pd, ext, bs, block_depths(blk, sc), loop_ext(cont, brk), p + c + 1, 0, k);
            } else {
                assert(((end as u32) as int) == end);
            }
        }
    }
}

#[verifier::rlimit(60)]
pub proof fn lemma_if_stack(
    s: Stmt,
    seg: Seq<Op>,
    base: int,
    sc: Scope,
    consts: Seq<Value>,
    nl: u16,
    cont: int,
    brk: int,
)
    requires
        s is If,
        stmt_code(s, seg, base, sc, consts, nl, cont),
        offsets_fit(base, seg.len() as int, cont, brk),
        forall|q: int| 0 <= q < seg.len() && stmt_breaks(s, q, sc) ==> #[trigger] seg[q] == Op::Jump(brk as u32),
    ensures
        stmt_depth(s, sc, 0) == 0,
        stmt_depth(s, sc, seg.len() as int) == 0,
        forall|k: int| 0 <= k < seg.len() ==> #[trigger] step_ok(seg, base, stmt_depths(s, sc), loop_ext(cont, brk), k),
    decreases s, 1int,
{
    match s {
        Stmt::If { condition, body, elif_clauses, else_body } => {
            let pd = stmt_depths(s, sc);
            let ext = loop_ext(cont, brk);
            let n = seg.len() as int;
            let c = expr_len(condition, sc) as int;
            let bl = block_len(body@, sc) as int;
            let el = elifs_len(elif_clauses@, sc) as int;
            let nl1 = crate::codegen::add16(nl, crate::codegen::block_hidden(body@) as int);
            let nl2 = crate::codegen::add16(nl1, crate::codegen::elifs_hidden(elif_clauses@) as int);
            let xs = seg.subrange(0, c);
            let bs = seg.subrange(c + 1, c + 1 + bl);
            lemma_expr_stack(condition, xs, base, sc, consts);
            assert forall|q: int| 0 <= q < bs.len() && block_breaks(body@, q, sc) implies #[trigger] bs[q] == Op::Jump(brk as u32) by {
                assert(stmt_breaks(s, q + c + 1, sc));
                assert(bs[q] == seg[q + c + 1]);
            }
            lemma_block_stack(body@, bs, base + c + 1, sc, consts, nl, cont, brk);
            if has_alternatives(s) {
                let es = seg.subrange(c + bl + 2, c + bl + 2 + el);
                assert forall|q: int| 0 <= q < es.len() && crate::codegen::elifs_breaks(elif_clauses@, q, sc) implies #[trigger] es[q] == Op::Jump(brk as u32) by {
                    assert(stmt_breaks(s, q + c + bl + 2, sc));
                    assert(es[q] == seg[q + c + bl + 2]);
                }
                lemma_elifs_stack(elif_clauses@, es, base + c + bl + 2, base + n, sc, consts, nl1, cont, brk);
                match else_body {
                    Some(eb) => {
                        let ls = seg.subrange(c + bl + 2 + el, n);
                        assert forall|q: int| 0 <= q < ls.len() && block_breaks(eb@, q, sc) implies #[trigger] ls[q] == Op::Jump(brk as u32) by {
                            assert(stmt_breaks(s, q + c + bl + 2 + el, sc));
                            assert(ls[q] == seg[q + c + bl + 2 + el]);
                        }
                        lemma_block_stack(eb@, ls, base + c + bl + 2 + el, sc, consts, nl2, cont, brk);
                    },
                    None => {},
                }
            }
            assert forall|k: int| 0 <= k < n implies #[trigger] step_ok(seg, base, pd, ext, k) by {
                if k < c {
                    assert forall|j: int| 0 <= j <= xs.len() implies #[trigger] pd(0 + j) == 0 + expr_depths(condition, sc)(j) by {}
                    lemma_shift(seg, base, pd, ext, xs, expr_depths(condition, sc), no_ext(), 0, 0, k);
                } else if k == c {
                    assert(((base + n) as u32) as int == base + n);
                    if has_alternatives(s) {
                        assert(((base + c + bl + 2) as u32) as int == base + c + bl + 2);
                    }
                } else if k < c + 1 + bl {
                    assert forall|j: int| 0 <= j <= bs.len() implies #[trigger] pd(c + 1 + j) == 0 + block_depths(body@, sc)(j) by {}
                    assert forall|j: int| 0 <= j < bs.len() implies #[trigger] bs[j] == seg[c + 1 + j] by {}
                    lemma_shift(seg, base, pd, ext, bs, block_depths(body@, sc), ext, c + 1, 0, k);
                } else if k == c + 1 + bl {
                    assert(((base + n) as u32) as int == base + n);
                } else if k < c + bl + 2 + el {
                    let es = seg.subrange(c + bl + 2, c + bl + 2 + el);
                    assert forall|j: int| 0 <= j <= es.len() implies #[trigger] pd(c + bl + 2 + j) == 0 + elifs_depths(elif_clauses@, sc)(j) by {}
                    assert forall|j: int| 0 <= j < es.len() implies #[trigger] es[j] == seg[c + bl + 2 + j] by {}
                    lemma_shift(seg, base, pd, ext, es, elifs_depths(elif_clauses@, sc), elif_ext(cont, brk, base + n), c + bl + 2, 0, k);
                } else {
                    let eb = else_body->Some_0;
                    let ls = seg.subrange(c + bl + 2 + el, n);
                    assert forall|j: int| 0 <= j <= ls.len() implies #[trigger] pd(c + bl + 2 + el + j) == 0 + block_depths(eb@, sc)(j) by {}
                    assert forall|j: int| 0 <= j < ls.len() implies #[trigger] ls[j] == seg[c + bl + 2 + el + j] by {}
                    lemma_shift(seg, base, pd, ext, ls, block_depths(eb@, sc), ext, c + bl + 2 + el, 0, k);
                }
            }
        },
        _ => {},
    }
}

#[verifier::rlimit(60)]
pub proof fn lemma_while_stack(
    s: Stmt,
    seg: Seq<Op>,
    base: int,
    sc: Scope,
    consts: Seq<Value>,
    nl: u16,
    cont: int,
    brk: int,
)
    requires
        s is While,
        stmt_code(s, seg, base, sc, consts, nl, cont),
        offsets_fit(base, seg.len() as int, cont, brk),
    ensures
        stmt_depth(s, sc, 0) == 0,
        stmt_depth(s, sc, seg.len() as int) == 0,
        forall|k: int| 0 <= k < seg.len() ==> #[trigger] step_ok(seg, base, stmt_depths(s, sc), loop_ext(cont, brk), k),
    decreases s, 1int,
{
    match s {
        Stmt::While { condition, body } => {
            let pd = stmt_depths(s, sc);
            let ext = loop_ext(cont, brk);
            let n = seg.len() as int;
            let c = expr_len(condition, sc) as int;
            let bl = block_len(body@, sc) as int;
            let xs = seg.subrange(0, c);
            let bs = seg.subrange(c + 1, c + 1 + bl);
            lemma_expr_stack(condition, xs, base, sc, consts);
            lemma_block_stack(body@, bs, base + c + 1, sc, consts, nl, base, base + n);
            assert forall|k: int| 0 <= k < n implies #[trigger] step_ok(seg, base, pd, ext, k) by {
                if k < c {
                    assert forall|j: int| 0 <= j <= xs.len() implies #[trigger] pd(0 + j) == 0 + expr_depths(condition, sc)(j) by {}
                    lemma_shift(seg, base, pd, ext, xs, expr_depths(condition, sc), no_ext(), 0, 0, k);
                } else if k == c {
                    assert(((base + n) as u32) as int == base + n);
                } else if k < c + 1 + bl {
                    assert forall|j: int| 0 <= j <= bs.len() implies #[trigger] pd(c + 1 + j) == 0 + block_depths(body@, sc)(j) by {}
                    assert forall|j: int| 0 <= j < bs.len() implies #[trigger] bs[j] == seg[c + 1 + j] by {}
                    lemma_shift(seg, base, pd, ext, bs, block_depths(body@, sc), loop_ext(base, base + n), c + 1, 0, k);
                } else {
                    assert(((base) as u32) as int == base);
                }
            }
        },
        _ => {},
    }
}

#[verifier::rlimit(80)]
pub proof fn lemma_for_stack(
    s: Stmt,
    seg: Seq<Op>,
    base: int,
    sc: Scope,
    consts: Seq<Value>,
    nl: u16,
    cont: int,
    brk: int,
)
    requires
        s is For,
        stmt_code(s, seg, base, sc, consts, nl, cont),
        offsets_fit(base, seg.len() as int, cont, brk),
    ensures
        stmt_depth(s, sc, 0) == 0,
        stmt_depth(s, sc, seg.len() as int) == 0,
        forall|k: int| 0 <= k < seg.len() ==> #[trigger] step_ok(seg, base, stmt_depths(s, sc), loop_ext(cont, brk), k),
    decreases s, 1int,
{
    match s {
        Stmt::For { iter, body, .. } => {
            let pd = stmt_depths(s, sc);
            let ext = loop_ext(cont, brk);
            let n = seg.len() as int;
            let i = expr_len(iter, sc) as int;
            let bl = block_len(body@, sc) as int;
            let xs = seg.subrange(0, i);
            let bs = seg.subrange(i + 16, i + 16 + bl);
            lemma_expr_stack(iter, xs, base, sc, consts);
            lemma_block_stack(body@, bs, base + i + 16, sc, consts, crate::codegen::add16(nl, 2), base + i + 3, base + n);
            assert forall|k: int| 0 <= k < n implies #[trigger] step_ok(seg, base, pd, ext, k) by {
                if k < i {
                    assert forall|j: int| 0 <= j <= xs.len() implies #[trigger] pd(0 + j) == 0 + expr_depths(iter, sc)(j) by {}
                    lemma_shift(seg, base, pd, ext, xs, expr_depths(iter, sc), no_ext(), 0, 0, k);
                } else if k < i + 16 {
                    assert(((base + n) as u32) as int == base + n);
                } else if k < i + 16 + bl {
                    assert forall|j: int| 0 <= j <= bs.len() implies #[trigger] pd(i + 16 + j) == 0 + block_depths(body@, sc)(j) by {}
                    assert forall|j: int| 0 <= j < bs.len() implies #[trigger] bs[j] == seg[i + 16 + j] by {}
                    lemma_shift(seg, base, pd, ext, bs, block_depths(body@, sc), loop_ext(base + i + 3, base + n), i + 16, 0, k);
                } else {
                    assert(((base + i + 3) as u32) as int == base + i + 3);
                }
            }
        },
        _ => {},
    }
}

/// Retargeting a jump keeps what it takes, leaves and whether it falls
/// through.
pub proof fn lemma_with_target(x: Op, t: u32)
    ensures
        pops(with_target(x, t)) == pops(x),
        pushes(with_target(x, t)) == pushes(x),
        falls_through(with_target(x, t)) == falls_through(x),
        target_depth(with_target(x, t), 0) == target_depth(x, 0),
        jump_target(with_target(x, t)) == (if jump_target(x) is Some {
            Some(t)
        } else {
            None::<u32>
        }),
        jump_target(x) is None ==> with_target(x, t) == x,
{
}

/// Replacing the instruction at `i` by `op` and removing the `count` after
/// it keeps the code stack safe, with the annotation of the removed
/// instructions dropped, when `op` does what they did together and no jump
/// lands among them.
#[verifier::rlimit(60)]
pub proof fn lemma_remove_safe(ins: Seq<Op>, ann: Seq<int>, i: int, count: int, op: Op)
    requires
        safe_with(ins, ann),
        0 <= i,
        i + count < ins.len(),
        1 <= count <= 3,
        ins.len() < u32::MAX,
        forall|q: int| i + 1 <= q <= i + count ==> !is_target(ins, q),
        ann[i] >= pops(op),
        falls_through(op),
        ann[i + count + 1] <= next_depth(op, ann[i]),
        jump_target(op) matches Some(t) ==> (t <= ins.len() && !(i + 1 <= t <= i + count) && ann[t as int]
            <= target_depth(op, ann[i])),
    ensures
        safe_with(
            remove_ops(ins.update(i, op), i + 1, count),
            ann.subrange(0, i + 1) + ann.subrange(i + count + 1, ins.len() as int + 1),
        ),
{
    let upd = ins.update(i, op);
    let kept = upd.subrange(0, i + 1) + upd.subrange(i + 1 + count, ins.len() as int);
    let new = remove_ops(upd, i + 1, count);
    let ann2 = ann.subrange(0, i + 1) + ann.subrange(i + count + 1, ins.len() as int + 1);
    let len = ins.len() as int;
    assert(new.len() == len - count);
    assert(ann2.len() == new.len() + 1);
    // where an old offset lands
    assert forall|t: int| 0 <= t <= len && !(i + 1 <= t <= i + count) implies {
        let r = #[trigger] remap_target(t, i + 1, count);
        &&& 0 <= r <= len - count
        &&& ann2[r] == ann[t]
    } by {}
    assert forall|k: int| 0 <= k < new.len() implies #[trigger] depth_ok_at(new, ann2, k) by {
        let x = kept[k];
        let old_k = if k <= i {
            k
        } else {
            k + count
        };
        let r = remap_target(jump_target(x)->Some_0 as int, i + 1, count);
        lemma_with_target(x, r as u32);
        assert(new[k] == with_target(x, r as u32));
        if k < i {
            assert(x == ins[k]);
            assert(depth_ok_at(ins, ann, k));
            if jump_target(x) is Some {
                let t = jump_target(x)->Some_0 as int;
                assert(is_target(ins, t));
            }
        } else if k == i {
            assert(x == op);
        } else {
            assert(x == ins[k + count]);
            assert(depth_ok_at(ins, ann, k + count));
            if jump_target(x) is Some {
                let t = jump_target(x)->Some_0 as int;
                assert(is_target(ins, t));
            }
        }
        assert(ann2[k] == ann[old_k]);
    }
}

/// A four-instruction fusion keeps the code stack safe.
#[verifier::rlimit(40)]
pub proof fn lemma_fuse4_safe(ins: Seq<Op>, consts: Seq<Value>, ann: Seq<int>, i: int, op: Op)
    requires
        safe_with(ins, ann),
        0 <= i,
        i + 3 < ins.len(),
        ins.len() < u32::MAX,
        !is_target(ins, i + 1),
        !is_target(ins, i + 2),
        !is_target(ins, i + 3),
        fuse4(ins, consts, i) == Some(op),
    ensures
        safe_with(
            remove_ops(ins.update(i, op), i + 1, 3),
            ann.subrange(0, i + 1) + ann.subrange(i + 4, ins.len() as int + 1),
        ),
{
    assert(depth_ok_at(ins, ann, i));
    assert(depth_ok_at(ins, ann, i + 1));
    assert(depth_ok_at(ins, ann, i + 2));
    assert(depth_ok_at(ins, ann, i + 3));
    if jump_target(op) is Some {
        let t = jump_target(ins[i + 3])->Some_0 as int;
        assert(is_target(ins, t));
    }
    lemma_remove_safe(ins, ann, i, 3, op);
}

/// A pair fusion keeps the code stack safe.
pub proof fn lemma_pair_safe(ins: Seq<Op>, ann: Seq<int>, i: int, op: Op)
    requires
        safe_with(ins, ann),
        0 <= i,
        i + 1 < ins.len(),
        ins.len() < u32::MAX,
        !is_target(ins, i + 1),
        ins[i] is LoadLocal,
        ins[i + 1] is LoadLocal,
        op is LoadLocalPair,
    ensures
        safe_with(
            remove_ops(ins.update(i, op), i + 1, 1),
            ann.subrange(0, i + 1) + ann.subrange(i + 2, ins.len() as int + 1),
        ),
{
    assert(depth_ok_at(ins, ann, i));
    assert(depth_ok_at(ins, ann, i + 1));
    lemma_remove_safe(ins, ann, i, 1, op);
}

/// The four-instruction fusions keep code stack safe.
pub proof fn lemma_fuse_quads_safe(ins: Seq<Op>, consts: Seq<Value>, i: int, ann: Seq<int>)
    requires
        safe_with(ins, ann),
        ins.len() < u32::MAX,
    ensures
        stack_safe(fuse_quads(ins, consts, i)),
    decreases ins.len() - i,
{
    if i < 0 || !(i < ins.len() && ins.len() - i > 3) {
        assert(safe_with(fuse_quads(ins, consts, i), ann));
    } else if is_target(ins, i + 1) || is_target(ins, i + 2) || is_target(ins, i + 3) {
        lemma_fuse_quads_safe(ins, consts, i + 1, ann);
    } else {
        match fuse4(ins, consts, i) {
            Some(op) => {
                lemma_fuse4_safe(ins, consts, ann, i, op);
                lemma_fuse_quads_safe(
                    remove_ops(ins.update(i, op), i + 1, 3),
                    consts,
                    i,
                    ann.subrange(0, i + 1) + ann.subrange(i + 4, ins.len() as int + 1),
                );
            },
            None => {
                lemma_fuse_quads_safe(ins, consts, i + 1, ann);
            },
        }
    }
}

/// The pair fusions keep code stack safe.
pub proof fn lemma_fuse_pairs_safe(ins: Seq<Op>, i: int, ann: Seq<int>)
    requires
        safe_with(ins, ann),
        ins.len() < u32::MAX,
    ensures
        stack_safe(fuse_pairs(ins, i)),
    decreases ins.len() - i,
{
    if i < 0 || !(i < ins.len() && ins.len() - i > 1) {
        assert(safe_with(fuse_pairs(ins, i), ann));
    } else if is_target(ins, i + 1) {
        lemma_fuse_pairs_safe(ins, i + 1, ann);
    } else if ins[i] is LoadLocal && ins[i + 1] is LoadLocal {
        let op = Op::LoadLocalPair(crate::bytecode::packed(ins[i]->LoadLocal_0, ins[i + 1]->LoadLocal_0) as u32);
        lemma_pair_safe(ins, ann, i, op);
        lemma_fuse_pairs_safe(
            remove_ops(ins.update(i, op), i + 1, 1),
            i,
            ann.subrange(0, i + 1) + ann.subrange(i + 2, ins.len() as int + 1),
        );
    } else {
        lemma_fuse_pairs_safe(ins, i + 1, ann);
    }
}

/// The peephole pass keeps code stack safe.
pub proof fn lemma_optimized_safe(ins: Seq<Op>, consts: Seq<Value>, ann: Seq<int>)
    requires
        safe_with(ins, ann),
        ins.len() < u32::MAX,
    ensures
        stack_safe(optimized(ins, consts)),
{
    lemma_fuse_quads_safe(ins, consts, 0, ann);
    let q = fuse_quads(ins, consts, 0);
    let a = choose|a: Seq<int>| safe_with(q, a);
    lemma_fuse_quads_len(ins, consts, 0);
    lemma_fuse_pairs_safe(q, 0, a);
}

/// Fusing never makes code longer.
pub proof fn lemma_fuse_quads_len(ins: Seq<Op>, consts: Seq<Value>, i: int)
    ensures
        fuse_quads(ins, consts, i).len() <= ins.len(),
    decreases ins.len() - i,
{
    if i < 0 || !(i < ins.len() && ins.len() - i > 3) {
    } else if is_target(ins, i + 1) || is_target(ins, i + 2) || is_target(ins, i + 3) {
        lemma_fuse_quads_len(ins, consts, i + 1);
    } else {
        match fuse4(ins, consts, i) {
            Some(op) => {
                lemma_fuse_quads_len(remove_ops(ins.update(i, op), i + 1, 3), consts, i);
            },
            None => {
                lemma_fuse_quads_len(ins, consts, i + 1);
            },
        }
    }
}

/// Outside any loop there is no `break`.
pub proof fn lemma_no_breaks_stmt(s: Stmt, q: int, sc: Scope)
    requires
        stmt_ok(s, false),
    ensures
        !stmt_breaks(s, q, sc),
    decreases s, 1int,
{
    match s {
        Stmt::If { condition, body, elif_clauses, else_body } => {
            let c = expr_len(condition, sc) as int;
            let bl = block_len(body@, sc) as int;
            let el = elifs_len(elif_clauses@, sc) as int;
            lemma_no_breaks_block(body@, q - c - 1, sc);
            lemma_no_breaks_elifs(elif_clauses@, q - c - bl - 2, sc);
            match else_body {
                Some(b) => {
                    lemma_no_breaks_block(b@, q - c - bl - 2 - el, sc);
                },
                None => {},
            }
        },
        _ => {},
    }
}

pub proof fn lemma_no_breaks_block(b: Seq<Stmt>, q: int, sc: Scope)
    requires
        block_ok(b, false),
    ensures
        !block_breaks(b, q, sc),
    decreases b, 0int,
{
    if b.len() > 0 {
        let init = b.subrange(0, b.len() - 1);
        lemma_no_breaks_block(init, q, sc);
        lemma_no_breaks_stmt(b[b.len() - 1], q - block_len(init, sc), sc);
    }
}

pub proof fn lemma_no_breaks_elifs(cs: Seq<(Expr, Vec<Stmt>)>, q: int, sc: Scope)
    requires
        elifs_ok(cs, false),
    ensures
        !elifs_breaks(cs, q, sc),
    decreases cs, 0int,
{
    if cs.len() > 0 {
        let init = cs.subrange(0, cs.len() - 1);
        let p = elifs_len(init, sc) as int;
        let c = expr_len(cs[cs.len() - 1].0, sc) as int;
        lemma_no_breaks_elifs(init, q, sc);
        lemma_no_breaks_block(cs[cs.len() - 1].1@, q - p - c - 1, sc);
    }
}

/// The code of a top-level block (of a module or a function body) is stack
/// safe with the block's depths.
pub proof fn lemma_top_block_safe(
    b: Seq<Stmt>,
    seg: Seq<Op>,
    sc: Scope,
    consts: Seq<Value>,
    nl: u16,
)
    requires
        block_ok(b, false),
        block_code(b, seg, 0, sc, consts, nl, 0),
        seg.len() < u32::MAX,
    ensures
        safe_with(seg, Seq::new((seg.len() + 1) as nat, |k: int| block_depth(b, sc, k))),
        block_depth(b, sc, seg.len() as int) == 0,
{
    assert forall|q: int| 0 <= q < seg.len() && block_breaks(b, q, sc) implies #[trigger] seg[q] == Op::Jump(0) by {
        lemma_no_breaks_block(b, q, sc);
    }
    lemma_block_stack(b, seg, 0, sc, consts, nl, 0, 0);
    let ann = Seq::new((seg.len() + 1) as nat, |k: int| block_depth(b, sc, k));
    assert forall|k: int| 0 <= k < seg.len() implies #[trigger] depth_ok_at(seg, ann, k) by {
        assert(step_ok(seg, 0, block_depths(b, sc), loop_ext(0, 0), k));
    }
}

/// A function body's code with the final `ReturnNone` is stack safe.
pub proof fn lemma_function_body_safe(
    b: Seq<Stmt>,
    seg: Seq<Op>,
    sc: Scope,
    consts: Seq<Value>,
    nl: u16,
)
    requires
        block_ok(b, false),
        block_code(b, seg, 0, sc, consts, nl, 0),
        seg.len() + 1 < u32::MAX,
    ensures
        safe_with(
            seg.push(Op::ReturnNone),
            Seq::new((seg.len() + 2) as nat, |k: int| if k <= seg.len() { block_depth(b, sc, k) } else { 0 }),
        ),
{
    lemma_top_block_safe(b, seg, sc, consts, nl);
    let ann1 = Seq::new((seg.len() + 1) as nat, |k: int| block_depth(b, sc, k));
    let code = seg.push(Op::ReturnNone);
    let ann = Seq::new((seg.len() + 2) as nat, |k: int| if k <= seg.len() { block_depth(b, sc, k) } else { 0 });
    assert forall|k: int| 0 <= k < code.len() implies #[trigger] depth_ok_at(code, ann, k) by {
        if k < seg.len() {
            assert(depth_ok_at(seg, ann1, k));
            assert(code[k] == seg[k]);
        }
    }
}

} // verus!
