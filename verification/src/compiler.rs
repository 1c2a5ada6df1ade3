//! The bytecode compiler: syntax tree to code objects, followed by a
//! peephole pass that fuses hot instruction sequences.
use vstd::prelude::*;

use std::collections::HashMap;
use std::rc::Rc;

use crate::ast::{BinOp, CmpOp, Expr, Stmt, UnaryOp};
use crate::bytecode::{packed, CodeObject, FunctionObj, Op, Value};
use crate::codegen::{
    first_loads, lemma_first_loads_push, lemma_first_loads_update, loads_in_order,
    expr_code, expr_len, exprs_code, exprs_len, extends, lemma_expr_code_mono, lemma_exprs_code_mono,
    lemma_link_jump_at, lemma_link_jump_index, lemma_links_code_mono, lemma_links_retarget,
    lemma_pairs_code_mono, links_code, links_len, pairs_code, pairs_len, prefix_kept,
    is_link_jump, global_callee, Scope, add16, appends_one, block_breaks, block_code, block_hidden,
    block_len, breaks_to, elifs_breaks, elifs_code, elifs_hidden, elifs_len, is_elif_end,
    lemma_block_breaks_jump, lemma_block_breaks_range, lemma_block_code_mono, lemma_block_retarget,
    lemma_elif_end_at, lemma_elif_end_index, lemma_elifs_code_mono, lemma_elifs_end_retarget,
    lemma_elifs_len_prefix, stmt_breaks, stmt_code, stmt_hidden, stmt_len, takes_global,
    has_alternatives, const_for, store_op, function_code, module_code, add_slot, assign_slots,
    assign_slots_stmt, assign_slots_elifs, param_slots16, function_slots, lemma_assign_slots_keeps,
};
use crate::float::{float_literal, FloatOps};
use crate::laws::law_module_stack_safe;
use crate::stack::stack_safe;
use crate::symbol::{Interner, Symbol};
use crate::text::owned;

verus! {

broadcast use vstd::std_specs::hash::group_hash_axioms, vstd::std_specs::vec::group_vec_axioms;

/// The target of a jumping instruction.
pub open spec fn jump_target(op: Op) -> Option<u32> {
    match op {
        Op::Jump(t) => Some(t),
        Op::PopJumpIfFalse(t) => Some(t),
        Op::JumpIfTrueOrPop(t) => Some(t),
        Op::JumpIfFalseOrPop(t) => Some(t),
        Op::LocalLtLocalJump(_, t) => Some(t),
        Op::LocalLtEConstJump(_, t) => Some(t),
        Op::LocalLtConstJump(_, t) => Some(t),
        Op::LocalGtConstJump(_, t) => Some(t),
        _ => None,
    }
}

/// Every jump lands inside the code or just past its end.
pub open spec fn jumps_in_range(ins: Seq<Op>) -> bool {
    forall|i: int|
        0 <= i < ins.len() ==> (#[trigger] jump_target(ins[i]) matches Some(t) ==> t <= ins.len())
}

/// Every jumping instruction is a plain jump: the code generator emits no
/// fused ones.
pub open spec fn plain_jumps_only(ins: Seq<Op>) -> bool {
    forall|i: int| 0 <= i < ins.len() ==> (#[trigger] jump_target(ins[i]) is Some ==> is_plain_jump(ins[i]))
}

/// The plain jumps that the code generator emits and later patches.
pub open spec fn is_plain_jump(op: Op) -> bool {
    op is Jump || op is PopJumpIfFalse || op is JumpIfTrueOrPop || op is JumpIfFalseOrPop
}

/// The same instruction with its jump target replaced.
pub open spec fn with_target(op: Op, t: u32) -> Op {
    match op {
        Op::Jump(_) => Op::Jump(t),
        Op::PopJumpIfFalse(_) => Op::PopJumpIfFalse(t),
        Op::JumpIfTrueOrPop(_) => Op::JumpIfTrueOrPop(t),
        Op::JumpIfFalseOrPop(_) => Op::JumpIfFalseOrPop(t),
        Op::LocalLtLocalJump(p, _) => Op::LocalLtLocalJump(p, t),
        Op::LocalLtEConstJump(p, _) => Op::LocalLtEConstJump(p, t),
        Op::LocalLtConstJump(p, _) => Op::LocalLtConstJump(p, t),
        Op::LocalGtConstJump(p, _) => Op::LocalGtConstJump(p, t),
        _ => op,
    }
}

/// Where a jump to `t` lands once `count` instructions at `start` are gone:
/// later targets move down, targets inside the removed run move to `start`.
pub open spec fn remap_target(t: int, start: int, count: int) -> int {
    if t >= start + count {
        t - count
    } else if t > start {
        start
    } else {
        t
    }
}

/// Whether a constant is an integer.
pub open spec fn is_int_const(consts: Seq<Value>, c: u16) -> bool {
    (c as int) < consts.len() && consts[c as int] is Integer
}

/// Constants that `add_const` shares: integers, booleans and `None`.
pub open spec fn shareable(v: Value) -> bool {
    v is Integer || v is Boolean || v is NoneVal
}

/// The same shareable constant: equal integers, equal booleans, or `None`.
pub open spec fn same_shareable(a: Value, b: Value) -> bool {
    match (a, b) {
        (Value::Integer(x), Value::Integer(y)) => x == y,
        (Value::Boolean(x), Value::Boolean(y)) => x == y,
        (Value::NoneVal, Value::NoneVal) => true,
        _ => false,
    }
}

/// No shareable constant occurs twice.
pub open spec fn consts_distinct(cs: Seq<Value>) -> bool {
    forall|i: int, j: int|
        0 <= i < j < cs.len() ==> !same_shareable(#[trigger] cs[i], #[trigger] cs[j])
}


/// An expression the compiler accepts: every comparison chain has at least
/// one operator and no fewer comparands than operators.
pub open spec fn expr_ok(e: Expr) -> bool
    decreases e, 1int,
{
    match e {
        Expr::BinaryOp { left, right, .. } => expr_ok(*left) && expr_ok(*right),
        Expr::UnaryOp { operand, .. } => expr_ok(*operand),
        Expr::Call { function, args } => expr_ok(*function) && exprs_ok(args@),
        Expr::Index { object, index } => expr_ok(*object) && expr_ok(*index),
        Expr::Attribute { object, .. } => expr_ok(*object),
        Expr::List(items) => exprs_ok(items@),
        Expr::Dict(pairs) => expr_pairs_ok(pairs@),
        Expr::Compare { left, ops, comparators } => {
            &&& expr_ok(*left)
            &&& 1 <= ops@.len() <= comparators@.len()
            &&& exprs_ok(comparators@)
        },
        _ => true,
    }
}

pub open spec fn exprs_ok(es: Seq<Expr>) -> bool
    decreases es, 0int,
{
    es.len() == 0 || (exprs_ok(es.subrange(0, es.len() - 1)) && expr_ok(es[es.len() - 1]))
}

pub open spec fn expr_pairs_ok(ps: Seq<(Expr, Expr)>) -> bool
    decreases ps, 0int,
{
    ps.len() == 0 || (expr_pairs_ok(ps.subrange(0, ps.len() - 1)) && expr_ok(ps[ps.len() - 1].0)
        && expr_ok(ps[ps.len() - 1].1))
}

/// A statement the compiler accepts: its expressions are accepted, an
/// augmented assignment uses an arithmetic operator, and `break` and
/// `continue` occur only inside a loop of the same function.
pub open spec fn stmt_ok(s: Stmt, in_loop: bool) -> bool
    decreases s, 1int,
{
    match s {
        Stmt::Expression(e) => expr_ok(e),
        Stmt::Assign { value, .. } => expr_ok(value),
        Stmt::AugAssign { op, value, .. } => expr_ok(value) && op != BinOp::And && op != BinOp::Or,
        Stmt::Print(args) => exprs_ok(args@),
        Stmt::Break => in_loop,
        Stmt::Continue => in_loop,
        Stmt::If { condition, body, elif_clauses, else_body } => {
            &&& expr_ok(condition)
            &&& block_ok(body@, in_loop)
            &&& elifs_ok(elif_clauses@, in_loop)
            &&& (else_body matches Some(b) ==> block_ok(b@, in_loop))
        },
        Stmt::While { condition, body } => expr_ok(condition) && block_ok(body@, true),
        Stmt::For { iter, body, .. } => expr_ok(iter) && block_ok(body@, true),
        Stmt::FunctionDef { body, .. } => block_ok(body@, false),
        Stmt::Return(Some(e)) => expr_ok(e),
        _ => true,
    }
}

pub open spec fn block_ok(b: Seq<Stmt>, in_loop: bool) -> bool
    decreases b, 0int,
{
    b.len() == 0 || (block_ok(b.subrange(0, b.len() - 1), in_loop) && stmt_ok(
        b[b.len() - 1],
        in_loop,
    ))
}

pub open spec fn elifs_ok(cs: Seq<(Expr, Vec<Stmt>)>, in_loop: bool) -> bool
    decreases cs, 0int,
{
    cs.len() == 0 || (elifs_ok(cs.subrange(0, cs.len() - 1), in_loop) && expr_ok(
        cs[cs.len() - 1].0,
    ) && block_ok(cs[cs.len() - 1].1@, in_loop))
}

pub proof fn lemma_exprs_ok(es: Seq<Expr>, i: int)
    requires
        exprs_ok(es),
        0 <= i < es.len(),
    ensures
        expr_ok(es[i]),
    decreases es.len(),
{
    if i < es.len() - 1 {
        let init = es.subrange(0, es.len() - 1);
        lemma_exprs_ok(init, i);
        assert(init[i] == es[i]);
    }
}

pub proof fn lemma_expr_pairs_ok(ps: Seq<(Expr, Expr)>, i: int)
    requires
        expr_pairs_ok(ps),
        0 <= i < ps.len(),
    ensures
        expr_ok(ps[i].0),
        expr_ok(ps[i].1),
    decreases ps.len(),
{
    if i < ps.len() - 1 {
        let init = ps.subrange(0, ps.len() - 1);
        lemma_expr_pairs_ok(init, i);
        assert(init[i] == ps[i]);
    }
}

pub proof fn lemma_block_ok(b: Seq<Stmt>, in_loop: bool, i: int)
    requires
        block_ok(b, in_loop),
        0 <= i < b.len(),
    ensures
        stmt_ok(b[i], in_loop),
    decreases b.len(),
{
    if i < b.len() - 1 {
        let init = b.subrange(0, b.len() - 1);
        lemma_block_ok(init, in_loop, i);
        assert(init[i] == b[i]);
    }
}

pub proof fn lemma_elifs_ok(cs: Seq<(Expr, Vec<Stmt>)>, in_loop: bool, i: int)
    requires
        elifs_ok(cs, in_loop),
        0 <= i < cs.len(),
    ensures
        expr_ok(cs[i].0),
        block_ok(cs[i].1@, in_loop),
    decreases cs.len(),
{
    if i < cs.len() - 1 {
        let init = cs.subrange(0, cs.len() - 1);
        lemma_elifs_ok(init, in_loop, i);
        assert(init[i] == cs[i]);
    }
}

/// Appending code keeps the earlier plain jumps plain jumps.
pub open spec fn grows(old_ins: Seq<Op>, new_ins: Seq<Op>) -> bool {
    &&& new_ins.len() >= old_ins.len()
    &&& forall|i: int|
        0 <= i < old_ins.len() && is_plain_jump(old_ins[i]) ==> #[trigger] is_plain_jump(new_ins[i])
}

struct LoopContext {
    continue_target: usize,
    break_patches: Vec<usize>,
}

struct CodeBuilder {
    instructions: Vec<Op>,
    constants: Vec<Value>,
    local_slots: HashMap<u32, u16>,
    num_locals: u16,
    is_function: bool,
    loop_stack: Vec<LoopContext>,
}

/// Removes `count` elements at `start`.
fn drain_ops(v: &mut Vec<Op>, start: usize, count: usize)
    requires
        start + count <= old(v)@.len(),
    ensures
        final(v)@ == old(v)@.subrange(0, start as int) + old(v)@.subrange(
            start + count,
            old(v)@.len() as int,
        ),
{
    let mut out: Vec<Op> = Vec::new();
    let mut i: usize = 0;
    while i < v.len()
        invariant
            v@ == old(v)@,
            start + count <= v@.len(),
            i <= v@.len(),
            out@ == (if i <= start {
                v@.subrange(0, i as int)
            } else if i <= start + count {
                v@.subrange(0, start as int)
            } else {
                v@.subrange(0, start as int) + v@.subrange(start + count, i as int)
            }),
        decreases v@.len() - i,
    {
        if i < start || i >= start + count {
            out.push(v[i]);
        }
        proof {
            if i < start {
                assert(v@.subrange(0, i + 1) =~= v@.subrange(0, i as int).push(v@[i as int]));
            } else if i >= start + count {
                assert(v@.subrange(start + count, i + 1) =~= v@.subrange(start + count, i as int).push(
                    v@[i as int],
                ));
                assert(v@.subrange(0, start as int) + v@.subrange(start + count, i + 1) =~= (
                v@.subrange(0, start as int) + v@.subrange(start + count, i as int)).push(
                    v@[i as int],
                ));
            }
        }
        i = i + 1;
    }
    proof {
        if v@.len() <= start {
            assert(v@.subrange(start + count, v@.len() as int) =~= Seq::<Op>::empty());
            assert(v@.subrange(0, start as int) =~= v@);
        } else if v@.len() <= start + count {
            assert(v@.subrange(start + count, v@.len() as int) =~= Seq::<Op>::empty());
        }
    }
    *v = out;
}

impl CodeBuilder {
    /// Jumps stay in range; every open loop's continue target lies in the
    /// code, and its pending `break` jumps are plain jumps of the code.
    spec fn wf(&self) -> bool {
        &&& jumps_in_range(self.instructions@)
        &&& plain_jumps_only(self.instructions@)
        &&& forall|c: int|
            0 <= c < self.loop_stack@.len() ==> {
                let ctx = #[trigger] self.loop_stack@[c];
                &&& ctx.continue_target <= self.instructions@.len()
                &&& forall|k: int|
                    0 <= k < ctx.break_patches@.len() ==> {
                        let p = #[trigger] ctx.break_patches@[k];
                        &&& p < self.instructions@.len()
                        &&& is_plain_jump(self.instructions@[p as int])
                    }
            }
    }

    fn new(is_function: bool) -> (r: Self)
        ensures
            r.instructions@.len() == 0,
            r.constants@.len() == 0,
            r.local_slots@ == Map::<u32, u16>::empty(),
            r.num_locals == 0,
            r.is_function == is_function,
            r.loop_stack@.len() == 0,
    {
        CodeBuilder {
            instructions: Vec::new(),
            constants: Vec::new(),
            local_slots: HashMap::new(),
            num_locals: 0,
            is_function,
            loop_stack: Vec::new(),
        }
    }

    fn emit(&mut self, op: Op) -> (idx: usize)
        ensures
            idx == old(self).instructions@.len(),
            old(self).wf() && (jump_target(op) matches Some(t) ==> t <= old(self).instructions@.len() + 1
                && is_plain_jump(op))
                ==> final(self).wf(),
            grows(old(self).instructions@, final(self).instructions@),
            final(self).instructions@ == old(self).instructions@.push(op),
            first_loads(final(self).instructions@) == match op {
                Op::LoadConst(c) => if first_loads(old(self).instructions@).contains(c as int) {
                    first_loads(old(self).instructions@)
                } else {
                    first_loads(old(self).instructions@).push(c as int)
                },
                _ => first_loads(old(self).instructions@),
            },
            final(self).constants == old(self).constants,
            final(self).local_slots == old(self).local_slots,
            final(self).num_locals == old(self).num_locals,
            final(self).is_function == old(self).is_function,
            final(self).loop_stack == old(self).loop_stack,
    {
        let idx = self.instructions.len();
        let ghost before = *self;
        self.instructions.push(op);
        proof {
            lemma_first_loads_push(before.instructions@, op);
            if before.wf() && (jump_target(op) matches Some(t) ==> t <= before.instructions@.len()
                + 1 && is_plain_jump(op)) {
                assert forall|i: int| 0 <= i < self.instructions@.len() implies (
                #[trigger] jump_target(self.instructions@[i]) matches Some(t) ==> t
                    <= self.instructions@.len()) by {
                    if i < before.instructions@.len() {
                        assert(self.instructions@[i] == before.instructions@[i]);
                    }
                }
                assert forall|i: int| 0 <= i < self.instructions@.len() implies (
                #[trigger] jump_target(self.instructions@[i]) is Some ==> is_plain_jump(self.instructions@[i])) by {
                    if i < before.instructions@.len() {
                        assert(self.instructions@[i] == before.instructions@[i]);
                    }
                }
                assert forall|c: int| 0 <= c < self.loop_stack@.len() implies {
                    let ctx = #[trigger] self.loop_stack@[c];
                    &&& ctx.continue_target <= self.instructions@.len()
                    &&& forall|k: int|
                        0 <= k < ctx.break_patches@.len() ==> {
                            let p = #[trigger] ctx.break_patches@[k];
                            &&& p < self.instructions@.len()
                            &&& is_plain_jump(self.instructions@[p as int])
                        }
                } by {
                    let ctx = self.loop_stack@[c];
                    assert forall|k: int| 0 <= k < ctx.break_patches@.len() implies {
                        let p = #[trigger] ctx.break_patches@[k];
                        &&& p < self.instructions@.len()
                        &&& is_plain_jump(self.instructions@[p as int])
                    } by {
                        let p = ctx.break_patches@[k];
                        assert(before.loop_stack@[c] == ctx);
                        assert(self.instructions@[p as int] == before.instructions@[p as int]);
                    }
                }
            }
        }
        idx
    }

    /// The index of a constant equal to `val`: for a shared kind (integer,
    /// boolean, `None`) the least index of an equal one if there is one,
    /// else a new one at the end. Indices are 16 bits wide.
    fn add_const(&mut self, val: Value) -> (idx: u16)
        ensures
            final(self).instructions == old(self).instructions,
            final(self).local_slots == old(self).local_slots,
            final(self).num_locals == old(self).num_locals,
            final(self).is_function == old(self).is_function,
            final(self).loop_stack == old(self).loop_stack,
            consts_distinct(old(self).constants@) ==> consts_distinct(final(self).constants@),
            ({
                let old_cs = old(self).constants@;
                let new_cs = final(self).constants@;
                if exists|i: int| 0 <= i < old_cs.len() && same_shareable(val, #[trigger] old_cs[i]) {
                    &&& new_cs == old_cs
                    // the least index of an equal constant
                    &&& exists|k: int|
                        0 <= k < old_cs.len() && same_shareable(val, #[trigger] old_cs[k]) && idx
                            == k as u16 && forall|j: int| 0 <= j < k ==> !same_shareable(val, #[trigger] old_cs[j])
                    &&& old_cs.len() <= 65536 ==> same_shareable(val, old_cs[idx as int])
                        && forall|j: int| 0 <= j < idx ==> !same_shareable(val, #[trigger] old_cs[j])
                } else {
                    &&& new_cs == old_cs.push(val)
                    &&& idx == old_cs.len() as u16
                }
            }),
    {
        let mut i: usize = 0;
        while i < self.constants.len()
            invariant
                i <= self.constants@.len(),
                self.constants == old(self).constants,
                self.instructions == old(self).instructions,
                self.local_slots == old(self).local_slots,
                self.num_locals == old(self).num_locals,
                self.is_function == old(self).is_function,
                self.loop_stack == old(self).loop_stack,
                forall|j: int| 0 <= j < i ==> !same_shareable(val, #[trigger] self.constants@[j]),
            decreases self.constants@.len() - i,
        {
            let found = match (&val, &self.constants[i]) {
                (Value::Integer(a), Value::Integer(b)) => *a == *b,
                (Value::Boolean(a), Value::Boolean(b)) => *a == *b,
                (Value::NoneVal, Value::NoneVal) => true,
                _ => false,
            };
            if found {
                assert(same_shareable(val, self.constants@[i as int]));
                assert(self.constants@.len() <= 65536 ==> (i as u16) as int == i);
                return i as u16;
            }
            i = i + 1;
        }
        let idx = self.constants.len() as u16;
        let ghost before = self.constants@;
        self.constants.push(val);
        proof {
            if consts_distinct(before) {
                assert forall|a: int, b: int|
                    0 <= a < b < self.constants@.len() implies !same_shareable(
                    #[trigger] self.constants@[a],
                    #[trigger] self.constants@[b],
                ) by {
                    if b == before.len() {
                        assert(!same_shareable(val, before[a]));
                        assert(same_shareable(before[a], val) ==> same_shareable(val, before[a]));
                    }
                }
            }
        }
        idx
    }

    fn current_offset(&self) -> (r: usize)
        ensures
            r == self.instructions@.len(),
    {
        self.instructions.len()
    }

    fn patch_jump(&mut self, instr_idx: usize, target: usize)
        requires
            instr_idx < old(self).instructions@.len(),
            is_plain_jump(old(self).instructions@[instr_idx as int]),
        ensures
            old(self).wf() && target <= old(self).instructions@.len() ==> final(self).wf(),
            grows(old(self).instructions@, final(self).instructions@),
            final(self).instructions@ == old(self).instructions@.update(
                instr_idx as int,
                with_target(old(self).instructions@[instr_idx as int], target as u32),
            ),
            first_loads(final(self).instructions@) == first_loads(old(self).instructions@),
            final(self).constants == old(self).constants,
            final(self).local_slots == old(self).local_slots,
            final(self).num_locals == old(self).num_locals,
            final(self).is_function == old(self).is_function,
            final(self).loop_stack == old(self).loop_stack,
    {
        let target = target as u32;
        let patched = match self.instructions[instr_idx] {
            Op::Jump(_) => Op::Jump(target),
            Op::PopJumpIfFalse(_) => Op::PopJumpIfFalse(target),
            Op::JumpIfTrueOrPop(_) => Op::JumpIfTrueOrPop(target),
            Op::JumpIfFalseOrPop(_) => Op::JumpIfFalseOrPop(target),
            other => other,
        };
        let ghost before = *self;
        self.instructions.set(instr_idx, patched);
        proof {
            assert(is_plain_jump(patched));
            lemma_first_loads_update(before.instructions@, instr_idx as int, patched);
            if before.wf() && target <= before.instructions@.len() {
                assert forall|i: int| 0 <= i < self.instructions@.len() implies (
                #[trigger] jump_target(self.instructions@[i]) matches Some(t) ==> t
                    <= self.instructions@.len()) by {
                    if i != instr_idx {
                        assert(self.instructions@[i] == before.instructions@[i]);
                    }
                }
                assert forall|c: int| 0 <= c < self.loop_stack@.len() implies {
                    let ctx = #[trigger] self.loop_stack@[c];
                    &&& ctx.continue_target <= self.instructions@.len()
                    &&& forall|k: int|
                        0 <= k < ctx.break_patches@.len() ==> {
                            let p = #[trigger] ctx.break_patches@[k];
                            &&& p < self.instructions@.len()
                            &&& is_plain_jump(self.instructions@[p as int])
                        }
                } by {
                    let ctx = self.loop_stack@[c];
                    assert forall|k: int| 0 <= k < ctx.break_patches@.len() implies {
                        let p = #[trigger] ctx.break_patches@[k];
                        &&& p < self.instructions@.len()
                        &&& is_plain_jump(self.instructions@[p as int])
                    } by {
                        let p = ctx.break_patches@[k];
                        assert(before.loop_stack@[c] == ctx);
                    }
                }
            }
        }
    }

    fn alloc_hidden_local(&mut self) -> (slot: u16)
        ensures
            slot == old(self).num_locals,
            final(self).num_locals == old(self).num_locals.wrapping_add(1),
            final(self).instructions == old(self).instructions,
            final(self).constants == old(self).constants,
            final(self).local_slots == old(self).local_slots,
            final(self).is_function == old(self).is_function,
            final(self).loop_stack == old(self).loop_stack,
    {
        let slot = self.num_locals;
        self.num_locals = self.num_locals.wrapping_add(1);
        slot
    }

    /// Whether `name` is a local slot of the function being compiled.
    fn resolve_name(&self, name: Symbol) -> (r: bool)
        ensures
            r == (self.is_function && self.local_slots@.contains_key(name.0)),
    {
        self.is_function && self.local_slots.contains_key(&name.0)
    }

    fn emit_load(&mut self, name: Symbol)
        ensures
            final(self).instructions@ == old(self).instructions@.push(
                if old(self).local_slots@.contains_key(name.0) {
                    Op::LoadLocal(old(self).local_slots@[name.0])
                } else {
                    Op::LoadGlobal(name)
                },
            ),
            final(self).constants == old(self).constants,
            final(self).local_slots == old(self).local_slots,
            final(self).num_locals == old(self).num_locals,
            final(self).is_function == old(self).is_function,
            final(self).loop_stack == old(self).loop_stack,
            first_loads(final(self).instructions@) == first_loads(old(self).instructions@),
    {
        match self.local_slots.get(&name.0) {
            Some(slot) => {
                let s = *slot;
                self.emit(Op::LoadLocal(s));
            },
            None => {
                self.emit(Op::LoadGlobal(name));
            },
        }
    }

    fn emit_store(&mut self, name: Symbol)
        ensures
            final(self).instructions@ == old(self).instructions@.push(
                if old(self).local_slots@.contains_key(name.0) {
                    Op::StoreLocal(old(self).local_slots@[name.0])
                } else {
                    Op::StoreGlobal(name)
                },
            ),
            final(self).constants == old(self).constants,
            final(self).local_slots == old(self).local_slots,
            final(self).num_locals == old(self).num_locals,
            final(self).is_function == old(self).is_function,
            final(self).loop_stack == old(self).loop_stack,
            first_loads(final(self).instructions@) == first_loads(old(self).instructions@),
    {
        match self.local_slots.get(&name.0) {
            Some(slot) => {
                let s = *slot;
                self.emit(Op::StoreLocal(s));
            },
            None => {
                self.emit(Op::StoreGlobal(name));
            },
        }
    }

    fn build(self) -> (code: CodeObject)
        requires
            jumps_in_range(self.instructions@),
            plain_jumps_only(self.instructions@),
        ensures
            jumps_in_range(code.instructions@),
            code.instructions@ == optimized(self.instructions@, self.constants@),
            code.constants == self.constants,
            code.num_locals == self.num_locals,
            code.local_slots == self.local_slots,
    {
        let mut b = self;
        b.peephole_optimize();
        CodeObject {
            instructions: b.instructions,
            constants: b.constants,
            num_locals: b.num_locals,
            local_slots: b.local_slots,
        }
    }

    /// Fuses hot instruction sequences into superinstructions, never across
    /// a jump target: first the four-instruction patterns, then
    /// `LoadLocal + LoadLocal` (`optimized`).
    fn peephole_optimize(&mut self)
        requires
            jumps_in_range(old(self).instructions@),
            plain_jumps_only(old(self).instructions@),
        ensures
            jumps_in_range(final(self).instructions@),
            final(self).instructions@ == optimized(old(self).instructions@, old(self).constants@),
            final(self).instructions@.len() <= old(self).instructions@.len(),
            final(self).constants == old(self).constants,
            final(self).local_slots == old(self).local_slots,
            final(self).num_locals == old(self).num_locals,
    {
        let ghost p0 = self.instructions@;
        let ghost cs = self.constants@;
        // Collect all jump targets so we don't fuse across them
        let mut jump_targets: Vec<bool> = Vec::new();
        let mut k: usize = 0;
        while k < self.instructions.len()
            invariant
                k <= self.instructions@.len(),
                jump_targets@.len() == k,
                forall|t: int| 0 <= t < k ==> !#[trigger] jump_targets@[t],
            decreases self.instructions@.len() - k,
        {
            jump_targets.push(false);
            k = k + 1;
        }
        jump_targets.push(false);
        let mut j: usize = 0;
        while j < self.instructions.len()
            invariant
                self.instructions@ == p0,
                jumps_in_range(p0),
                plain_jumps_only(p0),
                j <= p0.len(),
                jump_targets@.len() == self.instructions@.len() + 1,
                forall|t: int|
                    0 <= t < jump_targets@.len() ==> (#[trigger] jump_targets@[t] <==> exists|x: int|
                        0 <= x < j && (#[trigger] jump_target(p0[x]) matches Some(y) && y == t)),
            decreases self.instructions@.len() - j,
        {
            let ghost before = jump_targets@;
            match self.instructions[j] {
                Op::Jump(t) | Op::PopJumpIfFalse(t) | Op::JumpIfTrueOrPop(t) | Op::JumpIfFalseOrPop(
                    t,
                ) => {
                    let t = t as usize;
                    if t < jump_targets.len() {
                        jump_targets.set(t, true);
                    }
                },
                _ => {},
            }
            proof {
                assert(jump_target(p0[j as int]) is Some ==> is_plain_jump(p0[j as int]));
                assert forall|t: int| 0 <= t < jump_targets@.len() implies (#[trigger] jump_targets@[t] <==> exists|x: int|
                    0 <= x < j + 1 && (#[trigger] jump_target(p0[x]) matches Some(y) && y == t)) by {
                    if jump_target(p0[j as int]) matches Some(y) && y == t {
                    } else {
                        if exists|x: int| 0 <= x < j + 1 && (#[trigger] jump_target(p0[x]) matches Some(y) && y == t) {
                            let x = choose|x: int| 0 <= x < j + 1 && (#[trigger] jump_target(p0[x]) matches Some(y) && y == t);
                            assert(x < j);
                        }
                    }
                }
            }
            j = j + 1;
        }
        let mut i: usize = 0;
        while i < self.instructions.len() && self.instructions.len() - i > 3
            invariant
                i <= self.instructions@.len(),
                jumps_in_range(self.instructions@),
                jump_targets@.len() == self.instructions@.len() + 1,
                forall|t: int| 0 <= t < jump_targets@.len() ==> (#[trigger] jump_targets@[t] <==> is_target(self.instructions@, t)),
                fuse_quads(self.instructions@, cs, i as int) == fuse_quads(p0, cs, 0),
                self.instructions@.len() <= old(self).instructions@.len(),
                self.constants == old(self).constants,
                cs == self.constants@,
                self.local_slots == old(self).local_slots,
                self.num_locals == old(self).num_locals,
            decreases self.instructions@.len() - i,
        {
            // Don't fuse if instruction i+1, i+2, or i+3 is a jump target
            let any_target = (i + 1 < jump_targets.len() && jump_targets[i + 1]) || (i + 2
                < jump_targets.len() && jump_targets[i + 2]) || (i + 3 < jump_targets.len()
                && jump_targets[i + 3]);
            if any_target {
                i = i + 1;
                continue ;
            }
            let a0 = self.instructions[i];
            let a1 = self.instructions[i + 1];
            let a2 = self.instructions[i + 2];
            let a3 = self.instructions[i + 3];
            let mut fused: Option<Op> = None;
            // LoadLocal(s) + LoadConst(c) + BinaryAdd + StoreLocal(s), integer constant
            if let (Op::LoadLocal(s1), Op::LoadConst(c), Op::BinaryAdd, Op::StoreLocal(s2)) = (
                a0,
                a1,
                a2,
                a3,
            ) {
                if s1 == s2 && (c as usize) < self.constants.len() && matches!(self.constants[c as usize], Value::Integer(_)) {
                    fused = Some(Op::IncrLocalByConst(Op::pack_pair(s1, c)));
                }
            }
            if fused.is_none() {
                // LoadLocal(a) + LoadLocal(b) + CompareLt + PopJumpIfFalse(t)
                if let (Op::LoadLocal(a), Op::LoadLocal(b), Op::CompareLt, Op::PopJumpIfFalse(t)) = (
                    a0,
                    a1,
                    a2,
                    a3,
                ) {
                    fused = Some(Op::LocalLtLocalJump(Op::pack_pair(a, b), t));
                }
            }
            if fused.is_none() {
                // LoadLocal(s) + LoadConst(c) + CompareLtE + PopJumpIfFalse(t)
                if let (Op::LoadLocal(s), Op::LoadConst(c), Op::CompareLtE, Op::PopJumpIfFalse(t)) = (
                    a0,
                    a1,
                    a2,
                    a3,
                ) {
                    fused = Some(Op::LocalLtEConstJump(Op::pack_pair(s, c), t));
                }
            }
            if fused.is_none() {
                // LoadLocal(s) + LoadConst(c) + CompareLt + PopJumpIfFalse(t)
                if let (Op::LoadLocal(s), Op::LoadConst(c), Op::CompareLt, Op::PopJumpIfFalse(t)) = (
                    a0,
                    a1,
                    a2,
                    a3,
                ) {
                    fused = Some(Op::LocalLtConstJump(Op::pack_pair(s, c), t));
                }
            }
            if fused.is_none() {
                // LoadLocal(s) + LoadConst(c) + CompareGt + PopJumpIfFalse(t)
                if let (Op::LoadLocal(s), Op::LoadConst(c), Op::CompareGt, Op::PopJumpIfFalse(t)) = (
                    a0,
                    a1,
                    a2,
                    a3,
                ) {
                    fused = Some(Op::LocalGtConstJump(Op::pack_pair(s, c), t));
                }
            }
            if fused.is_none() {
                // LoadGlobal(s) + LoadConst(c) + BinaryAdd + StoreGlobal(s), integer constant
                if let (Op::LoadGlobal(s1), Op::LoadConst(c), Op::BinaryAdd, Op::StoreGlobal(s2)) = (
                    a0,
                    a1,
                    a2,
                    a3,
                ) {
                    if s1 == s2 && (c as usize) < self.constants.len() && matches!(self.constants[c as usize], Value::Integer(_)) {
                        fused = Some(Op::IncrGlobalByConst(s1, c));
                    }
                }
            }
            proof {
                assert(fused == fuse4(self.instructions@, cs, i as int));
            }
            match fused {
                Some(op) => {
                    proof {
                        // a fused compare-and-jump keeps the target of the jump it replaces
                        assert(jump_target(self.instructions@[i + 3]) matches Some(t) ==> t
                            <= self.instructions@.len());
                    }
                    let ghost before = self.instructions@;
                    self.instructions.set(i, op);
                    self.remove_instructions(i + 1, 3, &mut jump_targets);
                    proof {
                        assert(self.instructions@ =~= remove_ops(before.update(i as int, op), i + 1, 3));
                    }
                },
                None => {
                    i = i + 1;
                },
            }
        }
        let ghost q = self.instructions@;
        // 2-instruction fusions
        i = 0;
        while i < self.instructions.len() && self.instructions.len() - i > 1
            invariant
                i <= self.instructions@.len(),
                jumps_in_range(self.instructions@),
                jump_targets@.len() == self.instructions@.len() + 1,
                forall|t: int| 0 <= t < jump_targets@.len() ==> (#[trigger] jump_targets@[t] <==> is_target(self.instructions@, t)),
                fuse_pairs(self.instructions@, i as int) == optimized(p0, cs),
                self.instructions@.len() <= old(self).instructions@.len(),
                self.constants == old(self).constants,
                self.local_slots == old(self).local_slots,
                self.num_locals == old(self).num_locals,
            decreases self.instructions@.len() - i,
        {
            if i + 1 < jump_targets.len() && jump_targets[i + 1] {
                i = i + 1;
                continue ;
            }
            // LoadLocal(a) + LoadLocal(b) -> LoadLocalPair(a, b)
            if let (Op::LoadLocal(a), Op::LoadLocal(b)) = (
                self.instructions[i],
                self.instructions[i + 1],
            ) {
                let ghost before = self.instructions@;
                let pair = Op::pack_pair(a, b);
                self.instructions.set(i, Op::LoadLocalPair(pair));
                self.remove_instructions(i + 1, 1, &mut jump_targets);
                proof {
                    assert(self.instructions@ =~= remove_ops(before.update(i as int, Op::LoadLocalPair(pair)), i + 1, 1));
                }
                continue ;
            }
            i = i + 1;
        }
    }

    /// Removes `count` instructions starting at `start`, remapping all jump
    /// targets (`remap_target`) and recomputing which offsets are targets.
    fn remove_instructions(&mut self, start: usize, count: usize, jump_targets: &mut Vec<bool>)
        requires
            start + count <= old(self).instructions@.len(),
            forall|i: int|
                0 <= i < old(self).instructions@.len() ==> (#[trigger] jump_target(
                    old(self).instructions@[i],
                ) matches Some(t) ==> t <= old(self).instructions@.len()),
        ensures
            final(self).instructions@.len() == old(self).instructions@.len() - count,
            jumps_in_range(final(self).instructions@),
            final(jump_targets)@.len() == final(self).instructions@.len() + 1,
            forall|t: int|
                0 <= t < final(jump_targets)@.len() ==> (#[trigger] final(jump_targets)@[t] <==> is_target(
                    final(self).instructions@,
                    t,
                )),
            forall|i: int|
                0 <= i < final(self).instructions@.len() ==> #[trigger] final(self).instructions@[i]
                    == with_target(
                    (old(self).instructions@.subrange(0, start as int) + old(
                        self,
                    ).instructions@.subrange(start + count, old(self).instructions@.len() as int))[i],
                    remap_target(
                        jump_target(
                            (old(self).instructions@.subrange(0, start as int) + old(
                                self,
                            ).instructions@.subrange(
                                start + count,
                                old(self).instructions@.len() as int,
                            ))[i],
                        )->Some_0 as int,
                        start as int,
                        count as int,
                    ) as u32,
                ),
            final(self).constants == old(self).constants,
            final(self).local_slots == old(self).local_slots,
            final(self).num_locals == old(self).num_locals,
    {
        let ghost old_len = self.instructions@.len();
        let total_len = self.instructions.len();
        drain_ops(&mut self.instructions, start, count);
        let ghost kept = self.instructions@;
        // Rebuild jump_targets
        let mut fresh: Vec<bool> = Vec::new();
        let mut k: usize = 0;
        while k < self.instructions.len()
            invariant
                k <= self.instructions@.len(),
                fresh@.len() == k,
                forall|t: int| 0 <= t < k ==> !#[trigger] fresh@[t],
            decreases self.instructions@.len() - k,
        {
            fresh.push(false);
            k = k + 1;
        }
        fresh.push(false);
        *jump_targets = fresh;
        // Remap jumps: any jump target > start needs to decrease by count
        let mut j: usize = 0;
        while j < self.instructions.len()
            invariant
                self.instructions@.len() == kept.len(),
                kept.len() == old_len - count,
                old_len == total_len,
                jump_targets@.len() == kept.len() + 1,
                start + count <= old_len,
                j <= kept.len(),
                forall|i: int|
                    0 <= i < kept.len() ==> (#[trigger] jump_target(kept[i]) matches Some(t) ==> t
                        <= old_len),
                forall|i: int|
                    j <= i < kept.len() ==> #[trigger] self.instructions@[i] == kept[i],
                forall|i: int|
                    0 <= i < j ==> #[trigger] self.instructions@[i] == with_target(
                        kept[i],
                        remap_target(jump_target(kept[i])->Some_0 as int, start as int, count as int)
                            as u32,
                    ),
                forall|i: int|
                    0 <= i < j ==> (#[trigger] jump_target(self.instructions@[i]) matches Some(t)
                        ==> t <= kept.len()),
                forall|t: int|
                    0 <= t < jump_targets@.len() ==> (#[trigger] jump_targets@[t] <==> exists|x: int|
                        0 <= x < j && (#[trigger] jump_target(self.instructions@[x]) matches Some(y) && y == t)),
                self.constants == old(self).constants,
                self.local_slots == old(self).local_slots,
                self.num_locals == old(self).num_locals,
            decreases kept.len() - j,
        {
            let op = self.instructions[j];
            let new_op = match op {
                Op::Jump(t) => Op::Jump(remap(t, start, count)),
                Op::PopJumpIfFalse(t) => Op::PopJumpIfFalse(remap(t, start, count)),
                Op::JumpIfTrueOrPop(t) => Op::JumpIfTrueOrPop(remap(t, start, count)),
                Op::JumpIfFalseOrPop(t) => Op::JumpIfFalseOrPop(remap(t, start, count)),
                Op::LocalLtLocalJump(p, t) => Op::LocalLtLocalJump(p, remap(t, start, count)),
                Op::LocalLtEConstJump(p, t) => Op::LocalLtEConstJump(p, remap(t, start, count)),
                Op::LocalLtConstJump(p, t) => Op::LocalLtConstJump(p, remap(t, start, count)),
                Op::LocalGtConstJump(p, t) => Op::LocalGtConstJump(p, remap(t, start, count)),
                other => other,
            };
            match jump_target_of(new_op) {
                Some(t) => {
                    let tv = t as usize;
                    if tv < jump_targets.len() {
                        jump_targets.set(tv, true);
                    }
                },
                None => {},
            }
            let ghost jt_before = jump_targets@;
            let ghost ins_before = self.instructions@;
            self.instructions.set(j, new_op);
            proof {
                assert forall|t: int| 0 <= t < jump_targets@.len() implies (#[trigger] jump_targets@[t] <==> exists|x: int|
                    0 <= x < j + 1 && (#[trigger] jump_target(self.instructions@[x]) matches Some(y) && y == t)) by {
                    if jump_target(self.instructions@[j as int]) matches Some(y) && y == t {
                    } else {
                        if exists|x: int| 0 <= x < j + 1 && (#[trigger] jump_target(self.instructions@[x]) matches Some(y) && y == t) {
                            let x = choose|x: int| 0 <= x < j + 1 && (#[trigger] jump_target(self.instructions@[x]) matches Some(y) && y == t);
                            assert(x < j);
                            assert(self.instructions@[x] == ins_before[x]);
                        }
                        if exists|x: int| 0 <= x < j && (#[trigger] jump_target(ins_before[x]) matches Some(y) && y == t) {
                            let x = choose|x: int| 0 <= x < j && (#[trigger] jump_target(ins_before[x]) matches Some(y) && y == t);
                            assert(self.instructions@[x] == ins_before[x]);
                        }
                    }
                }
            }
            j = j + 1;
        }
        proof {
            assert forall|i: int| 0 <= i < old_len - count implies (#[trigger] kept[i]) == (old(
                self,
            ).instructions@.subrange(0, start as int) + old(self).instructions@.subrange(
                start + count,
                old_len as int,
            ))[i] by {}
            assert forall|i: int| 0 <= i < kept.len() implies (#[trigger] jump_target(kept[i]) matches Some(t) ==> t
                <= old_len) by {
                if i < start {
                    assert(kept[i] == old(self).instructions@[i]);
                } else {
                    assert(kept[i] == old(self).instructions@[i + count]);
                }
            }
        }
    }
}

/// Offset `t` is the target of some jump of `ins`.
pub open spec fn is_target(ins: Seq<Op>, t: int) -> bool {
    exists|k: int| 0 <= k < ins.len() && (#[trigger] jump_target(ins[k]) matches Some(x) && x == t)
}

/// The superinstruction for the four instructions at `i`, if they form a
/// fused pattern: an increment of a local or a global by an integer
/// constant, or a comparison of a local with a local or a constant followed
/// by a conditional jump.
pub open spec fn fuse4(ins: Seq<Op>, consts: Seq<Value>, i: int) -> Option<Op> {
    let a0 = ins[i];
    let a1 = ins[i + 1];
    let a2 = ins[i + 2];
    let a3 = ins[i + 3];
    if a0 is LoadLocal && a1 is LoadConst && a2 is BinaryAdd && a3 is StoreLocal && a0->LoadLocal_0
        == a3->StoreLocal_0 && is_int_const(consts, a1->LoadConst_0) {
        Some(Op::IncrLocalByConst(packed(a0->LoadLocal_0, a1->LoadConst_0) as u32))
    } else if a0 is LoadLocal && a1 is LoadLocal && a2 is CompareLt && a3 is PopJumpIfFalse {
        Some(Op::LocalLtLocalJump(packed(a0->LoadLocal_0, a1->LoadLocal_0) as u32, a3->PopJumpIfFalse_0))
    } else if a0 is LoadLocal && a1 is LoadConst && a2 is CompareLtE && a3 is PopJumpIfFalse {
        Some(Op::LocalLtEConstJump(packed(a0->LoadLocal_0, a1->LoadConst_0) as u32, a3->PopJumpIfFalse_0))
    } else if a0 is LoadLocal && a1 is LoadConst && a2 is CompareLt && a3 is PopJumpIfFalse {
        Some(Op::LocalLtConstJump(packed(a0->LoadLocal_0, a1->LoadConst_0) as u32, a3->PopJumpIfFalse_0))
    } else if a0 is LoadLocal && a1 is LoadConst && a2 is CompareGt && a3 is PopJumpIfFalse {
        Some(Op::LocalGtConstJump(packed(a0->LoadLocal_0, a1->LoadConst_0) as u32, a3->PopJumpIfFalse_0))
    } else if a0 is LoadGlobal && a1 is LoadConst && a2 is BinaryAdd && a3 is StoreGlobal
        && a0->LoadGlobal_0 == a3->StoreGlobal_0 && is_int_const(consts, a1->LoadConst_0) {
        Some(Op::IncrGlobalByConst(a0->LoadGlobal_0, a1->LoadConst_0))
    } else {
        None
    }
}

/// `ins` without the `count` instructions at `start`, each jump retargeted
/// by `remap_target`.
pub open spec fn remove_ops(ins: Seq<Op>, start: int, count: int) -> Seq<Op> {
    let kept = ins.subrange(0, start) + ins.subrange(start + count, ins.len() as int);
    Seq::new(
        kept.len(),
        |k: int| with_target(kept[k], remap_target(jump_target(kept[k])->Some_0 as int, start, count) as u32),
    )
}

/// The four-instruction fusions from offset `i` on: at each offset whose
/// next three instructions are no jump target, a fused pattern becomes its
/// superinstruction and is tried again at the same offset.
pub open spec fn fuse_quads(ins: Seq<Op>, consts: Seq<Value>, i: int) -> Seq<Op>
    decreases ins.len() - i,
{
    if i < 0 || !(i < ins.len() && ins.len() - i > 3) {
        ins
    } else if is_target(ins, i + 1) || is_target(ins, i + 2) || is_target(ins, i + 3) {
        fuse_quads(ins, consts, i + 1)
    } else {
        match fuse4(ins, consts, i) {
            Some(op) => fuse_quads(remove_ops(ins.update(i, op), i + 1, 3), consts, i),
            None => fuse_quads(ins, consts, i + 1),
        }
    }
}

/// The `LoadLocal + LoadLocal` fusions from offset `i` on, never across a
/// jump target.
pub open spec fn fuse_pairs(ins: Seq<Op>, i: int) -> Seq<Op>
    decreases ins.len() - i,
{
    if i < 0 || !(i < ins.len() && ins.len() - i > 1) {
        ins
    } else if is_target(ins, i + 1) {
        fuse_pairs(ins, i + 1)
    } else if ins[i] is LoadLocal && ins[i + 1] is LoadLocal {
        fuse_pairs(
            remove_ops(
                ins.update(i, Op::LoadLocalPair(packed(ins[i]->LoadLocal_0, ins[i + 1]->LoadLocal_0) as u32)),
                i + 1,
                1,
            ),
            i,
        )
    } else {
        fuse_pairs(ins, i + 1)
    }
}

/// The code after the peephole pass: the four-instruction fusions, then the
/// pair fusions.
pub open spec fn optimized(ins: Seq<Op>, consts: Seq<Value>) -> Seq<Op> {
    fuse_pairs(fuse_quads(ins, consts, 0), 0)
}

/// `remap_target` on a 32-bit target.
fn remap(t: u32, start: usize, count: usize) -> (r: u32)
    requires
        start + count <= usize::MAX,
    ensures
        r as int == remap_target(t as int, start as int, count as int),
{
    if t as usize >= start + count {
        t - count as u32
    } else if t as usize > start {
        start as u32
    } else {
        t
    }
}

fn jump_target_of(op: Op) -> (r: Option<u32>)
    ensures
        r == jump_target(op),
{
    match op {
        Op::Jump(t) => Some(t),
        Op::PopJumpIfFalse(t) => Some(t),
        Op::JumpIfTrueOrPop(t) => Some(t),
        Op::JumpIfFalseOrPop(t) => Some(t),
        Op::LocalLtLocalJump(_, t) => Some(t),
        Op::LocalLtEConstJump(_, t) => Some(t),
        Op::LocalLtConstJump(_, t) => Some(t),
        Op::LocalGtConstJump(_, t) => Some(t),
        _ => None,
    }
}


/// A builder whose jumps are in range and whose shared constants are
/// distinct.
spec fn sound(b: CodeBuilder) -> bool {
    &&& b.wf()
    &&& consts_distinct(b.constants@)
    // every constant was added for an instruction that loads it
    &&& b.constants@.len() <= b.instructions@.len()
    // and the pool is exactly the constants the code loads, in the order of
    // their first loads (while the pool fits 16-bit indices)
    &&& b.constants@.len() <= 65536 ==> loads_in_order(b.instructions@, b.constants@.len())
}

/// Compiling an expression appends code and may add constants; the code
/// before it, locals and loop contexts stay as they were.
spec fn keeps_scope(a: CodeBuilder, b: CodeBuilder) -> bool {
    &&& grows(a.instructions@, b.instructions@)
    &&& prefix_kept(a.instructions@, b.instructions@)
    &&& extends(a.constants@, b.constants@)
    &&& pool_growth_bounded(a, b)
    &&& b.local_slots == a.local_slots
    &&& b.num_locals == a.num_locals
    &&& b.is_function == a.is_function
    &&& b.loop_stack == a.loop_stack
}

/// The pool grows by at most as many constants as there are new
/// instructions: each new constant comes with an instruction that loads it.
spec fn pool_growth_bounded(a: CodeBuilder, b: CodeBuilder) -> bool {
    b.constants@.len() - a.constants@.len() <= b.instructions@.len() - a.instructions@.len()
}

/// Compiling a statement appends code, may add constants and hidden local
/// slots and record `break` jumps; named locals and loop depth stay.
spec fn keeps_context(a: CodeBuilder, b: CodeBuilder) -> bool {
    &&& grows(a.instructions@, b.instructions@)
    &&& prefix_kept(a.instructions@, b.instructions@)
    &&& extends(a.constants@, b.constants@)
    &&& pool_growth_bounded(a, b)
    &&& b.local_slots == a.local_slots
    &&& b.is_function == a.is_function
    &&& b.loop_stack@.len() == a.loop_stack@.len()
}

/// The scope in which a builder compiles names.
spec fn scope_of(b: CodeBuilder) -> Scope {
    Scope { locals: b.local_slots@, in_fn: b.is_function }
}

/// The code that `b` has appended since `a`.
spec fn code_since(a: CodeBuilder, b: CodeBuilder) -> Seq<Op> {
    b.instructions@.subrange(a.instructions@.len() as int, b.instructions@.len() as int)
}

/// A part of the code that later steps kept is the same inside any segment
/// around it.
proof fn lemma_part(x: Seq<Op>, y: Seq<Op>, ws: int, we: int, s: int, e: int)
    requires
        0 <= ws <= s <= e <= we <= y.len(),
        e <= x.len(),
        forall|i: int| s <= i < e ==> y[i] == x[i],
    ensures
        y.subrange(ws, we).subrange(s - ws, e - ws) == x.subrange(s, e),
{
    assert(y.subrange(ws, we).subrange(s - ws, e - ws) =~= x.subrange(s, e));
}

proof fn lemma_grows_trans(a: Seq<Op>, b: Seq<Op>, c: Seq<Op>)
    requires
        grows(a, b),
        grows(b, c),
    ensures
        grows(a, c),
{
}

proof fn lemma_trunc_u32(x: usize)
    ensures
        (x as u32) as int <= x as int,
{
    assert((x as u32) as usize <= x) by (bit_vector);
}

/// `b` follows `a` by the code of expression `e`: exactly `expr_code` when the
/// constant pool fits 16-bit indices.
spec fn emits_expr(a: CodeBuilder, b: CodeBuilder, e: Expr) -> bool {
    &&& sound(b)
    &&& keeps_scope(a, b)
    &&& b.instructions@.len() == a.instructions@.len() + expr_len(e, scope_of(a))
    &&& b.constants@.len() <= 65536 ==> expr_code(
        e,
        code_since(a, b),
        a.instructions@.len() as int,
        scope_of(a),
        b.constants@,
    )
}

/// The last instruction of `b` loads a constant equal to `val`, when the
/// pool fits 16-bit indices.
spec fn loads_const(b: CodeBuilder, val: Value) -> bool {
    b.instructions@.last() matches Op::LoadConst(c) && (b.constants@.len() <= 65536 ==> (c as int)
        < b.constants@.len() && (if shareable(val) {
        same_shareable(val, b.constants@[c as int])
    } else {
        b.constants@[c as int] == val
    }))
}

/// Emits a load of a constant equal to `val`: a shared one where `add_const`
/// shares it.
fn emit_const(builder: &mut CodeBuilder, val: Value)
    requires
        sound(*old(builder)),
    ensures
        sound(*final(builder)),
        keeps_scope(*old(builder), *final(builder)),
        final(builder).instructions@.len() == old(builder).instructions@.len() + 1,
        loads_const(*final(builder), val),
{
    let ghost old_cs = builder.constants@;
    let ghost old_ins = builder.instructions@;
    let idx = builder.add_const(val);
    let ghost b1 = *builder;
    builder.emit(Op::LoadConst(idx));
    proof {
        if builder.constants@.len() <= 65536 {
            let fl = first_loads(old_ins);
            assert(fl == Seq::new(old_cs.len(), |i: int| i));
            if exists|i: int| 0 <= i < old_cs.len() && same_shareable(val, #[trigger] old_cs[i]) {
                let k = choose|k: int|
                    0 <= k < old_cs.len() && same_shareable(val, #[trigger] old_cs[k]) && idx == k as u16;
                assert(idx as int == k);
                assert(fl[k] == k);
                assert(fl.contains(idx as int));
                assert(builder.constants@ == old_cs);
            } else {
                assert(idx as int == old_cs.len());
                assert(!fl.contains(idx as int));
                assert(fl.push(idx as int) =~= Seq::new(builder.constants@.len(), |i: int| i));
            }
        }
    }
}

/// Compiles an expression: its code leaves the value on the stack.
#[verifier::rlimit(50)]
#[verifier::spinoff_prover]
fn compile_expr<F: FloatOps>(builder: &mut CodeBuilder, expr: &Expr)
    requires
        sound(*old(builder)),
        expr_ok(*expr),
    ensures
        emits_expr(*old(builder), *final(builder), *expr),
        *expr matches Expr::Float(text) ==> (final(builder).instructions@.last() matches Op::LoadConst(c) && (
        final(builder).constants@.len() <= 65536 ==> (final(builder).constants@[c as int] matches Value::Float(x)
            && float_literal::<F>(text@, x)))),
    decreases expr, 1int,
{
    let ghost a = *builder;
    let ghost start = builder.instructions@.len() as int;
    match expr {
        Expr::Integer(n) => {
            emit_const(builder, Value::Integer(*n));
            proof {
                assert(code_since(a, *builder) =~= seq![builder.instructions@.last()]);
            }
        },
        Expr::Float(text) => {
            let ts: &str = text.as_str();
            let bits = F::from_literal(ts);
            emit_const(builder, Value::Float(bits));
            proof {
                assert(call_ensures(F::from_literal, (ts,), bits));
                assert(code_since(a, *builder) =~= seq![builder.instructions@.last()]);
            }
        },
        Expr::StringLiteral(s) => {
            emit_const(builder, Value::String(Rc::new(owned(s.as_str()))));
            proof {
                assert(code_since(a, *builder) =~= seq![builder.instructions@.last()]);
            }
        },
        Expr::Boolean(b) => {
            emit_const(builder, Value::Boolean(*b));
            proof {
                assert(code_since(a, *builder) =~= seq![builder.instructions@.last()]);
            }
        },
        Expr::NoneLit => {
            emit_const(builder, Value::NoneVal);
            proof {
                assert(code_since(a, *builder) =~= seq![builder.instructions@.last()]);
            }
        },
        Expr::Identifier(name) => {
            builder.emit_load(*name);
            proof {
                assert(code_since(a, *builder) =~= seq![builder.instructions@.last()]);
            }
        },
        Expr::BinaryOp { left, op, right } => {
            match op {
                BinOp::And | BinOp::Or => {
                    compile_logic::<F>(builder, expr);
                },
                _ => {
                    compile_expr::<F>(builder, left);
                    let ghost b1 = *builder;
                    compile_expr::<F>(builder, right);
                    let ghost b2 = *builder;
                    emit_binop(builder, op);
                    proof {
                        lemma_grows_trans(a.instructions@, b1.instructions@, b2.instructions@);
                        lemma_grows_trans(a.instructions@, b2.instructions@, builder.instructions@);
                        let end = builder.instructions@.len() as int;
                        if builder.constants@.len() <= 65536 {
                            lemma_part(b1.instructions@, builder.instructions@, start, end, start, b1.instructions@.len() as int);
                            lemma_expr_code_mono(**left, code_since(a, b1), start, scope_of(a), b1.constants@, builder.constants@);
                            lemma_part(b2.instructions@, builder.instructions@, start, end, b1.instructions@.len() as int, b2.instructions@.len() as int);
                        }
                    }
                },
            }
        },
        Expr::UnaryOp { op, operand } => {
            compile_expr::<F>(builder, operand);
            let ghost b1 = *builder;
            match op {
                UnaryOp::Neg => {
                    builder.emit(Op::UnaryNeg);
                },
                UnaryOp::Not => {
                    builder.emit(Op::UnaryNot);
                },
            }
            proof {
                lemma_grows_trans(a.instructions@, b1.instructions@, builder.instructions@);
                let end = builder.instructions@.len() as int;
                if builder.constants@.len() <= 65536 {
                    lemma_part(b1.instructions@, builder.instructions@, start, end, start, b1.instructions@.len() as int);
                }
            }
        },
        Expr::Call { .. } => {
            compile_call::<F>(builder, expr);
        },
        Expr::Index { object, index } => {
            compile_expr::<F>(builder, object);
            let ghost b1 = *builder;
            compile_expr::<F>(builder, index);
            let ghost b2 = *builder;
            builder.emit(Op::BinarySubscript);
            proof {
                lemma_grows_trans(a.instructions@, b1.instructions@, b2.instructions@);
                lemma_grows_trans(a.instructions@, b2.instructions@, builder.instructions@);
                let end = builder.instructions@.len() as int;
                if builder.constants@.len() <= 65536 {
                    lemma_part(b1.instructions@, builder.instructions@, start, end, start, b1.instructions@.len() as int);
                    lemma_expr_code_mono(**object, code_since(a, b1), start, scope_of(a), b1.constants@, builder.constants@);
                    lemma_part(b2.instructions@, builder.instructions@, start, end, b1.instructions@.len() as int, b2.instructions@.len() as int);
                }
            }
        },
        Expr::Attribute { object, name } => {
            compile_expr::<F>(builder, object);
            let ghost b1 = *builder;
            builder.emit(Op::LoadAttr(*name));
            proof {
                lemma_grows_trans(a.instructions@, b1.instructions@, builder.instructions@);
                let end = builder.instructions@.len() as int;
                if builder.constants@.len() <= 65536 {
                    lemma_part(b1.instructions@, builder.instructions@, start, end, start, b1.instructions@.len() as int);
                }
            }
        },
        Expr::List(_) => {
            compile_list::<F>(builder, expr);
        },
        Expr::Dict(_) => {
            compile_dict::<F>(builder, expr);
        },
        Expr::Compare { .. } => {
            compile_compare::<F>(builder, expr);
        },
    }
}

/// `and` / `or`: the left operand, a jump past the right operand that keeps
/// the left value when it decides, then the right operand.
#[verifier::rlimit(50)]
#[verifier::spinoff_prover]
fn compile_logic<F: FloatOps>(builder: &mut CodeBuilder, expr: &Expr)
    requires
        sound(*old(builder)),
        expr_ok(*expr),
        expr matches Expr::BinaryOp { op, .. } && (op == BinOp::And || op == BinOp::Or),
    ensures
        emits_expr(*old(builder), *final(builder), *expr),
    decreases expr, 0int,
{
    let ghost a = *builder;
    let ghost start = builder.instructions@.len() as int;
    match expr {
        Expr::BinaryOp { left, op, right } => {
            compile_expr::<F>(builder, left);
            let ghost b1 = *builder;
            let jump = if *op == BinOp::And {
                builder.emit(Op::JumpIfFalseOrPop(0))
            } else {
                builder.emit(Op::JumpIfTrueOrPop(0))
            };
            let ghost b2 = *builder;
            compile_expr::<F>(builder, right);
            let end = builder.current_offset();
            let ghost b3 = *builder;
            builder.patch_jump(jump, end);
            proof {
                lemma_grows_trans(a.instructions@, b1.instructions@, b2.instructions@);
                lemma_grows_trans(a.instructions@, b2.instructions@, b3.instructions@);
                lemma_grows_trans(a.instructions@, b3.instructions@, builder.instructions@);
                let e = end as int;
                if builder.constants@.len() <= 65536 {
                    lemma_part(b1.instructions@, builder.instructions@, start, e, start, b1.instructions@.len() as int);
                    lemma_expr_code_mono(**left, code_since(a, b1), start, scope_of(a), b1.constants@, builder.constants@);
                    lemma_part(b3.instructions@, builder.instructions@, start, e, b2.instructions@.len() as int, e);
                }
            }
        },
        _ => {},
    }
}

/// A call: the callee unless it is a global name, the arguments, and the call
/// instruction (`CallGlobal` names the global callee itself).
#[verifier::rlimit(50)]
#[verifier::spinoff_prover]
fn compile_call<F: FloatOps>(builder: &mut CodeBuilder, expr: &Expr)
    requires
        sound(*old(builder)),
        expr_ok(*expr),
        *expr is Call,
    ensures
        emits_expr(*old(builder), *final(builder), *expr),
    decreases expr, 0int,
{
    let ghost a = *builder;
    let ghost start = builder.instructions@.len() as int;
    let ghost sc = scope_of(a);
    match expr {
        Expr::Call { function, args } => {
            // A call of a global function skips pushing the function value
            let global_name: Option<Symbol> = match &**function {
                Expr::Identifier(name) => if !builder.resolve_name(*name) {
                    Some(*name)
                } else {
                    None
                },
                _ => None,
            };
            if global_name.is_none() {
                compile_expr::<F>(builder, function);
            }
            let ghost b1 = *builder;
            let ghost s1 = builder.instructions@.len() as int;
            proof {
                assert(global_name is Some <==> global_callee(**function, sc));
                assert(builder.instructions@.subrange(s1, s1) =~= Seq::<Op>::empty());
                assert(args@.subrange(0, 0) =~= Seq::<Expr>::empty());
            }
            let mut i: usize = 0;
            while i < args.len()
                invariant
                    *expr == (Expr::Call { function: *function, args: *args }),
                    exprs_ok(args@),
                    i <= args@.len(),
                    sound(*builder),
                    keeps_scope(a, *builder),
                    keeps_scope(b1, *builder),
                    scope_of(b1) == sc,
                    s1 == b1.instructions@.len(),
                    builder.instructions@.len() == s1 + exprs_len(args@.subrange(0, i as int), sc),
                    builder.constants@.len() <= 65536 ==> exprs_code(
                        args@.subrange(0, i as int),
                        builder.instructions@.subrange(s1, builder.instructions@.len() as int),
                        s1,
                        sc,
                        builder.constants@,
                    ),
                decreases args@.len() - i,
            {
                proof {
                    lemma_exprs_ok(args@, i as int);
                    let ghost e: Expr = *expr;
                    assert(decreases_to!(e => e->args@[i as int]));
                }
                let ghost b0 = *builder;
                compile_expr::<F>(builder, &args[i]);
                proof {
                    lemma_grows_trans(a.instructions@, b0.instructions@, builder.instructions@);
                    lemma_grows_trans(b1.instructions@, b0.instructions@, builder.instructions@);
                    let es = args@.subrange(0, i + 1);
                    assert(es.subrange(0, i as int) =~= args@.subrange(0, i as int));
                    assert(es[i as int] == args@[i as int]);
                    let e = builder.instructions@.len() as int;
                    if builder.constants@.len() <= 65536 {
                        let m = b0.instructions@.len() as int;
                        lemma_part(b0.instructions@, builder.instructions@, s1, e, s1, m);
                        lemma_exprs_code_mono(
                            args@.subrange(0, i as int),
                            b0.instructions@.subrange(s1, m),
                            s1,
                            sc,
                            b0.constants@,
                            builder.constants@,
                        );
                        assert(builder.instructions@.subrange(s1, e).subrange(m - s1, e - s1)
                            =~= code_since(b0, *builder));
                    }
                }
                i = i + 1;
            }
            let ghost b2 = *builder;
            match global_name {
                Some(name) => {
                    builder.emit(Op::CallGlobal(name, args.len() as u8));
                },
                None => {
                    builder.emit(Op::Call(args.len() as u8));
                },
            }
            proof {
                lemma_grows_trans(a.instructions@, b2.instructions@, builder.instructions@);
                assert(args@.subrange(0, args@.len() as int) =~= args@);
                let e = builder.instructions@.len() as int;
                if builder.constants@.len() <= 65536 {
                    if global_name is None {
                        lemma_part(b1.instructions@, builder.instructions@, start, e, start, s1);
                        lemma_expr_code_mono(**function, code_since(a, b1), start, sc, b1.constants@, builder.constants@);
                    }
                    lemma_part(b2.instructions@, builder.instructions@, start, e, s1, b2.instructions@.len() as int);
                }
            }
        },
        _ => {},
    }
}

/// A list display: the items, then `BuildList`.
#[verifier::rlimit(50)]
#[verifier::spinoff_prover]
fn compile_list<F: FloatOps>(builder: &mut CodeBuilder, expr: &Expr)
    requires
        sound(*old(builder)),
        expr_ok(*expr),
        *expr is List,
    ensures
        emits_expr(*old(builder), *final(builder), *expr),
    decreases expr, 0int,
{
    let ghost a = *builder;
    let ghost start = builder.instructions@.len() as int;
    let ghost sc = scope_of(a);
    match expr {
        Expr::List(items) => {
            proof {
                assert(builder.instructions@.subrange(start, start) =~= Seq::<Op>::empty());
                assert(items@.subrange(0, 0) =~= Seq::<Expr>::empty());
            }
            let mut i: usize = 0;
            while i < items.len()
                invariant
                    *expr == Expr::List(*items),
                    exprs_ok(items@),
                    i <= items@.len(),
                    sound(*builder),
                    keeps_scope(a, *builder),
                    start == a.instructions@.len(),
                    sc == scope_of(a),
                    builder.instructions@.len() == start + exprs_len(items@.subrange(0, i as int), sc),
                    builder.constants@.len() <= 65536 ==> exprs_code(
                        items@.subrange(0, i as int),
                        builder.instructions@.subrange(start, builder.instructions@.len() as int),
                        start,
                        sc,
                        builder.constants@,
                    ),
                decreases items@.len() - i,
            {
                proof {
                    lemma_exprs_ok(items@, i as int);
                    let ghost e: Expr = *expr;
                    assert(decreases_to!(e => e->List_0@[i as int]));
                }
                let ghost b0 = *builder;
                assert(scope_of(b0) == sc);
                compile_expr::<F>(builder, &items[i]);
                proof {
                    lemma_grows_trans(a.instructions@, b0.instructions@, builder.instructions@);
                    let es = items@.subrange(0, i + 1);
                    assert(es.subrange(0, i as int) =~= items@.subrange(0, i as int));
                    assert(es[i as int] == items@[i as int]);
                    let e = builder.instructions@.len() as int;
                    if builder.constants@.len() <= 65536 {
                        let m = b0.instructions@.len() as int;
                        lemma_part(b0.instructions@, builder.instructions@, start, e, start, m);
                        lemma_exprs_code_mono(
                            items@.subrange(0, i as int),
                            b0.instructions@.subrange(start, m),
                            start,
                            sc,
                            b0.constants@,
                            builder.constants@,
                        );
                        assert(builder.instructions@.subrange(start, e).subrange(m - start, e - start)
                            =~= code_since(b0, *builder));
                    }
                }
                i = i + 1;
            }
            let ghost b1 = *builder;
            builder.emit(Op::BuildList(items.len() as u16));
            proof {
                lemma_grows_trans(a.instructions@, b1.instructions@, builder.instructions@);
                assert(items@.subrange(0, items@.len() as int) =~= items@);
                let e = builder.instructions@.len() as int;
                if builder.constants@.len() <= 65536 {
                    lemma_part(b1.instructions@, builder.instructions@, start, e, start, b1.instructions@.len() as int);
                }
            }
        },
        _ => {},
    }
}

/// A dictionary display: each key and its value, then `BuildDict`.
#[verifier::rlimit(50)]
#[verifier::spinoff_prover]
fn compile_dict<F: FloatOps>(builder: &mut CodeBuilder, expr: &Expr)
    requires
        sound(*old(builder)),
        expr_ok(*expr),
        *expr is Dict,
    ensures
        emits_expr(*old(builder), *final(builder), *expr),
    decreases expr, 0int,
{
    let ghost a = *builder;
    let ghost start = builder.instructions@.len() as int;
    let ghost sc = scope_of(a);
    match expr {
        Expr::Dict(pairs) => {
            proof {
                assert(builder.instructions@.subrange(start, start) =~= Seq::<Op>::empty());
                assert(pairs@.subrange(0, 0) =~= Seq::<(Expr, Expr)>::empty());
            }
            let mut i: usize = 0;
            while i < pairs.len()
                invariant
                    *expr == Expr::Dict(*pairs),
                    expr_pairs_ok(pairs@),
                    i <= pairs@.len(),
                    sound(*builder),
                    keeps_scope(a, *builder),
                    start == a.instructions@.len(),
                    sc == scope_of(a),
                    builder.instructions@.len() == start + pairs_len(pairs@.subrange(0, i as int), sc),
                    builder.constants@.len() <= 65536 ==> pairs_code(
                        pairs@.subrange(0, i as int),
                        builder.instructions@.subrange(start, builder.instructions@.len() as int),
                        start,
                        sc,
                        builder.constants@,
                    ),
                decreases pairs@.len() - i,
            {
                proof {
                    lemma_expr_pairs_ok(pairs@, i as int);
                    let ghost e: Expr = *expr;
                    assert(decreases_to!(e => e->Dict_0@[i as int].0));
                    assert(decreases_to!(e => e->Dict_0@[i as int].1));
                }
                let ghost b0 = *builder;
                assert(scope_of(b0) == sc);
                compile_expr::<F>(builder, &pairs[i].0);
                let ghost b1 = *builder;
                assert(scope_of(b1) == sc);
                compile_expr::<F>(builder, &pairs[i].1);
                proof {
                    lemma_grows_trans(a.instructions@, b0.instructions@, b1.instructions@);
                    lemma_grows_trans(a.instructions@, b1.instructions@, builder.instructions@);
                    let ps = pairs@.subrange(0, i + 1);
                    assert(ps.subrange(0, i as int) =~= pairs@.subrange(0, i as int));
                    assert(ps[i as int] == pairs@[i as int]);
                    let e = builder.instructions@.len() as int;
                    if builder.constants@.len() <= 65536 {
                        let m0 = b0.instructions@.len() as int;
                        let m1 = b1.instructions@.len() as int;
                        lemma_part(b0.instructions@, builder.instructions@, start, e, start, m0);
                        lemma_pairs_code_mono(
                            pairs@.subrange(0, i as int),
                            b0.instructions@.subrange(start, m0),
                            start,
                            sc,
                            b0.constants@,
                            builder.constants@,
                        );
                        lemma_part(b1.instructions@, builder.instructions@, start, e, m0, m1);
                        lemma_expr_code_mono(pairs@[i as int].0, code_since(b0, b1), m0, sc, b1.constants@, builder.constants@);
                        assert(builder.instructions@.subrange(start, e).subrange(m1 - start, e - start)
                            =~= code_since(b1, *builder));
                    }
                }
                i = i + 1;
            }
            let ghost b1 = *builder;
            builder.emit(Op::BuildDict(pairs.len() as u16));
            proof {
                lemma_grows_trans(a.instructions@, b1.instructions@, builder.instructions@);
                assert(pairs@.subrange(0, pairs@.len() as int) =~= pairs@);
                let e = builder.instructions@.len() as int;
                if builder.constants@.len() <= 65536 {
                    lemma_part(b1.instructions@, builder.instructions@, start, e, start, b1.instructions@.len() as int);
                }
            }
        },
        _ => {},
    }
}

/// A comparison: left operand, first comparand, comparison; a chain
/// `a op1 b op2 c` continues as `(a op1 b) and (b op2 c)`, each link
/// jumping to the end when the result so far is false.
#[verifier::rlimit(80)]
#[verifier::spinoff_prover]
fn compile_compare<F: FloatOps>(builder: &mut CodeBuilder, expr: &Expr)
    requires
        sound(*old(builder)),
        expr_ok(*expr),
        *expr is Compare,
    ensures
        emits_expr(*old(builder), *final(builder), *expr),
    decreases expr, 0int,
{
    let ghost a = *builder;
    let ghost start = builder.instructions@.len() as int;
    let ghost sc = scope_of(a);
    match expr {
        Expr::Compare { left, ops, comparators } => {
            proof {
                lemma_exprs_ok(comparators@, 0);
                let ghost e: Expr = *expr;
                assert(decreases_to!(e => e->comparators@[0]));
            }
            compile_expr::<F>(builder, left);
            let ghost b1 = *builder;
            compile_expr::<F>(builder, &comparators[0]);
            let ghost b2 = *builder;
            emit_comparison(builder, &ops[0]);
            let ghost b3 = *builder;
            let ghost ls = b3.instructions@.len() as int;
            proof {
                lemma_grows_trans(a.instructions@, b1.instructions@, b2.instructions@);
                lemma_grows_trans(a.instructions@, b2.instructions@, builder.instructions@);
                assert(builder.instructions@.subrange(ls, ls) =~= Seq::<Op>::empty());
            }
            let mut end_jumps: Vec<usize> = Vec::new();
            let mut i: usize = 1;
            while i < ops.len()
                invariant
                    *expr == (Expr::Compare { left: *left, ops: *ops, comparators: *comparators }),
                    exprs_ok(comparators@),
                    1 <= ops@.len() <= comparators@.len(),
                    1 <= i <= ops@.len(),
                    sound(*builder),
                    keeps_scope(a, *builder),
                    keeps_scope(b3, *builder),
                    scope_of(b3) == sc,
                    ls == b3.instructions@.len(),
                    ls >= start,
                    builder.instructions@.len() == ls + links_len(comparators@, i as int, sc),
                    end_jumps@.len() == i - 1,
                    forall|k: int|
                        0 <= k < end_jumps@.len() ==> {
                            let p = #[trigger] end_jumps@[k];
                            &&& p == ls + links_len(comparators@, k + 1, sc)
                            &&& p < builder.instructions@.len()
                            &&& is_plain_jump(builder.instructions@[p as int])
                        },
                    builder.constants@.len() <= 65536 ==> links_code(
                        comparators@,
                        ops@,
                        i as int,
                        builder.instructions@.subrange(ls, builder.instructions@.len() as int),
                        ls,
                        0,
                        sc,
                        builder.constants@,
                    ),
                decreases ops@.len() - i,
            {
                let ghost b0 = *builder;
                let j = builder.emit(Op::JumpIfFalseOrPop(0));
                end_jumps.push(j);
                proof {
                    lemma_exprs_ok(comparators@, i - 1);
                    lemma_exprs_ok(comparators@, i as int);
                    let ghost e: Expr = *expr;
                    assert(decreases_to!(e => e->comparators@[i - 1]));
                    assert(decreases_to!(e => e->comparators@[i as int]));
                }
                let ghost c1 = *builder;
                compile_expr::<F>(builder, &comparators[i - 1]);
                let ghost c2 = *builder;
                compile_expr::<F>(builder, &comparators[i]);
                let ghost c3 = *builder;
                emit_comparison(builder, &ops[i]);
                proof {
                    lemma_grows_trans(a.instructions@, b0.instructions@, c1.instructions@);
                    lemma_grows_trans(a.instructions@, c1.instructions@, c2.instructions@);
                    lemma_grows_trans(a.instructions@, c2.instructions@, c3.instructions@);
                    lemma_grows_trans(a.instructions@, c3.instructions@, builder.instructions@);
                    lemma_grows_trans(b3.instructions@, b0.instructions@, c1.instructions@);
                    lemma_grows_trans(b3.instructions@, c1.instructions@, c2.instructions@);
                    lemma_grows_trans(b3.instructions@, c2.instructions@, c3.instructions@);
                    lemma_grows_trans(b3.instructions@, c3.instructions@, builder.instructions@);
                    lemma_grows_trans(b0.instructions@, c1.instructions@, c2.instructions@);
                    lemma_grows_trans(b0.instructions@, c2.instructions@, c3.instructions@);
                    lemma_grows_trans(b0.instructions@, c3.instructions@, builder.instructions@);
                    assert forall|k: int| 0 <= k < end_jumps@.len() implies {
                        let p = #[trigger] end_jumps@[k];
                        &&& p == ls + links_len(comparators@, k + 1, sc)
                        &&& p < builder.instructions@.len()
                        &&& is_plain_jump(builder.instructions@[p as int])
                    } by {
                        let p = end_jumps@[k];
                        if k < end_jumps@.len() - 1 {
                            assert(is_plain_jump(b0.instructions@[p as int]));
                        } else {
                            assert(is_plain_jump(c1.instructions@[p as int]));
                        }
                    }
                    let e = builder.instructions@.len() as int;
                    let p = (b0.instructions@.len() - ls) as int;
                    if builder.constants@.len() <= 65536 {
                        let m1 = c1.instructions@.len() as int;
                        let m2 = c2.instructions@.len() as int;
                        let m3 = c3.instructions@.len() as int;
                        lemma_part(b0.instructions@, builder.instructions@, ls, e, ls, ls + p);
                        lemma_links_code_mono(
                            comparators@,
                            ops@,
                            i as int,
                            b0.instructions@.subrange(ls, ls + p),
                            ls,
                            0,
                            sc,
                            b0.constants@,
                            builder.constants@,
                        );
                        lemma_part(c2.instructions@, builder.instructions@, ls, e, m1, m2);
                        lemma_expr_code_mono(comparators@[i - 1], code_since(c1, c2), m1, sc, c2.constants@, builder.constants@);
                        lemma_part(c3.instructions@, builder.instructions@, ls, e, m2, m3);
                        assert(builder.instructions@.subrange(ls, e)[p] == Op::JumpIfFalseOrPop(0));
                    }
                }
                i = i + 1;
            }
            let end = builder.current_offset();
            let ghost pre = builder.instructions@;
            let ghost pre_b = *builder;
            let ghost n = ops@.len() as int;
            let mut k: usize = 0;
            while k < end_jumps.len()
                invariant
                    end == builder.instructions@.len(),
                    end == pre.len(),
                    k <= end_jumps@.len(),
                    sound(*builder),
                    keeps_scope(a, *builder),
                    start == a.instructions@.len(),
                    builder.constants == pre_b.constants,
                    builder.local_slots == pre_b.local_slots,
                    builder.is_function == pre_b.is_function,
                    ls >= start,
                    forall|q: int|
                        0 <= q < end_jumps@.len() ==> {
                            let p = #[trigger] end_jumps@[q];
                            &&& p == ls + links_len(comparators@, q + 1, sc)
                            &&& p < end
                            &&& is_plain_jump(pre[p as int])
                            &&& is_plain_jump(builder.instructions@[p as int])
                        },
                    forall|q: int|
                        0 <= q < k ==> #[trigger] builder.instructions@[end_jumps@[q] as int] == with_target(
                            pre[end_jumps@[q] as int],
                            end as u32,
                        ),
                    forall|x: int|
                        0 <= x < end && (forall|q: int| 0 <= q < k ==> end_jumps@[q] != x)
                            ==> #[trigger] builder.instructions@[x] == pre[x],
                decreases end_jumps@.len() - k,
            {
                let ghost b0 = *builder;
                let ghost x0 = end_jumps@[k as int] as int;
                assert(x0 == ls + links_len(comparators@, k + 1, sc));
                assert(x0 >= start);
                builder.patch_jump(end_jumps[k], end);
                proof {
                    lemma_grows_trans(a.instructions@, b0.instructions@, builder.instructions@);
                    assert forall|q: int| 0 <= q < k + 1 implies #[trigger] builder.instructions@[end_jumps@[q] as int]
                        == with_target(pre[end_jumps@[q] as int], end as u32) by {
                        let x = end_jumps@[q] as int;
                        if x == x0 {
                            if !(exists|r: int| 0 <= r < k && end_jumps@[r] == x) {
                                assert(b0.instructions@[x] == pre[x]);
                            }
                        }
                    }
                    assert forall|x: int|
                        0 <= x < end && (forall|q: int| 0 <= q < k + 1 ==> end_jumps@[q] != x)
                        implies #[trigger] builder.instructions@[x] == pre[x] by {
                        assert(end_jumps@[k as int] != x);
                    }
                }
                k = k + 1;
            }
            proof {
                let e = end as int;
                let seg = pre.subrange(ls, e);
                let seg2 = builder.instructions@.subrange(ls, e);
                if builder.constants@.len() <= 65536 {
                    assert forall|q: int| 0 <= q < seg.len() implies if is_link_jump(comparators@, n, q, sc) {
                        #[trigger] seg2[q] == with_target(seg[q], e as u32)
                    } else {
                        seg2[q] == seg[q]
                    } by {
                        if is_link_jump(comparators@, n, q, sc) {
                            let kk = lemma_link_jump_index(comparators@, n, q, sc);
                            assert(end_jumps@[kk] == ls + q);
                        } else {
                            assert forall|r: int| 0 <= r < end_jumps@.len() implies end_jumps@[r] != ls + q by {
                                lemma_link_jump_at(comparators@, n, r, sc);
                            }
                        }
                    }
                    lemma_links_retarget(comparators@, ops@, n, seg, seg2, ls, 0, e, sc, builder.constants@);
                    lemma_part(b1.instructions@, builder.instructions@, start, e, start, b1.instructions@.len() as int);
                    lemma_expr_code_mono(**left, code_since(a, b1), start, sc, b1.constants@, builder.constants@);
                    lemma_part(b2.instructions@, builder.instructions@, start, e, b1.instructions@.len() as int, b2.instructions@.len() as int);
                    lemma_expr_code_mono(comparators@[0], code_since(b1, b2), b1.instructions@.len() as int, sc, b2.constants@, builder.constants@);
                    assert(builder.instructions@.subrange(start, e).subrange(ls - start, e - start) =~= seg2);
                    assert(builder.instructions@[b2.instructions@.len() as int] == b3.instructions@[b2.instructions@.len() as int]);
                }
            }
        },
        _ => {},
    }
}

/// Emits the instruction of an arithmetic operator.
fn emit_binop(builder: &mut CodeBuilder, op: &BinOp)
    requires
        sound(*old(builder)),
        *op != BinOp::And,
        *op != BinOp::Or,
    ensures
        sound(*final(builder)),
        keeps_scope(*old(builder), *final(builder)),
        final(builder).instructions@ == old(builder).instructions@.push(binop_instruction(*op)),
        final(builder).constants == old(builder).constants,
{
    let instr = match op {
        BinOp::Add => Op::BinaryAdd,
        BinOp::Sub => Op::BinarySub,
        BinOp::Mul => Op::BinaryMul,
        BinOp::Div => Op::BinaryDiv,
        BinOp::FloorDiv => Op::BinaryFloorDiv,
        BinOp::Mod => Op::BinaryMod,
        BinOp::Pow => Op::BinaryPow,
        BinOp::And => Op::BinaryAdd,
        BinOp::Or => Op::BinaryAdd,
    };
    builder.emit(instr);
}

/// The instruction of an arithmetic operator.
pub open spec fn binop_instruction(op: BinOp) -> Op {
    match op {
        BinOp::Add => Op::BinaryAdd,
        BinOp::Sub => Op::BinarySub,
        BinOp::Mul => Op::BinaryMul,
        BinOp::Div => Op::BinaryDiv,
        BinOp::FloorDiv => Op::BinaryFloorDiv,
        BinOp::Mod => Op::BinaryMod,
        BinOp::Pow => Op::BinaryPow,
        _ => Op::BinaryAdd,
    }
}

/// The instruction of a comparison operator.
pub open spec fn comparison_instruction(op: CmpOp) -> Op {
    match op {
        CmpOp::Eq => Op::CompareEq,
        CmpOp::NotEq => Op::CompareNotEq,
        CmpOp::Lt => Op::CompareLt,
        CmpOp::LtE => Op::CompareLtE,
        CmpOp::Gt => Op::CompareGt,
        CmpOp::GtE => Op::CompareGtE,
        CmpOp::In => Op::CompareIn,
        CmpOp::NotIn => Op::CompareNotIn,
    }
}

/// Emits the instruction of a comparison operator.
fn emit_comparison(builder: &mut CodeBuilder, op: &CmpOp)
    requires
        sound(*old(builder)),
    ensures
        sound(*final(builder)),
        keeps_scope(*old(builder), *final(builder)),
        final(builder).instructions@ == old(builder).instructions@.push(comparison_instruction(*op)),
        final(builder).constants == old(builder).constants,
{
    let instr = match op {
        CmpOp::Eq => Op::CompareEq,
        CmpOp::NotEq => Op::CompareNotEq,
        CmpOp::Lt => Op::CompareLt,
        CmpOp::LtE => Op::CompareLtE,
        CmpOp::Gt => Op::CompareGt,
        CmpOp::GtE => Op::CompareGtE,
        CmpOp::In => Op::CompareIn,
        CmpOp::NotIn => Op::CompareNotIn,
    };
    builder.emit(instr);
}


/// Compiles a list of top-level statements into a code object: the code of
/// the statements (`block_code`, with every function definition's code
/// object compiled the same way), run through the peephole pass
/// (`optimized`) -- exactly so whenever the constant pool fits the 16-bit
/// constant indices, which it does when the statements' code has at most
/// 65536 instructions before the peephole pass: each constant comes with an
/// instruction that loads it. Every jump lands inside the code or just past its end,
/// no shared constant (integer, boolean, `None`) is stored twice, and module
/// code has no named local slots: its variables are globals. The code is
/// stack safe (`law_module_stack_safe`).
pub fn compile_module<F: FloatOps>(stmts: &[Stmt], interner: &mut Interner) -> (code: CodeObject)
    requires
        block_ok(stmts@, false),
    ensures
        jumps_in_range(code.instructions@),
        consts_distinct(code.constants@),
        code.local_slots@ == Map::<u32, u16>::empty(),
        code.constants@.len() <= block_len(stmts@, Scope { locals: Map::empty(), in_fn: false }),
        block_len(stmts@, Scope { locals: Map::empty(), in_fn: false }) <= 65536 ==> module_code(stmts@, code),
        block_len(stmts@, Scope { locals: Map::empty(), in_fn: false }) <= 65536 ==> stack_safe(code.instructions@),
        code.constants@.len() <= 65536 ==> module_code(stmts@, code),
        code.constants@.len() <= 65536 && block_len(stmts@, Scope { locals: Map::empty(), in_fn: false })
            < u32::MAX ==> stack_safe(code.instructions@),
        *final(interner) == *old(interner),
{
    let mut builder = CodeBuilder::new(false);
    proof {
        assert(first_loads(builder.instructions@) =~= Seq::new(0, |i: int| i));
        assert(sound(builder));
    }
    let ghost b0 = builder;
    compile_block::<F>(&mut builder, stmts);
    let ghost b1 = builder;
    let code = builder.build();
    proof {
        if code.constants@.len() <= 65536 {
            let sc = Scope { locals: Map::empty(), in_fn: false };
            assert(scope_of(b0) == sc);
            assert(code_since(b0, b1) =~= b1.instructions@);
            assert(block_code(stmts@, b1.instructions@, 0, sc, code.constants@, 0, 0));
            if block_len(stmts@, sc) < u32::MAX {
                law_module_stack_safe(stmts@, code);
            }
        }
    }
    code
}

/// Compiles a function body into a code object with local slots: the
/// parameters get the first slots, then every name the body assigns.
fn compile_function<F: FloatOps>(params: &[Symbol], body: &[Stmt]) -> (code: CodeObject)
    requires
        block_ok(body@, false),
    ensures
        jumps_in_range(code.instructions@),
        consts_distinct(code.constants@),
        forall|i: int| 0 <= i < params@.len() ==> code.local_slots@.contains_key(#[trigger] params@[i].0),
        code.constants@.len() <= block_len(body@, Scope { locals: function_slots(params@, body@).0, in_fn: true }),
        code.constants@.len() <= 65536 ==> function_code(params@, body@, code),
    decreases body@, 1int,
{
    let mut builder = CodeBuilder::new(true);
    // Assign slots for params first
    let mut i: usize = 0;
    while i < params.len()
        invariant
            i <= params@.len(),
            builder.instructions@.len() == 0,
            builder.constants@.len() == 0,
            builder.loop_stack@.len() == 0,
            builder.is_function,
            forall|j: int| 0 <= j < i ==> builder.local_slots@.contains_key(#[trigger] params@[j].0),
            (builder.local_slots@, builder.num_locals) == param_slots16(params@, i as int),
        decreases params@.len() - i,
    {
        let slot = builder.num_locals;
        builder.local_slots.insert(params[i].0, slot);
        builder.num_locals = builder.num_locals.wrapping_add(1);
        i = i + 1;
    }
    // Scan body for local assignments
    scan_locals(body, &mut builder);
    proof {
        assert(first_loads(builder.instructions@) =~= Seq::new(0, |i: int| i));
        assert(sound(builder));
    }
    let ghost before = builder;
    compile_block::<F>(&mut builder, body);
    let ghost b1 = builder;
    // Ensure we always return
    builder.emit(Op::ReturnNone);
    proof {
        assert(builder.local_slots == before.local_slots);
    }
    let ghost b2 = builder;
    let code = builder.build();
    proof {
        if code.constants@.len() <= 65536 {
            let sc = Scope { locals: code.local_slots@, in_fn: true };
            assert(scope_of(before) == sc);
            assert((before.local_slots@, before.num_locals) == function_slots(params@, body@));
            assert(code_since(before, b1) =~= b1.instructions@);
            assert(block_code(body@, b1.instructions@, 0, sc, code.constants@, before.num_locals, 0));
            assert(code.instructions@ == optimized(b1.instructions@.push(Op::ReturnNone), code.constants@));
            assert(code.num_locals == add16(before.num_locals, block_hidden(body@) as int));
        }
    }
    code
}

/// Gives a slot to every name that the statements assign (as a target of
/// `=`, an augmented assignment or a `for`), looking into nested blocks but
/// not into nested function definitions. Names that have a slot keep it.
#[verifier::spinoff_prover]
fn scan_locals(stmts: &[Stmt], builder: &mut CodeBuilder)
    ensures
        forall|k: u32| old(builder).local_slots@.contains_key(k) ==> #[trigger] final(builder).local_slots@.contains_key(k)
            && final(builder).local_slots@[k] == old(builder).local_slots@[k],
        (final(builder).local_slots@, final(builder).num_locals) == assign_slots(
            stmts@,
            0,
            old(builder).local_slots@,
            old(builder).num_locals,
        ),
        final(builder).instructions == old(builder).instructions,
        final(builder).constants == old(builder).constants,
        final(builder).is_function == old(builder).is_function,
        final(builder).loop_stack == old(builder).loop_stack,
    decreases stmts@,
{
    let mut i: usize = 0;
    while i < stmts.len()
        invariant
            i <= stmts@.len(),
            assign_slots(stmts@, 0, old(builder).local_slots@, old(builder).num_locals) == assign_slots(
                stmts@,
                i as int,
                builder.local_slots@,
                builder.num_locals,
            ),
            builder.instructions == old(builder).instructions,
            builder.constants == old(builder).constants,
            builder.is_function == old(builder).is_function,
            builder.loop_stack == old(builder).loop_stack,
        decreases stmts@.len() - i,
    {
        let ghost st: Stmt = stmts@[i as int];
        let ghost m0 = builder.local_slots@;
        let ghost n0 = builder.num_locals;
        match &stmts[i] {
            Stmt::Assign { target, .. } | Stmt::AugAssign { target, .. } => {
                add_local(builder, *target);
            },
            Stmt::For { target, body, .. } => {
                add_local(builder, *target);
                proof {
                    assert(decreases_to!(stmts@ => st));
                    assert(decreases_to!(st => st->For_body@));
                }
                scan_locals(body.as_slice(), builder);
            },
            Stmt::If { body, elif_clauses, else_body, .. } => {
                proof {
                    assert(decreases_to!(stmts@ => st));
                    assert(decreases_to!(st => st->If_body@));
                }
                scan_locals(body.as_slice(), builder);
                let ghost after_body = (builder.local_slots@, builder.num_locals);
                let mut j: usize = 0;
                while j < elif_clauses.len()
                    invariant
                        st == (Stmt::If { condition: st->If_condition, body: *body, elif_clauses: *elif_clauses, else_body: *else_body }),
                        decreases_to!(stmts@ => st),
                        j <= elif_clauses@.len(),
                        assign_slots_elifs(st, 0, after_body.0, after_body.1) == assign_slots_elifs(
                            st,
                            j as int,
                            builder.local_slots@,
                            builder.num_locals,
                        ),
                        builder.instructions == old(builder).instructions,
                        builder.constants == old(builder).constants,
                        builder.is_function == old(builder).is_function,
                        builder.loop_stack == old(builder).loop_stack,
                    decreases elif_clauses@.len() - j,
                {
                    proof {
                        assert(decreases_to!(st => st->elif_clauses@[j as int].1@));
                    }
                    scan_locals(elif_clauses[j].1.as_slice(), builder);
                    j = j + 1;
                }
                match else_body {
                    Some(b) => {
                        proof {
                            assert(decreases_to!(st => st->else_body->Some_0@));
                        }
                        scan_locals(b.as_slice(), builder);
                    },
                    None => {},
                }
            },
            Stmt::While { body, .. } => {
                proof {
                    assert(decreases_to!(stmts@ => st));
                    assert(decreases_to!(st => st->While_body@));
                }
                scan_locals(body.as_slice(), builder);
            },
            _ => {},
        }
        proof {
            assert((builder.local_slots@, builder.num_locals) == assign_slots_stmt(st, m0, n0));
        }
        i = i + 1;
    }
    proof {
        assert forall|k: u32| old(builder).local_slots@.contains_key(k) implies #[trigger] builder.local_slots@.contains_key(k)
            && builder.local_slots@[k] == old(builder).local_slots@[k] by {
            lemma_assign_slots_keeps(stmts@, 0, old(builder).local_slots@, old(builder).num_locals, k);
        }
    }
}

/// Gives `name` the next slot unless it has one.
fn add_local(builder: &mut CodeBuilder, name: Symbol)
    ensures
        forall|k: u32| old(builder).local_slots@.contains_key(k) ==> #[trigger] final(builder).local_slots@.contains_key(k)
            && final(builder).local_slots@[k] == old(builder).local_slots@[k],
        final(builder).local_slots@.contains_key(name.0),
        (final(builder).local_slots@, final(builder).num_locals) == add_slot(
            old(builder).local_slots@,
            old(builder).num_locals,
            name.0,
        ),
        final(builder).instructions == old(builder).instructions,
        final(builder).constants == old(builder).constants,
        final(builder).is_function == old(builder).is_function,
        final(builder).loop_stack == old(builder).loop_stack,
{
    if !builder.local_slots.contains_key(&name.0) {
        let slot = builder.num_locals;
        builder.local_slots.insert(name.0, slot);
        builder.num_locals = builder.num_locals.wrapping_add(1);
    }
}

/// The offset that `continue` jumps to in the innermost loop of `b`.
spec fn cont_of(b: CodeBuilder) -> int {
    if b.loop_stack@.len() > 0 {
        b.loop_stack@.last().continue_target as int
    } else {
        0
    }
}

/// From `a` to `b` the loop contexts stay, except that the innermost one
/// gained the `break` jumps at the offsets (relative to the end of `a`'s
/// code) that `brk` marks.
spec fn loops_kept(a: CodeBuilder, b: CodeBuilder, brk: spec_fn(int) -> bool) -> bool {
    &&& b.loop_stack@.len() == a.loop_stack@.len()
    &&& forall|c: int| 0 <= c < a.loop_stack@.len() - 1 ==> #[trigger] b.loop_stack@[c] == a.loop_stack@[c]
    &&& a.loop_stack@.len() > 0 ==> {
        &&& b.loop_stack@.last().continue_target == a.loop_stack@.last().continue_target
        &&& forall|p: usize|
            #[trigger] b.loop_stack@.last().break_patches@.contains(p) <==> (
            a.loop_stack@.last().break_patches@.contains(p) || brk(p - a.instructions@.len()))
    }
}

/// `b` follows `a` by the code of statement `s`.
spec fn emits_stmt(a: CodeBuilder, b: CodeBuilder, s: Stmt) -> bool {
    &&& sound(b)
    &&& keeps_context(a, b)
    &&& b.num_locals == add16(a.num_locals, stmt_hidden(s) as int)
    &&& b.instructions@.len() == a.instructions@.len() + stmt_len(s, scope_of(a))
    &&& loops_kept(a, b, |q: int| stmt_breaks(s, q, scope_of(a)))
    &&& b.constants@.len() <= 65536 ==> stmt_code(
        s,
        code_since(a, b),
        a.instructions@.len() as int,
        scope_of(a),
        b.constants@,
        a.num_locals,
        cont_of(a),
    )
}

/// `b` follows `a` by the code of the block `stmts`.
spec fn emits_block(a: CodeBuilder, b: CodeBuilder, stmts: Seq<Stmt>) -> bool {
    &&& sound(b)
    &&& keeps_context(a, b)
    &&& b.num_locals == add16(a.num_locals, block_hidden(stmts) as int)
    &&& b.instructions@.len() == a.instructions@.len() + block_len(stmts, scope_of(a))
    &&& loops_kept(a, b, |q: int| block_breaks(stmts, q, scope_of(a)))
    &&& b.constants@.len() <= 65536 ==> block_code(
        stmts,
        code_since(a, b),
        a.instructions@.len() as int,
        scope_of(a),
        b.constants@,
        a.num_locals,
        cont_of(a),
    )
}

proof fn lemma_add16(n: u16, x: int, y: int)
    requires
        x >= 0,
        y >= 0,
    ensures
        add16(add16(n, x), y) == add16(n, x + y),
{
    vstd::arithmetic::div_mod::lemma_add_mod_noop_right(y, n + x, 65536);
}

/// Loop contexts kept in two steps are kept in one.
proof fn lemma_loops_trans(
    a: CodeBuilder,
    b: CodeBuilder,
    c: CodeBuilder,
    brk1: spec_fn(int) -> bool,
    brk2: spec_fn(int) -> bool,
    brk: spec_fn(int) -> bool,
)
    requires
        loops_kept(a, b, brk1),
        loops_kept(b, c, brk2),
        forall|p: int| #[trigger] brk(p - a.instructions@.len()) <==> (brk1(p - a.instructions@.len()) || brk2(
            p - b.instructions@.len(),
        )),
    ensures
        loops_kept(a, c, brk),
{
    if a.loop_stack@.len() > 0 {
        assert forall|p: usize| #[trigger] c.loop_stack@.last().break_patches@.contains(p) <==> (
        a.loop_stack@.last().break_patches@.contains(p) || brk(p - a.instructions@.len())) by {
            assert(brk(p - a.instructions@.len()) <==> (brk1(p - a.instructions@.len()) || brk2(
                p - b.instructions@.len(),
            )));
            assert(b.loop_stack@.last().break_patches@.contains(p) <==> (
            a.loop_stack@.last().break_patches@.contains(p) || brk1(p - a.instructions@.len())));
        }
    }
}

/// Points the plain jumps at `positions` to `target`.
fn patch_all(builder: &mut CodeBuilder, positions: &Vec<usize>, target: usize)
    requires
        sound(*old(builder)),
        target == old(builder).instructions@.len(),
        forall|k: int|
            0 <= k < positions@.len() ==> {
                let p = #[trigger] positions@[k];
                &&& p < old(builder).instructions@.len()
                &&& is_plain_jump(old(builder).instructions@[p as int])
            },
    ensures
        sound(*final(builder)),
        grows(old(builder).instructions@, final(builder).instructions@),
        final(builder).instructions@.len() == old(builder).instructions@.len(),
        forall|x: int|
            0 <= x < old(builder).instructions@.len() ==> #[trigger] final(builder).instructions@[x] == if positions@.contains(
                x as usize,
            ) {
                with_target(old(builder).instructions@[x], target as u32)
            } else {
                old(builder).instructions@[x]
            },
        final(builder).constants == old(builder).constants,
        final(builder).local_slots == old(builder).local_slots,
        final(builder).num_locals == old(builder).num_locals,
        final(builder).is_function == old(builder).is_function,
        final(builder).loop_stack == old(builder).loop_stack,
{
    let ghost pre = builder.instructions@;
    let mut k: usize = 0;
    while k < positions.len()
        invariant
            target == pre.len(),
            builder.instructions@.len() == pre.len(),
            k <= positions@.len(),
            sound(*builder),
            grows(pre, builder.instructions@),
            builder.constants == old(builder).constants,
            builder.local_slots == old(builder).local_slots,
            builder.num_locals == old(builder).num_locals,
            builder.is_function == old(builder).is_function,
            builder.loop_stack == old(builder).loop_stack,
            pre == old(builder).instructions@,
            forall|q: int|
                0 <= q < positions@.len() ==> {
                    let p = #[trigger] positions@[q];
                    &&& p < pre.len()
                    &&& is_plain_jump(pre[p as int])
                    &&& is_plain_jump(builder.instructions@[p as int])
                },
            forall|x: int|
                0 <= x < pre.len() ==> #[trigger] builder.instructions@[x] == if positions@.subrange(
                    0,
                    k as int,
                ).contains(x as usize) {
                    with_target(pre[x], target as u32)
                } else {
                    pre[x]
                },
        decreases positions@.len() - k,
    {
        let ghost b0 = *builder;
        let ghost x0 = positions@[k as int] as int;
        builder.patch_jump(positions[k], target);
        proof {
            lemma_grows_trans(pre, b0.instructions@, builder.instructions@);
            let s0 = positions@.subrange(0, k as int);
            let s1 = positions@.subrange(0, k + 1);
            assert(s1 =~= s0.push(positions@[k as int]));
            assert forall|x: int| 0 <= x < pre.len() implies #[trigger] builder.instructions@[x] == if positions@.subrange(
                0,
                k + 1,
            ).contains(x as usize) {
                with_target(pre[x], target as u32)
            } else {
                pre[x]
            } by {
                assert(x as usize as int == x);
                lemma_push_contains(s0, positions@[k as int], x as usize);
                if x == x0 {
                    assert(is_plain_jump(pre[x]));
                }
            }
            assert forall|q: int| 0 <= q < positions@.len() implies is_plain_jump(
                builder.instructions@[#[trigger] positions@[q] as int],
            ) by {
                assert(is_plain_jump(b0.instructions@[positions@[q] as int]));
            }
        }
        k = k + 1;
    }
    proof {
        assert(positions@.subrange(0, positions@.len() as int) =~= positions@);
    }
}

#[verifier::rlimit(60)]
#[verifier::spinoff_prover]
fn compile_block<F: FloatOps>(builder: &mut CodeBuilder, stmts: &[Stmt])
    requires
        sound(*old(builder)),
        block_ok(stmts@, old(builder).loop_stack@.len() > 0),
    ensures
        emits_block(*old(builder), *final(builder), stmts@),
    decreases stmts@, 0int,
{
    let ghost a = *builder;
    let ghost start = a.instructions@.len() as int;
    let ghost sc = scope_of(a);
    proof {
        assert(stmts@.subrange(0, 0) =~= Seq::<Stmt>::empty());
        assert(builder.instructions@.subrange(start, start) =~= Seq::<Op>::empty());
        assert((a.num_locals as int + 0) % 65536 == a.num_locals as int);
    }
    let mut i: usize = 0;
    while i < stmts.len()
        invariant
            i <= stmts@.len(),
            block_ok(stmts@, a.loop_stack@.len() > 0),
            a == *old(builder),
            start == a.instructions@.len(),
            sc == scope_of(a),
            sound(*builder),
            keeps_context(a, *builder),
            builder.num_locals == add16(a.num_locals, block_hidden(stmts@.subrange(0, i as int)) as int),
            builder.instructions@.len() == start + block_len(stmts@.subrange(0, i as int), sc),
            loops_kept(a, *builder, |q: int| block_breaks(stmts@.subrange(0, i as int), q, sc)),
            builder.constants@.len() <= 65536 ==> block_code(
                stmts@.subrange(0, i as int),
                builder.instructions@.subrange(start, builder.instructions@.len() as int),
                start,
                sc,
                builder.constants@,
                a.num_locals,
                cont_of(a),
            ),
        decreases stmts@.len() - i,
    {
        proof {
            lemma_block_ok(stmts@, a.loop_stack@.len() > 0, i as int);
        }
        let ghost b0 = *builder;
        assert(scope_of(b0) == sc);
        assert(cont_of(b0) == cont_of(a));
        compile_stmt::<F>(builder, &stmts[i]);
        proof {
            let init = stmts@.subrange(0, i as int);
            let bb = stmts@.subrange(0, i + 1);
            assert(bb.subrange(0, i as int) =~= init);
            assert(bb[i as int] == stmts@[i as int]);
            lemma_grows_trans(a.instructions@, b0.instructions@, builder.instructions@);
            lemma_add16(a.num_locals, block_hidden(init) as int, stmt_hidden(stmts@[i as int]) as int);
            lemma_loops_trans(
                a,
                b0,
                *builder,
                |q: int| block_breaks(init, q, sc),
                |q: int| stmt_breaks(stmts@[i as int], q, sc),
                |q: int| block_breaks(bb, q, sc),
            );
            let e = builder.instructions@.len() as int;
            if builder.constants@.len() <= 65536 {
                let m = b0.instructions@.len() as int;
                lemma_part(b0.instructions@, builder.instructions@, start, e, start, m);
                lemma_block_code_mono(
                    init,
                    b0.instructions@.subrange(start, m),
                    start,
                    sc,
                    b0.constants@,
                    builder.constants@,
                    a.num_locals,
                    cont_of(a),
                );
                assert(builder.instructions@.subrange(start, e).subrange(m - start, e - start) =~= code_since(
                    b0,
                    *builder,
                ));
            }
        }
        i = i + 1;
    }
    proof {
        assert(stmts@.subrange(0, stmts@.len() as int) =~= stmts@);
    }
}

/// Pushes a fresh loop context whose `continue` jumps to `target`.
fn enter_loop(builder: &mut CodeBuilder, target: usize)
    requires
        sound(*old(builder)),
        target <= old(builder).instructions@.len(),
    ensures
        sound(*final(builder)),
        final(builder).instructions == old(builder).instructions,
        final(builder).constants == old(builder).constants,
        final(builder).local_slots == old(builder).local_slots,
        final(builder).num_locals == old(builder).num_locals,
        final(builder).is_function == old(builder).is_function,
        final(builder).loop_stack@.len() == old(builder).loop_stack@.len() + 1,
        forall|c: int| 0 <= c < old(builder).loop_stack@.len() ==> #[trigger] final(builder).loop_stack@[c] == old(builder).loop_stack@[c],
        final(builder).loop_stack@.last().continue_target == target,
        final(builder).loop_stack@.last().break_patches@.len() == 0,
{
    let ghost before = *builder;
    builder.loop_stack.push(LoopContext { continue_target: target, break_patches: Vec::new() });
    proof {
        assert forall|c: int| 0 <= c < builder.loop_stack@.len() implies {
            let ctx = #[trigger] builder.loop_stack@[c];
            &&& ctx.continue_target <= builder.instructions@.len()
            &&& forall|k: int|
                0 <= k < ctx.break_patches@.len() ==> {
                    let p = #[trigger] ctx.break_patches@[k];
                    &&& p < builder.instructions@.len()
                    &&& is_plain_jump(builder.instructions@[p as int])
                }
        } by {
            if c < before.loop_stack@.len() {
                assert(builder.loop_stack@[c] == before.loop_stack@[c]);
            }
        }
    }
}

/// Pops the innermost loop context and points its `break` jumps at the
/// current end of the code.
fn leave_loop(builder: &mut CodeBuilder)
    requires
        sound(*old(builder)),
        old(builder).loop_stack@.len() > 0,
    ensures
        sound(*final(builder)),
        grows(old(builder).instructions@, final(builder).instructions@),
        final(builder).instructions@.len() == old(builder).instructions@.len(),
        forall|x: int|
            0 <= x < old(builder).instructions@.len() ==> #[trigger] final(builder).instructions@[x] == if old(
                builder,
            ).loop_stack@.last().break_patches@.contains(x as usize) {
                with_target(old(builder).instructions@[x], old(builder).instructions@.len() as u32)
            } else {
                old(builder).instructions@[x]
            },
        final(builder).constants == old(builder).constants,
        final(builder).local_slots == old(builder).local_slots,
        final(builder).num_locals == old(builder).num_locals,
        final(builder).is_function == old(builder).is_function,
        final(builder).loop_stack@ == old(builder).loop_stack@.drop_last(),
{
    let ghost before = *builder;
    let popped = builder.loop_stack.pop();
    match popped {
        Some(ctx) => {
            proof {
                assert(ctx == before.loop_stack@[before.loop_stack@.len() - 1]);
                assert forall|c: int| 0 <= c < builder.loop_stack@.len() implies {
                    let cx = #[trigger] builder.loop_stack@[c];
                    &&& cx.continue_target <= builder.instructions@.len()
                    &&& forall|k: int|
                        0 <= k < cx.break_patches@.len() ==> {
                            let p = #[trigger] cx.break_patches@[k];
                            &&& p < builder.instructions@.len()
                            &&& is_plain_jump(builder.instructions@[p as int])
                        }
                } by {
                    assert(builder.loop_stack@[c] == before.loop_stack@[c]);
                }
            }
            let end = builder.current_offset();
            patch_all(builder, &ctx.break_patches, end);
        },
        None => {},
    }
}

/// Records a pending `break` jump at `patch` in the innermost loop context.
fn add_break(builder: &mut CodeBuilder, patch: usize)
    requires
        sound(*old(builder)),
        old(builder).loop_stack@.len() > 0,
        patch < old(builder).instructions@.len(),
        is_plain_jump(old(builder).instructions@[patch as int]),
    ensures
        sound(*final(builder)),
        final(builder).instructions == old(builder).instructions,
        final(builder).constants == old(builder).constants,
        final(builder).local_slots == old(builder).local_slots,
        final(builder).num_locals == old(builder).num_locals,
        final(builder).is_function == old(builder).is_function,
        final(builder).loop_stack@.len() == old(builder).loop_stack@.len(),
        forall|c: int| 0 <= c < old(builder).loop_stack@.len() - 1 ==> #[trigger] final(builder).loop_stack@[c] == old(builder).loop_stack@[c],
        final(builder).loop_stack@.last().continue_target == old(builder).loop_stack@.last().continue_target,
        final(builder).loop_stack@.last().break_patches@ == old(builder).loop_stack@.last().break_patches@.push(patch),
{
    let ghost before = *builder;
    let popped = builder.loop_stack.pop();
    match popped {
        Some(ctx) => {
            let mut ctx = ctx;
            let ghost old_ctx = ctx;
            ctx.break_patches.push(patch);
            builder.loop_stack.push(ctx);
            proof {
                assert(old_ctx == before.loop_stack@[before.loop_stack@.len() - 1]);
                assert forall|c: int| 0 <= c < builder.loop_stack@.len() implies {
                    let cx = #[trigger] builder.loop_stack@[c];
                    &&& cx.continue_target <= builder.instructions@.len()
                    &&& forall|k: int|
                        0 <= k < cx.break_patches@.len() ==> {
                            let p = #[trigger] cx.break_patches@[k];
                            &&& p < builder.instructions@.len()
                            &&& is_plain_jump(builder.instructions@[p as int])
                        }
                } by {
                    if c < before.loop_stack@.len() - 1 {
                        assert(builder.loop_stack@[c] == before.loop_stack@[c]);
                    } else {
                        let cx = builder.loop_stack@[c];
                        assert forall|k: int| 0 <= k < cx.break_patches@.len() implies {
                            let p = #[trigger] cx.break_patches@[k];
                            &&& p < builder.instructions@.len()
                            &&& is_plain_jump(builder.instructions@[p as int])
                        } by {
                            if k < old_ctx.break_patches@.len() {
                                assert(cx.break_patches@[k] == old_ctx.break_patches@[k]);
                            }
                        }
                    }
                }
                assert forall|c: int| 0 <= c < before.loop_stack@.len() - 1 implies #[trigger] builder.loop_stack@[c] == before.loop_stack@[c] by {}
            }
        },
        None => {},
    }
}

proof fn lemma_add16_zero(n: u16)
    ensures
        add16(n, 0) == n,
{
}

proof fn lemma_push_contains(s: Seq<usize>, x: usize, p: usize)
    ensures
        s.push(x).contains(p) <==> (s.contains(p) || p == x),
{
    if s.push(x).contains(p) && p != x {
        let j = choose|j: int| 0 <= j < s.push(x).len() && s.push(x)[j] == p;
        assert(s[j] == p);
    }
    if s.contains(p) {
        let j = choose|j: int| 0 <= j < s.len() && s[j] == p;
        assert(s.push(x)[j] == p);
    }
    if p == x {
        assert(s.push(x)[s.len() as int] == p);
    }
}

#[verifier::rlimit(100)]
#[verifier::spinoff_prover]
fn compile_stmt<F: FloatOps>(builder: &mut CodeBuilder, stmt: &Stmt)
    requires
        sound(*old(builder)),
        stmt_ok(*stmt, old(builder).loop_stack@.len() > 0),
    ensures
        emits_stmt(*old(builder), *final(builder), *stmt),
    decreases stmt, 2int,
{
    let ghost st: Stmt = *stmt;
    let ghost a = *builder;
    let ghost start = a.instructions@.len() as int;
    let ghost sc = scope_of(a);
    proof {
        lemma_add16_zero(a.num_locals);
    }
    match stmt {
        Stmt::Expression(expr) => {
            compile_expr::<F>(builder, expr);
            let ghost b1 = *builder;
            builder.emit(Op::Pop);
            proof {
                lemma_grows_trans(a.instructions@, b1.instructions@, builder.instructions@);
                let e = builder.instructions@.len() as int;
                if builder.constants@.len() <= 65536 {
                    lemma_part(b1.instructions@, builder.instructions@, start, e, start, b1.instructions@.len() as int);
                }
            }
        },
        Stmt::Assign { target, value } => {
            let take = match value {
                Expr::BinaryOp { left, op, right } => {
                    if *op == BinOp::Add {
                        match &**left {
                            Expr::Identifier(name) => {
                                if *name == *target && !builder.resolve_name(*name) {
                                    match &**right {
                                        Expr::StringLiteral(_) | Expr::List(_) => true,
                                        _ => false,
                                    }
                                } else {
                                    false
                                }
                            },
                            _ => false,
                        }
                    } else {
                        false
                    }
                },
                _ => false,
            };
            assert(take == takes_global(*target, *value, sc));
            if take {
                // `x = x + "str"` or `x = x + [..]` with a global x takes the
                // value out of the global instead of sharing it
                match value {
                    Expr::BinaryOp { right, .. } => {
                        builder.emit(Op::TakeGlobal(*target));
                        let ghost b1 = *builder;
                        compile_expr::<F>(builder, right);
                        let ghost b2 = *builder;
                        builder.emit(Op::BinaryAdd);
                        let ghost b3 = *builder;
                        builder.emit_store(*target);
                        proof {
                            lemma_grows_trans(a.instructions@, b1.instructions@, b2.instructions@);
                            lemma_grows_trans(a.instructions@, b2.instructions@, b3.instructions@);
                            lemma_grows_trans(a.instructions@, b3.instructions@, builder.instructions@);
                            let e = builder.instructions@.len() as int;
                            if builder.constants@.len() <= 65536 {
                                lemma_part(b2.instructions@, builder.instructions@, start, e, start + 1, b2.instructions@.len() as int);
                            }
                        }
                    },
                    _ => {},
                }
            } else {
                compile_expr::<F>(builder, value);
                let ghost b1 = *builder;
                builder.emit_store(*target);
                proof {
                    lemma_grows_trans(a.instructions@, b1.instructions@, builder.instructions@);
                    let e = builder.instructions@.len() as int;
                    if builder.constants@.len() <= 65536 {
                        lemma_part(b1.instructions@, builder.instructions@, start, e, start, b1.instructions@.len() as int);
                    }
                }
            }
        },
        Stmt::AugAssign { target, op, value } => {
            let single = *op == BinOp::Add && match value {
                Expr::List(elements) => elements.len() == 1,
                _ => false,
            };
            assert(single == appends_one(*op, *value));
            builder.emit_load(*target);
            let ghost b1 = *builder;
            if single {
                // `x += [e]` appends in place
                match value {
                    Expr::List(elements) => {
                        proof {
                            lemma_exprs_ok(elements@, 0);
                        }
                        compile_expr::<F>(builder, &elements[0]);
                        let ghost b2 = *builder;
                        builder.emit(Op::ListAppend);
                        let ghost b3 = *builder;
                        builder.emit_store(*target);
                        proof {
                            lemma_grows_trans(a.instructions@, b1.instructions@, b2.instructions@);
                            lemma_grows_trans(a.instructions@, b2.instructions@, b3.instructions@);
                            lemma_grows_trans(a.instructions@, b3.instructions@, builder.instructions@);
                            let e = builder.instructions@.len() as int;
                            if builder.constants@.len() <= 65536 {
                                lemma_part(b2.instructions@, builder.instructions@, start, e, start + 1, b2.instructions@.len() as int);
                            }
                        }
                    },
                    _ => {},
                }
            } else {
                compile_expr::<F>(builder, value);
                let ghost b2 = *builder;
                emit_binop(builder, op);
                let ghost b3 = *builder;
                builder.emit_store(*target);
                proof {
                    lemma_grows_trans(a.instructions@, b1.instructions@, b2.instructions@);
                    lemma_grows_trans(a.instructions@, b2.instructions@, b3.instructions@);
                    lemma_grows_trans(a.instructions@, b3.instructions@, builder.instructions@);
                    let e = builder.instructions@.len() as int;
                    if builder.constants@.len() <= 65536 {
                        lemma_part(b2.instructions@, builder.instructions@, start, e, start + 1, b2.instructions@.len() as int);
                    }
                }
            }
        },
        Stmt::Print(args) => {
            proof {
                assert(builder.instructions@.subrange(start, start) =~= Seq::<Op>::empty());
                assert(args@.subrange(0, 0) =~= Seq::<Expr>::empty());
            }
            let mut i: usize = 0;
            while i < args.len()
                invariant
                    exprs_ok(args@),
                    i <= args@.len(),
                    sound(*builder),
                    keeps_scope(a, *builder),
                    start == a.instructions@.len(),
                    sc == scope_of(a),
                    builder.instructions@.len() == start + exprs_len(args@.subrange(0, i as int), sc),
                    builder.constants@.len() <= 65536 ==> exprs_code(
                        args@.subrange(0, i as int),
                        builder.instructions@.subrange(start, builder.instructions@.len() as int),
                        start,
                        sc,
                        builder.constants@,
                    ),
                decreases args@.len() - i,
            {
                proof {
                    lemma_exprs_ok(args@, i as int);
                }
                let ghost b0 = *builder;
                assert(scope_of(b0) == sc);
                compile_expr::<F>(builder, &args[i]);
                proof {
                    lemma_grows_trans(a.instructions@, b0.instructions@, builder.instructions@);
                    let es = args@.subrange(0, i + 1);
                    assert(es.subrange(0, i as int) =~= args@.subrange(0, i as int));
                    assert(es[i as int] == args@[i as int]);
                    let e = builder.instructions@.len() as int;
                    if builder.constants@.len() <= 65536 {
                        let m = b0.instructions@.len() as int;
                        lemma_part(b0.instructions@, builder.instructions@, start, e, start, m);
                        lemma_exprs_code_mono(
                            args@.subrange(0, i as int),
                            b0.instructions@.subrange(start, m),
                            start,
                            sc,
                            b0.constants@,
                            builder.constants@,
                        );
                        assert(builder.instructions@.subrange(start, e).subrange(m - start, e - start)
                            =~= code_since(b0, *builder));
                    }
                }
                i = i + 1;
            }
            let ghost b1 = *builder;
            builder.emit(Op::Print(args.len() as u8));
            proof {
                lemma_grows_trans(a.instructions@, b1.instructions@, builder.instructions@);
                assert(args@.subrange(0, args@.len() as int) =~= args@);
                let e = builder.instructions@.len() as int;
                if builder.constants@.len() <= 65536 {
                    lemma_part(b1.instructions@, builder.instructions@, start, e, start, b1.instructions@.len() as int);
                }
            }
        },
        Stmt::If { .. } => {
            compile_if::<F>(builder, stmt);
        },
        Stmt::While { .. } => {
            compile_while::<F>(builder, stmt);
        },
        Stmt::For { .. } => {
            compile_for::<F>(builder, stmt);
        },
        Stmt::FunctionDef { name, params, body } => {
            proof {
                assert(decreases_to!(st => st->FunctionDef_body@));
            }
            let code = compile_function::<F>(params.as_slice(), body.as_slice());
            let mut param_slots: Vec<u16> = Vec::new();
            let mut names: Vec<Symbol> = Vec::new();
            let mut i: usize = 0;
            while i < params.len()
                invariant
                    i <= params@.len(),
                    names@ == params@.subrange(0, i as int),
                    param_slots@.len() == i,
                    forall|j: int| 0 <= j < params@.len() ==> code.local_slots@.contains_key(#[trigger] params@[j].0),
                    forall|j: int| 0 <= j < i ==> #[trigger] param_slots@[j] == code.local_slots@[params@[j].0],
                decreases params@.len() - i,
            {
                match code.local_slots.get(&params[i].0) {
                    Some(slot) => {
                        param_slots.push(*slot);
                    },
                    None => {},
                }
                names.push(params[i]);
                proof {
                    assert(names@ =~= params@.subrange(0, i + 1));
                }
                i = i + 1;
            }
            proof {
                assert(params@.subrange(0, params@.len() as int) =~= params@);
            }
            let func_obj = FunctionObj { name: *name, params: names, param_slots, code: Rc::new(code) };
            emit_const(builder, Value::Function(Rc::new(func_obj)));
            let ghost b1 = *builder;
            // Always store functions as globals
            builder.emit(Op::StoreGlobal(*name));
            proof {
                lemma_grows_trans(a.instructions@, b1.instructions@, builder.instructions@);
                assert(builder.instructions@[start] == b1.instructions@.last());
            }
        },
        Stmt::Return(expr) => {
            match expr {
                Some(e) => {
                    compile_expr::<F>(builder, e);
                    let ghost b1 = *builder;
                    builder.emit(Op::Return);
                    proof {
                        lemma_grows_trans(a.instructions@, b1.instructions@, builder.instructions@);
                        let end = builder.instructions@.len() as int;
                        if builder.constants@.len() <= 65536 {
                            lemma_part(b1.instructions@, builder.instructions@, start, end, start, b1.instructions@.len() as int);
                        }
                    }
                },
                None => {
                    builder.emit(Op::ReturnNone);
                },
            }
        },
        Stmt::Break => {
            let patch = builder.emit(Op::Jump(0));
            let ghost b1 = *builder;
            add_break(builder, patch);
            proof {
                assert forall|p: usize| #[trigger] builder.loop_stack@.last().break_patches@.contains(p) <==> (
                a.loop_stack@.last().break_patches@.contains(p) || p - start == 0) by {
                    lemma_push_contains(a.loop_stack@.last().break_patches@, patch, p);
                }
            }
        },
        Stmt::Continue => {
            let n = builder.loop_stack.len();
            let target = builder.loop_stack[n - 1].continue_target;
            proof {
                lemma_trunc_u32(target);
            }
            builder.emit(Op::Jump(target as u32));
        },
        Stmt::Pass => {
            proof {
                assert(code_since(a, *builder) =~= Seq::<Op>::empty());
            }
        },
    }
}

#[verifier::rlimit(100)]
#[verifier::spinoff_prover]
fn compile_while<F: FloatOps>(builder: &mut CodeBuilder, stmt: &Stmt)
    requires
        sound(*old(builder)),
        stmt_ok(*stmt, old(builder).loop_stack@.len() > 0),
        *stmt is While,
    ensures
        emits_stmt(*old(builder), *final(builder), *stmt),
    decreases stmt, 1int,
{
    let ghost st: Stmt = *stmt;
    let ghost a = *builder;
    let ghost start = a.instructions@.len() as int;
    let ghost sc = scope_of(a);
    match stmt {
        Stmt::While { condition, body } => {
            let loop_start = builder.current_offset();
            compile_expr::<F>(builder, condition);
            let ghost b1 = *builder;
            let exit_jump = builder.emit(Op::PopJumpIfFalse(0));
            let ghost b2 = *builder;
            enter_loop(builder, loop_start);
            let ghost b3 = *builder;
            proof {
                assert(decreases_to!(st => st->While_body@));
                assert(scope_of(b3) == sc);
                assert(cont_of(b3) == start);
            }
            compile_block::<F>(builder, body.as_slice());
            let ghost b4 = *builder;
            proof {
                lemma_trunc_u32(loop_start);
            }
            builder.emit(Op::Jump(loop_start as u32));
            let loop_end = builder.current_offset();
            let ghost b5 = *builder;
            builder.patch_jump(exit_jump, loop_end);
            let ghost b6 = *builder;
            leave_loop(builder);
            proof {
                lemma_loop_done(a, b1.instructions@.len() as int, b3, b4, b6, *builder, body@);
                lemma_grows_trans(a.instructions@, b1.instructions@, b2.instructions@);
                lemma_grows_trans(a.instructions@, b2.instructions@, b4.instructions@);
                lemma_grows_trans(a.instructions@, b4.instructions@, b5.instructions@);
                lemma_grows_trans(a.instructions@, b5.instructions@, b6.instructions@);
                lemma_grows_trans(a.instructions@, b6.instructions@, builder.instructions@);
                let e = loop_end as int;
                let s3 = b3.instructions@.len() as int;
                let s4 = b4.instructions@.len() as int;
                if builder.constants@.len() <= 65536 {
                    lemma_part(b1.instructions@, builder.instructions@, start, e, start, b1.instructions@.len() as int);
                    lemma_expr_code_mono(*condition, code_since(a, b1), start, sc, b1.constants@, builder.constants@);
                    assert(builder.instructions@.subrange(start, e).subrange(s3 - start, s4 - start) =~= builder.instructions@.subrange(s3, s4));
                }
            }
        },
        _ => {},
    }
}

/// What leaving a loop does to the code of its body: the body's `break`s
/// now jump to the end of the loop, the rest stays, and the loop contexts
/// are those before the loop.
proof fn lemma_loop_done(
    a: CodeBuilder,
    exit: int,
    b3: CodeBuilder,
    b4: CodeBuilder,
    b6: CodeBuilder,
    f: CodeBuilder,
    body: Seq<Stmt>,
)
    requires
        b3.loop_stack@.len() == a.loop_stack@.len() + 1,
        forall|c: int| 0 <= c < a.loop_stack@.len() ==> #[trigger] b3.loop_stack@[c] == a.loop_stack@[c],
        b3.loop_stack@.last().break_patches@.len() == 0,
        a.instructions@.len() <= exit < b3.instructions@.len(),
        scope_of(b3) == scope_of(a),
        emits_block(b3, b4, body),
        b6.instructions@.len() > b4.instructions@.len(),
        forall|x: int| 0 <= x < b4.instructions@.len() && x != exit ==> #[trigger] b6.instructions@[x] == b4.instructions@[x],
        b6.loop_stack == b4.loop_stack,
        extends(b4.constants@, b6.constants@),
        b6.instructions@.len() <= usize::MAX,
        f.instructions@.len() == b6.instructions@.len(),
        forall|x: int|
            0 <= x < b6.instructions@.len() ==> #[trigger] f.instructions@[x] == if b6.loop_stack@.last().break_patches@.contains(
                x as usize,
            ) {
                with_target(b6.instructions@[x], b6.instructions@.len() as u32)
            } else {
                b6.instructions@[x]
            },
        f.loop_stack@ == b6.loop_stack@.drop_last(),
        f.constants == b6.constants,
    ensures
        f.loop_stack@ == a.loop_stack@,
        forall|x: int|
            0 <= x < b6.instructions@.len() && !(b3.instructions@.len() <= x < b4.instructions@.len())
                ==> #[trigger] f.instructions@[x] == b6.instructions@[x],
        f.constants@.len() <= 65536 ==> {
            let s3 = b3.instructions@.len() as int;
            let s4 = b4.instructions@.len() as int;
            let sc = scope_of(a);
            &&& block_code(body, f.instructions@.subrange(s3, s4), s3, sc, f.constants@, b3.num_locals, cont_of(b3))
            &&& breaks_to(body, f.instructions@.subrange(s3, s4), f.instructions@.len() as int, sc)
        },
{
    let s3 = b3.instructions@.len() as int;
    let s4 = b4.instructions@.len() as int;
    let sc = scope_of(a);
    let bp = b4.loop_stack@.last().break_patches@;
    assert forall|p: usize| bp.contains(p) implies s3 <= p < s4 && block_breaks(body, p - s3, sc) by {
        assert(bp.contains(p) <==> (b3.loop_stack@.last().break_patches@.contains(p) || block_breaks(body, p - s3, sc)));
        if b3.loop_stack@.last().break_patches@.contains(p) {
            let j = choose|j: int| 0 <= j < b3.loop_stack@.last().break_patches@.len() && b3.loop_stack@.last().break_patches@[j] == p;
        }
        lemma_block_breaks_range(body, p - s3, sc);
    }
    assert(f.loop_stack@ =~= a.loop_stack@) by {
        assert forall|c: int| 0 <= c < a.loop_stack@.len() implies f.loop_stack@[c] == a.loop_stack@[c] by {
            assert(b4.loop_stack@[c] == b3.loop_stack@[c]);
        }
    }
    if f.constants@.len() <= 65536 {
        let seg = b4.instructions@.subrange(s3, s4);
        let seg2 = f.instructions@.subrange(s3, s4);
        lemma_block_code_mono(body, seg, s3, sc, b4.constants@, f.constants@, b3.num_locals, cont_of(b3));
        assert forall|q: int| 0 <= q < seg.len() implies if block_breaks(body, q, sc) {
            #[trigger] seg2[q] is Jump
        } else {
            seg2[q] == seg[q]
        } by {
            let x = s3 + q;
            assert(x as usize as int == x);
            assert(seg2[q] == f.instructions@[x]);
            assert(seg[q] == b4.instructions@[x]);
            assert(bp.contains(x as usize) <==> (b3.loop_stack@.last().break_patches@.contains(x as usize)
                || block_breaks(body, x - s3, sc)));
            if block_breaks(body, q, sc) {
                lemma_block_breaks_jump(body, seg, s3, sc, f.constants@, b3.num_locals, cont_of(b3), q);
            }
        }
        lemma_block_retarget(body, seg, seg2, s3, sc, f.constants@, b3.num_locals, cont_of(b3));
        assert forall|q: int| 0 <= q < seg2.len() && block_breaks(body, q, sc) implies #[trigger] seg2[q] == Op::Jump(
            f.instructions@.len() as u32,
        ) by {
            let x = s3 + q;
            assert(x as usize as int == x);
            lemma_block_breaks_jump(body, seg, s3, sc, f.constants@, b3.num_locals, cont_of(b3), q);
            assert(bp.contains(x as usize) <==> (b3.loop_stack@.last().break_patches@.contains(x as usize)
                || block_breaks(body, x - s3, sc)));
            assert(seg2[q] == f.instructions@[x]);
        }
    }
}

#[verifier::rlimit(100)]
#[verifier::spinoff_prover]
fn compile_if<F: FloatOps>(builder: &mut CodeBuilder, stmt: &Stmt)
    requires
        sound(*old(builder)),
        stmt_ok(*stmt, old(builder).loop_stack@.len() > 0),
        *stmt is If,
    ensures
        emits_stmt(*old(builder), *final(builder), *stmt),
    decreases stmt, 1int,
{
    let ghost st: Stmt = *stmt;
    let ghost a = *builder;
    let ghost start = a.instructions@.len() as int;
    let ghost sc = scope_of(a);
    match stmt {
        Stmt::If { condition, body, elif_clauses, else_body } => {
            compile_expr::<F>(builder, condition);
            let ghost b1 = *builder;
            let else_jump = builder.emit(Op::PopJumpIfFalse(0));
            let ghost b2 = *builder;
            proof {
                lemma_grows_trans(a.instructions@, b1.instructions@, b2.instructions@);
                assert(decreases_to!(st => st->If_body@));
                assert(scope_of(b2) == sc);
                assert(cont_of(b2) == cont_of(a));
            }
            compile_block::<F>(builder, body.as_slice());
            let ghost b3 = *builder;
            if elif_clauses.len() == 0 && else_body.is_none() {
                let end = builder.current_offset();
                builder.patch_jump(else_jump, end);
                proof {
                    lemma_grows_trans(a.instructions@, b2.instructions@, b3.instructions@);
                    lemma_grows_trans(a.instructions@, b3.instructions@, builder.instructions@);
                    lemma_loops_trans(
                        a,
                        b2,
                        *builder,
                        |q: int| false,
                        |q: int| block_breaks(body@, q, sc),
                        |q: int| stmt_breaks(st, q, sc),
                    );
                    let e = end as int;
                    let s1 = b1.instructions@.len() as int;
                    if builder.constants@.len() <= 65536 {
                        lemma_part(b1.instructions@, builder.instructions@, start, e, start, s1);
                        lemma_expr_code_mono(*condition, code_since(a, b1), start, sc, b1.constants@, builder.constants@);
                        lemma_part(b3.instructions@, builder.instructions@, start, e, s1 + 1, e);
                    }
                }
            } else {
                let end_jump = builder.emit(Op::Jump(0));
                let ghost b4 = *builder;
                let elif_start = builder.current_offset();
                builder.patch_jump(else_jump, elif_start);
                let ghost b5 = *builder;
                let mut end_jumps: Vec<usize> = Vec::new();
                end_jumps.push(end_jump);
                proof {
                    lemma_grows_trans(a.instructions@, b2.instructions@, b3.instructions@);
                    lemma_grows_trans(a.instructions@, b3.instructions@, b4.instructions@);
                    lemma_grows_trans(a.instructions@, b4.instructions@, b5.instructions@);
                    assert(scope_of(b5) == sc);
                    assert(cont_of(b5) == cont_of(a));
                }
                compile_elifs::<F>(builder, elif_clauses.as_slice(), &mut end_jumps, Ghost(st));
                let ghost b6 = *builder;
                match else_body {
                    Some(else_b) => {
                        proof {
                            assert(decreases_to!(st => st->else_body->Some_0@));
                            assert(scope_of(b6) == sc);
                        }
                        compile_block::<F>(builder, else_b.as_slice());
                    },
                    None => {},
                }
                let ghost b7 = *builder;
                let end = builder.current_offset();
                patch_all(builder, &end_jumps, end);
                proof {
                    lemma_if_done(st, a, b1, b2, b3, b4, b5, b6, b7, *builder, end_jumps@);
                }
            }
        },
        _ => {},
    }
}

/// An `if` with `elif` or `else` parts, once its end jumps point at its end.
#[verifier::rlimit(100)]
#[verifier::spinoff_prover]
proof fn lemma_if_done(
    st: Stmt,
    a: CodeBuilder,
    b1: CodeBuilder,
    b2: CodeBuilder,
    b3: CodeBuilder,
    b4: CodeBuilder,
    b5: CodeBuilder,
    b6: CodeBuilder,
    b7: CodeBuilder,
    f: CodeBuilder,
    ej: Seq<usize>,
)
    requires
        st is If,
        has_alternatives(st),
        emits_expr(a, b1, st->If_condition),
        b2.instructions@ == b1.instructions@.push(Op::PopJumpIfFalse(0)),
        b2.constants == b1.constants,
        b2.num_locals == b1.num_locals,
        b2.loop_stack == b1.loop_stack,
        b2.local_slots == b1.local_slots,
        b2.is_function == b1.is_function,
        emits_block(b2, b3, st->If_body@),
        b4.instructions@ == b3.instructions@.push(Op::Jump(0)),
        b4.constants == b3.constants,
        b4.num_locals == b3.num_locals,
        b4.loop_stack == b3.loop_stack,
        b4.local_slots == b3.local_slots,
        b4.is_function == b3.is_function,
        b5.instructions@ == b4.instructions@.update(
            b1.instructions@.len() as int,
            Op::PopJumpIfFalse(b4.instructions@.len() as u32),
        ),
        b5.constants == b4.constants,
        b5.num_locals == b4.num_locals,
        b5.loop_stack == b4.loop_stack,
        b5.local_slots == b4.local_slots,
        b5.is_function == b4.is_function,
        keeps_context(b5, b6),
        b6.num_locals == add16(b5.num_locals, elifs_hidden(st->elif_clauses@) as int),
        b6.instructions@.len() == b5.instructions@.len() + elifs_len(st->elif_clauses@, scope_of(b5)),
        loops_kept(b5, b6, |q: int| elifs_breaks(st->elif_clauses@, q, scope_of(b5))),
        b6.constants@.len() <= 65536 ==> elifs_code(
            st->elif_clauses@,
            code_since(b5, b6),
            b5.instructions@.len() as int,
            0,
            scope_of(b5),
            b6.constants@,
            b5.num_locals,
            cont_of(b5),
        ),
        match st->else_body {
            Some(b) => emits_block(b6, b7, b@),
            None => b7 == b6,
        },
        ej.len() == 1 + st->elif_clauses@.len(),
        ej[0] == b3.instructions@.len(),
        forall|k: int|
            0 <= k < st->elif_clauses@.len() ==> #[trigger] ej[1 + k] == b5.instructions@.len() + elifs_len(
                st->elif_clauses@.subrange(0, k + 1),
                scope_of(b5),
            ) - 1,
        sound(f),
        grows(b7.instructions@, f.instructions@),
        b7.instructions@.len() <= usize::MAX,
        f.instructions@.len() == b7.instructions@.len(),
        forall|x: int|
            0 <= x < b7.instructions@.len() ==> #[trigger] f.instructions@[x] == if ej.contains(x as usize) {
                with_target(b7.instructions@[x], b7.instructions@.len() as u32)
            } else {
                b7.instructions@[x]
            },
        f.constants == b7.constants,
        f.local_slots == b7.local_slots,
        f.num_locals == b7.num_locals,
        f.is_function == b7.is_function,
        f.loop_stack == b7.loop_stack,
    ensures
        emits_stmt(a, f, st),
{
    let sc = scope_of(a);
    let cs = st->elif_clauses@;
    let start = a.instructions@.len() as int;
    let s1 = b1.instructions@.len() as int;
    let s2 = b2.instructions@.len() as int;
    let s3 = b3.instructions@.len() as int;
    let s5 = b5.instructions@.len() as int;
    let s6 = b6.instructions@.len() as int;
    let s7 = b7.instructions@.len() as int;
    let e = s7;
    let c = expr_len(st->If_condition, sc) as int;
    let bl = block_len(st->If_body@, sc) as int;
    let el = elifs_len(cs, sc) as int;
    assert(scope_of(b2) == sc);
    assert(scope_of(b5) == sc);
    assert(scope_of(b6) == sc);
    assert(cont_of(b2) == cont_of(a));
    assert(cont_of(b5) == cont_of(a));
    lemma_grows_trans(a.instructions@, b1.instructions@, b2.instructions@);
    lemma_grows_trans(a.instructions@, b2.instructions@, b3.instructions@);
    lemma_grows_trans(a.instructions@, b3.instructions@, b4.instructions@);
    lemma_grows_trans(a.instructions@, b4.instructions@, b5.instructions@);
    lemma_grows_trans(a.instructions@, b5.instructions@, b6.instructions@);
    lemma_grows_trans(a.instructions@, b6.instructions@, b7.instructions@);
    lemma_grows_trans(a.instructions@, b7.instructions@, f.instructions@);
    // every end jump lies at or after the end of the body
    assert forall|p: usize| ej.contains(p) implies s3 <= p < s7 && (p == s3 || s5 <= p < s6) by {
        let j = choose|j: int| 0 <= j < ej.len() && ej[j] == p;
        if j > 0 {
            let k = j - 1;
            assert(ej[1 + k] == s5 + elifs_len(cs.subrange(0, k + 1), sc) - 1);
            lemma_elifs_len_prefix(cs, k + 1, sc);
        }
    }
    assert forall|x: int| 0 <= x < s3 implies #[trigger] f.instructions@[x] == b5.instructions@[x] by {
        assert(!ej.contains(x as usize));
    }
    // hidden slots and breaks
    lemma_add16(a.num_locals, block_hidden(st->If_body@) as int, elifs_hidden(cs) as int);
    lemma_loops_trans(
        a,
        b2,
        b3,
        |q: int| false,
        |q: int| block_breaks(st->If_body@, q, sc),
        |q: int| block_breaks(st->If_body@, q - c - 1, sc),
    );
    lemma_loops_trans(
        a,
        b3,
        b5,
        |q: int| block_breaks(st->If_body@, q - c - 1, sc),
        |q: int| false,
        |q: int| block_breaks(st->If_body@, q - c - 1, sc),
    );
    lemma_loops_trans(
        a,
        b5,
        b6,
        |q: int| block_breaks(st->If_body@, q - c - 1, sc),
        |q: int| elifs_breaks(cs, q, sc),
        |q: int| block_breaks(st->If_body@, q - c - 1, sc) || elifs_breaks(cs, q - c - bl - 2, sc),
    );
    match st->else_body {
        Some(b) => {
            lemma_add16(
                a.num_locals,
                block_hidden(st->If_body@) as int + elifs_hidden(cs) as int,
                block_hidden(b@) as int,
            );
            lemma_loops_trans(
                a,
                b6,
                b7,
                |q: int| block_breaks(st->If_body@, q - c - 1, sc) || elifs_breaks(cs, q - c - bl - 2, sc),
                |q: int| block_breaks(b@, q, sc),
                |q: int| stmt_breaks(st, q, sc),
            );
        },
        None => {
            lemma_add16_zero(b6.num_locals);
            assert forall|p: int| #[trigger] stmt_breaks(st, p - start, sc) <==> (block_breaks(st->If_body@, p - start - c - 1, sc)
                || elifs_breaks(cs, p - start - c - bl - 2, sc)) by {}
        },
    }
    if f.constants@.len() <= 65536 {
        lemma_part(b1.instructions@, f.instructions@, start, e, start, s1);
        lemma_expr_code_mono(st->If_condition, code_since(a, b1), start, sc, b1.constants@, f.constants@);
        lemma_part(b3.instructions@, f.instructions@, start, e, s2, s3);
        lemma_block_code_mono(st->If_body@, code_since(b2, b3), s2, sc, b3.constants@, f.constants@, a.num_locals, cont_of(a));
        assert(f.instructions@[s1] == b5.instructions@[s1]);
        assert(f.instructions@[s3] == Op::Jump(e as u32)) by {
            assert(ej[0] == s3);
        }
        // the elif parts, their end jumps now pointing at the end
        let seg = b6.instructions@.subrange(s5, s6);
        let seg2 = f.instructions@.subrange(s5, s6);
        lemma_elifs_code_mono(cs, seg, s5, 0, sc, b6.constants@, f.constants@, b5.num_locals, cont_of(a));
        assert forall|q: int| 0 <= q < seg.len() implies if is_elif_end(cs, q, sc) {
            #[trigger] seg2[q] == with_target(seg[q], e as u32)
        } else {
            seg2[q] == seg[q]
        } by {
            let x = s5 + q;
            assert(x as usize as int == x);
            assert(seg2[q] == f.instructions@[x]);
            assert(seg[q] == b6.instructions@[x]);
            assert(b7.instructions@[x] == b6.instructions@[x]);
            if is_elif_end(cs, q, sc) {
                let k = lemma_elif_end_index(cs, q, sc);
                assert(ej[1 + (k - 1)] == x);
                assert(ej.contains(x as usize));
            } else if ej.contains(x as usize) {
                let j = choose|j: int| 0 <= j < ej.len() && ej[j] == x as usize;
                assert(j > 0);
                lemma_elif_end_at(cs, j, sc);
                assert(ej[1 + (j - 1)] == s5 + elifs_len(cs.subrange(0, j), sc) - 1);
            }
        }
        lemma_elifs_end_retarget(cs, seg, seg2, s5, 0, e, sc, f.constants@, b5.num_locals, cont_of(a));
        assert(f.instructions@.subrange(start, e).subrange(c + bl + 2, c + bl + 2 + el) =~= seg2);
        match st->else_body {
            Some(b) => {
                lemma_part(b7.instructions@, f.instructions@, start, e, s6, s7);
                assert forall|x: int| s6 <= x < s7 implies !(#[trigger] ej.contains(x as usize)) by {}
            },
            None => {},
        }
    }
}

/// Compiles the `elif` parts of an `if`: each condition, a jump to the next
/// part when it is false, the block, and a jump to the end, recorded in
/// `end_jumps` for the caller to point at the end.
#[verifier::rlimit(100)]
#[verifier::spinoff_prover]
fn compile_elifs<F: FloatOps>(
    builder: &mut CodeBuilder,
    clauses: &[(Expr, Vec<Stmt>)],
    end_jumps: &mut Vec<usize>,
    Ghost(st): Ghost<Stmt>,
)
    requires
        st is If,
        clauses@ == st->elif_clauses@,
        sound(*old(builder)),
        elifs_ok(clauses@, old(builder).loop_stack@.len() > 0),
        forall|k: int|
            0 <= k < old(end_jumps)@.len() ==> {
                let p = #[trigger] old(end_jumps)@[k];
                &&& p < old(builder).instructions@.len()
                &&& is_plain_jump(old(builder).instructions@[p as int])
            },
    ensures
        sound(*final(builder)),
        keeps_context(*old(builder), *final(builder)),
        final(builder).num_locals == add16(old(builder).num_locals, elifs_hidden(clauses@) as int),
        final(builder).instructions@.len() == old(builder).instructions@.len() + elifs_len(clauses@, scope_of(*old(builder))),
        loops_kept(*old(builder), *final(builder), |q: int| elifs_breaks(clauses@, q, scope_of(*old(builder)))),
        final(end_jumps)@.len() == old(end_jumps)@.len() + clauses@.len(),
        forall|k: int| 0 <= k < old(end_jumps)@.len() ==> #[trigger] final(end_jumps)@[k] == old(end_jumps)@[k],
        forall|k: int|
            0 <= k < clauses@.len() ==> #[trigger] final(end_jumps)@[old(end_jumps)@.len() + k] == old(
                builder,
            ).instructions@.len() + elifs_len(clauses@.subrange(0, k + 1), scope_of(*old(builder))) - 1,
        forall|k: int|
            0 <= k < final(end_jumps)@.len() ==> {
                let p = #[trigger] final(end_jumps)@[k];
                &&& p < final(builder).instructions@.len()
                &&& is_plain_jump(final(builder).instructions@[p as int])
            },
        final(builder).constants@.len() <= 65536 ==> elifs_code(
            clauses@,
            code_since(*old(builder), *final(builder)),
            old(builder).instructions@.len() as int,
            0,
            scope_of(*old(builder)),
            final(builder).constants@,
            old(builder).num_locals,
            cont_of(*old(builder)),
        ),
    decreases st, 0int,
{
    let ghost a = *builder;
    let ghost start = a.instructions@.len() as int;
    let ghost sc = scope_of(a);
    let ghost ej0 = end_jumps@;
    proof {
        assert(clauses@.subrange(0, 0) =~= Seq::<(Expr, Vec<Stmt>)>::empty());
        assert(builder.instructions@.subrange(start, start) =~= Seq::<Op>::empty());
        lemma_add16_zero(a.num_locals);
    }
    let mut i: usize = 0;
    while i < clauses.len()
        invariant
            st is If,
            clauses@ == st->elif_clauses@,
            elifs_ok(clauses@, a.loop_stack@.len() > 0),
            i <= clauses@.len(),
            a == *old(builder),
            start == a.instructions@.len(),
            sc == scope_of(a),
            sound(*builder),
            keeps_context(a, *builder),
            builder.num_locals == add16(a.num_locals, elifs_hidden(clauses@.subrange(0, i as int)) as int),
            builder.instructions@.len() == start + elifs_len(clauses@.subrange(0, i as int), sc),
            loops_kept(a, *builder, |q: int| elifs_breaks(clauses@.subrange(0, i as int), q, sc)),
            ej0 == old(end_jumps)@,
            end_jumps@.len() == ej0.len() + i,
            forall|k: int| 0 <= k < ej0.len() ==> #[trigger] end_jumps@[k] == ej0[k],
            forall|k: int|
                0 <= k < i ==> #[trigger] end_jumps@[ej0.len() + k] == start + elifs_len(
                    clauses@.subrange(0, k + 1),
                    sc,
                ) - 1,
            forall|k: int|
                0 <= k < end_jumps@.len() ==> {
                    let p = #[trigger] end_jumps@[k];
                    &&& p < builder.instructions@.len()
                    &&& is_plain_jump(builder.instructions@[p as int])
                },
            builder.constants@.len() <= 65536 ==> elifs_code(
                clauses@.subrange(0, i as int),
                builder.instructions@.subrange(start, builder.instructions@.len() as int),
                start,
                0,
                sc,
                builder.constants@,
                a.num_locals,
                cont_of(a),
            ),
        decreases clauses@.len() - i,
    {
        proof {
            lemma_elifs_ok(clauses@, a.loop_stack@.len() > 0, i as int);
            assert(decreases_to!(st => st->elif_clauses@[i as int].1@));
        }
        let ghost c0 = *builder;
        assert(scope_of(c0) == sc);
        compile_expr::<F>(builder, &clauses[i].0);
        let ghost c1 = *builder;
        let next_jump = builder.emit(Op::PopJumpIfFalse(0));
        let ghost c2 = *builder;
        assert(scope_of(c2) == sc);
        assert(cont_of(c2) == cont_of(a));
        compile_block::<F>(builder, clauses[i].1.as_slice());
        let ghost c3 = *builder;
        let ej = builder.emit(Op::Jump(0));
        end_jumps.push(ej);
        let next = builder.current_offset();
        let ghost c4 = *builder;
        builder.patch_jump(next_jump, next);
        proof {
            lemma_elifs_step(
                clauses@,
                i as int,
                a,
                c0,
                c1,
                c2,
                c3,
                c4,
                *builder,
                sc,
            );
            assert forall|k: int|
                0 <= k < end_jumps@.len() implies {
                    let p = #[trigger] end_jumps@[k];
                    &&& p < builder.instructions@.len()
                    &&& is_plain_jump(builder.instructions@[p as int])
                } by {
                let p = end_jumps@[k];
                if k < end_jumps@.len() - 1 {
                    assert(is_plain_jump(c0.instructions@[p as int]));
                    assert(c4.instructions@[p as int] == c0.instructions@[p as int]);
                }
            }
            let cs1 = clauses@.subrange(0, i + 1);
            assert(cs1.subrange(0, i as int) =~= clauses@.subrange(0, i as int));
        }
        i = i + 1;
    }
    proof {
        assert(clauses@.subrange(0, clauses@.len() as int) =~= clauses@);
    }
}

/// One `elif` part compiled after the parts before it.
#[verifier::rlimit(100)]
#[verifier::spinoff_prover]
proof fn lemma_elifs_step(
    cs: Seq<(Expr, Vec<Stmt>)>,
    i: int,
    a: CodeBuilder,
    c0: CodeBuilder,
    c1: CodeBuilder,
    c2: CodeBuilder,
    c3: CodeBuilder,
    c4: CodeBuilder,
    f: CodeBuilder,
    sc: Scope,
)
    requires
        0 <= i < cs.len(),
        sc == scope_of(a),
        keeps_context(a, c0),
        c0.num_locals == add16(a.num_locals, elifs_hidden(cs.subrange(0, i)) as int),
        c0.instructions@.len() == a.instructions@.len() + elifs_len(cs.subrange(0, i), sc),
        loops_kept(a, c0, |q: int| elifs_breaks(cs.subrange(0, i), q, sc)),
        c0.constants@.len() <= 65536 ==> elifs_code(
            cs.subrange(0, i),
            c0.instructions@.subrange(a.instructions@.len() as int, c0.instructions@.len() as int),
            a.instructions@.len() as int,
            0,
            sc,
            c0.constants@,
            a.num_locals,
            cont_of(a),
        ),
        emits_expr(c0, c1, cs[i].0),
        c2.instructions@ == c1.instructions@.push(Op::PopJumpIfFalse(0)),
        c2.constants == c1.constants,
        c2.num_locals == c1.num_locals,
        c2.loop_stack == c1.loop_stack,
        c2.local_slots == c1.local_slots,
        c2.is_function == c1.is_function,
        emits_block(c2, c3, cs[i].1@),
        c4.instructions@ == c3.instructions@.push(Op::Jump(0)),
        c4.constants == c3.constants,
        c4.num_locals == c3.num_locals,
        c4.loop_stack == c3.loop_stack,
        c4.local_slots == c3.local_slots,
        c4.is_function == c3.is_function,
        sound(f),
        f.instructions@ == c4.instructions@.update(
            c1.instructions@.len() as int,
            Op::PopJumpIfFalse(c4.instructions@.len() as u32),
        ),
        f.constants == c4.constants,
        f.num_locals == c4.num_locals,
        f.loop_stack == c4.loop_stack,
        f.local_slots == c4.local_slots,
        f.is_function == c4.is_function,
    ensures
        keeps_context(a, f),
        f.num_locals == add16(a.num_locals, elifs_hidden(cs.subrange(0, i + 1)) as int),
        f.instructions@.len() == a.instructions@.len() + elifs_len(cs.subrange(0, i + 1), sc),
        c3.instructions@.len() == a.instructions@.len() + elifs_len(cs.subrange(0, i + 1), sc) - 1,
        loops_kept(a, f, |q: int| elifs_breaks(cs.subrange(0, i + 1), q, sc)),
        forall|x: int| 0 <= x < c0.instructions@.len() ==> #[trigger] f.instructions@[x] == c0.instructions@[x],
        f.instructions@[c3.instructions@.len() as int] == Op::Jump(0),
        f.constants@.len() <= 65536 ==> elifs_code(
            cs.subrange(0, i + 1),
            f.instructions@.subrange(a.instructions@.len() as int, f.instructions@.len() as int),
            a.instructions@.len() as int,
            0,
            sc,
            f.constants@,
            a.num_locals,
            cont_of(a),
        ),
{
    let start = a.instructions@.len() as int;
    let init = cs.subrange(0, i);
    let cs1 = cs.subrange(0, i + 1);
    assert(cs1.subrange(0, i) =~= init);
    assert(cs1[i] == cs[i]);
    let s0 = c0.instructions@.len() as int;
    let s1 = c1.instructions@.len() as int;
    let s2 = c2.instructions@.len() as int;
    let s3 = c3.instructions@.len() as int;
    let e = f.instructions@.len() as int;
    lemma_grows_trans(a.instructions@, c0.instructions@, c1.instructions@);
    lemma_grows_trans(a.instructions@, c1.instructions@, c2.instructions@);
    lemma_grows_trans(a.instructions@, c2.instructions@, c3.instructions@);
    lemma_grows_trans(a.instructions@, c3.instructions@, c4.instructions@);
    lemma_grows_trans(a.instructions@, c4.instructions@, f.instructions@);
    assert(scope_of(c0) == sc);
    assert(scope_of(c2) == sc);
    lemma_add16(a.num_locals, elifs_hidden(init) as int, block_hidden(cs[i].1@) as int);
    lemma_loops_trans(
        a,
        c0,
        c2,
        |q: int| elifs_breaks(init, q, sc),
        |q: int| false,
        |q: int| elifs_breaks(init, q, sc),
    );
    lemma_loops_trans(
        a,
        c2,
        c3,
        |q: int| elifs_breaks(init, q, sc),
        |q: int| block_breaks(cs[i].1@, q, sc),
        |q: int| elifs_breaks(cs1, q, sc),
    );
    if f.constants@.len() <= 65536 {
        lemma_part(c0.instructions@, f.instructions@, start, e, start, s0);
        lemma_elifs_code_mono(init, c0.instructions@.subrange(start, s0), start, 0, sc, c0.constants@, f.constants@, a.num_locals, cont_of(a));
        lemma_part(c1.instructions@, f.instructions@, start, e, s0, s1);
        lemma_expr_code_mono(cs[i].0, code_since(c0, c1), s0, sc, c1.constants@, f.constants@);
        lemma_part(c3.instructions@, f.instructions@, start, e, s2, s3);
        assert(f.instructions@.subrange(start, e).subrange(s0 - start, s1 - start) =~= code_since(c0, c1));
        assert(f.instructions@.subrange(start, e).subrange(s2 - start, s3 - start) =~= code_since(c2, c3));
    }
}

#[verifier::rlimit(100)]
#[verifier::spinoff_prover]
fn compile_for<F: FloatOps>(builder: &mut CodeBuilder, stmt: &Stmt)
    requires
        sound(*old(builder)),
        stmt_ok(*stmt, old(builder).loop_stack@.len() > 0),
        *stmt is For,
    ensures
        emits_stmt(*old(builder), *final(builder), *stmt),
    decreases stmt, 1int,
{
    let ghost st: Stmt = *stmt;
    let ghost a = *builder;
    let ghost sc = scope_of(a);
    match stmt {
        Stmt::For { target, iter, body } => {
            // list = iter; idx = -1
            // loop: idx += 1; if !(idx < len(list)) goto end; target = list[idx]; body; goto loop
            // end:
            // `continue` jumps to the increment at `loop`.
            let list_slot = builder.alloc_hidden_local();
            let idx_slot = builder.alloc_hidden_local();
            let ghost b1 = *builder;
            proof {
                lemma_add16(a.num_locals, 1, 1);
                assert(scope_of(b1) == sc);
            }
            compile_expr::<F>(builder, iter);
            let ghost b2 = *builder;
            let loop_start = emit_for_head(builder, list_slot, idx_slot, *target);
            let exit_jump = builder.current_offset() - 5;
            let ghost bh = *builder;
            enter_loop(builder, loop_start);
            let ghost b3 = *builder;
            proof {
                assert(decreases_to!(st => st->For_body@));
                assert(scope_of(b3) == sc);
                assert(cont_of(b3) == loop_start);
            }
            compile_block::<F>(builder, body.as_slice());
            let ghost b4 = *builder;
            emit_for_tail(builder, loop_start);
            let loop_end = builder.current_offset();
            let ghost b5 = *builder;
            builder.patch_jump(exit_jump, loop_end);
            let ghost b6 = *builder;
            leave_loop(builder);
            proof {
                lemma_for_done(st, a, b1, b2, bh, b3, b4, b5, b6, *builder);
            }
        },
        _ => {},
    }
}

/// The instructions of a `for` loop between its iterable and its body, from
/// offset `s`: store the list, set the index to -1; then (at `s + 3`, where
/// each round and each `continue` starts) add 1 to the index, test it
/// against the length (jumping to `exit` when done), and store the item in
/// the target.
spec fn for_head(ins: Seq<Op>, s: int, list_slot: u16, idx_slot: u16, store: Op, exit: int, consts: Seq<Value>) -> bool {
    &&& ins[s] == Op::StoreLocal(list_slot)
    &&& ins[s + 1] matches Op::LoadConst(z) && const_for(consts, z, Expr::Integer(-1i64))
    &&& ins[s + 2] == Op::StoreLocal(idx_slot)
    &&& ins[s + 3] == Op::LoadLocal(idx_slot)
    &&& ins[s + 4] matches Op::LoadConst(o) && const_for(consts, o, Expr::Integer(1))
    &&& ins[s + 5] == Op::BinaryAdd
    &&& ins[s + 6] == Op::StoreLocal(idx_slot)
    &&& ins[s + 7] == Op::LoadLocal(idx_slot)
    &&& ins[s + 8] == Op::LoadLocal(list_slot)
    &&& ins[s + 9] == Op::Len
    &&& ins[s + 10] == Op::CompareLt
    &&& ins[s + 11] == Op::PopJumpIfFalse(exit as u32)
    &&& ins[s + 12] == Op::LoadLocal(list_slot)
    &&& ins[s + 13] == Op::LoadLocal(idx_slot)
    &&& ins[s + 14] == Op::BinarySubscript
    &&& ins[s + 15] == store
}

/// The instruction of a `for` loop after its body, at offset `s`: the jump
/// back to the round's start at `test`.
spec fn for_tail(ins: Seq<Op>, s: int, test: int) -> bool {
    ins[s] == Op::Jump(test as u32)
}

/// Emits the head of a `for` loop (`for_head`) with a pending exit jump;
/// returns the offset where each round starts.
fn emit_for_head(builder: &mut CodeBuilder, list_slot: u16, idx_slot: u16, target: Symbol) -> (loop_start: usize)
    requires
        sound(*old(builder)),
    ensures
        sound(*final(builder)),
        keeps_scope(*old(builder), *final(builder)),
        final(builder).instructions@.len() == old(builder).instructions@.len() + 16,
        loop_start == old(builder).instructions@.len() + 3,
        final(builder).instructions@[loop_start + 8] == Op::PopJumpIfFalse(0),
        final(builder).constants@.len() <= 65536 ==> for_head(
            final(builder).instructions@,
            old(builder).instructions@.len() as int,
            list_slot,
            idx_slot,
            store_op(scope_of(*old(builder)), target),
            0,
            final(builder).constants@,
        ),
{
    let ghost a = *builder;
    builder.emit(Op::StoreLocal(list_slot));
    emit_const(builder, Value::Integer(-1));
    let ghost bz = *builder;
    builder.emit(Op::StoreLocal(idx_slot));
    let loop_start = builder.current_offset();
    builder.emit(Op::LoadLocal(idx_slot));
    emit_const(builder, Value::Integer(1));
    let ghost bo = *builder;
    builder.emit(Op::BinaryAdd);
    builder.emit(Op::StoreLocal(idx_slot));
    builder.emit(Op::LoadLocal(idx_slot));
    builder.emit(Op::LoadLocal(list_slot));
    builder.emit(Op::Len);
    builder.emit(Op::CompareLt);
    builder.emit(Op::PopJumpIfFalse(0));
    builder.emit(Op::LoadLocal(list_slot));
    builder.emit(Op::LoadLocal(idx_slot));
    builder.emit(Op::BinarySubscript);
    builder.emit_store(target);
    proof {
        let s = a.instructions@.len() as int;
        assert(builder.instructions@[s + 1] == bz.instructions@[s + 1]);
        assert(builder.instructions@[s + 4] == bo.instructions@[s + 4]);
        assert(bo.instructions@[s + 1] == bz.instructions@[s + 1]);
    }
    loop_start
}

/// Emits the tail of a `for` loop (`for_tail`).
fn emit_for_tail(builder: &mut CodeBuilder, loop_start: usize)
    requires
        sound(*old(builder)),
        loop_start <= old(builder).instructions@.len(),
    ensures
        sound(*final(builder)),
        keeps_scope(*old(builder), *final(builder)),
        final(builder).instructions@.len() == old(builder).instructions@.len() + 1,
        for_tail(final(builder).instructions@, old(builder).instructions@.len() as int, loop_start as int),
        final(builder).loop_stack == old(builder).loop_stack,
{
    proof {
        lemma_trunc_u32(loop_start);
    }
    builder.emit(Op::Jump(loop_start as u32));
}

/// A `for` loop, once its exit jump and its body's `break`s point at its end.
#[verifier::rlimit(100)]
#[verifier::spinoff_prover]
proof fn lemma_for_done(
    st: Stmt,
    a: CodeBuilder,
    b1: CodeBuilder,
    b2: CodeBuilder,
    bh: CodeBuilder,
    b3: CodeBuilder,
    b4: CodeBuilder,
    b5: CodeBuilder,
    b6: CodeBuilder,
    f: CodeBuilder,
)
    requires
        st is For,
        sound(a),
        b1.instructions == a.instructions,
        b1.constants == a.constants,
        b1.local_slots == a.local_slots,
        b1.is_function == a.is_function,
        b1.loop_stack == a.loop_stack,
        b1.num_locals == add16(a.num_locals, 2),
        emits_expr(b1, b2, st->For_iter),
        keeps_scope(b2, bh),
        bh.instructions@.len() == b2.instructions@.len() + 16,
        bh.instructions@[b2.instructions@.len() as int + 11] == Op::PopJumpIfFalse(0),
        bh.constants@.len() <= 65536 ==> for_head(
            bh.instructions@,
            b2.instructions@.len() as int,
            a.num_locals,
            add16(a.num_locals, 1),
            store_op(scope_of(b2), st->For_target),
            0,
            bh.constants@,
        ),
        b3.instructions == bh.instructions,
        b3.constants == bh.constants,
        b3.local_slots == bh.local_slots,
        b3.num_locals == bh.num_locals,
        b3.is_function == bh.is_function,
        b3.loop_stack@.len() == a.loop_stack@.len() + 1,
        forall|c: int| 0 <= c < a.loop_stack@.len() ==> #[trigger] b3.loop_stack@[c] == a.loop_stack@[c],
        b3.loop_stack@.last().continue_target == b2.instructions@.len() + 3,
        b3.loop_stack@.last().break_patches@.len() == 0,
        emits_block(b3, b4, st->For_body@),
        keeps_scope(b4, b5),
        b5.instructions@.len() == b4.instructions@.len() + 1,
        for_tail(b5.instructions@, b4.instructions@.len() as int, b2.instructions@.len() as int + 3),
        b5.loop_stack == b4.loop_stack,
        b5.instructions@.len() <= usize::MAX,
        b6.instructions@ == b5.instructions@.update(
            b2.instructions@.len() as int + 11,
            Op::PopJumpIfFalse(b5.instructions@.len() as u32),
        ),
        b6.constants == b5.constants,
        b6.local_slots == b5.local_slots,
        b6.num_locals == b5.num_locals,
        b6.is_function == b5.is_function,
        b6.loop_stack == b5.loop_stack,
        sound(f),
        grows(b6.instructions@, f.instructions@),
        f.instructions@.len() == b6.instructions@.len(),
        forall|x: int|
            0 <= x < b6.instructions@.len() ==> #[trigger] f.instructions@[x] == if b6.loop_stack@.last().break_patches@.contains(
                x as usize,
            ) {
                with_target(b6.instructions@[x], b6.instructions@.len() as u32)
            } else {
                b6.instructions@[x]
            },
        f.constants == b6.constants,
        f.local_slots == b6.local_slots,
        f.num_locals == b6.num_locals,
        f.is_function == b6.is_function,
        f.loop_stack@ == b6.loop_stack@.drop_last(),
    ensures
        emits_stmt(a, f, st),
{
    let sc = scope_of(a);
    let start = a.instructions@.len() as int;
    let s2 = b2.instructions@.len() as int;
    let s3 = b3.instructions@.len() as int;
    let s4 = b4.instructions@.len() as int;
    let e = b5.instructions@.len() as int;
    assert(scope_of(b1) == sc);
    assert(scope_of(b2) == sc);
    assert(scope_of(b3) == sc);
    lemma_grows_trans(a.instructions@, b2.instructions@, bh.instructions@);
    lemma_grows_trans(a.instructions@, bh.instructions@, b4.instructions@);
    lemma_grows_trans(a.instructions@, b4.instructions@, b5.instructions@);
    lemma_grows_trans(a.instructions@, b5.instructions@, b6.instructions@);
    lemma_grows_trans(a.instructions@, b6.instructions@, f.instructions@);
    lemma_add16(a.num_locals, 2, block_hidden(st->For_body@) as int);
    lemma_loop_done(a, bh.instructions@.len() as int - 5, b3, b4, b6, f, st->For_body@);
    if f.constants@.len() <= 65536 {
        lemma_part(b2.instructions@, f.instructions@, start, e, start, s2);
        lemma_expr_code_mono(st->For_iter, code_since(b1, b2), start, sc, b2.constants@, f.constants@);
        assert(f.instructions@.subrange(start, e).subrange(s3 - start, s4 - start) =~= f.instructions@.subrange(s3, s4));
        assert forall|k: int| 0 <= k < 16 && k != 11 implies #[trigger] f.instructions@[s2 + k] == bh.instructions@[s2 + k] by {}
        assert(f.instructions@[s4] == b5.instructions@[s4]);
    }
}


/// Whether the compiler accepts the expression (`expr_ok`).
pub fn check_expr(e: &Expr) -> (r: bool)
    ensures
        r == expr_ok(*e),
    decreases e, 1int,
{
    match e {
        Expr::BinaryOp { left, right, .. } => check_expr(left) && check_expr(right),
        Expr::UnaryOp { operand, .. } => check_expr(operand),
        Expr::Call { function, args } => {
            proof {
                let ghost g: Expr = *e;
                assert(decreases_to!(g => g->args@));
            }
            check_expr(function) && check_exprs(args.as_slice())
        },
        Expr::Index { object, index } => check_expr(object) && check_expr(index),
        Expr::Attribute { object, .. } => check_expr(object),
        Expr::List(items) => {
            proof {
                let ghost g: Expr = *e;
                assert(decreases_to!(g => g->List_0@));
            }
            check_exprs(items.as_slice())
        },
        Expr::Dict(pairs) => {
            proof {
                let ghost g: Expr = *e;
                assert(decreases_to!(g => g->Dict_0@));
            }
            check_expr_pairs(pairs.as_slice())
        },
        Expr::Compare { left, ops, comparators } => {
            proof {
                let ghost g: Expr = *e;
                assert(decreases_to!(g => g->comparators@));
            }
            check_expr(left) && 1 <= ops.len() && ops.len() <= comparators.len() && check_exprs(
                comparators.as_slice(),
            )
        },
        _ => true,
    }
}

/// Whether the compiler accepts every expression (`exprs_ok`).
pub fn check_exprs(es: &[Expr]) -> (r: bool)
    ensures
        r == exprs_ok(es@),
    decreases es@, 0int,
{
    let mut i: usize = 0;
    while i < es.len()
        invariant
            i <= es@.len(),
            exprs_ok(es@.subrange(0, i as int)),
        decreases es@.len() - i,
    {
        let ghost next = es@.subrange(0, i + 1);
        proof {
            assert(next.subrange(0, next.len() - 1) =~= es@.subrange(0, i as int));
        }
        if !check_expr(&es[i]) {
            proof {
                if exprs_ok(es@) {
                    lemma_exprs_ok(es@, i as int);
                }
            }
            return false;
        }
        i = i + 1;
    }
    proof {
        assert(es@.subrange(0, es@.len() as int) =~= es@);
    }
    true
}

/// Whether the compiler accepts every key and value (`expr_pairs_ok`).
pub fn check_expr_pairs(ps: &[(Expr, Expr)]) -> (r: bool)
    ensures
        r == expr_pairs_ok(ps@),
    decreases ps@, 0int,
{
    let mut i: usize = 0;
    while i < ps.len()
        invariant
            i <= ps@.len(),
            expr_pairs_ok(ps@.subrange(0, i as int)),
        decreases ps@.len() - i,
    {
        let ghost next = ps@.subrange(0, i + 1);
        proof {
            assert(next.subrange(0, next.len() - 1) =~= ps@.subrange(0, i as int));
        }
        if !check_expr(&ps[i].0) || !check_expr(&ps[i].1) {
            proof {
                if expr_pairs_ok(ps@) {
                    lemma_expr_pairs_ok(ps@, i as int);
                }
            }
            return false;
        }
        i = i + 1;
    }
    proof {
        assert(ps@.subrange(0, ps@.len() as int) =~= ps@);
    }
    true
}

/// Whether the compiler accepts the statement (`stmt_ok`).
pub fn check_stmt(st: &Stmt, in_loop: bool) -> (r: bool)
    ensures
        r == stmt_ok(*st, in_loop),
    decreases st, 1int,
{
    let ghost g: Stmt = *st;
    match st {
        Stmt::Expression(e) => check_expr(e),
        Stmt::Assign { value, .. } => check_expr(value),
        Stmt::AugAssign { op, value, .. } => check_expr(value) && *op != BinOp::And && *op
            != BinOp::Or,
        Stmt::Print(args) => check_exprs(args.as_slice()),
        Stmt::Break => in_loop,
        Stmt::Continue => in_loop,
        Stmt::If { condition, body, elif_clauses, else_body } => {
            proof {
                assert(decreases_to!(g => g->If_body@));
                assert(decreases_to!(g => g->elif_clauses@));
            }
            if !check_expr(condition) || !check_block(body.as_slice(), in_loop) || !check_elifs(
                elif_clauses.as_slice(),
                in_loop,
            ) {
                return false;
            }
            match else_body {
                Some(b) => {
                    proof {
                        assert(decreases_to!(g => g->else_body->Some_0@));
                    }
                    check_block(b.as_slice(), in_loop)
                },
                None => true,
            }
        },
        Stmt::While { condition, body } => {
            proof {
                assert(decreases_to!(g => g->While_body@));
            }
            check_expr(condition) && check_block(body.as_slice(), true)
        },
        Stmt::For { iter, body, .. } => {
            proof {
                assert(decreases_to!(g => g->For_body@));
            }
            check_expr(iter) && check_block(body.as_slice(), true)
        },
        Stmt::FunctionDef { body, .. } => {
            proof {
                assert(decreases_to!(g => g->FunctionDef_body@));
            }
            check_block(body.as_slice(), false)
        },
        Stmt::Return(Some(e)) => check_expr(e),
        _ => true,
    }
}

/// Whether the compiler accepts every statement (`block_ok`); a program is
/// accepted when `check_block(stmts, false)` holds.
pub fn check_block(stmts: &[Stmt], in_loop: bool) -> (r: bool)
    ensures
        r == block_ok(stmts@, in_loop),
    decreases stmts@, 0int,
{
    let mut i: usize = 0;
    while i < stmts.len()
        invariant
            i <= stmts@.len(),
            block_ok(stmts@.subrange(0, i as int), in_loop),
        decreases stmts@.len() - i,
    {
        let ghost next = stmts@.subrange(0, i + 1);
        proof {
            assert(next.subrange(0, next.len() - 1) =~= stmts@.subrange(0, i as int));
        }
        if !check_stmt(&stmts[i], in_loop) {
            proof {
                if block_ok(stmts@, in_loop) {
                    lemma_block_ok(stmts@, in_loop, i as int);
                }
            }
            return false;
        }
        i = i + 1;
    }
    proof {
        assert(stmts@.subrange(0, stmts@.len() as int) =~= stmts@);
    }
    true
}

fn check_elifs(cs: &[(Expr, Vec<Stmt>)], in_loop: bool) -> (r: bool)
    ensures
        r == elifs_ok(cs@, in_loop),
    decreases cs@, 0int,
{
    let mut i: usize = 0;
    while i < cs.len()
        invariant
            i <= cs@.len(),
            elifs_ok(cs@.subrange(0, i as int), in_loop),
        decreases cs@.len() - i,
    {
        let ghost next = cs@.subrange(0, i + 1);
        proof {
            assert(next.subrange(0, next.len() - 1) =~= cs@.subrange(0, i as int));
            assert(decreases_to!(cs@ => cs@[i as int].1@));
        }
        if !check_expr(&cs[i].0) || !check_block(cs[i].1.as_slice(), in_loop) {
            proof {
                if elifs_ok(cs@, in_loop) {
                    lemma_elifs_ok(cs@, in_loop, i as int);
                }
            }
            return false;
        }
        i = i + 1;
    }
    proof {
        assert(cs@.subrange(0, cs@.len() as int) =~= cs@);
    }
    true
}

} // verus!
