//! Properties of the library that relate several operations or hold of
//! every input.
use vstd::prelude::*;

use crate::ast::Stmt;
use crate::builtins::{all_digits, parse_int, range_items};
use crate::bytecode::{packed, Builtin, CodeObject, Op, Value};
use crate::codegen::{loads_in_order, add16, block_code, block_hidden, block_len, function_code, function_slots, module_code, Scope};
use crate::compiler::{block_ok, optimized};
use crate::frames::{law_loaded_stacked, law_loaded_values_ok, law_run_finds_operands, loads_ok, map_ok, seq_ok};
use crate::vm::VM;
use crate::stack::{block_depth, lemma_function_body_safe, lemma_optimized_safe, lemma_top_block_safe, pops, stack_safe};
use crate::ast::{BinOp, CmpOp, UnaryOp};
use crate::codegen::unary_instruction;
use crate::compiler::{binop_instruction, comparison_instruction};
use crate::grammar::{
    add_op, add_tail, and_tail, aug_op, comparison_op, comparison_tail, mul_op, mul_tail, or_tail, p_addition, p_and,
    p_comparison, p_expression, p_multiplication, p_not, p_postfix, p_power, p_primary, p_unary, postfix_tail, tok_at, ExprV,
    Names,
};
use crate::interpreter::{binop_spec, comparison_spec};
use crate::semantics::unary_spec;
use crate::lexer::{digits_value, escaped, lex_from, with_prefix, LexTok};
use crate::token::{escape_char, keyword_spec, keyword_spelling, operator_spelling, source_spelling, Token};
use crate::vm::{binary_result, unary_result};
use crate::ops::{floor_quotient, mod_spec};
use crate::symbol::{distinct_names, interned, Symbol};
use crate::text::{decimal_digits, digit_char, int_text};
use vstd::arithmetic::div_mod::{lemma_fundamental_div_mod, lemma_fundamental_div_mod_converse, lemma_small_mod};

verus! {

/// Unpacking a packed pair gives back both halves.
pub proof fn law_unpack_pack(a: u16, b: u16)
    ensures
        packed(a, b) / 65536 == a,
        packed(a, b) % 65536 == b,
{
    assert(((a as u32) * 65536 + (b as u32)) / 65536 == a) by (nonlinear_arith)
        requires
            a < 65536,
            b < 65536,
    ;
    assert(((a as u32) * 65536 + (b as u32)) % 65536 == b) by (nonlinear_arith)
        requires
            a < 65536,
            b < 65536,
    ;
}

/// The symbol that interning gives resolves to the interned name.
pub proof fn law_intern_resolve(before: Seq<Seq<char>>, after: Seq<Seq<char>>, name: Seq<char>, sym: Symbol)
    requires
        interned(before, after, name, sym),
    ensures
        (sym.0 as int) < after.len(),
        after[sym.0 as int] == name,
{
}

/// Interning a name a second time gives the same symbol and changes
/// nothing.
pub proof fn law_intern_idempotent(
    s0: Seq<Seq<char>>,
    s1: Seq<Seq<char>>,
    s2: Seq<Seq<char>>,
    name: Seq<char>,
    first: Symbol,
    second: Symbol,
)
    requires
        distinct_names(s0),
        interned(s0, s1, name, first),
        interned(s1, s2, name, second),
    ensures
        second == first,
        s2 == s1,
{
    assert(s1[first.0 as int] == name);
    assert(s1.contains(name));
    if first.0 != second.0 {
        if s0.contains(name) {
            assert(s1 == s0);
        } else {
            assert(s1 == s0.push(name));
            assert(s1[second.0 as int] == name);
            assert(s0[second.0 as int] == name);
            assert(s0.contains(name));
        }
    }
}

/// Different names get different symbols.
pub proof fn law_intern_distinct(
    s0: Seq<Seq<char>>,
    s1: Seq<Seq<char>>,
    s2: Seq<Seq<char>>,
    a: Seq<char>,
    b: Seq<char>,
    sa: Symbol,
    sb: Symbol,
)
    requires
        distinct_names(s0),
        interned(s0, s1, a, sa),
        interned(s1, s2, b, sb),
        a != b,
    ensures
        sa != sb,
{
    assert(s1[sa.0 as int] == a);
    assert(s2[sb.0 as int] == b);
    assert(s2[sa.0 as int] == s1[sa.0 as int]);
}

/// With a positive divisor, `%` is the remainder of floor division, as in
/// Python: a number from 0 up to the divisor. The divisor must leave room
/// for `(a % b) + b` in `i64`.
pub proof fn law_mod_floor(a: i64, b: i64, x: i64)
    requires
        0 < b <= i64::MAX / 2,
        mod_spec(Value::Integer(a), Value::Integer(b), Ok(Value::Integer(x))),
    ensures
        x as int == (a as int) % (b as int),
        0 <= x < b,
{
    let ai = a as int;
    let bi = b as int;
    let m = a.checked_rem(b)->Some_0;
    let t = m.wrapping_add(b);
    if ai >= 0 {
        if ai == 0 {
            lemma_small_mod(0, bi as nat);
        }
        assert(m as int == ai % bi);
        assert(0 <= m < b);
        assert(t as int == m + bi);
        assert(x as int == (t as int) % bi);
        lemma_fundamental_div_mod_converse(t as int, bi, 1, m as int);
    } else {
        let na = -ai;
        let r = na % bi;
        let q = na / bi;
        lemma_fundamental_div_mod(na, bi);
        assert(na == bi * q + r);
        assert(0 <= r < bi);
        assert(m as int == -r);
        assert(t as int == bi - r);
        assert(x as int == (t as int) % bi);
        if r == 0 {
            lemma_fundamental_div_mod_converse(t as int, bi, 1, 0);
            assert(ai == (-q) * bi + 0) by (nonlinear_arith)
                requires
                    na == bi * q + r,
                    r == 0,
                    ai == -na,
            ;
            lemma_fundamental_div_mod_converse(ai, bi, -q, 0);
        } else {
            lemma_fundamental_div_mod_converse(t as int, bi, 0, t as int);
            assert(ai == (-q - 1) * bi + (bi - r)) by (nonlinear_arith)
                requires
                    na == bi * q + r,
                    ai == -na,
            ;
            lemma_fundamental_div_mod_converse(ai, bi, -q - 1, bi - r);
        }
    }
}

/// The decimal text of a natural number is made of digits and denotes it.
pub proof fn lemma_decimal_digits(n: nat)
    ensures
        all_digits(decimal_digits(n)),
        digits_value(decimal_digits(n)) == n,
        decimal_digits(n).len() > 0,
    decreases n,
{
    let ds = decimal_digits(n);
    if n < 10 {
        assert(ds.drop_last() =~= Seq::<char>::empty());
        assert((digit_char(n) as u32) == n + 48);
        assert(ds.last() == digit_char(n));
        assert(digits_value(ds) == digits_value(ds.drop_last()) * 10 + ((ds.last() as u32) - 48) as nat);
    } else {
        lemma_decimal_digits(n / 10);
        let init = decimal_digits(n / 10);
        assert(ds.drop_last() =~= init);
        assert((digit_char(n % 10) as u32) == n % 10 + 48);
        assert(ds.last() == digit_char(n % 10));
        assert(digits_value(ds) == digits_value(init) * 10 + ((ds.last() as u32) - 48) as nat);
        assert((n / 10) * 10 + n % 10 == n) by (nonlinear_arith);
        assert forall|i: int| 0 <= i < ds.len() implies 48 <= (#[trigger] ds[i] as u32) <= 57 by {
            if i < init.len() {
                assert(ds[i] == init[i]);
            }
        }
    }
}

/// Reading back the decimal text of an integer gives the integer:
/// `int(str(n)) == n`.
pub proof fn law_int_text_parse(n: i64)
    ensures
        parse_int(int_text(n as int)) == Some(n),
{
    let t = int_text(n as int);
    if n < 0 {
        let k = (-(n as int)) as nat;
        lemma_decimal_digits(k);
        assert(t.drop_first() =~= decimal_digits(k));
    } else {
        lemma_decimal_digits(n as nat);
        let ds = decimal_digits(n as nat);
        assert(48 <= (ds[0] as u32) <= 57);
    }
}

/// `range(start, stop, step)` with a positive step holds the numbers
/// `start + i * step` that lie below `stop`, in order.
pub proof fn law_range_elements(start: int, stop: int, step: int, i: int)
    requires
        step > 0,
        0 <= i < range_items(start, stop, step).len(),
    ensures
        range_items(start, stop, step)[i] == start + i * step,
        start <= range_items(start, stop, step)[i] < stop,
    decreases (if start < stop { stop - start } else { 0 }),
{
    if i > 0 {
        law_range_elements(start + step, stop, step, i - 1);
        assert(start + step + (i - 1) * step == start + i * step) by (nonlinear_arith);
    }
}

/// `range(n)` has `n` elements (none for `n <= 0`).
pub proof fn law_range_length(n: int)
    ensures
        range_items(0, n, 1).len() == (if n > 0 { n } else { 0 }),
{
    lemma_range_count(0, n);
}

proof fn lemma_range_count(start: int, stop: int)
    ensures
        range_items(start, stop, 1).len() == (if start < stop { stop - start } else { 0 }),
    decreases (if start < stop { stop - start } else { 0 }),
{
    if start < stop {
        lemma_range_count(start + 1, stop);
    }
}

/// The compiler guarantees correct stack depths: the code of a module
/// without `break` or `continue` outside a loop (and with fewer than
/// 2^32 - 1 instructions before the peephole pass) is stack safe -- run from
/// an empty stack, no instruction takes more values than the stack holds.
pub proof fn law_module_stack_safe(stmts: Seq<Stmt>, code: CodeObject)
    requires
        block_ok(stmts, false),
        module_code(stmts, code),
        block_len(stmts, Scope { locals: Map::empty(), in_fn: false }) < u32::MAX,
    ensures
        stack_safe(code.instructions@),
{
    let sc = Scope { locals: Map::empty(), in_fn: false };
    let consts = code.constants@;
    let pre = choose|pre: Seq<Op>|
        #![trigger block_code(stmts, pre, 0, Scope { locals: Map::empty(), in_fn: false }, code.constants@, 0, 0)]
        block_code(stmts, pre, 0, Scope { locals: Map::empty(), in_fn: false }, code.constants@, 0, 0)
            && code.instructions@ == optimized(pre, code.constants@)
            && code.num_locals == add16(0, block_hidden(stmts) as int)
            && loads_in_order(pre, code.constants@.len());
    lemma_top_block_safe(stmts, pre, sc, consts, 0);
    lemma_optimized_safe(pre, consts, Seq::new((pre.len() + 1) as nat, |k: int| block_depth(stmts, sc, k)));
}

/// The same holds of every function's code: the code object of a function
/// body without `break` or `continue` outside a loop is stack safe.
pub proof fn law_function_stack_safe(params: Seq<crate::symbol::Symbol>, body: Seq<Stmt>, code: CodeObject)
    requires
        block_ok(body, false),
        function_code(params, body, code),
        block_len(body, Scope { locals: function_slots(params, body).0, in_fn: true }) + 1 < u32::MAX,
    ensures
        stack_safe(code.instructions@),
{
    let (m, n) = function_slots(params, body);
    let sc = Scope { locals: m, in_fn: true };
    let consts = code.constants@;
    let seg = choose|seg: Seq<Op>|
        #![trigger optimized(seg.push(Op::ReturnNone), code.constants@)]
        block_code(body, seg, 0, Scope { locals: m, in_fn: true }, code.constants@, n, 0)
            && code.instructions@ == optimized(seg.push(Op::ReturnNone), code.constants@)
            && loads_in_order(seg, code.constants@.len());
    lemma_function_body_safe(body, seg, sc, consts, n);
    lemma_optimized_safe(
        seg.push(Op::ReturnNone),
        consts,
        Seq::new((seg.len() + 2) as nat, |k: int| if k <= seg.len() { block_depth(body, sc, k) } else { 0 }),
    );
}

/// The stack depths the compiler guarantees hold when the code runs: on a
/// machine with no saved frame and no function with other code among its
/// values, every run of a compiled module whose loaded constants hold only
/// functions with code under the discipline (as the code of every function
/// the compiler builds is stack safe, `law_function_stack_safe`) finds, at
/// every instruction, the values the instruction takes on the stack.
pub proof fn law_compiled_run_finds_operands(stmts: Seq<Stmt>, code: CodeObject, s: VM, trace: Seq<VM>)
    requires
        block_ok(stmts, false),
        module_code(stmts, code),
        block_len(stmts, Scope { locals: Map::empty(), in_fn: false }) < u32::MAX,
        loads_ok(code),
        s.frames_view().len() == 0,
        seq_ok(s.stack_view()),
        seq_ok(s.locals_view()),
        map_ok(s.globals_view()),
        trace.len() > 0,
        VM::loaded(s, code, trace[0]),
        VM::is_trace(trace),
    ensures
        forall|i: int|
            0 <= i < trace.len() && trace[i].pc_view() < trace[i].code_view().instructions@.len()
                ==> #[trigger] trace[i].stack_view().len() >= pops(
                trace[i].code_view().instructions@[trace[i].pc_view() as int],
            ),
{
    law_module_stack_safe(stmts, code);
    law_loaded_stacked(s, code, trace[0]);
    law_loaded_values_ok(s, code, trace[0]);
    law_run_finds_operands(trace);
}

/// A fused increment does what the four instructions it replaces do: on an
/// integer local and an integer constant, `LoadLocal(a)`, `LoadConst(c)`,
/// `BinaryAdd`, `StoreLocal(a)` run as four steps (from `s0` to `s4`), and
/// `IncrLocalByConst` of the packed pair run as one step (from `u` to `v`)
/// from the same stack, locals, globals and constants, leave the same stack,
/// locals and globals.
pub proof fn law_fused_increment(s0: VM, s1: VM, s2: VM, s3: VM, s4: VM, u: VM, v: VM, a: u16, c: u16)
    requires
        s0.pc_view() + 4 <= s0.code_view().instructions@.len(),
        s0.code_view().instructions@[s0.pc_view() as int] == Op::LoadLocal(a),
        s0.code_view().instructions@[s0.pc_view() + 1] == Op::LoadConst(c),
        s0.code_view().instructions@[s0.pc_view() + 2] == Op::BinaryAdd,
        s0.code_view().instructions@[s0.pc_view() + 3] == Op::StoreLocal(a),
        VM::step_spec(s0, s1, Ok(false)),
        VM::step_spec(s1, s2, Ok(false)),
        VM::step_spec(s2, s3, Ok(false)),
        VM::step_spec(s3, s4, Ok(false)),
        VM::local_at(s0, a as int) matches Some(Value::Integer(_)),
        VM::const_at(s0, c as int) matches Some(Value::Integer(_)),
        u.pc_view() < u.code_view().instructions@.len(),
        u.code_view().instructions@[u.pc_view() as int] == Op::IncrLocalByConst(packed(a, c) as u32),
        u.code_view().constants@ == s0.code_view().constants@,
        u.stack_view() == s0.stack_view(),
        u.locals_view() == s0.locals_view(),
        u.base_view() == s0.base_view(),
        u.globals_view() == s0.globals_view(),
        VM::step_spec(u, v, Ok(false)),
    ensures
        v.stack_view() == s4.stack_view(),
        v.locals_view() == s4.locals_view(),
        v.globals_view() == s4.globals_view(),
        v.pc_view() == u.pc_view() + 1,
        s4.pc_view() == s0.pc_view() + 4,
{
    law_unpack_pack(a, c);
    assert((packed(a, c) as u32) as int == packed(a, c));
    assert(s1.code_view() == s0.code_view());
    assert(s2.code_view() == s0.code_view());
    assert(s3.code_view() == s0.code_view());
    assert(VM::const_at(u, c as int) == VM::const_at(s0, c as int));
    assert(VM::local_at(u, a as int) == VM::local_at(s0, a as int));
    assert(s3.stack_view().drop_last() =~= s0.stack_view());
    assert(v.stack_view() =~= s4.stack_view());
    assert(v.locals_view() =~= s4.locals_view());
}

/// A fused compare-and-jump decides as the four instructions it replaces:
/// `LoadLocal(a)`, `LoadConst(c)`, `CompareLt`, `PopJumpIfFalse(t)` run as
/// four steps (from `s0` to `s4`), and `LocalLtConstJump` of the packed pair
/// and `t` run as one step (from `u` to `v`) from the same stack, locals and
/// constants, leave the same stack, and both go on after the test exactly
/// when the local is less than the constant, and to `t` otherwise.
pub proof fn law_fused_compare_jump(s0: VM, s1: VM, s2: VM, s3: VM, s4: VM, u: VM, v: VM, a: u16, c: u16, t: u32)
    requires
        s0.pc_view() + 4 <= s0.code_view().instructions@.len(),
        s0.code_view().instructions@[s0.pc_view() as int] == Op::LoadLocal(a),
        s0.code_view().instructions@[s0.pc_view() + 1] == Op::LoadConst(c),
        s0.code_view().instructions@[s0.pc_view() + 2] == Op::CompareLt,
        s0.code_view().instructions@[s0.pc_view() + 3] == Op::PopJumpIfFalse(t),
        VM::step_spec(s0, s1, Ok(false)),
        VM::step_spec(s1, s2, Ok(false)),
        VM::step_spec(s2, s3, Ok(false)),
        VM::step_spec(s3, s4, Ok(false)),
        u.pc_view() < u.code_view().instructions@.len(),
        u.code_view().instructions@[u.pc_view() as int] == Op::LocalLtConstJump(packed(a, c) as u32, t),
        u.code_view().constants@ == s0.code_view().constants@,
        u.stack_view() == s0.stack_view(),
        u.locals_view() == s0.locals_view(),
        u.base_view() == s0.base_view(),
        VM::step_spec(u, v, Ok(false)),
    ensures
        v.stack_view() == s4.stack_view(),
        ({
            let go_on = crate::ops::less_than(
                VM::local_at(s0, a as int)->Some_0,
                VM::const_at(s0, c as int)->Some_0,
            );
            &&& s4.pc_view() == (if go_on { s0.pc_view() + 4 } else { t as int })
            &&& v.pc_view() == (if go_on { u.pc_view() + 1 } else { t as int })
        }),
{
    law_unpack_pack(a, c);
    assert((packed(a, c) as u32) as int == packed(a, c));
    assert(s1.code_view() == s0.code_view());
    assert(s2.code_view() == s0.code_view());
    assert(s3.code_view() == s0.code_view());
    assert(VM::const_at(u, c as int) == VM::const_at(s0, c as int));
    assert(VM::local_at(u, a as int) == VM::local_at(s0, a as int));
    assert(s3.stack_view().drop_last() =~= s0.stack_view());
}

/// The same for `LocalLtLocalJump`: `LoadLocal(a)`, `LoadLocal(c)`,
/// `CompareLt`, `PopJumpIfFalse(t)` decide as the fused instruction does.
pub proof fn law_fused_local_compare_jump(s0: VM, s1: VM, s2: VM, s3: VM, s4: VM, u: VM, v: VM, a: u16, c: u16, t: u32)
    requires
        s0.pc_view() + 4 <= s0.code_view().instructions@.len(),
        s0.code_view().instructions@[s0.pc_view() as int] == Op::LoadLocal(a),
        s0.code_view().instructions@[s0.pc_view() + 1] == Op::LoadLocal(c),
        s0.code_view().instructions@[s0.pc_view() + 2] == Op::CompareLt,
        s0.code_view().instructions@[s0.pc_view() + 3] == Op::PopJumpIfFalse(t),
        VM::step_spec(s0, s1, Ok(false)),
        VM::step_spec(s1, s2, Ok(false)),
        VM::step_spec(s2, s3, Ok(false)),
        VM::step_spec(s3, s4, Ok(false)),
        u.pc_view() < u.code_view().instructions@.len(),
        u.code_view().instructions@[u.pc_view() as int] == Op::LocalLtLocalJump(packed(a, c) as u32, t),
        u.stack_view() == s0.stack_view(),
        u.locals_view() == s0.locals_view(),
        u.base_view() == s0.base_view(),
        VM::step_spec(u, v, Ok(false)),
    ensures
        v.stack_view() == s4.stack_view(),
        ({
            let go_on = crate::ops::less_than(
                VM::local_at(s0, a as int)->Some_0,
                VM::local_at(s0, c as int)->Some_0,
            );
            &&& s4.pc_view() == (if go_on { s0.pc_view() + 4 } else { t as int })
            &&& v.pc_view() == (if go_on { u.pc_view() + 1 } else { t as int })
        }),
{
    law_unpack_pack(a, c);
    assert((packed(a, c) as u32) as int == packed(a, c));
    assert(s1.code_view() == s0.code_view());
    assert(s2.code_view() == s0.code_view());
    assert(s3.code_view() == s0.code_view());
    assert(VM::local_at(u, c as int) == VM::local_at(s0, c as int));
    assert(VM::local_at(u, a as int) == VM::local_at(s0, a as int));
    assert(s3.stack_view().drop_last() =~= s0.stack_view());
}

/// The same for `LocalLtEConstJump`: `LoadLocal(a)`, `LoadConst(c)`,
/// `CompareLtE`, `PopJumpIfFalse(t)` decide as the fused instruction does.
pub proof fn law_fused_le_compare_jump(s0: VM, s1: VM, s2: VM, s3: VM, s4: VM, u: VM, v: VM, a: u16, c: u16, t: u32)
    requires
        s0.pc_view() + 4 <= s0.code_view().instructions@.len(),
        s0.code_view().instructions@[s0.pc_view() as int] == Op::LoadLocal(a),
        s0.code_view().instructions@[s0.pc_view() + 1] == Op::LoadConst(c),
        s0.code_view().instructions@[s0.pc_view() + 2] == Op::CompareLtE,
        s0.code_view().instructions@[s0.pc_view() + 3] == Op::PopJumpIfFalse(t),
        VM::step_spec(s0, s1, Ok(false)),
        VM::step_spec(s1, s2, Ok(false)),
        VM::step_spec(s2, s3, Ok(false)),
        VM::step_spec(s3, s4, Ok(false)),
        u.pc_view() < u.code_view().instructions@.len(),
        u.code_view().instructions@[u.pc_view() as int] == Op::LocalLtEConstJump(packed(a, c) as u32, t),
        u.code_view().constants@ == s0.code_view().constants@,
        u.stack_view() == s0.stack_view(),
        u.locals_view() == s0.locals_view(),
        u.base_view() == s0.base_view(),
        VM::step_spec(u, v, Ok(false)),
    ensures
        v.stack_view() == s4.stack_view(),
        ({
            let go_on = crate::ops::less_equal(
                VM::local_at(s0, a as int)->Some_0,
                VM::const_at(s0, c as int)->Some_0,
            );
            &&& s4.pc_view() == (if go_on { s0.pc_view() + 4 } else { t as int })
            &&& v.pc_view() == (if go_on { u.pc_view() + 1 } else { t as int })
        }),
{
    law_unpack_pack(a, c);
    assert((packed(a, c) as u32) as int == packed(a, c));
    assert(s1.code_view() == s0.code_view());
    assert(s2.code_view() == s0.code_view());
    assert(s3.code_view() == s0.code_view());
    assert(VM::const_at(u, c as int) == VM::const_at(s0, c as int));
    assert(VM::local_at(u, a as int) == VM::local_at(s0, a as int));
    assert(s3.stack_view().drop_last() =~= s0.stack_view());
}

/// The same for `LocalGtConstJump`: `LoadLocal(a)`, `LoadConst(c)`,
/// `CompareGt`, `PopJumpIfFalse(t)` decide as the fused instruction does.
pub proof fn law_fused_gt_compare_jump(s0: VM, s1: VM, s2: VM, s3: VM, s4: VM, u: VM, v: VM, a: u16, c: u16, t: u32)
    requires
        s0.pc_view() + 4 <= s0.code_view().instructions@.len(),
        s0.code_view().instructions@[s0.pc_view() as int] == Op::LoadLocal(a),
        s0.code_view().instructions@[s0.pc_view() + 1] == Op::LoadConst(c),
        s0.code_view().instructions@[s0.pc_view() + 2] == Op::CompareGt,
        s0.code_view().instructions@[s0.pc_view() + 3] == Op::PopJumpIfFalse(t),
        VM::step_spec(s0, s1, Ok(false)),
        VM::step_spec(s1, s2, Ok(false)),
        VM::step_spec(s2, s3, Ok(false)),
        VM::step_spec(s3, s4, Ok(false)),
        u.pc_view() < u.code_view().instructions@.len(),
        u.code_view().instructions@[u.pc_view() as int] == Op::LocalGtConstJump(packed(a, c) as u32, t),
        u.code_view().constants@ == s0.code_view().constants@,
        u.stack_view() == s0.stack_view(),
        u.locals_view() == s0.locals_view(),
        u.base_view() == s0.base_view(),
        VM::step_spec(u, v, Ok(false)),
    ensures
        v.stack_view() == s4.stack_view(),
        ({
            let go_on = crate::ops::less_than(
                VM::const_at(s0, c as int)->Some_0,
                VM::local_at(s0, a as int)->Some_0,
            );
            &&& s4.pc_view() == (if go_on { s0.pc_view() + 4 } else { t as int })
            &&& v.pc_view() == (if go_on { u.pc_view() + 1 } else { t as int })
        }),
{
    law_unpack_pack(a, c);
    assert((packed(a, c) as u32) as int == packed(a, c));
    assert(s1.code_view() == s0.code_view());
    assert(s2.code_view() == s0.code_view());
    assert(s3.code_view() == s0.code_view());
    assert(VM::const_at(u, c as int) == VM::const_at(s0, c as int));
    assert(VM::local_at(u, a as int) == VM::local_at(s0, a as int));
    assert(s3.stack_view().drop_last() =~= s0.stack_view());
}

/// A fused pair load does what the two loads it replaces do: `LoadLocal(a)`
/// then `LoadLocal(b)` (from `s0` to `s2`) and `LoadLocalPair` of the packed
/// pair (from `u` to `v`), from the same stack and locals, leave the same
/// stack.
pub proof fn law_fused_pair_load(s0: VM, s1: VM, s2: VM, u: VM, v: VM, a: u16, b: u16)
    requires
        s0.pc_view() + 2 <= s0.code_view().instructions@.len(),
        s0.code_view().instructions@[s0.pc_view() as int] == Op::LoadLocal(a),
        s0.code_view().instructions@[s0.pc_view() + 1] == Op::LoadLocal(b),
        VM::step_spec(s0, s1, Ok(false)),
        VM::step_spec(s1, s2, Ok(false)),
        u.pc_view() < u.code_view().instructions@.len(),
        u.code_view().instructions@[u.pc_view() as int] == Op::LoadLocalPair(packed(a, b) as u32),
        u.stack_view() == s0.stack_view(),
        u.locals_view() == s0.locals_view(),
        u.base_view() == s0.base_view(),
        VM::step_spec(u, v, Ok(false)),
    ensures
        v.stack_view() == s2.stack_view(),
        v.locals_view() == s2.locals_view(),
        v.pc_view() == u.pc_view() + 1,
        s2.pc_view() == s0.pc_view() + 2,
{
    law_unpack_pack(a, b);
    assert((packed(a, b) as u32) as int == packed(a, b));
    assert(s1.code_view() == s0.code_view());
    assert(VM::local_at(u, a as int) == VM::local_at(s0, a as int));
    assert(VM::local_at(u, b as int) == VM::local_at(s0, b as int));
    assert(VM::local_at(s1, b as int) == VM::local_at(s0, b as int));
}

/// The same for `IncrGlobalByConst`: on an integer global and an integer
/// constant, `LoadGlobal(a)`, `LoadConst(c)`, `BinaryAdd`, `StoreGlobal(a)`
/// leave the same stack, locals and globals as the fused instruction.
pub proof fn law_fused_global_increment(s0: VM, s1: VM, s2: VM, s3: VM, s4: VM, u: VM, v: VM, a: Symbol, c: u16)
    requires
        s0.pc_view() + 4 <= s0.code_view().instructions@.len(),
        s0.code_view().instructions@[s0.pc_view() as int] == Op::LoadGlobal(a),
        s0.code_view().instructions@[s0.pc_view() + 1] == Op::LoadConst(c),
        s0.code_view().instructions@[s0.pc_view() + 2] == Op::BinaryAdd,
        s0.code_view().instructions@[s0.pc_view() + 3] == Op::StoreGlobal(a),
        VM::step_spec(s0, s1, Ok(false)),
        VM::step_spec(s1, s2, Ok(false)),
        VM::step_spec(s2, s3, Ok(false)),
        VM::step_spec(s3, s4, Ok(false)),
        s0.globals_view().contains_key(a.0) && s0.globals_view()[a.0] is Integer,
        VM::const_at(s0, c as int) matches Some(Value::Integer(_)),
        u.pc_view() < u.code_view().instructions@.len(),
        u.code_view().instructions@[u.pc_view() as int] == Op::IncrGlobalByConst(a, c),
        u.code_view().constants@ == s0.code_view().constants@,
        u.stack_view() == s0.stack_view(),
        u.locals_view() == s0.locals_view(),
        u.base_view() == s0.base_view(),
        u.globals_view() == s0.globals_view(),
        VM::step_spec(u, v, Ok(false)),
    ensures
        v.stack_view() == s4.stack_view(),
        v.locals_view() == s4.locals_view(),
        v.globals_view() == s4.globals_view(),
        v.pc_view() == u.pc_view() + 1,
        s4.pc_view() == s0.pc_view() + 4,
{
    assert(s1.code_view() == s0.code_view());
    assert(s2.code_view() == s0.code_view());
    assert(s3.code_view() == s0.code_view());
    assert(VM::const_at(u, c as int) == VM::const_at(s0, c as int));
    assert(s3.stack_view().drop_last() =~= s0.stack_view());
    assert(v.stack_view() =~= s4.stack_view());
    assert(v.globals_view() =~= s4.globals_view());
}

/// Machines that agree in everything but whether printed lines are kept
/// from the console.
pub open spec fn same_but_quiet(a: VM, b: VM) -> bool {
    &&& a.stack_view() == b.stack_view()
    &&& a.pc_view() == b.pc_view()
    &&& a.code_view() == b.code_view()
    &&& a.locals_view() == b.locals_view()
    &&& a.base_view() == b.base_view()
    &&& a.frames_view() == b.frames_view()
    &&& a.globals_view() == b.globals_view()
    &&& a.output_view() == b.output_view()
    &&& a.interner_view() == b.interner_view()
}

/// Whether output is suppressed changes nothing a step does: from machines
/// that differ only in that flag, a step goes alike (same result, same
/// lines recorded), and the flag stays.
pub proof fn law_step_ignores_quiet(s: VM, t: VM, s2: VM, t2: VM, r: Result<bool, String>)
    requires
        VM::step_spec(s, t, r),
        same_but_quiet(s, s2),
        same_but_quiet(t, t2),
        t2.suppressed() == s2.suppressed(),
    ensures
        VM::step_spec(s2, t2, r),
{
}

/// Whether the characters of `w` stand in `s` from `pos` on.
pub open spec fn spelled_at(s: Seq<char>, pos: int, w: Seq<char>) -> bool {
    &&& 0 <= pos
    &&& pos + w.len() <= s.len()
    &&& forall|i: int| 0 <= i < w.len() ==> s[pos + i] == #[trigger] w[i]
}

/// Each operator or delimiter is the token its characters spell, the
/// longest spelling winning: where an operator's spelling stands in the
/// text (inside a line) and no longer operator spelling starts at the same
/// place, the lexer emits that operator's token and goes on right after
/// its last character. So `>=` is `GreaterEqual`, `>` alone `Greater`,
/// `**` is `DoubleStar` and `->` is `Arrow`.
pub proof fn law_operator_tokens(s: Seq<char>, pos: int, t: Token, stack: Seq<usize>)
    requires
        operator_spelling(t).len() > 0,
        spelled_at(s, pos, operator_spelling(t)),
        forall|u: Token|
            operator_spelling(u).len() > operator_spelling(t).len() ==> !spelled_at(s, pos, #[trigger] operator_spelling(u)),
    ensures
        lex_from(s, pos, false, stack) == with_prefix(
            seq![LexTok::Simple(t)],
            lex_from(s, pos + operator_spelling(t).len(), false, stack),
        ),
{
    let w = operator_spelling(t);
    assert(s[pos + 0] == w[0]);
    if w.len() > 1 {
        assert(s[pos + 1] == w[1]);
    }
    assert(operator_spelling(Token::PlusAssign).len() == 2);
    assert(operator_spelling(Token::MinusAssign).len() == 2);
    assert(operator_spelling(Token::Arrow).len() == 2);
    assert(operator_spelling(Token::StarAssign).len() == 2);
    assert(operator_spelling(Token::DoubleStar).len() == 2);
    assert(operator_spelling(Token::SlashAssign).len() == 2);
    assert(operator_spelling(Token::DoubleSlash).len() == 2);
    assert(operator_spelling(Token::Equal).len() == 2);
    assert(operator_spelling(Token::LessEqual).len() == 2);
    assert(operator_spelling(Token::GreaterEqual).len() == 2);
}

/// The binary operator a token stands for in an expression.
pub open spec fn binary_op(t: Token) -> Option<BinOp> {
    match add_op(t) {
        Some(o) => Some(o),
        None => mul_op(t),
    }
}

/// An augmented assignment `x op= e` applies the binary operator whose
/// spelling its token extends with `=`: `*=` multiplies as `*` does, `/=`
/// divides as `/` does, `+=` adds and `-=` subtracts; and every augmented
/// assignment token is such an extension.
pub proof fn law_augmented_operator(tk: Token, b: Token)
    ensures
        operator_spelling(tk) == operator_spelling(b).push('=') && binary_op(b) is Some ==> aug_op(tk) == binary_op(b),
        aug_op(tk) is Some ==> exists|c: Token|
            operator_spelling(tk) == operator_spelling(c).push('=') && #[trigger] binary_op(c) == aug_op(tk),
{
    if operator_spelling(tk) == operator_spelling(b).push('=') && binary_op(b) is Some {
        let w = operator_spelling(tk);
        assert(w.len() == operator_spelling(b).len() + 1);
        assert(w[0] == operator_spelling(b)[0]);
        assert(w[w.len() - 1] == '=');
        if w.len() > 2 {
            assert(w[1] == operator_spelling(b)[1]);
        }
    }
    match tk {
        Token::PlusAssign => {
            assert(operator_spelling(tk) =~= operator_spelling(Token::Plus).push('='));
            assert(binary_op(Token::Plus) == aug_op(tk));
        },
        Token::MinusAssign => {
            assert(operator_spelling(tk) =~= operator_spelling(Token::Minus).push('='));
            assert(binary_op(Token::Minus) == aug_op(tk));
        },
        Token::StarAssign => {
            assert(operator_spelling(tk) =~= operator_spelling(Token::Star).push('='));
            assert(binary_op(Token::Star) == aug_op(tk));
        },
        Token::SlashAssign => {
            assert(operator_spelling(tk) =~= operator_spelling(Token::Slash).push('='));
            assert(binary_op(Token::Slash) == aug_op(tk));
        },
        _ => {},
    }
}

/// The truth of `a op b` for a comparison operator on integers, as Python
/// defines it.
pub open spec fn int_comparison(op: CmpOp, a: int, b: int) -> bool {
    match op {
        CmpOp::Eq => a == b,
        CmpOp::NotEq => a != b,
        CmpOp::Lt => a < b,
        CmpOp::LtE => a <= b,
        CmpOp::Gt => a > b,
        CmpOp::GtE => a >= b,
        _ => false,
    }
}

/// Compiled code computes the comparison the source names: on two
/// integers, the instruction compiled for `==`, `!=`, `<`, `<=`, `>` or `>=`
/// gives exactly the truth of that comparison (`3 >= 3` is true), and so
/// does the tree-walking interpreter; on two floats the instruction and
/// the interpreter give the same answer.
pub proof fn law_compiled_comparison(op: CmpOp, a: i64, b: i64, fa: u64, fb: u64, x: bool)
    requires
        !(op is In),
        !(op is NotIn),
    ensures
        binary_result(comparison_instruction(op), Value::Integer(a), Value::Integer(b), Ok(Value::Boolean(x)))
            <==> x == int_comparison(op, a as int, b as int),
        comparison_spec(op, crate::interpreter::Value::Integer(a), crate::interpreter::Value::Integer(b), Ok(x))
            <==> x == int_comparison(op, a as int, b as int),
        binary_result(comparison_instruction(op), Value::Float(fa), Value::Float(fb), Ok(Value::Boolean(x)))
            <==> comparison_spec(op, crate::interpreter::Value::Float(fa), crate::interpreter::Value::Float(fb), Ok(x)),
{
}

/// Every reserved word lexes to its keyword token and no other word is a
/// keyword: `keyword_spec` maps exactly the spellings of the keyword tokens
/// (`elif` to `Elif`, `None` to `NoneKw`, ...) to those tokens.
pub proof fn law_keyword_tokens(w: Seq<char>, t: Token)
    ensures
        keyword_spelling(t).len() > 0 ==> keyword_spec(keyword_spelling(t)) == Some(t),
        keyword_spec(w) == Some(t) ==> w == keyword_spelling(t),
{
    reveal_strlit("def");
    reveal_strlit("return");
    reveal_strlit("if");
    reveal_strlit("elif");
    reveal_strlit("else");
    reveal_strlit("while");
    reveal_strlit("for");
    reveal_strlit("in");
    reveal_strlit("break");
    reveal_strlit("continue");
    reveal_strlit("pass");
    reveal_strlit("None");
    reveal_strlit("True");
    reveal_strlit("False");
    reveal_strlit("and");
    reveal_strlit("or");
    reveal_strlit("not");
    reveal_strlit("print");
    reveal_strlit("class");
    reveal_strlit("import");
    reveal_strlit("from");
    reveal_strlit("as");
    match t {
        Token::Def => {
            assert(keyword_spelling(t) =~= "def"@);
        },
        Token::Return => {
            assert(keyword_spelling(t) =~= "return"@);
        },
        Token::If => {
            assert(keyword_spelling(t) =~= "if"@);
        },
        Token::Elif => {
            assert(keyword_spelling(t) =~= "elif"@);
        },
        Token::Else => {
            assert(keyword_spelling(t) =~= "else"@);
        },
        Token::While => {
            assert(keyword_spelling(t) =~= "while"@);
        },
        Token::For => {
            assert(keyword_spelling(t) =~= "for"@);
        },
        Token::In => {
            assert(keyword_spelling(t) =~= "in"@);
        },
        Token::Break => {
            assert(keyword_spelling(t) =~= "break"@);
        },
        Token::Continue => {
            assert(keyword_spelling(t) =~= "continue"@);
        },
        Token::Pass => {
            assert(keyword_spelling(t) =~= "pass"@);
        },
        Token::NoneKw => {
            assert(keyword_spelling(t) =~= "None"@);
        },
        Token::True => {
            assert(keyword_spelling(t) =~= "True"@);
        },
        Token::False => {
            assert(keyword_spelling(t) =~= "False"@);
        },
        Token::And => {
            assert(keyword_spelling(t) =~= "and"@);
        },
        Token::Or => {
            assert(keyword_spelling(t) =~= "or"@);
        },
        Token::Not => {
            assert(keyword_spelling(t) =~= "not"@);
        },
        Token::Print => {
            assert(keyword_spelling(t) =~= "print"@);
        },
        Token::Class => {
            assert(keyword_spelling(t) =~= "class"@);
        },
        Token::Import => {
            assert(keyword_spelling(t) =~= "import"@);
        },
        Token::From => {
            assert(keyword_spelling(t) =~= "from"@);
        },
        Token::As => {
            assert(keyword_spelling(t) =~= "as"@);
        },
        _ => {},
    }
}

/// How Python writes each binary operator.
pub open spec fn binop_spelling(op: BinOp) -> Seq<char> {
    match op {
        BinOp::Add => seq!['+'],
        BinOp::Sub => seq!['-'],
        BinOp::Mul => seq!['*'],
        BinOp::Div => seq!['/'],
        BinOp::FloorDiv => seq!['/', '/'],
        BinOp::Mod => seq!['%'],
        BinOp::Pow => seq!['*', '*'],
        BinOp::And => seq!['a', 'n', 'd'],
        BinOp::Or => seq!['o', 'r'],
    }
}

/// How Python writes each comparison operator.
pub open spec fn comparison_spelling(op: CmpOp) -> Seq<char> {
    match op {
        CmpOp::Eq => seq!['=', '='],
        CmpOp::NotEq => seq!['!', '='],
        CmpOp::Lt => seq!['<'],
        CmpOp::LtE => seq!['<', '='],
        CmpOp::Gt => seq!['>'],
        CmpOp::GtE => seq!['>', '='],
        CmpOp::In => seq!['i', 'n'],
        CmpOp::NotIn => seq!['n', 'o', 't', ' ', 'i', 'n'],
    }
}

/// In an expression each operator token stands for the operator it spells:
/// `-` subtracts, `//` divides rounding down, `>=` compares greater or
/// equal, `in` tests membership.
pub proof fn law_expression_operators(tk: Token)
    ensures
        binary_op(tk) matches Some(op) ==> source_spelling(tk) == binop_spelling(op),
        comparison_op(tk) matches Some(op) ==> source_spelling(tk) == comparison_spelling(op),
{
    assert(keyword_spelling(tk).len() == 0 || operator_spelling(tk).len() == 0);
    if operator_spelling(tk).len() == 0 {
        assert(source_spelling(tk) =~= keyword_spelling(tk));
    } else {
        assert(source_spelling(tk) =~= operator_spelling(tk));
    }
}

/// The result of Python's arithmetic on two 64-bit integers, wrapping around
/// on overflow, where it is an integer: `+`, `-`, `*`, and `//` rounding
/// toward negative infinity (no result for a zero divisor or a quotient out
/// of range).
pub open spec fn int_arithmetic(op: BinOp, a: i64, b: i64) -> Option<i64> {
    match op {
        BinOp::Add => Some(a.wrapping_add(b)),
        BinOp::Sub => Some(a.wrapping_sub(b)),
        BinOp::Mul => Some(a.wrapping_mul(b)),
        BinOp::FloorDiv => if b != 0 && i64::MIN <= floor_quotient(a as int, b as int) <= i64::MAX {
            Some(floor_quotient(a as int, b as int) as i64)
        } else {
            None
        },
        _ => None,
    }
}

/// Compiled code computes the arithmetic the source names: on two integers
/// the instruction compiled for `+`, `-`, `*` or `//` gives exactly Python's
/// (wrapping) result, and for every arithmetic operator it gives what the
/// tree-walking interpreter gives: the same integer, the same float, the
/// same error.
pub proof fn law_compiled_arithmetic(op: BinOp, a: i64, b: i64, n: i64, x: u64, e: String)
    requires
        op != BinOp::And,
        op != BinOp::Or,
    ensures
        (op is Add || op is Sub || op is Mul || op is FloorDiv) ==> (binary_result(
            binop_instruction(op),
            Value::Integer(a),
            Value::Integer(b),
            Ok(Value::Integer(n)),
        ) <==> int_arithmetic(op, a, b) == Some(n)),
        binary_result(binop_instruction(op), Value::Integer(a), Value::Integer(b), Ok(Value::Integer(n)))
            <==> binop_spec(op, crate::interpreter::Value::Integer(a), crate::interpreter::Value::Integer(b), Ok(
            crate::interpreter::Value::Integer(n),
        )),
        binary_result(binop_instruction(op), Value::Integer(a), Value::Integer(b), Ok(Value::Float(x)))
            <==> binop_spec(op, crate::interpreter::Value::Integer(a), crate::interpreter::Value::Integer(b), Ok(
            crate::interpreter::Value::Float(x),
        )),
        binary_result(binop_instruction(op), Value::Integer(a), Value::Integer(b), Err(e))
            <==> binop_spec(op, crate::interpreter::Value::Integer(a), crate::interpreter::Value::Integer(b), Err(e)),
{
}

/// Compiled code applies the unary operator the source names: `-` negates
/// an integer (wrapping) or a float, `not` negates truthiness, as the
/// interpreter does.
pub proof fn law_compiled_unary(op: UnaryOp, a: i64, n: i64, f: u64, g: u64, b: bool, c: bool)
    ensures
        op is Neg ==> (unary_result(unary_instruction(op), Value::Integer(a), Ok(Value::Integer(n))) <==> n == 0i64.wrapping_sub(a)),
        unary_result(unary_instruction(op), Value::Integer(a), Ok(Value::Integer(n)))
            <==> unary_spec(op, crate::interpreter::Value::Integer(a), Ok(crate::interpreter::Value::Integer(n))),
        unary_result(unary_instruction(op), Value::Float(f), Ok(Value::Float(g)))
            <==> unary_spec(op, crate::interpreter::Value::Float(f), Ok(crate::interpreter::Value::Float(g))),
        unary_result(unary_instruction(op), Value::Boolean(b), Ok(Value::Boolean(c)))
            <==> unary_spec(op, crate::interpreter::Value::Boolean(b), Ok(crate::interpreter::Value::Boolean(c))),
{
}

/// What a program prints for a boolean or `None` is the keyword that
/// writes that value in source text (`True`, `False`, `None`), on the VM
/// and in the interpreter alike.
pub proof fn law_display_keywords(b: bool)
    ensures
        crate::bytecode::display_text(Value::Boolean(b)) == keyword_spelling(if b { Token::True } else { Token::False }),
        crate::bytecode::display_text(Value::NoneVal) == keyword_spelling(Token::NoneKw),
        crate::interpreter::display_text(crate::interpreter::Value::Boolean(b)) == keyword_spelling(
            if b { Token::True } else { Token::False },
        ),
        crate::interpreter::display_text(crate::interpreter::Value::NoneVal) == keyword_spelling(Token::NoneKw),
{
    reveal_strlit("True");
    reveal_strlit("False");
    reveal_strlit("None");
    assert(keyword_spelling(Token::True) =~= "True"@);
    assert(keyword_spelling(Token::False) =~= "False"@);
    assert(keyword_spelling(Token::NoneKw) =~= "None"@);
}

/// A backslash escape in a string literal reads as one character exactly
/// for `\n`, `\t`, `\\`, `\'` and `\"`, and that character is the one whose
/// escaped form in messages is the same backslash escape (a quote `'`
/// aside, which messages write as it is); any other backslash stays in the
/// text with the character after it.
pub proof fn law_string_escapes(c: char)
    ensures
        escaped(c).len() == 1 <==> (c == 'n' || c == 't' || c == '\\' || c == '\'' || c == '"'),
        escaped(c).len() == 1 && c != '\'' ==> escape_char(escaped(c)[0]) == seq!['\\', c],
        escaped(c).len() != 1 ==> escaped(c) == seq!['\\', c],
{
}

/// How tightly Python binds an arithmetic operator token: `*`, `/`, `//`
/// and `%` bind tighter than `+` and `-`; 0 for every other token.
pub open spec fn binding_strength(t: Token) -> int {
    match t {
        Token::Plus | Token::Minus => 1,
        Token::Star | Token::Slash | Token::DoubleSlash | Token::Percent => 2,
        _ => 0,
    }
}

/// An integer literal at `pos` with no call, subscript, attribute or `**`
/// after it is a power expression by itself.
proof fn lemma_literal_power(t: Seq<Token>, pos: int, names: Names)
    requires
        0 <= pos,
        pos + 1 < t.len(),
        t[pos] is Integer,
        !(t[pos + 1] is LeftParen || t[pos + 1] is LeftBracket || t[pos + 1] is Dot || t[pos + 1] is DoubleStar),
    ensures
        p_power(t, pos, names) == Some((ExprV::Integer(t[pos]->Integer_0), pos + 1, names)),
{
    assert(p_primary(t, pos, names) == Some((ExprV::Integer(t[pos]->Integer_0), pos + 1, names)));
    assert(postfix_tail(t, pos + 1, names, ExprV::Integer(t[pos]->Integer_0)) == Some(
        (ExprV::Integer(t[pos]->Integer_0), pos + 1, names),
    ));
    assert(p_postfix(t, pos, names) == Some((ExprV::Integer(t[pos]->Integer_0), pos + 1, names)));
    assert(p_unary(t, pos, names) == Some((ExprV::Integer(t[pos]->Integer_0), pos + 1, names)));
}

/// The shape `a o1 b o2 c` then a newline, with arithmetic operators.
pub open spec fn three_operands(t: Seq<Token>, a: i64, b: i64, c: i64, o1: Token, o2: Token) -> bool {
    &&& t == seq![Token::Integer(a), o1, Token::Integer(b), o2, Token::Integer(c), Token::Newline]
    &&& binding_strength(o1) > 0
    &&& binding_strength(o2) > 0
}

/// The grouping Python gives `a o1 b o2 c`.
pub open spec fn grouped(a: i64, b: i64, c: i64, o1: Token, o2: Token) -> ExprV {
    let ea = ExprV::Integer(a);
    let eb = ExprV::Integer(b);
    let ec = ExprV::Integer(c);
    let op1 = binary_op(o1)->Some_0;
    let op2 = binary_op(o2)->Some_0;
    if binding_strength(o2) > binding_strength(o1) {
        ExprV::BinaryOp(Box::new(ea), op1, Box::new(ExprV::BinaryOp(Box::new(eb), op2, Box::new(ec))))
    } else {
        ExprV::BinaryOp(Box::new(ExprV::BinaryOp(Box::new(ea), op1, Box::new(eb))), op2, Box::new(ec))
    }
}

/// An addition-level expression that a newline follows is the whole
/// expression.
#[verifier::rlimit(40)]
proof fn lemma_upper_levels(t: Seq<Token>, names: Names, e: ExprV, p: int)
    requires
        p_addition(t, 0, names) == Some((e, p, names)),
        0 < p < t.len(),
        t[0] is Integer,
        t[p] is Newline,
    ensures
        p_expression(t, 0, names) == Some((e, p, names)),
{
    assert(tok_at(t, p) == Token::Newline);
    assert(!(tok_at(t, 0) is Not));
    assert(comparison_op(tok_at(t, p)) is None);
    assert(comparison_tail(t, p, names, e, Seq::empty(), Seq::empty()) == Some((e, p, names)));
    assert(p_comparison(t, 0, names) == Some((e, p, names)));
    assert(p_not(t, 0, names) == Some((e, p, names)));
    assert(and_tail(t, p, names, e) == Some((e, p, names)));
    assert(p_and(t, 0, names) == Some((e, p, names)));
    assert(or_tail(t, p, names, e) == Some((e, p, names)));
}

/// `a o1 b o2 c` with `o1` one of `*`, `/`, `//`, `%`.
proof fn lemma_strong_first(t: Seq<Token>, names: Names, a: i64, b: i64, c: i64, o1: Token, o2: Token)
    requires
        three_operands(t, a, b, c, o1, o2),
        binding_strength(o1) == 2,
    ensures
        p_addition(t, 0, names) == Some((grouped(a, b, c, o1, o2), 5int, names)),
{
    let ea = ExprV::Integer(a);
    let eb = ExprV::Integer(b);
    let ec = ExprV::Integer(c);
    assert(t[0] == Token::Integer(a) && t[1] == o1 && t[2] == Token::Integer(b));
    assert(t[3] == o2 && t[4] == Token::Integer(c) && t[5] == Token::Newline);
    lemma_literal_power(t, 0, names);
    lemma_literal_power(t, 2, names);
    lemma_literal_power(t, 4, names);
    let op1 = binary_op(o1)->Some_0;
    let op2 = binary_op(o2)->Some_0;
    let whole = grouped(a, b, c, o1, o2);
    let ab = ExprV::BinaryOp(Box::new(ea), op1, Box::new(eb));
    assert(mul_op(o1) == Some(op1));
    if binding_strength(o2) == 2 {
        assert(mul_op(o2) == Some(op2));
        assert(mul_tail(t, 5, names, whole) == Some((whole, 5int, names)));
        assert(mul_tail(t, 3, names, ab) == Some((whole, 5int, names)));
        assert(mul_tail(t, 1, names, ea) == Some((whole, 5int, names)));
        assert(p_multiplication(t, 0, names) == Some((whole, 5int, names)));
    } else {
        assert(add_op(o2) == Some(op2));
        assert(mul_tail(t, 3, names, ab) == Some((ab, 3int, names)));
        assert(mul_tail(t, 1, names, ea) == Some((ab, 3int, names)));
        assert(p_multiplication(t, 0, names) == Some((ab, 3int, names)));
        assert(mul_tail(t, 5, names, ec) == Some((ec, 5int, names)));
        assert(p_multiplication(t, 4, names) == Some((ec, 5int, names)));
        assert(add_tail(t, 5, names, whole) == Some((whole, 5int, names)));
        assert(add_tail(t, 3, names, ab) == Some((whole, 5int, names)));
    }
    assert(add_tail(t, 5, names, whole) == Some((whole, 5int, names)));
}

/// `a o1 b o2 c` with `o1` one of `+`, `-`.
proof fn lemma_weak_first(t: Seq<Token>, names: Names, a: i64, b: i64, c: i64, o1: Token, o2: Token)
    requires
        three_operands(t, a, b, c, o1, o2),
        binding_strength(o1) == 1,
    ensures
        p_addition(t, 0, names) == Some((grouped(a, b, c, o1, o2), 5int, names)),
{
    let ea = ExprV::Integer(a);
    let eb = ExprV::Integer(b);
    let ec = ExprV::Integer(c);
    assert(t[0] == Token::Integer(a) && t[1] == o1 && t[2] == Token::Integer(b));
    assert(t[3] == o2 && t[4] == Token::Integer(c) && t[5] == Token::Newline);
    lemma_literal_power(t, 0, names);
    lemma_literal_power(t, 2, names);
    lemma_literal_power(t, 4, names);
    let op1 = binary_op(o1)->Some_0;
    let op2 = binary_op(o2)->Some_0;
    let whole = grouped(a, b, c, o1, o2);
    assert(add_op(o1) == Some(op1));
    assert(mul_tail(t, 1, names, ea) == Some((ea, 1int, names)));
    assert(p_multiplication(t, 0, names) == Some((ea, 1int, names)));
    if binding_strength(o2) == 2 {
        let bc = ExprV::BinaryOp(Box::new(eb), op2, Box::new(ec));
        assert(mul_op(o2) == Some(op2));
        assert(mul_tail(t, 5, names, bc) == Some((bc, 5int, names)));
        assert(mul_tail(t, 3, names, eb) == Some((bc, 5int, names)));
        assert(p_multiplication(t, 2, names) == Some((bc, 5int, names)));
        assert(add_tail(t, 5, names, whole) == Some((whole, 5int, names)));
        assert(add_tail(t, 1, names, ea) == Some((whole, 5int, names)));
    } else {
        let ab = ExprV::BinaryOp(Box::new(ea), op1, Box::new(eb));
        assert(add_op(o2) == Some(op2));
        assert(mul_tail(t, 3, names, eb) == Some((eb, 3int, names)));
        assert(p_multiplication(t, 2, names) == Some((eb, 3int, names)));
        assert(mul_tail(t, 5, names, ec) == Some((ec, 5int, names)));
        assert(p_multiplication(t, 4, names) == Some((ec, 5int, names)));
        assert(add_tail(t, 5, names, whole) == Some((whole, 5int, names)));
        assert(add_tail(t, 3, names, ab) == Some((whole, 5int, names)));
        assert(add_tail(t, 1, names, ea) == Some((whole, 5int, names)));
    }
}

/// Expressions group by Python's precedence, operators of equal strength
/// from the left: `a o1 b o2 c` is `a o1 (b o2 c)` when `o2` binds tighter
/// than `o1` (`1 + 2 * 3`), and `(a o1 b) o2 c` otherwise (`1 * 2 + 3`,
/// `8 - 4 - 2`, `8 // 4 * 2`); each operator is the one its token stands for.
pub proof fn law_precedence(t: Seq<Token>, names: Names, a: i64, b: i64, c: i64, o1: Token, o2: Token)
    requires
        three_operands(t, a, b, c, o1, o2),
    ensures
        p_expression(t, 0, names) == Some((grouped(a, b, c, o1, o2), 5int, names)),
{
    if binding_strength(o1) == 2 {
        lemma_strong_first(t, names, a, b, c, o1, o2);
    } else {
        lemma_weak_first(t, names, a, b, c, o1, o2);
    }
    assert(t[0] == Token::Integer(a) && t[5] == Token::Newline);
    lemma_upper_levels(t, names, grouped(a, b, c, o1, o2), 5);
}

/// Over integers only, the `VM` fold of `min` is at most every item and
/// that of `max` at least every item.
proof fn lemma_vm_extreme_bound(items: Seq<Value>, want_max: bool, i: int)
    requires
        items.len() > 0,
        0 <= i < items.len(),
        forall|j: int| 0 <= j < items.len() ==> #[trigger] items[j] is Integer,
    ensures
        crate::builtins::fold_extreme(items, want_max) is Integer,
        want_max ==> crate::builtins::fold_extreme(items, want_max)->Integer_0 >= items[i]->Integer_0,
        !want_max ==> crate::builtins::fold_extreme(items, want_max)->Integer_0 <= items[i]->Integer_0,
    decreases items.len(),
{
    if items.len() > 1 {
        let init = items.drop_last();
        assert forall|j: int| 0 <= j < init.len() implies #[trigger] init[j] is Integer by {
            assert(init[j] == items[j]);
        }
        assert(items[items.len() - 1] is Integer);
        if i < items.len() - 1 {
            assert(init[i] == items[i]);
            lemma_vm_extreme_bound(init, want_max, i);
        } else {
            lemma_vm_extreme_bound(init, want_max, 0);
        }
    }
}

/// Over integers only, the `interpreter` fold of `min` is at most every item and
/// that of `max` at least every item.
proof fn lemma_interp_extreme_bound(items: Seq<crate::interpreter::Value>, want_max: bool, i: int)
    requires
        items.len() > 0,
        0 <= i < items.len(),
        forall|j: int| 0 <= j < items.len() ==> #[trigger] items[j] is Integer,
    ensures
        crate::interp_builtins::fold_extreme(items, want_max) is Integer,
        want_max ==> crate::interp_builtins::fold_extreme(items, want_max)->Integer_0 >= items[i]->Integer_0,
        !want_max ==> crate::interp_builtins::fold_extreme(items, want_max)->Integer_0 <= items[i]->Integer_0,
    decreases items.len(),
{
    if items.len() > 1 {
        let init = items.drop_last();
        assert forall|j: int| 0 <= j < init.len() implies #[trigger] init[j] is Integer by {
            assert(init[j] == items[j]);
        }
        assert(items[items.len() - 1] is Integer);
        if i < items.len() - 1 {
            assert(init[i] == items[i]);
            lemma_interp_extreme_bound(init, want_max, i);
        } else {
            lemma_interp_extreme_bound(init, want_max, 0);
        }
    }
}

/// `min` of integers is the smallest of them and `max` the largest: each
/// is at most (at least) every argument, on the VM and in the interpreter.
pub proof fn law_min_max(args: Seq<Value>, iargs: Seq<crate::interpreter::Value>, v: Value, w: crate::interpreter::Value, i: int)
    requires
        0 <= i < args.len(),
        forall|j: int| 0 <= j < args.len() ==> #[trigger] args[j] is Integer,
        0 <= i < iargs.len(),
        forall|j: int| 0 <= j < iargs.len() ==> #[trigger] iargs[j] is Integer,
    ensures
        crate::builtins::builtin_spec(Builtin::Min, args, Ok(v)) ==> v is Integer && v->Integer_0 <= args[i]->Integer_0,
        crate::builtins::builtin_spec(Builtin::Max, args, Ok(v)) ==> v is Integer && v->Integer_0 >= args[i]->Integer_0,
        crate::interp_builtins::builtin_spec(Builtin::Min, iargs, Ok(w)) ==> w is Integer && w->Integer_0
            <= iargs[i]->Integer_0,
        crate::interp_builtins::builtin_spec(Builtin::Max, iargs, Ok(w)) ==> w is Integer && w->Integer_0
            >= iargs[i]->Integer_0,
{
    assert(!(args.len() == 1 && args[0] is List));
    assert(!(iargs.len() == 1 && iargs[0] is List));
    assert(crate::builtins::unmixed(args));
    assert(crate::interp_builtins::unmixed(iargs));
    lemma_vm_extreme_bound(args, true, i);
    lemma_vm_extreme_bound(args, false, i);
    lemma_interp_extreme_bound(iargs, true, i);
    lemma_interp_extreme_bound(iargs, false, i);
}

/// `and` and `or` give one of their operands, and its truth is the logical
/// conjunction or disjunction of the operands' truth: `a and b` is `a` when
/// `a` is falsy, else `b`; `a or b` is `a` when `a` is truthy, else `b`.
pub proof fn law_boolean_operators(l: crate::interpreter::Value, r: crate::interpreter::Value, v: crate::interpreter::Value)
    ensures
        binop_spec(BinOp::And, l, r, Ok(v)) ==> (v == l || v == r) && (crate::interpreter::truthy(v) <==> (
        crate::interpreter::truthy(l) && crate::interpreter::truthy(r))) && (!crate::interpreter::truthy(l) ==> v == l),
        binop_spec(BinOp::Or, l, r, Ok(v)) ==> (v == l || v == r) && (crate::interpreter::truthy(v) <==> (
        crate::interpreter::truthy(l) || crate::interpreter::truthy(r))) && (crate::interpreter::truthy(l) ==> v == l),
{
}

/// With a negative divisor, `%` takes the divisor's sign, as in Python: the
/// result lies from just above the divisor up to 0, and differs from the
/// dividend by a multiple of the divisor. The divisor must leave room for
/// `(a % b) + b` in `i64`.
pub proof fn law_mod_floor_negative(a: i64, b: i64, x: i64)
    requires
        i64::MIN / 2 <= b < 0,
        mod_spec(Value::Integer(a), Value::Integer(b), Ok(Value::Integer(x))),
    ensures
        b < x <= 0,
        ((a as int) - (x as int)) % (-(b as int)) == 0,
{
    let ai = a as int;
    let d = -(b as int);
    let m = a.checked_rem(b)->Some_0;
    let t = m.wrapping_add(b);
    if ai >= 0 {
        let r = ai % d;
        let q = ai / d;
        lemma_fundamental_div_mod(ai, d);
        if ai == 0 {
            lemma_small_mod(0, d as nat);
        }
        assert(m as int == r);
        assert(0 <= r < d);
        assert(t as int == r - d);
        if r == 0 {
            lemma_fundamental_div_mod_converse(d, d, 1, 0);
            assert(x == 0);
            lemma_fundamental_div_mod_converse(ai, d, q, 0);
        } else {
            lemma_small_mod((d - r) as nat, d as nat);
            assert(x as int == r - d);
            assert(ai - (x as int) == d * (q + 1)) by (nonlinear_arith)
                requires
                    ai == d * q + r,
                    x as int == r - d,
            ;
            lemma_fundamental_div_mod_converse(ai - (x as int), d, q + 1, 0);
        }
    } else {
        let na = -ai;
        let r = na % d;
        let q = na / d;
        lemma_fundamental_div_mod(na, d);
        assert(0 <= r < d);
        assert(m as int == -r);
        assert(t as int == -r - d);
        lemma_fundamental_div_mod_converse(r + d, d, 1, r);
        assert(x as int == -r);
        assert(ai - (x as int) == d * (-q)) by (nonlinear_arith)
            requires
                na == d * q + r,
                ai == -na,
                x as int == -r,
        ;
        lemma_fundamental_div_mod_converse(ai - (x as int), d, -q, 0);
    }
}

} // verus!
