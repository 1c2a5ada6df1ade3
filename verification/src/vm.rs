//! The bytecode virtual machine.
//!
//! The current frame lives in the VM's own fields; the locals of all frames
//! share one stack, each frame owning the slots from its `locals_base` on.
//! Globals live in an `FxHashMap` keyed by symbol id.
//!
//! `step` executes one instruction and its contract is the machine's
//! semantics (`step_spec`). Where a malformed program would make the machine
//! read past its stack, its locals or its constants, `step` reports an
//! error.
use vstd::prelude::*;

use std::collections::HashMap;
use std::rc::Rc;

use rustc_hash::{FxBuildHasher, FxHashMap};

use crate::builtins::{builtin_spec, call_builtin};
use crate::bytecode::{Builtin, display_text, float_free, rc_clone, truthy, value_eq, CodeObject, FunctionObj, Op, Value};
use crate::float::FloatOps;
use crate::ops::{
    add_spec, binary_add, binary_div, binary_floor_div, binary_mod, binary_mul, binary_pow,
    binary_sub, compare_in, compare_not_in, copy_values, div_spec, floor_div_spec, in_spec,
    len_spec, length_of, less_equal, less_than, mod_spec, mul_spec, neg_spec, not_in_spec,
    pow_spec, sub_spec, subscript, subscript_spec, unary_neg, values_less, values_less_equal,
};
use crate::symbol::{Interner, Symbol};
use crate::text::{owned, str_equal, u64_text};

verus! {

broadcast use vstd::std_specs::vec::group_vec_axioms;

#[verifier::external_type_specification]
#[verifier::external_body]
pub struct ExFxBuildHasher(FxBuildHasher);

/// Global variables by symbol id.
type GlobalMap = FxHashMap<u32, Value>;

/// Trusted: `FxHashMap::default()` (rustc-hash), claimed to be an empty map.
#[verifier::external_body]
fn globals_new() -> (fresh: GlobalMap)
    ensures
        fresh@.dom().is_empty(),
{
    FxHashMap::default()
}

/// Trusted: `HashMap::get` on a map hashed by rustc-hash's `FxBuildHasher`.
/// Claimed: the value stored under the key, or `None` when the key is
/// absent. `FxBuildHasher` builds identical hashers, so a key is found where
/// it was stored.
#[verifier::external_body]
fn globals_get(m: &GlobalMap, k: u32) -> (r: Option<&Value>)
    ensures
        match r {
            Some(v) => m@.contains_key(k) && *v == m@[k],
            None => !m@.contains_key(k),
        },
{
    m.get(&k)
}

/// Trusted: `HashMap::insert` on a map hashed by rustc-hash's
/// `FxBuildHasher`. Claimed: the key now maps to the value, other keys keep
/// theirs.
#[verifier::external_body]
fn globals_insert(m: &mut GlobalMap, k: u32, v: Value)
    ensures
        final(m)@ == old(m)@.insert(k, v),
{
    m.insert(k, v);
}

/// Trusted: `HashMap::remove` on a map hashed by rustc-hash's
/// `FxBuildHasher`. Claimed: the key is gone and its value is returned, or
/// `None` when it was absent.
#[verifier::external_body]
fn globals_remove(m: &mut GlobalMap, k: u32) -> (r: Option<Value>)
    ensures
        final(m)@ == old(m)@.remove(k),
        match r {
            Some(v) => old(m)@.contains_key(k) && v == old(m)@[k],
            None => !old(m)@.contains_key(k),
        },
{
    m.remove(&k)
}

/// A suspended caller: its code, where it resumes and its locals.
struct SavedFrame {
    code: Rc<CodeObject>,
    pc: usize,
    locals_base: usize,
}

pub struct VM {
    stack: Vec<Value>,
    code: Rc<CodeObject>,
    pc: usize,
    locals_stack: Vec<Value>,
    locals_base: usize,
    saved_frames: Vec<SavedFrame>,
    globals: GlobalMap,
    interner: Interner,
    output: Vec<String>,
    suppress_output: bool,
}

/// The text of a printed line: the values' texts separated by spaces.
pub open spec fn print_line(vals: Seq<Value>) -> Seq<char>
    decreases vals.len(),
{
    if vals.len() == 0 {
        Seq::empty()
    } else if vals.len() == 1 {
        display_text(vals[0])
    } else {
        print_line(vals.drop_last()) + " "@ + display_text(vals.last())
    }
}

/// Whether no float occurs in the values.
pub open spec fn all_float_free(vals: Seq<Value>) -> bool {
    forall|i: int| 0 <= i < vals.len() ==> float_free(#[trigger] vals[i])
}

/// The locals after binding `args` to the slots `slots`, from the first
/// argument to the last, in the frame that starts at `base`.
pub open spec fn bind_args(locals: Seq<Value>, base: int, slots: Seq<u16>, args: Seq<Value>) -> Seq<
    Value,
>
    decreases args.len(),
{
    if args.len() == 0 {
        locals
    } else {
        bind_args(locals, base, slots, args.drop_last()).update(
            base + slots[args.len() - 1],
            args.last(),
        )
    }
}

/// `n` unset locals.
pub open spec fn fresh_locals(n: nat) -> Seq<Value> {
    Seq::new(n, |i: int| Value::NoneVal)
}

/// Key-value pairs from a flat sequence `k0, v0, k1, v1, ...`.
pub open spec fn pairs_of(flat: Seq<Value>) -> Seq<(Value, Value)> {
    Seq::new(flat.len() / 2, |i: int| (flat[2 * i], flat[2 * i + 1]))
}

/// The result of a two-operand instruction on `l` (below) and `r` (top).
pub open spec fn binary_result(op: Op, l: Value, r: Value, res: Result<Value, String>) -> bool {
    match op {
        Op::BinaryAdd => add_spec(l, r, res),
        Op::BinarySub => sub_spec(l, r, res),
        Op::BinaryMul => mul_spec(l, r, res),
        Op::BinaryDiv => div_spec(l, r, res),
        Op::BinaryFloorDiv => floor_div_spec(l, r, res),
        Op::BinaryMod => mod_spec(l, r, res),
        Op::BinaryPow => pow_spec(l, r, res),
        Op::CompareEq => res == Ok::<Value, String>(Value::Boolean(value_eq(l, r))),
        Op::CompareNotEq => res == Ok::<Value, String>(Value::Boolean(!value_eq(l, r))),
        Op::CompareLt => res == Ok::<Value, String>(Value::Boolean(less_than(l, r))),
        Op::CompareLtE => res == Ok::<Value, String>(Value::Boolean(less_equal(l, r))),
        Op::CompareGt => res == Ok::<Value, String>(Value::Boolean(less_than(r, l))),
        Op::CompareGtE => res == Ok::<Value, String>(Value::Boolean(less_equal(r, l))),
        Op::CompareIn => in_spec(l, r, res),
        Op::CompareNotIn => not_in_spec(l, r, res),
        Op::BinarySubscript => subscript_spec(l, r, res),
        _ => false,
    }
}

/// The instructions that pop two operands and push one result.
pub open spec fn is_binary(op: Op) -> bool {
    op is BinaryAdd || op is BinarySub || op is BinaryMul || op is BinaryDiv || op is BinaryFloorDiv
        || op is BinaryMod || op is BinaryPow || op is CompareEq || op is CompareNotEq
        || op is CompareLt || op is CompareLtE || op is CompareGt || op is CompareGtE
        || op is CompareIn || op is CompareNotIn || op is BinarySubscript
}

/// The result of a one-operand instruction.
pub open spec fn unary_result(op: Op, v: Value, res: Result<Value, String>) -> bool {
    match op {
        Op::UnaryNeg => neg_spec(v, res),
        Op::UnaryNot => res == Ok::<Value, String>(Value::Boolean(!truthy(v))),
        Op::Len => len_spec(v, res),
        _ => false,
    }
}

pub open spec fn is_unary(op: Op) -> bool {
    op is UnaryNeg || op is UnaryNot || op is Len
}

/// The comparison of a fused compare-and-jump instruction: the one its
/// compare instruction makes (`CompareLt`, `CompareLtE`, `CompareGt`).
pub open spec fn fused_compare(op: Op, a: Value, b: Value) -> bool {
    match op {
        Op::LocalLtLocalJump(_, _) => less_than(a, b),
        Op::LocalLtConstJump(_, _) => less_than(a, b),
        Op::LocalLtEConstJump(_, _) => less_equal(a, b),
        Op::LocalGtConstJump(_, _) => less_than(b, a),
        _ => false,
    }
}

impl VM {
    pub closed spec fn stack_view(&self) -> Seq<Value> {
        self.stack@
    }

    pub closed spec fn pc_view(&self) -> usize {
        self.pc
    }

    pub closed spec fn code_view(&self) -> CodeObject {
        *self.code
    }

    pub closed spec fn locals_view(&self) -> Seq<Value> {
        self.locals_stack@
    }

    pub closed spec fn base_view(&self) -> usize {
        self.locals_base
    }

    pub closed spec fn frames_view(&self) -> Seq<(CodeObject, usize, usize)> {
        self.saved_frames@.map_values(|f: SavedFrame| (*f.code, f.pc, f.locals_base))
    }

    pub closed spec fn globals_view(&self) -> Map<u32, Value> {
        self.globals@
    }

    pub closed spec fn output_view(&self) -> Seq<Seq<char>> {
        self.output@.map_values(|s: String| s@)
    }

    pub closed spec fn interner_view(&self) -> Interner {
        self.interner
    }

    pub closed spec fn suppressed(&self) -> bool {
        self.suppress_output
    }

    /// Whether the machine has finished: past the end of the outermost code.
    pub open spec fn halted(&self) -> bool {
        self.pc_view() >= self.code_view().instructions@.len() && self.frames_view().len() == 0
    }

    /// The state `t` is `s` with the given stack and program counter.
    pub open spec fn moved(s: VM, t: VM, stack: Seq<Value>, pc: int) -> bool {
        &&& t.stack_view() == stack
        &&& t.pc_view() == pc
        &&& t.code_view() == s.code_view()
        &&& t.locals_view() == s.locals_view()
        &&& t.base_view() == s.base_view()
        &&& t.frames_view() == s.frames_view()
        &&& t.globals_view() == s.globals_view()
        &&& t.output_view() == s.output_view()
        &&& t.interner_view() == s.interner_view()
        &&& t.suppressed() == s.suppressed()
    }

    /// Like `moved`, with new locals.
    pub open spec fn moved_locals(s: VM, t: VM, stack: Seq<Value>, pc: int, locals: Seq<Value>) -> bool {
        &&& t.stack_view() == stack
        &&& t.pc_view() == pc
        &&& t.code_view() == s.code_view()
        &&& t.locals_view() == locals
        &&& t.base_view() == s.base_view()
        &&& t.frames_view() == s.frames_view()
        &&& t.globals_view() == s.globals_view()
        &&& t.output_view() == s.output_view()
        &&& t.interner_view() == s.interner_view()
        &&& t.suppressed() == s.suppressed()
    }

    /// Like `moved`, with new globals.
    pub open spec fn moved_globals(s: VM, t: VM, stack: Seq<Value>, pc: int, globals: Map<u32, Value>) -> bool {
        &&& t.stack_view() == stack
        &&& t.pc_view() == pc
        &&& t.code_view() == s.code_view()
        &&& t.locals_view() == s.locals_view()
        &&& t.base_view() == s.base_view()
        &&& t.frames_view() == s.frames_view()
        &&& t.globals_view() == globals
        &&& t.output_view() == s.output_view()
        &&& t.interner_view() == s.interner_view()
        &&& t.suppressed() == s.suppressed()
    }

    /// `t` resumes the innermost saved frame of `s` with `stack`: the
    /// current frame's locals are dropped.
    pub open spec fn returned(s: VM, t: VM, stack: Seq<Value>) -> bool {
        let f = s.frames_view().last();
        &&& s.frames_view().len() > 0
        &&& t.stack_view() == stack
        &&& t.code_view() == f.0
        &&& t.pc_view() == f.1
        &&& t.base_view() == f.2
        &&& t.locals_view() == (if s.base_view() <= s.locals_view().len() {
            s.locals_view().subrange(0, s.base_view() as int)
        } else {
            s.locals_view()
        })
        &&& t.frames_view() == s.frames_view().drop_last()
        &&& t.globals_view() == s.globals_view()
        &&& t.output_view() == s.output_view()
        &&& t.interner_view() == s.interner_view()
        &&& t.suppressed() == s.suppressed()
    }

    /// `t` has entered function `f` from `s`, called with `args`; the
    /// caller keeps `stack` and resumes at `s.pc + 1`.
    pub open spec fn entered(s: VM, t: VM, f: FunctionObj, args: Seq<Value>, stack: Seq<Value>) -> bool {
        let base = s.locals_view().len();
        &&& t.stack_view() == stack
        &&& t.code_view() == *f.code
        &&& t.pc_view() == 0
        &&& t.base_view() == base
        &&& t.locals_view() == bind_args(
            s.locals_view() + fresh_locals(f.code.num_locals as nat),
            base as int,
            f.param_slots@,
            args,
        )
        &&& t.frames_view() == s.frames_view().push((s.code_view(), (s.pc_view() + 1) as usize, s.base_view()))
        &&& t.globals_view() == s.globals_view()
        &&& t.output_view() == s.output_view()
        &&& t.interner_view() == s.interner_view()
        &&& t.suppressed() == s.suppressed()
    }

    /// Whether the value `callee` can be called with `args`: a function with
    /// a parameter slot for each argument, or a builtin (whose own failures
    /// are `native_error`).
    pub open spec fn callable(callee: Value, args: Seq<Value>) -> bool {
        match callee {
            Value::Function(f) => VM::can_bind(*f, args.len()),
            Value::NativeFunction { .. } => true,
            _ => false,
        }
    }

    /// The error an instruction reports where its text is fixed: a name
    /// without a value, and a `return` outside a function.
    pub open spec fn error_text(s: VM, op: Op, e: String) -> bool {
        let n = s.stack_view().len();
        match op {
            Op::LoadGlobal(sym) => !s.globals_view().contains_key(sym.0) ==> e@ == undefined_text(
                s.interner_view()@,
                sym,
            ),
            Op::TakeGlobal(sym) => !s.globals_view().contains_key(sym.0) ==> e@ == undefined_text(
                s.interner_view()@,
                sym,
            ),
            Op::CallGlobal(sym, argc) => n >= argc && !s.globals_view().contains_key(sym.0) ==> e@
                == undefined_text(s.interner_view()@, sym),
            Op::Return => e@ == "'return' outside function"@,
            _ => true,
        }
    }

    /// The instruction of `s` calls a builtin, which fails with `e`.
    pub open spec fn native_error(s: VM, op: Op, e: String) -> bool {
        let st = s.stack_view();
        let n = st.len() as int;
        match op {
            Op::Call(argc) => n >= argc + 1 && st[n - argc - 1] is NativeFunction && builtin_spec(
                st[n - argc - 1]->func,
                st.subrange(n - argc, n),
                Err(e),
            ),
            Op::CallGlobal(sym, argc) => n >= argc && s.globals_view().contains_key(sym.0)
                && s.globals_view()[sym.0] is NativeFunction && builtin_spec(
                s.globals_view()[sym.0]->func,
                st.subrange(n - argc, n),
                Err(e),
            ),
            _ => false,
        }
    }

    /// The call of `callee` with `args` from `s` gives `t`, the caller keeping
    /// `stack`: a function is entered; a builtin's result is pushed and the
    /// caller goes on with its next instruction.
    pub open spec fn called(s: VM, t: VM, callee: Value, args: Seq<Value>, stack: Seq<Value>) -> bool {
        match callee {
            Value::Function(f) => VM::entered(s, t, *f, args, stack),
            Value::NativeFunction { func, .. } => {
                &&& t.stack_view().len() == stack.len() + 1
                &&& builtin_spec(func, args, Ok(t.stack_view().last()))
                &&& VM::moved(s, t, stack.push(t.stack_view().last()), s.pc_view() + 1)
            },
            _ => false,
        }
    }

    /// Whether `f` can take `argc` arguments: exactly one for each parameter,
    /// each with a slot inside the callee's locals.
    pub open spec fn can_bind(f: FunctionObj, argc: nat) -> bool {
        &&& argc == f.param_slots@.len()
        &&& forall|i: int| 0 <= i < argc ==> #[trigger] f.param_slots@[i] < f.code.num_locals
    }

    /// The local at `slot` of the current frame, if it exists.
    pub open spec fn local_at(s: VM, slot: int) -> Option<Value> {
        let k = s.base_view() + slot;
        if 0 <= slot && k < s.locals_view().len() {
            Some(s.locals_view()[k])
        } else {
            None
        }
    }

    /// The constant at `idx` of the current code, if it exists.
    pub open spec fn const_at(s: VM, idx: int) -> Option<Value> {
        if 0 <= idx < s.code_view().constants@.len() {
            Some(s.code_view().constants@[idx])
        } else {
            None
        }
    }

    /// One step of the machine from `s` to `t` with result `r`: `Ok(true)`
    /// when the machine has halted, `Ok(false)` when it goes on, `Err` when
    /// the instruction fails (the state after a failure is not specified).
    pub open spec fn step_spec(s: VM, t: VM, r: Result<bool, String>) -> bool {
        let st = s.stack_view();
        let n = st.len();
        let pc = s.pc_view();
        let code = s.code_view();
        if pc >= code.instructions@.len() {
            if s.frames_view().len() == 0 {
                r == Ok::<bool, String>(true) && VM::moved(s, t, st, pc as int)
            } else {
                // falling off the end of a function returns None
                r == Ok::<bool, String>(false) && VM::returned(s, t, st.push(Value::NoneVal))
            }
        } else {
            let op = code.instructions@[pc as int];
            let next = pc + 1;
            match r {
                Err(e) => {
                    &&& VM::fails(s, op) || VM::native_error(s, op, e)
                    &&& VM::error_text(s, op, e)
                    &&& t.output_view() == s.output_view()
                    // a failing operator reports its own error
                    &&& is_binary(op) && n >= 2 ==> binary_result(op, st[n - 2], st[n - 1], Err(e))
                    // a failing builtin reports its own error
                },
                Ok(halt) => {
                    &&& !VM::fails(s, op)
                    &&& VM::op_spec(s, t, op, halt)
                },
            }
        }
    }

    /// Whether instruction `op` fails in state `s`.
    pub open spec fn fails(s: VM, op: Op) -> bool {
        let st = s.stack_view();
        let n = st.len();
        match op {
            Op::LoadConst(i) => VM::const_at(s, i as int) is None,
            Op::LoadLocal(slot) => VM::local_at(s, slot as int) is None,
            Op::StoreLocal(slot) => n < 1 || VM::local_at(s, slot as int) is None,
            Op::LoadGlobal(sym) => !s.globals_view().contains_key(sym.0),
            Op::StoreGlobal(_) => n < 1,
            Op::TakeGlobal(sym) => !s.globals_view().contains_key(sym.0),
            Op::Jump(_) => false,
            Op::PopJumpIfFalse(_) => n < 1,
            Op::JumpIfTrueOrPop(_) => n < 1,
            Op::JumpIfFalseOrPop(_) => n < 1,
            Op::Call(argc) => n < argc + 1 || !VM::callable(st[n - argc - 1], st.subrange(n - argc, n as int)),
            Op::CallGlobal(sym, argc) => n < argc || !(s.globals_view().contains_key(sym.0)
                && VM::callable(s.globals_view()[sym.0], st.subrange(n - argc, n as int))),
            Op::Return => n < 1 || s.frames_view().len() == 0,
            Op::ReturnNone => false,
            Op::BuildList(k) => n < k,
            Op::BuildDict(k) => n < 2 * k,
            Op::LoadAttr(sym) => n < 1 || sym.0 >= s.interner_view()@.len() || !(s.interner_view()@[sym.0 as int] == "len"@
                && (st.last() is List || st.last() is String)),
            Op::ListAppend => n < 2 || !(st[n - 2] is List),
            Op::Pop => false,
            Op::Print(k) => n < k,
            Op::IncrLocalByConst(p) => !(VM::local_at(s, (p / 65536) as int) is Some
                && VM::const_at(s, (p % 65536) as int) matches Some(Value::Integer(_)))
                || add_spec(VM::local_at(s, (p / 65536) as int)->Some_0, VM::const_at(s, (p % 65536) as int)->Some_0,
                Err(arbitrary())),
            Op::LocalLtLocalJump(p, _) => VM::local_at(s, (p / 65536) as int) is None
                || VM::local_at(s, (p % 65536) as int) is None,
            Op::LocalLtEConstJump(p, _) => VM::local_at(s, (p / 65536) as int) is None
                || VM::const_at(s, (p % 65536) as int) is None,
            Op::LocalLtConstJump(p, _) => VM::local_at(s, (p / 65536) as int) is None
                || VM::const_at(s, (p % 65536) as int) is None,
            Op::LocalGtConstJump(p, _) => VM::local_at(s, (p / 65536) as int) is None
                || VM::const_at(s, (p % 65536) as int) is None,
            Op::IncrGlobalByConst(sym, c) => !(s.globals_view().contains_key(sym.0)
                && VM::const_at(s, c as int) matches Some(Value::Integer(_)))
                || add_spec(s.globals_view()[sym.0], VM::const_at(s, c as int)->Some_0, Err(arbitrary())),
            Op::LoadLocalPair(p) => VM::local_at(s, (p / 65536) as int) is None
                || VM::local_at(s, (p % 65536) as int) is None,
            _ => if is_binary(op) {
                n < 2 || !(exists|v: Value| binary_result(op, st[n - 2], st[n - 1], Ok(v)))
            } else if is_unary(op) {
                n < 1 || unary_result(op, st[n - 1], Err(arbitrary()))
            } else {
                true
            },
        }
    }

    /// The effect of instruction `op` when it does not fail.
    pub open spec fn op_spec(s: VM, t: VM, op: Op, halt: bool) -> bool {
        let st = s.stack_view();
        let n = st.len();
        let pc = s.pc_view();
        let next = pc + 1;
        match op {
            Op::LoadConst(i) => !halt && VM::moved(s, t, st.push(VM::const_at(s, i as int)->Some_0), next),
            Op::LoadLocal(slot) => !halt && VM::moved(s, t, st.push(VM::local_at(s, slot as int)->Some_0), next),
            Op::StoreLocal(slot) => !halt && VM::moved_locals(s, t, st.drop_last(), next,
                s.locals_view().update(s.base_view() + slot, st.last())),
            Op::LoadGlobal(sym) => !halt && VM::moved(s, t, st.push(s.globals_view()[sym.0]), next),
            Op::StoreGlobal(sym) => !halt && VM::moved_globals(s, t, st.drop_last(), next,
                s.globals_view().insert(sym.0, st.last())),
            Op::TakeGlobal(sym) => !halt && VM::moved_globals(s, t, st.push(s.globals_view()[sym.0]), next,
                s.globals_view().remove(sym.0)),
            Op::Jump(target) => !halt && VM::moved(s, t, st, target as int),
            Op::PopJumpIfFalse(target) => !halt && VM::moved(s, t, st.drop_last(),
                if truthy(st.last()) { next } else { target as int }),
            Op::JumpIfTrueOrPop(target) => !halt && if truthy(st.last()) {
                VM::moved(s, t, st, target as int)
            } else {
                VM::moved(s, t, st.drop_last(), next)
            },
            Op::JumpIfFalseOrPop(target) => !halt && if !truthy(st.last()) {
                VM::moved(s, t, st, target as int)
            } else {
                VM::moved(s, t, st.drop_last(), next)
            },
            Op::Call(argc) => !halt && VM::called(s, t, st[n - argc - 1], st.subrange(n - argc, n as int),
                st.subrange(0, n - argc - 1)),
            Op::CallGlobal(sym, argc) => !halt && VM::called(s, t, s.globals_view()[sym.0],
                st.subrange(n - argc, n as int), st.subrange(0, n - argc)),
            Op::Return => VM::returned(s, t, st) && halt == t.halted(),
            Op::ReturnNone => if s.frames_view().len() > 0 {
                !halt && VM::returned(s, t, st.push(Value::NoneVal))
            } else {
                halt && VM::moved_locals(s, t, st, next, if s.base_view() <= s.locals_view().len() {
                    s.locals_view().subrange(0, s.base_view() as int)
                } else {
                    s.locals_view()
                })
            },
            Op::BuildList(k) => !halt && t.stack_view().len() == n - k + 1 && VM::moved(s, t,
                st.subrange(0, n - k).push(t.stack_view().last()), next)
                && t.stack_view().last() is List && (*t.stack_view().last()->List_0)@ == st.subrange(n - k, n as int),
            Op::BuildDict(k) => !halt && t.stack_view().len() == n - 2 * k + 1 && VM::moved(s, t,
                st.subrange(0, n - 2 * k).push(t.stack_view().last()), next)
                && t.stack_view().last() is Dict && (*t.stack_view().last()->Dict_0)@ == pairs_of(st.subrange(n - 2 * k, n as int)),
            Op::LoadAttr(_) => !halt && VM::moved(s, t, st.drop_last().push(
                match st.last() {
                    Value::List(items) => Value::Integer((items@.len() as usize) as i64),
                    Value::String(x) => Value::Integer((vstd::utf8::encode_utf8(x@).len() as usize) as i64),
                    _ => Value::NoneVal,
                }), next),
            Op::ListAppend => !halt && t.stack_view().len() == n - 1 && VM::moved(s, t,
                st.subrange(0, n - 2).push(t.stack_view().last()), next)
                && t.stack_view().last() is List
                && (*t.stack_view().last()->List_0)@ == (*st[n - 2]->List_0)@.push(st[n - 1]),
            Op::Pop => !halt && VM::moved(s, t, if n > 0 { st.drop_last() } else { st }, next),
            Op::Print(k) => {
                let args = st.subrange(n - k, n as int);
                &&& !halt
                &&& t.stack_view() == st.subrange(0, n - k)
                &&& t.pc_view() == next
                &&& t.code_view() == s.code_view()
                &&& t.locals_view() == s.locals_view()
                &&& t.base_view() == s.base_view()
                &&& t.frames_view() == s.frames_view()
                &&& t.globals_view() == s.globals_view()
                &&& t.interner_view() == s.interner_view()
                &&& t.suppressed() == s.suppressed()
                &&& t.output_view().len() == s.output_view().len() + 1
                &&& t.output_view().subrange(0, s.output_view().len() as int) == s.output_view()
                &&& (all_float_free(args) ==> t.output_view().last() == print_line(args))
            },
            Op::IncrLocalByConst(p) => {
                let k = s.base_view() + (p / 65536) as int;
                &&& !halt
                &&& add_spec(VM::local_at(s, (p / 65536) as int)->Some_0, VM::const_at(s, (p % 65536) as int)->Some_0,
                    Ok(t.locals_view()[k]))
                &&& VM::moved_locals(s, t, st, next, s.locals_view().update(k, t.locals_view()[k]))
            },
            Op::LocalLtLocalJump(p, target) => !halt && VM::moved(s, t, st,
                if fused_compare(op, VM::local_at(s, (p / 65536) as int)->Some_0,
                    VM::local_at(s, (p % 65536) as int)->Some_0) { next } else { target as int }),
            Op::LocalLtEConstJump(p, target) | Op::LocalLtConstJump(p, target) | Op::LocalGtConstJump(p, target) =>
                !halt && VM::moved(s, t, st,
                if fused_compare(op, VM::local_at(s, (p / 65536) as int)->Some_0,
                    VM::const_at(s, (p % 65536) as int)->Some_0) { next } else { target as int }),
            Op::IncrGlobalByConst(sym, c) => {
                &&& !halt
                &&& t.globals_view().contains_key(sym.0)
                &&& add_spec(s.globals_view()[sym.0], VM::const_at(s, c as int)->Some_0, Ok(t.globals_view()[sym.0]))
                &&& VM::moved_globals(s, t, st, next, s.globals_view().insert(sym.0, t.globals_view()[sym.0]))
            },
            Op::LoadLocalPair(p) => !halt && VM::moved(s, t, st.push(VM::local_at(s, (p / 65536) as int)->Some_0).push(
                VM::local_at(s, (p % 65536) as int)->Some_0), next),
            _ => if is_binary(op) {
                &&& !halt
                &&& t.stack_view().len() == n - 1
                &&& binary_result(op, st[n - 2], st[n - 1], Ok(t.stack_view().last()))
                &&& VM::moved(s, t, st.subrange(0, n - 2).push(t.stack_view().last()), next)
            } else if is_unary(op) {
                &&& !halt
                &&& t.stack_view().len() == n
                &&& unary_result(op, st[n - 1], Ok(t.stack_view().last()))
                &&& VM::moved(s, t, st.drop_last().push(t.stack_view().last()), next)
            } else {
                false
            },
        }
    }
}


impl VM {
    /// A machine with no code loaded, no globals and no output.
    pub fn new(interner: Interner) -> (vm: VM)
        ensures
            vm.stack_view().len() == 0,
            vm.locals_view().len() == 0,
            vm.frames_view().len() == 0,
            vm.globals_view() == Map::<u32, Value>::empty(),
            vm.output_view().len() == 0,
            vm.interner_view() == interner,
            !vm.suppressed(),
            vm.halted(),
    {
        let empty = CodeObject {
            instructions: Vec::new(),
            constants: Vec::new(),
            num_locals: 0,
            local_slots: HashMap::new(),
        };
        let vm = VM {
            stack: Vec::new(),
            code: Rc::new(empty),
            pc: 0,
            locals_stack: Vec::new(),
            locals_base: 0,
            saved_frames: Vec::new(),
            globals: globals_new(),
            interner,
            output: Vec::new(),
            suppress_output: false,
        };
        proof {
            assert(vm.frames_view() =~= Seq::<(CodeObject, usize, usize)>::empty());
            assert(vm.output_view() =~= Seq::<Seq<char>>::empty());
            assert(vm.globals_view() =~= Map::<u32, Value>::empty());
        }
        vm
    }

    pub fn interner_mut(&mut self) -> (r: &mut Interner)
        ensures
            *r == old(self).interner_view(),
            final(self).interner_view() == *final(r),
            final(self).stack_view() == old(self).stack_view(),
            final(self).pc_view() == old(self).pc_view(),
            final(self).code_view() == old(self).code_view(),
            final(self).locals_view() == old(self).locals_view(),
            final(self).base_view() == old(self).base_view(),
            final(self).frames_view() == old(self).frames_view(),
            final(self).globals_view() == old(self).globals_view(),
            final(self).output_view() == old(self).output_view(),
            final(self).suppressed() == old(self).suppressed(),
    {
        &mut self.interner
    }

    /// Whether printed lines are shown as well as recorded; the program
    /// that embeds the machine does the showing.
    pub fn set_suppress_output(&mut self, suppress: bool)
        ensures
            final(self).suppressed() == suppress,
            final(self).stack_view() == old(self).stack_view(),
            final(self).pc_view() == old(self).pc_view(),
            final(self).code_view() == old(self).code_view(),
            final(self).locals_view() == old(self).locals_view(),
            final(self).base_view() == old(self).base_view(),
            final(self).frames_view() == old(self).frames_view(),
            final(self).globals_view() == old(self).globals_view(),
            final(self).output_view() == old(self).output_view(),
            final(self).interner_view() == old(self).interner_view(),
    {
        self.suppress_output = suppress;
    }

    pub fn is_output_suppressed(&self) -> (r: bool)
        ensures
            r == self.suppressed(),
    {
        self.suppress_output
    }

    /// The lines printed so far, oldest first.
    pub fn get_output(&self) -> (r: &[String])
        ensures
            r@.map_values(|s: String| s@) == self.output_view(),
    {
        self.output.as_slice()
    }

    /// Sets a global variable.
    pub fn set_global(&mut self, sym: Symbol, value: Value)
        ensures
            VM::moved_globals(*old(self), *final(self), old(self).stack_view(), old(self).pc_view() as int,
                old(self).globals_view().insert(sym.0, value)),
    {
        globals_insert(&mut self.globals, sym.0, value);
    }

    /// The value of a global variable, if it is set.
    pub fn get_global(&self, sym: Symbol) -> (r: Option<&Value>)
        ensures
            match r {
                Some(v) => self.globals_view().contains_key(sym.0) && *v == self.globals_view()[sym.0],
                None => !self.globals_view().contains_key(sym.0),
            },
    {
        globals_get(&self.globals, sym.0)
    }

    /// Appends `n` unset locals for a new frame and returns where they start.
    fn push_locals(&mut self, n: usize) -> (base: usize)
        ensures
            base == old(self).locals_stack@.len(),
            final(self).locals_stack@ == old(self).locals_stack@ + fresh_locals(n as nat),
            final(self).stack == old(self).stack,
            final(self).code == old(self).code,
            final(self).pc == old(self).pc,
            final(self).locals_base == old(self).locals_base,
            final(self).saved_frames == old(self).saved_frames,
            final(self).globals == old(self).globals,
            final(self).interner == old(self).interner,
            final(self).output == old(self).output,
            final(self).suppress_output == old(self).suppress_output,
    {
        let base = self.locals_stack.len();
        let mut k: usize = 0;
        while k < n
            invariant
                k <= n,
                base == old(self).locals_stack@.len(),
                self.locals_stack@ == old(self).locals_stack@ + fresh_locals(k as nat),
                self.stack == old(self).stack,
                self.code == old(self).code,
                self.pc == old(self).pc,
                self.locals_base == old(self).locals_base,
                self.saved_frames == old(self).saved_frames,
                self.globals == old(self).globals,
                self.interner == old(self).interner,
                self.output == old(self).output,
                self.suppress_output == old(self).suppress_output,
            decreases n - k,
        {
            self.locals_stack.push(Value::NoneVal);
            proof {
                assert(old(self).locals_stack@ + fresh_locals((k + 1) as nat) =~= (old(self).locals_stack@
                    + fresh_locals(k as nat)).push(Value::NoneVal));
            }
            k = k + 1;
        }
        base
    }

    /// Loads a program and runs it to the end, one `step` at a time. The
    /// module's locals are appended to the locals stack; globals and output
    /// are kept from earlier runs. The result is that of the steps from the
    /// loaded state (`loaded`), as `execution` states.
    pub fn run<F: FloatOps>(&mut self, code: &CodeObject) -> (r: Result<(), String>)
        ensures
            exists|start: VM| #[trigger] VM::loaded(*old(self), *code, start) && VM::execution(start, *final(self), r),
            r is Ok ==> final(self).frames_view().len() == 0,
            final(self).output_view().len() >= old(self).output_view().len(),
            final(self).output_view().subrange(0, old(self).output_view().len() as int) == old(self).output_view(),
    {
        let module = code.copy();
        let n = module.num_locals as usize;
        self.locals_base = self.push_locals(n);
        self.code = Rc::new(module);
        self.pc = 0;
        proof {
            assert(self.output_view() =~= old(self).output_view());
            assert(self.frames_view() =~= old(self).frames_view());
            assert(self.output_view().subrange(0, old(self).output_view().len() as int) =~= old(self).output_view());
        }
        let ghost start = *self;
        let r = self.execute::<F>();
        proof {
            assert(VM::loaded(*old(self), *code, start));
        }
        r
    }

    /// The state `start` is `s` with `code` loaded: its instructions,
    /// constants and slot count, at the first instruction, with a fresh frame
    /// of locals on top of the existing ones.
    pub open spec fn loaded(s: VM, code: CodeObject, start: VM) -> bool {
        &&& start.code_view().instructions@ == code.instructions@
        &&& start.code_view().constants@ == code.constants@
        &&& start.code_view().num_locals == code.num_locals
        &&& start.pc_view() == 0
        &&& start.base_view() == s.locals_view().len()
        &&& start.locals_view() == s.locals_view() + fresh_locals(code.num_locals as nat)
        &&& start.stack_view() == s.stack_view()
        &&& start.frames_view() == s.frames_view()
        &&& start.globals_view() == s.globals_view()
        &&& start.output_view() == s.output_view()
        &&& start.interner_view() == s.interner_view()
        &&& start.suppressed() == s.suppressed()
    }

    /// A sequence of states, each of which steps to the next without
    /// halting.
    pub open spec fn is_trace(trace: Seq<VM>) -> bool {
        forall|i: int| 0 <= i < trace.len() - 1 ==> #[trigger] VM::step_spec(trace[i], trace[i + 1], Ok(false))
    }

    /// Running from `start` ends in `end` with result `r`: a trace of steps
    /// from `start` whose last state either halts into `end` (`Ok`), or
    /// fails into `end` (`Err`), or is `end` after `u64::MAX` steps (`Err`).
    pub open spec fn execution(start: VM, end: VM, r: Result<(), String>) -> bool {
        exists|trace: Seq<VM>| {
            &&& #[trigger] trace.len() > 0
            &&& trace[0] == start
            &&& VM::is_trace(trace)
            &&& match r {
                Ok(_) => VM::step_spec(trace.last(), end, Ok(true)),
                Err(e) => VM::step_spec(trace.last(), end, Err(e)) || (trace.last() == end && trace.len()
                    > u64::MAX),
            }
        }
    }

    /// Runs until the machine halts or an instruction fails. The loop is
    /// bounded by `u64::MAX` steps; a program that has not halted by then
    /// is reported as running too long.
    fn execute<F: FloatOps>(&mut self) -> (r: Result<(), String>)
        ensures
            VM::execution(*old(self), *final(self), r),
            r is Ok ==> final(self).frames_view().len() == 0,
            final(self).output_view().len() >= old(self).output_view().len(),
            final(self).output_view().subrange(0, old(self).output_view().len() as int) == old(self).output_view(),
    {
        let mut budget: u64 = u64::MAX;
        let ghost mut trace: Seq<VM> = seq![*self];
        while budget > 0
            invariant
                trace.len() > 0,
                trace[0] == *old(self),
                VM::is_trace(trace),
                trace.last() == *self,
                trace.len() == u64::MAX - budget + 1,
                self.output_view().len() >= old(self).output_view().len(),
                self.output_view().subrange(0, old(self).output_view().len() as int) == old(self).output_view(),
            decreases budget,
        {
            let ghost before = *self;
            let res = self.step::<F>();
            proof {
                VM::lemma_step_keeps_output(before, *self, res);
                assert(self.output_view().subrange(0, old(self).output_view().len() as int) =~= before.output_view().subrange(0, old(self).output_view().len() as int));
            }
            match res {
                Ok(true) => {
                    proof {
                        VM::lemma_halt(before, *self);
                        assert(trace.len() > 0);
                    }
                    return Ok(());
                },
                Ok(false) => {},
                Err(e) => {
                    proof {
                        assert(trace.len() > 0);
                    }
                    return Err(e);
                },
            }
            proof {
                let next = trace.push(*self);
                assert forall|i: int| 0 <= i < next.len() - 1 implies #[trigger] VM::step_spec(next[i], next[i + 1], Ok(false)) by {
                    if i < trace.len() - 1 {
                        assert(next[i] == trace[i] && next[i + 1] == trace[i + 1]);
                    } else {
                        assert(next[i] == before && next[i + 1] == *self);
                    }
                }
                trace = next;
            }
            budget = budget - 1;
        }
        proof {
            assert(trace.len() > 0);
        }
        Err(owned("step limit reached"))
    }

    /// A step never loses printed lines.
    pub proof fn lemma_step_keeps_output(s: VM, t: VM, r: Result<bool, String>)
        requires
            VM::step_spec(s, t, r),
        ensures
            t.output_view().len() >= s.output_view().len(),
            t.output_view().subrange(0, s.output_view().len() as int) == s.output_view(),
    {
        assert(s.output_view().subrange(0, s.output_view().len() as int) =~= s.output_view());
    }

    /// A step reports `Ok(true)` only at the outermost level.
    pub proof fn lemma_halt(s: VM, t: VM)
        requires
            VM::step_spec(s, t, Ok(true)),
        ensures
            t.frames_view().len() == 0,
    {
    }
}

impl CodeObject {
    /// A copy of the code object; constants share their contents.
    pub fn copy(&self) -> (r: CodeObject)
        ensures
            r.instructions@ == self.instructions@,
            r.constants@ == self.constants@,
            r.num_locals == self.num_locals,
            r.local_slots@ == self.local_slots@,
    {
        let mut ins: Vec<Op> = Vec::new();
        let mut i: usize = 0;
        while i < self.instructions.len()
            invariant
                i <= self.instructions@.len(),
                ins@ == self.instructions@.subrange(0, i as int),
            decreases self.instructions@.len() - i,
        {
            ins.push(self.instructions[i]);
            proof {
                assert(self.instructions@.subrange(0, i + 1) =~= self.instructions@.subrange(0, i as int).push(self.instructions@[i as int]));
            }
            i = i + 1;
        }
        proof {
            assert(self.instructions@.subrange(0, self.instructions@.len() as int) =~= self.instructions@);
        }
        CodeObject {
            instructions: ins,
            constants: copy_values(&self.constants),
            num_locals: self.num_locals,
            local_slots: self.local_slots.clone(),
        }
    }
}


impl VM {
    /// Executes one instruction: the machine's semantics is `step_spec`.
    pub fn step<F: FloatOps>(&mut self) -> (r: Result<bool, String>)
        ensures
            VM::step_spec(*old(self), *final(self), r),
    {
        if self.pc >= self.code.instructions.len() {
            return self.exec_return();
        }
        let op = self.code.instructions[self.pc];
        match op {
            Op::LoadConst(_) | Op::LoadLocal(_) | Op::StoreLocal(_) | Op::LoadGlobal(_)
            | Op::StoreGlobal(_) | Op::TakeGlobal(_) | Op::LoadLocalPair(_) | Op::Pop => self.exec_load_store(op),
            Op::Jump(_) | Op::PopJumpIfFalse(_) | Op::JumpIfTrueOrPop(_) | Op::JumpIfFalseOrPop(_)
            | Op::LocalLtLocalJump(_, _) | Op::LocalLtEConstJump(_, _) | Op::LocalLtConstJump(_, _)
            | Op::LocalGtConstJump(_, _) => self.exec_jump(op),
            Op::Call(_) | Op::CallGlobal(_, _) => self.exec_call::<F>(op),
            Op::Return | Op::ReturnNone => self.exec_return(),
            Op::BuildList(_) | Op::BuildDict(_) | Op::LoadAttr(_) | Op::ListAppend => self.exec_collection(op),
            Op::Print(k) => self.exec_print::<F>(k),
            Op::IncrLocalByConst(_) | Op::IncrGlobalByConst(_, _) => self.exec_incr::<F>(op),
            Op::UnaryNeg | Op::UnaryNot | Op::Len => self.exec_unary(op),
            _ => self.exec_binary::<F>(op),
        }
    }

    fn exec_load_store(&mut self, op: Op) -> (r: Result<bool, String>)
        requires
            old(self).pc < old(self).code.instructions@.len(),
            op == old(self).code.instructions@[old(self).pc as int],
            op is LoadConst || op is LoadLocal || op is StoreLocal || op is LoadGlobal || op is StoreGlobal
                || op is TakeGlobal || op is LoadLocalPair || op is Pop,
        ensures
            VM::step_spec(*old(self), *final(self), r),
    {
        let ghost s = *self;
        let next = self.next_pc();
        match op {
            Op::LoadConst(i) => {
                if (i as usize) >= self.code.constants.len() {
                    return Err(owned("constant index out of range"));
                }
                let v = self.code.constants[i as usize].copy();
                self.stack.push(v);
            },
            Op::LoadLocal(slot) => {
                if self.locals_base >= self.locals_stack.len() || (slot as usize) >= self.locals_stack.len() - self.locals_base {
                    return Err(owned("local slot out of range"));
                }
                let v = self.locals_stack[self.locals_base + slot as usize].copy();
                self.stack.push(v);
            },
            Op::StoreLocal(slot) => {
                if self.locals_base >= self.locals_stack.len() || (slot as usize) >= self.locals_stack.len() - self.locals_base {
                    return Err(owned("local slot out of range"));
                }
                match self.stack.pop() {
                    Some(v) => {
                        let k = self.locals_base + slot as usize;
                        self.locals_stack.set(k, v);
                    },
                    None => {
                        return Err(owned("stack underflow"));
                    },
                }
            },
            Op::LoadGlobal(sym) => {
                match globals_get(&self.globals, sym.0) {
                    Some(v) => {
                        let v = v.copy();
                        self.stack.push(v);
                    },
                    None => {
                        return Err(undefined_variable(&self.interner, sym));
                    },
                }
            },
            Op::StoreGlobal(sym) => {
                match self.stack.pop() {
                    Some(v) => {
                        globals_insert(&mut self.globals, sym.0, v);
                    },
                    None => {
                        return Err(owned("stack underflow"));
                    },
                }
            },
            Op::TakeGlobal(sym) => {
                match globals_remove(&mut self.globals, sym.0) {
                    Some(v) => {
                        self.stack.push(v);
                    },
                    None => {
                        return Err(undefined_variable(&self.interner, sym));
                    },
                }
            },
            Op::LoadLocalPair(packed) => {
                let (a, b) = Op::unpack_pair(packed);
                if self.locals_base >= self.locals_stack.len() || (a as usize) >= self.locals_stack.len() - self.locals_base
                    || (b as usize) >= self.locals_stack.len() - self.locals_base {
                    return Err(owned("local slot out of range"));
                }
                let va = self.locals_stack[self.locals_base + a as usize].copy();
                let vb = self.locals_stack[self.locals_base + b as usize].copy();
                self.stack.push(va);
                self.stack.push(vb);
            },
            _ => {
                self.stack.pop();
            },
        }
        self.pc = next;
        proof {
            assert(self.frames_view() =~= s.frames_view());
            assert(self.output_view() =~= s.output_view());
        }
        Ok(false)
    }
}

/// The error for reading an unset global.
/// The error for a name without a value: the name itself when it is
/// interned.
pub open spec fn undefined_text(names: Seq<Seq<char>>, sym: Symbol) -> Seq<char> {
    "Undefined variable: "@ + if (sym.0 as int) < names.len() {
        names[sym.0 as int]
    } else {
        Seq::empty()
    }
}

fn undefined_variable(interner: &Interner, sym: Symbol) -> (r: String)
    ensures
        r@ == undefined_text(interner@, sym),
{
    let mut msg = owned("Undefined variable: ");
    if (sym.0 as usize) < interner.len() {
        msg.append(interner.resolve(sym));
    } else {
        assert(msg@ =~= msg@ + Seq::<char>::empty());
    }
    msg
}


impl VM {
    /// The offset of the next instruction.
    fn next_pc(&self) -> (r: usize)
        requires
            self.pc < self.code.instructions@.len(),
        ensures
            r == self.pc + 1,
    {
        let n = self.code.instructions.len();
        self.pc + 1
    }

    /// The local at `slot` of the current frame.
    fn read_local(&self, slot: u16) -> (r: Option<Value>)
        ensures
            r == VM::local_at(*self, slot as int),
    {
        if self.locals_base >= self.locals_stack.len() || (slot as usize) >= self.locals_stack.len() - self.locals_base {
            None
        } else {
            Some(self.locals_stack[self.locals_base + slot as usize].copy())
        }
    }

    /// The constant at `idx` of the current code.
    fn read_const(&self, idx: u16) -> (r: Option<Value>)
        ensures
            r == VM::const_at(*self, idx as int),
    {
        if (idx as usize) < self.code.constants.len() {
            Some(self.code.constants[idx as usize].copy())
        } else {
            None
        }
    }

    fn exec_jump(&mut self, op: Op) -> (r: Result<bool, String>)
        requires
            old(self).pc < old(self).code.instructions@.len(),
            op == old(self).code.instructions@[old(self).pc as int],
            op is Jump || op is PopJumpIfFalse || op is JumpIfTrueOrPop || op is JumpIfFalseOrPop
                || op is LocalLtLocalJump || op is LocalLtEConstJump || op is LocalLtConstJump
                || op is LocalGtConstJump,
        ensures
            VM::step_spec(*old(self), *final(self), r),
    {
        let ghost s = *self;
        let next = self.next_pc();
        match op {
            Op::Jump(target) => {
                self.pc = target as usize;
            },
            Op::PopJumpIfFalse(target) => {
                match self.stack.pop() {
                    Some(v) => {
                        self.pc = if v.is_truthy() { next } else { target as usize };
                    },
                    None => {
                        return Err(owned("stack underflow"));
                    },
                }
            },
            Op::JumpIfTrueOrPop(target) | Op::JumpIfFalseOrPop(target) => {
                let n = self.stack.len();
                if n == 0 {
                    return Err(owned("stack underflow"));
                }
                let t = self.stack[n - 1].is_truthy();
                let jump = match op {
                    Op::JumpIfTrueOrPop(_) => t,
                    _ => !t,
                };
                if jump {
                    self.pc = target as usize;
                } else {
                    self.stack.pop();
                    self.pc = next;
                }
            },
            Op::LocalLtLocalJump(packed, target) => {
                let (a, b) = Op::unpack_pair(packed);
                let va = self.read_local(a);
                let vb = self.read_local(b);
                match (va, vb) {
                    (Some(x), Some(y)) => {
                        let result = values_less(&x, &y);
                        self.pc = if result { next } else { target as usize };
                    },
                    _ => {
                        return Err(owned("local slot out of range"));
                    },
                }
            },
            Op::LocalLtEConstJump(packed, target) | Op::LocalLtConstJump(packed, target)
            | Op::LocalGtConstJump(packed, target) => {
                let (a, c) = Op::unpack_pair(packed);
                let va = self.read_local(a);
                let vc = self.read_const(c);
                match (va, vc) {
                    (Some(x), Some(y)) => {
                        let result = match op {
                            Op::LocalLtEConstJump(_, _) => values_less_equal(&x, &y),
                            Op::LocalLtConstJump(_, _) => values_less(&x, &y),
                            _ => values_less(&y, &x),
                        };
                        self.pc = if result { next } else { target as usize };
                    },
                    _ => {
                        return Err(owned("local slot or constant out of range"));
                    },
                }
            },
            _ => {},
        }
        proof {
            assert(self.frames_view() =~= s.frames_view());
            assert(self.output_view() =~= s.output_view());
        }
        Ok(false)
    }

    /// Returns from the current frame: on `Return` with the value on top of
    /// the stack, on `ReturnNone` or at the end of a function's code with
    /// `None`. At the outermost level the machine halts.
    fn exec_return(&mut self) -> (r: Result<bool, String>)
        requires
            old(self).pc >= old(self).code.instructions@.len() || old(self).code.instructions@[old(self).pc as int] is Return
                || old(self).code.instructions@[old(self).pc as int] is ReturnNone,
        ensures
            VM::step_spec(*old(self), *final(self), r),
    {
        let ghost s = *self;
        let at_end = self.pc >= self.code.instructions.len();
        let explicit = !at_end && self.code.instructions[self.pc] == Op::Return;
        if at_end && self.saved_frames.len() == 0 {
            proof {
                assert(self.frames_view() =~= s.frames_view());
                assert(self.output_view() =~= s.output_view());
            }
            return Ok(true);
        }
        if explicit && (self.stack.len() == 0 || self.saved_frames.len() == 0) {
            return Err(owned("'return' outside function"));
        }
        let value = if explicit {
            match self.stack.pop() {
                Some(v) => v,
                None => Value::NoneVal,
            }
        } else {
            Value::NoneVal
        };
        let base = self.locals_base;
        self.locals_stack.truncate(base);
        match self.saved_frames.pop() {
            Some(frame) => {
                self.code = frame.code;
                self.pc = frame.pc;
                self.locals_base = frame.locals_base;
                self.stack.push(value);
                proof {
                    assert(self.frames_view() =~= s.frames_view().drop_last());
                    assert(self.output_view() =~= s.output_view());
                    if explicit {
                        assert(self.stack_view() =~= s.stack_view());
                    }
                }
                let halted = self.saved_frames.len() == 0 && self.pc >= self.code.instructions.len();
                Ok(explicit && halted)
            },
            None => {
                // `ReturnNone` at the outermost level ends the program
                self.pc = self.next_pc();
                proof {
                    assert(self.frames_view() =~= s.frames_view());
                    assert(self.output_view() =~= s.output_view());
                }
                Ok(true)
            },
        }
    }
}


impl VM {
    /// Calls function `f` with the top `argc` values of the stack as its
    /// arguments; the stack is cut back to `keep` values.
    fn enter(&mut self, f: &FunctionObj, argc: usize, keep: usize) -> (r: Result<bool, String>)
        requires
            keep + argc <= old(self).stack@.len(),
            old(self).pc < old(self).code.instructions@.len(),
        ensures
            r is Ok <==> VM::can_bind(*f, argc as nat),
            final(self).output_view() == old(self).output_view(),
            r is Ok ==> r == Ok::<bool, String>(false) && VM::entered(*old(self), *final(self), *f,
                old(self).stack@.subrange(old(self).stack@.len() - argc, old(self).stack@.len() as int),
                old(self).stack@.subrange(0, keep as int)),
    {
        let ghost s = *self;
        if argc != f.param_slots.len() {
            let mut msg = owned("Expected ");
            msg.append(u64_text(f.param_slots.len() as u64).as_str());
            msg.append(" arguments, got ");
            msg.append(u64_text(argc as u64).as_str());
            return Err(msg);
        }
        let mut i: usize = 0;
        while i < argc
            invariant
                i <= argc <= f.param_slots@.len(),
                forall|j: int| 0 <= j < i ==> #[trigger] f.param_slots@[j] < f.code.num_locals,
            decreases argc - i,
        {
            if f.param_slots[i] >= f.code.num_locals {
                return Err(owned("parameter slot out of range"));
            }
            i = i + 1;
        }
        let n = self.stack.len();
        let args = self.stack.split_off(n - argc);
        let new_base = self.push_locals(f.code.num_locals as usize);
        let ghost fresh = self.locals_stack@;
        let mut k: usize = 0;
        while k < argc
            invariant
                k <= argc,
                argc <= f.param_slots@.len(),
                args@.len() == argc,
                new_base == s.locals_stack@.len(),
                fresh == s.locals_stack@ + fresh_locals(f.code.num_locals as nat),
                forall|j: int| 0 <= j < argc ==> #[trigger] f.param_slots@[j] < f.code.num_locals,
                self.locals_stack@ == bind_args(fresh, new_base as int, f.param_slots@, args@.subrange(0, k as int)),
                self.locals_stack@.len() == fresh.len(),
                self.code == s.code,
                self.pc == s.pc,
                self.pc < self.code.instructions@.len(),
                self.locals_base == s.locals_base,
                self.saved_frames == s.saved_frames,
                self.globals == s.globals,
                self.interner == s.interner,
                self.output == s.output,
                self.suppress_output == s.suppress_output,
                self.stack@ == s.stack@.subrange(0, n - argc),
                keep + argc <= n,
                n == s.stack@.len(),
            decreases argc - k,
        {
            let slot = f.param_slots[k] as usize;
            let total = self.locals_stack.len();
            let v = args[k].copy();
            self.locals_stack.set(new_base + slot, v);
            proof {
                assert(args@.subrange(0, k + 1).drop_last() =~= args@.subrange(0, k as int));
            }
            k = k + 1;
        }
        proof {
            assert(args@.subrange(0, argc as int) =~= args@);
        }
        self.stack.truncate(keep);
        let resume = self.next_pc();
        let frame = SavedFrame { code: rc_clone(&self.code), pc: resume, locals_base: self.locals_base };
        self.saved_frames.push(frame);
        self.code = rc_clone(&f.code);
        self.pc = 0;
        self.locals_base = new_base;
        proof {
            assert(self.frames_view() =~= s.frames_view().push((s.code_view(), (s.pc_view() + 1) as usize, s.base_view())));
            assert(self.output_view() =~= s.output_view());
            assert(self.stack@ =~= s.stack@.subrange(0, keep as int));
        }
        Ok(false)
    }

    /// Calls a builtin on the top `argc` values; the caller keeps the stack
    /// below `keep` and gets the result on top.
    fn call_native<F: FloatOps>(&mut self, func: Builtin, argc: usize, keep: usize) -> (r: Result<bool, String>)
        requires
            keep + argc <= old(self).stack@.len(),
            old(self).pc < old(self).code.instructions@.len(),
        ensures
            final(self).output_view() == old(self).output_view(),
            ({
                let st = old(self).stack@;
                let args = st.subrange(st.len() - argc, st.len() as int);
                match r {
                    Ok(halt) => {
                        &&& !halt
                        &&& final(self).stack_view().len() == keep + 1
                        &&& builtin_spec(func, args, Ok(final(self).stack_view().last()))
                        &&& VM::moved(*old(self), *final(self), st.subrange(0, keep as int).push(
                            final(self).stack_view().last()), old(self).pc_view() + 1)
                    },
                    Err(e) => builtin_spec(func, args, Err(e)),
                }
            }),
    {
        let ghost s = *self;
        let ghost st = self.stack@;
        let n = self.stack.len();
        let mut args: Vec<Value> = Vec::new();
        let mut i: usize = n - argc;
        while i < n
            invariant
                n == st.len(),
                argc <= n,
                n - argc <= i <= n,
                self.stack@ == st,
                args@ == st.subrange(n - argc, i as int),
            decreases n - i,
        {
            let v = self.stack[i].copy();
            args.push(v);
            proof {
                assert(st.subrange(n - argc, i + 1) =~= st.subrange(n - argc, i as int).push(st[i as int]));
            }
            i = i + 1;
        }
        match call_builtin::<F>(func, args.as_slice()) {
            Ok(v) => {
                self.stack.truncate(keep);
                self.stack.push(v);
                self.pc = self.next_pc();
                proof {
                    assert(self.stack@ =~= s.stack@.subrange(0, keep as int).push(self.stack@.last()));
                    assert(self.frames_view() =~= s.frames_view());
                    assert(self.output_view() =~= s.output_view());
                }
                Ok(false)
            },
            Err(e) => Err(e),
        }
    }

    fn exec_call<F: FloatOps>(&mut self, op: Op) -> (r: Result<bool, String>)
        requires
            old(self).pc < old(self).code.instructions@.len(),
            op == old(self).code.instructions@[old(self).pc as int],
            op is Call || op is CallGlobal,
        ensures
            VM::step_spec(*old(self), *final(self), r),
    {
        let n = self.stack.len();
        match op {
            Op::Call(argc) => {
                let argc = argc as usize;
                if n < argc + 1 {
                    return Err(owned("stack underflow"));
                }
                let func_idx = n - argc - 1;
                match &self.stack[func_idx] {
                    Value::Function(f) => {
                        let f = rc_clone(f);
                        self.enter(&f, argc, func_idx)
                    },
                    Value::NativeFunction { func, .. } => {
                        let func = *func;
                        self.call_native::<F>(func, argc, func_idx)
                    },
                    other => {
                        let mut msg = owned(value_kind(other));
                        msg.append(" is not callable");
                        Err(msg)
                    },
                }
            },
            Op::CallGlobal(sym, argc) => {
                let argc = argc as usize;
                if n < argc {
                    return Err(owned("stack underflow"));
                }
                let f = match globals_get(&self.globals, sym.0) {
                    Some(Value::Function(f)) => rc_clone(f),
                    Some(Value::NativeFunction { func, .. }) => {
                        let func = *func;
                        return self.call_native::<F>(func, argc, n - argc);
                    },
                    Some(other) => {
                        let mut msg = owned(value_kind(other));
                        msg.append(" is not callable");
                        return Err(msg);
                    },
                    None => {
                        return Err(undefined_variable(&self.interner, sym));
                    },
                };
                self.enter(&f, argc, n - argc)
            },
            _ => Err(owned("not a call")),
        }
    }
}

/// The kind of a value, for error messages.
fn value_kind(v: &Value) -> (r: &'static str) {
    match v {
        Value::Integer(_) => "int",
        Value::Float(_) => "float",
        Value::String(_) => "str",
        Value::Boolean(_) => "bool",
        Value::List(_) => "list",
        Value::Dict(_) => "dict",
        Value::NoneVal => "None",
        Value::Function(_) => "function",
        Value::NativeFunction { .. } => "builtin",
    }
}


impl VM {
    fn exec_collection(&mut self, op: Op) -> (r: Result<bool, String>)
        requires
            old(self).pc < old(self).code.instructions@.len(),
            op == old(self).code.instructions@[old(self).pc as int],
            op is BuildList || op is BuildDict || op is LoadAttr || op is ListAppend,
        ensures
            VM::step_spec(*old(self), *final(self), r),
    {
        let ghost s = *self;
        let n = self.stack.len();
        let next = self.next_pc();
        match op {
            Op::BuildList(k) => {
                let k = k as usize;
                if n < k {
                    return Err(owned("stack underflow"));
                }
                let items = self.stack.split_off(n - k);
                self.stack.push(Value::List(Rc::new(items)));
            },
            Op::BuildDict(k) => {
                let k = k as usize;
                if n < 2 * k {
                    return Err(owned("stack underflow"));
                }
                let flat = self.stack.split_off(n - 2 * k);
                let mut pairs: Vec<(Value, Value)> = Vec::new();
                let mut i: usize = 0;
                while i < k
                    invariant
                        i <= k,
                        flat@.len() == 2 * k,
                        pairs@ == pairs_of(flat@).subrange(0, i as int),
                    decreases k - i,
                {
                    let key = flat[2 * i].copy();
                    let val = flat[2 * i + 1].copy();
                    pairs.push((key, val));
                    proof {
                        assert(pairs_of(flat@).subrange(0, i + 1) =~= pairs_of(flat@).subrange(0, i as int).push(
                            (flat@[2 * i], flat@[2 * i + 1]),
                        ));
                    }
                    i = i + 1;
                }
                proof {
                    assert(pairs_of(flat@).subrange(0, k as int) =~= pairs_of(flat@));
                }
                self.stack.push(Value::Dict(Rc::new(pairs)));
            },
            Op::LoadAttr(sym) => {
                if n == 0 {
                    return Err(owned("stack underflow"));
                }
                if (sym.0 as usize) >= self.interner.len() {
                    return Err(owned("unknown attribute name"));
                }
                let is_len = str_equal(self.interner.resolve(sym), "len");
                proof {
                    reveal_strlit("len");
                }
                let result = match &self.stack[n - 1] {
                    Value::List(items) => if is_len {
                        Some(Value::Integer(items.len() as i64))
                    } else {
                        None
                    },
                    Value::String(text) => if is_len {
                        Some(Value::Integer(text.as_str().len() as i64))
                    } else {
                        None
                    },
                    _ => None,
                };
                match result {
                    Some(v) => {
                        self.stack.pop();
                        self.stack.push(v);
                    },
                    None => {
                        let mut msg = owned("No attribute '");
                        msg.append(self.interner.resolve(sym));
                        msg.append("'");
                        return Err(msg);
                    },
                }
            },
            _ => {
                // ListAppend
                if n < 2 {
                    return Err(owned("stack underflow"));
                }
                let value = match self.stack.pop() {
                    Some(v) => v,
                    None => Value::NoneVal,
                };
                let list = match self.stack.pop() {
                    Some(v) => v,
                    None => Value::NoneVal,
                };
                match list {
                    Value::List(items) => {
                        let ghost iv = items@;
                        let mut v = match Rc::try_unwrap(items) {
                            Ok(v) => v,
                            Err(shared) => copy_values(&shared),
                        };
                        v.push(value);
                        self.stack.push(Value::List(Rc::new(v)));
                        proof {
                            assert(self.stack@.drop_last() =~= s.stack@.subrange(0, n - 2));
                            assert(self.stack@ =~= s.stack@.subrange(0, n - 2).push(self.stack@.last()));
                        }
                    },
                    _ => {
                        return Err(owned("ListAppend on non-list"));
                    },
                }
            },
        }
        self.pc = next;
        proof {
            assert(self.frames_view() =~= s.frames_view());
            assert(self.output_view() =~= s.output_view());
            assert(self.stack_view().drop_last() =~= self.stack_view().subrange(0, self.stack_view().len() - 1));
        }
        Ok(false)
    }

    fn exec_print<F: FloatOps>(&mut self, k: u8) -> (r: Result<bool, String>)
        requires
            old(self).pc < old(self).code.instructions@.len(),
            Op::Print(k) == old(self).code.instructions@[old(self).pc as int],
        ensures
            VM::step_spec(*old(self), *final(self), r),
    {
        let ghost s = *self;
        let n = self.stack.len();
        let k = k as usize;
        if n < k {
            return Err(owned("stack underflow"));
        }
        let args = self.stack.split_off(n - k);
        let mut line = String::new();
        let mut i: usize = 0;
        while i < args.len()
            invariant
                i <= args@.len(),
                all_float_free(args@) ==> line@ == print_line(args@.subrange(0, i as int)),
            decreases args@.len() - i,
        {
            if i > 0 {
                line.append(" ");
            }
            let t = args[i].to_text::<F>();
            line.append(t.as_str());
            proof {
                reveal_strlit(" ");
                let pre = args@.subrange(0, i + 1);
                assert(pre.drop_last() =~= args@.subrange(0, i as int));
                if i == 0 {
                    assert(args@.subrange(0, i as int) =~= Seq::<Value>::empty());
                }
                if all_float_free(args@) {
                    assert(float_free(args@[i as int]));
                    assert(line@ =~= print_line(pre));
                }
            }
            i = i + 1;
        }
        proof {
            assert(args@.subrange(0, args@.len() as int) =~= args@);
        }
        self.output.push(line);
        self.pc = self.next_pc();
        proof {
            assert(self.frames_view() =~= s.frames_view());
            assert(self.output_view().subrange(0, s.output_view().len() as int) =~= s.output_view());
        }
        Ok(false)
    }

    /// The fused increments: the instruction sequence they replace
    /// (load, load an integer constant, add, store), in one step.
    fn exec_incr<F: FloatOps>(&mut self, op: Op) -> (r: Result<bool, String>)
        requires
            old(self).pc < old(self).code.instructions@.len(),
            op == old(self).code.instructions@[old(self).pc as int],
            op is IncrLocalByConst || op is IncrGlobalByConst,
        ensures
            VM::step_spec(*old(self), *final(self), r),
    {
        let ghost s = *self;
        let next = self.next_pc();
        match op {
            Op::IncrLocalByConst(packed) => {
                let (slot, c) = Op::unpack_pair(packed);
                let cur = self.read_local(slot);
                let inc = self.read_const(c);
                match (cur, inc) {
                    (Some(a), Some(Value::Integer(b))) => {
                        match binary_add::<F>(a, Value::Integer(b)) {
                            Ok(v) => {
                                let total = self.locals_stack.len();
                                assert(self.locals_base + slot < total);
                                let k = self.locals_base + slot as usize;
                                self.locals_stack.set(k, v);
                            },
                            Err(e) => {
                                return Err(e);
                            },
                        }
                    },
                    (None, _) => {
                        return Err(owned("local slot out of range"));
                    },
                    _ => {
                        return Err(owned("IncrLocalByConst: non-integer constant"));
                    },
                }
            },
            Op::IncrGlobalByConst(sym, c) => {
                let inc = self.read_const(c);
                let cur = match globals_get(&self.globals, sym.0) {
                    Some(v) => Some(v.copy()),
                    None => None,
                };
                match (cur, inc) {
                    (Some(a), Some(Value::Integer(b))) => {
                        match binary_add::<F>(a, Value::Integer(b)) {
                            Ok(v) => {
                                globals_insert(&mut self.globals, sym.0, v);
                            },
                            Err(e) => {
                                return Err(e);
                            },
                        }
                    },
                    (None, _) => {
                        return Err(undefined_variable(&self.interner, sym));
                    },
                    _ => {
                        return Err(owned("IncrGlobalByConst: non-integer constant"));
                    },
                }
            },
            _ => {},
        }
        self.pc = next;
        proof {
            assert(self.frames_view() =~= s.frames_view());
            assert(self.output_view() =~= s.output_view());
        }
        Ok(false)
    }

    fn exec_unary(&mut self, op: Op) -> (r: Result<bool, String>)
        requires
            old(self).pc < old(self).code.instructions@.len(),
            op == old(self).code.instructions@[old(self).pc as int],
            op is UnaryNeg || op is UnaryNot || op is Len,
        ensures
            VM::step_spec(*old(self), *final(self), r),
    {
        let ghost s = *self;
        let v = match self.stack.pop() {
            Some(v) => v,
            None => {
                return Err(owned("stack underflow"));
            },
        };
        let res = match op {
            Op::UnaryNeg => unary_neg(&v),
            Op::UnaryNot => Ok(Value::Boolean(!v.is_truthy())),
            _ => length_of(&v),
        };
        match res {
            Ok(x) => {
                self.stack.push(x);
                self.pc = self.next_pc();
                proof {
                    assert(self.frames_view() =~= s.frames_view());
                    assert(self.output_view() =~= s.output_view());
                    assert(self.stack_view().drop_last() =~= s.stack_view().drop_last());
                }
                Ok(false)
            },
            Err(e) => Err(e),
        }
    }

    fn exec_binary<F: FloatOps>(&mut self, op: Op) -> (r: Result<bool, String>)
        requires
            old(self).pc < old(self).code.instructions@.len(),
            op == old(self).code.instructions@[old(self).pc as int],
            is_binary(op),
        ensures
            VM::step_spec(*old(self), *final(self), r),
    {
        let ghost s = *self;
        if self.stack.len() < 2 {
            return Err(owned("stack underflow"));
        }
        let right = match self.stack.pop() {
            Some(v) => v,
            None => Value::NoneVal,
        };
        let left = match self.stack.pop() {
            Some(v) => v,
            None => Value::NoneVal,
        };
        let res = match op {
            Op::BinaryAdd => binary_add::<F>(left, right),
            Op::BinarySub => binary_sub::<F>(&left, &right),
            Op::BinaryMul => binary_mul::<F>(&left, &right),
            Op::BinaryDiv => binary_div::<F>(&left, &right),
            Op::BinaryFloorDiv => binary_floor_div(&left, &right),
            Op::BinaryMod => binary_mod(&left, &right),
            Op::BinaryPow => binary_pow(&left, &right),
            Op::CompareEq => Ok(Value::Boolean(left.equals(&right))),
            Op::CompareNotEq => Ok(Value::Boolean(!left.equals(&right))),
            Op::CompareLt => Ok(Value::Boolean(values_less(&left, &right))),
            Op::CompareLtE => Ok(Value::Boolean(values_less_equal(&left, &right))),
            Op::CompareGt => Ok(Value::Boolean(values_less(&right, &left))),
            Op::CompareGtE => Ok(Value::Boolean(values_less_equal(&right, &left))),
            Op::CompareIn => compare_in(&left, &right),
            Op::CompareNotIn => compare_not_in(&left, &right),
            _ => subscript(&left, &right),
        };
        match res {
            Ok(x) => {
                self.stack.push(x);
                self.pc = self.next_pc();
                proof {
                    assert(self.frames_view() =~= s.frames_view());
                    assert(self.output_view() =~= s.output_view());
                    assert(self.stack@ =~= s.stack@.subrange(0, s.stack@.len() - 2).push(self.stack@.last()));
                }
                Ok(false)
            },
            Err(e) => Err(e),
        }
    }
}

} // verus!
