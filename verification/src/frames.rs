//! The operand stack discipline of a running machine. Every frame owns a
//! base on the shared operand stack. Above the base of the current frame
//! the stack holds at least what the depth annotation of its code asks at
//! the program counter; a saved frame gets back, above its own base, what it
//! needs to resume once the frame above it returns one value.
use vstd::prelude::*;

use crate::bytecode::{CodeObject, FunctionObj, Op, Value};
use crate::compiler::jump_target;
use crate::stack::{depth_ok_at, falls_through, next_depth, pops, pushes, safe_with, stack_safe, target_depth};
use crate::vm::VM;

verus! {

/// A consistent depth annotation of stack-safe code.
pub open spec fn ann_of(ins: Seq<Op>) -> Seq<int> {
    choose|ann: Seq<int>| safe_with(ins, ann)
}

/// A saved frame `f` with base `b`, below a frame with base `nb`: its code is
/// stack safe, it resumes inside its code or just past the end, and one
/// value on top of `nb` gives it the depth it resumes with.
pub open spec fn frame_ok(f: (CodeObject, usize, usize), b: int, nb: int) -> bool {
    let ins = f.0.instructions@;
    &&& stack_safe(ins)
    &&& f.1 <= ins.len()
    &&& b <= nb
    &&& b + ann_of(ins)[f.1 as int] <= nb + 1
}

/// The stack of `s` keeps the discipline with the frame bases `bases`: the
/// saved frames' from the outermost one, then the current frame's.
pub open spec fn stacked_with(s: VM, bases: Seq<int>) -> bool {
    let frames = s.frames_view();
    let k = frames.len() as int;
    let ins = s.code_view().instructions@;
    &&& bases.len() == k + 1
    &&& forall|i: int| 0 <= i <= k ==> 0 <= #[trigger] bases[i]
    &&& forall|i: int| 0 <= i < k ==> #[trigger] frame_ok(frames[i], bases[i], bases[i + 1])
    &&& stack_safe(ins)
    &&& s.pc_view() <= ins.len()
    &&& bases[k] <= s.stack_view().len()
    &&& bases[k] + ann_of(ins)[s.pc_view() as int] <= s.stack_view().len()
}

/// The stack of `s` keeps the discipline with some frame bases.
pub open spec fn stacked(s: VM) -> bool {
    exists|bases: Seq<int>| stacked_with(s, bases)
}

/// The function that the instruction at the program counter of `s` enters,
/// when it is a call of a function.
pub open spec fn callee(s: VM) -> Option<FunctionObj> {
    let ins = s.code_view().instructions@;
    let pc = s.pc_view() as int;
    let st = s.stack_view();
    let n = st.len() as int;
    if pc < ins.len() {
        match ins[pc] {
            Op::Call(argc) => if n >= argc + 1 && st[n - argc - 1] is Function {
                Some(*st[n - argc - 1]->Function_0)
            } else {
                None
            },
            Op::CallGlobal(sym, _) => if s.globals_view().contains_key(sym.0)
                && s.globals_view()[sym.0] is Function {
                Some(*s.globals_view()[sym.0]->Function_0)
            } else {
                None
            },
            _ => None,
        }
    } else {
        None
    }
}

/// The instruction at the program counter of `s` enters no function whose
/// code is not stack safe.
pub open spec fn enters_safe_code(s: VM) -> bool {
    callee(s) matches Some(f) ==> stack_safe(f.code.instructions@)
}

/// Every function that `v` holds, at any depth, has stack-safe code, and
/// every constant that such code loads holds only such functions.
pub open spec fn value_ok(v: Value) -> bool
    decreases v,
{
    match v {
        Value::Function(f) => {
            &&& stack_safe(f.code.instructions@)
            &&& forall|k: int|
                0 <= k < f.code.instructions@.len() ==> (#[trigger] f.code.instructions@[k] matches Op::LoadConst(c)
                    ==> ((c as int) < f.code.constants@.len() ==> value_ok(f.code.constants@[c as int])))
        },
        Value::List(items) => forall|i: int| 0 <= i < items@.len() ==> value_ok(#[trigger] items@[i]),
        Value::Dict(pairs) => forall|i: int|
            0 <= i < pairs@.len() ==> value_ok((#[trigger] pairs@[i]).0) && value_ok(pairs@[i].1),
        _ => true,
    }
}

/// Every constant the code loads holds only functions with code under the
/// discipline (`value_ok`).
pub open spec fn loads_ok(c: CodeObject) -> bool {
    forall|k: int|
        0 <= k < c.instructions@.len() ==> (#[trigger] c.instructions@[k] matches Op::LoadConst(i)
            ==> ((i as int) < c.constants@.len() ==> value_ok(c.constants@[i as int])))
}

/// The code is stack safe and loads only constants that satisfy `value_ok`.
pub open spec fn code_ok(c: CodeObject) -> bool {
    stack_safe(c.instructions@) && loads_ok(c)
}

/// Every value of the sequence satisfies `value_ok`.
pub open spec fn seq_ok(vs: Seq<Value>) -> bool {
    forall|i: int| 0 <= i < vs.len() ==> value_ok(#[trigger] vs[i])
}

/// Every value of the map satisfies `value_ok`.
pub open spec fn map_ok(m: Map<u32, Value>) -> bool {
    forall|k: u32| m.contains_key(k) ==> value_ok(#[trigger] m[k])
}

/// All values of the machine (operands, locals, globals) hold only functions
/// with code under the discipline, and so does the code of every frame.
pub open spec fn values_ok(s: VM) -> bool {
    &&& seq_ok(s.stack_view())
    &&& seq_ok(s.locals_view())
    &&& map_ok(s.globals_view())
    &&& code_ok(s.code_view())
    &&& forall|i: int| 0 <= i < s.frames_view().len() ==> code_ok(#[trigger] s.frames_view()[i].0)
}

/// A machine whose values hold only functions with safe code enters no
/// other code.
proof fn lemma_values_ok_enter(s: VM)
    requires
        values_ok(s),
    ensures
        enters_safe_code(s),
{
    let ins = s.code_view().instructions@;
    let pc = s.pc_view() as int;
    let st = s.stack_view();
    let n = st.len() as int;
    if pc < ins.len() {
        match ins[pc] {
            Op::Call(argc) => {
                if n >= argc + 1 {
                    assert(value_ok(st[n - argc - 1]));
                }
            },
            Op::CallGlobal(sym, _) => {
                if s.globals_view().contains_key(sym.0) {
                    assert(value_ok(s.globals_view()[sym.0]));
                }
            },
            _ => {},
        }
    }
}

proof fn lemma_ann(ins: Seq<Op>)
    requires
        stack_safe(ins),
    ensures
        safe_with(ins, ann_of(ins)),
{
}

/// What a step that neither calls nor returns does to the program counter
/// and the depth of the stack.
proof fn lemma_plain_step(s: VM, t: VM, op: Op)
    requires
        !(op is Call || op is CallGlobal || op is Return || op is ReturnNone),
        !VM::fails(s, op),
        VM::op_spec(s, t, op, false),
    ensures
        t.frames_view() == s.frames_view(),
        t.code_view() == s.code_view(),
        (falls_through(op) && t.pc_view() == s.pc_view() + 1
            && t.stack_view().len() >= s.stack_view().len() - pops(op) + pushes(op))
        || (jump_target(op) matches Some(tg) && t.pc_view() == tg
            && t.stack_view().len() >= target_depth(op, s.stack_view().len() as int)),
{
    match op {
        Op::LoadConst(_) => {},
        Op::LoadLocal(_) => {},
        Op::StoreLocal(_) => {},
        Op::LoadGlobal(_) => {},
        Op::StoreGlobal(_) => {},
        Op::BinaryAdd => {},
        Op::BinarySub => {},
        Op::BinaryMul => {},
        Op::BinaryDiv => {},
        Op::BinaryFloorDiv => {},
        Op::BinaryMod => {},
        Op::BinaryPow => {},
        Op::CompareEq => {},
        Op::CompareNotEq => {},
        Op::CompareLt => {},
        Op::CompareLtE => {},
        Op::CompareGt => {},
        Op::CompareGtE => {},
        Op::CompareIn => {},
        Op::CompareNotIn => {},
        Op::UnaryNeg => {},
        Op::UnaryNot => {},
        Op::Jump(_) => {},
        Op::PopJumpIfFalse(_) => {},
        Op::JumpIfTrueOrPop(_) => {},
        Op::JumpIfFalseOrPop(_) => {},
        Op::BuildList(_) => {},
        Op::BuildDict(_) => {},
        Op::BinarySubscript => {},
        Op::LoadAttr(_) => {},
        Op::Len => {},
        Op::ListAppend => {},
        Op::IncrLocalByConst(_) => {},
        Op::LocalLtLocalJump(_, _) => {},
        Op::LocalLtEConstJump(_, _) => {},
        Op::LoadLocalPair(_) => {},
        Op::LocalLtConstJump(_, _) => {},
        Op::LocalGtConstJump(_, _) => {},
        Op::IncrGlobalByConst(_, _) => {},
        Op::TakeGlobal(_) => {},
        Op::Pop => {},
        Op::Print(_) => {},
        _ => {},
    }
}

/// A step from the end of the code or by a return: the frame below takes
/// over with one more value on the stack than its base.
proof fn lemma_return_step(s: VM, t: VM, bases: Seq<int>)
    requires
        stacked_with(s, bases),
        s.frames_view().len() > 0,
        VM::returned(s, t, t.stack_view()),
        t.stack_view().len() >= bases[s.frames_view().len() as int] + 1,
    ensures
        stacked_with(t, bases.drop_last()),
{
    let k = s.frames_view().len() as int;
    let nb = bases.drop_last();
    let j = k - 1;
    assert(frame_ok(s.frames_view()[j], bases[j], bases[j + 1]));
    assert(t.frames_view() == s.frames_view().drop_last());
    assert forall|i: int| 0 <= i < k - 1 implies #[trigger] frame_ok(t.frames_view()[i], nb[i], nb[i + 1]) by {
        assert(frame_ok(s.frames_view()[i], bases[i], bases[i + 1]));
    }
    assert forall|i: int| 0 <= i <= k - 1 implies 0 <= #[trigger] nb[i] by {
        assert(0 <= bases[i]);
    }
}

/// A step that keeps the frame: its stack holds at least what the
/// annotation asks at the new program counter.
proof fn lemma_same_frame(s: VM, t: VM, bases: Seq<int>)
    requires
        stacked_with(s, bases),
        t.frames_view() == s.frames_view(),
        t.code_view() == s.code_view(),
        t.pc_view() <= s.code_view().instructions@.len(),
        bases[s.frames_view().len() as int] <= t.stack_view().len(),
        bases[s.frames_view().len() as int] + ann_of(s.code_view().instructions@)[t.pc_view() as int]
            <= t.stack_view().len(),
    ensures
        stacked_with(t, bases),
{
    let k = s.frames_view().len() as int;
    assert forall|i: int| 0 <= i < k implies #[trigger] frame_ok(t.frames_view()[i], bases[i], bases[i + 1]) by {
        assert(frame_ok(s.frames_view()[i], bases[i], bases[i + 1]));
    }
}

/// A call: the caller is saved to resume after the call, and the callee's
/// frame starts at the stack that remains.
proof fn lemma_call_step(s: VM, t: VM, bases: Seq<int>, f: FunctionObj, taken: int)
    requires
        stacked_with(s, bases),
        s.pc_view() < s.code_view().instructions@.len(),
        stack_safe(f.code.instructions@),
        t.code_view() == *f.code,
        t.pc_view() == 0,
        t.frames_view() == s.frames_view().push((s.code_view(), (s.pc_view() + 1) as usize, s.base_view())),
        t.stack_view().len() == s.stack_view().len() - taken,
        ({
            let ins = s.code_view().instructions@;
            let pc = s.pc_view() as int;
            let d = ann_of(ins)[pc];
            &&& d >= pops(ins[pc])
            &&& ann_of(ins)[pc + 1] <= next_depth(ins[pc], d)
            &&& pushes(ins[pc]) == 1
            &&& taken == pops(ins[pc])
        }),
    ensures
        stacked_with(t, bases.push(t.stack_view().len() as int)),
{
    let k = s.frames_view().len() as int;
    let nb = bases.push(t.stack_view().len() as int);
    lemma_ann(f.code.instructions@);
    assert forall|i: int| 0 <= i < k + 1 implies #[trigger] frame_ok(t.frames_view()[i], nb[i], nb[i + 1]) by {
        if i < k {
            assert(frame_ok(s.frames_view()[i], bases[i], bases[i + 1]));
        } else {
            // the saved program counter fits, as the code's length does
            assert(s.code_view().instructions.len() == s.code_view().instructions@.len());
        }
    }
    assert forall|i: int| 0 <= i <= k + 1 implies 0 <= #[trigger] nb[i] by {
        if i <= k {
            assert(0 <= bases[i]);
        }
    }
}

/// Each step that goes on keeps the stack discipline, provided that a call
/// enters stack-safe code.
pub proof fn law_step_keeps_stacked(s: VM, t: VM)
    requires
        stacked(s),
        enters_safe_code(s),
        VM::step_spec(s, t, Ok(false)),
    ensures
        stacked(t),
{
    let bases = choose|b: Seq<int>| stacked_with(s, b);
    let ins = s.code_view().instructions@;
    let pc = s.pc_view() as int;
    let k = s.frames_view().len() as int;
    let st = s.stack_view();
    let n = st.len() as int;
    lemma_ann(ins);
    let ann = ann_of(ins);
    if pc >= ins.len() {
        lemma_return_step(s, t, bases);
        assert(stacked_with(t, bases.drop_last()));
    } else {
        let op = ins[pc];
        assert(depth_ok_at(ins, ann, pc));
        match op {
            Op::Call(argc) => {
                if st[n - argc - 1] is Function {
                    let f = *st[n - argc - 1]->Function_0;
                    assert(callee(s) == Some(f));
                    lemma_call_step(s, t, bases, f, argc + 1);
                    assert(stacked_with(t, bases.push(t.stack_view().len() as int)));
                } else {
                    lemma_same_frame(s, t, bases);
                    assert(stacked_with(t, bases));
                }
            },
            Op::CallGlobal(sym, argc) => {
                if s.globals_view()[sym.0] is Function {
                    let f = *s.globals_view()[sym.0]->Function_0;
                    assert(callee(s) == Some(f));
                    lemma_call_step(s, t, bases, f, argc as int);
                    assert(stacked_with(t, bases.push(t.stack_view().len() as int)));
                } else {
                    lemma_same_frame(s, t, bases);
                    assert(stacked_with(t, bases));
                }
            },
            Op::Return => {
                lemma_return_step(s, t, bases);
                assert(stacked_with(t, bases.drop_last()));
            },
            Op::ReturnNone => {
                lemma_return_step(s, t, bases);
                assert(stacked_with(t, bases.drop_last()));
            },
            _ => {
                lemma_plain_step(s, t, op);
                lemma_same_frame(s, t, bases);
                assert(stacked_with(t, bases));
            },
        }
    }
}

/// Under the discipline no instruction takes more values than the stack
/// holds.
pub proof fn law_stacked_finds_operands(s: VM)
    requires
        stacked(s),
        s.pc_view() < s.code_view().instructions@.len(),
    ensures
        s.stack_view().len() >= pops(s.code_view().instructions@[s.pc_view() as int]),
{
    let bases = choose|b: Seq<int>| stacked_with(s, b);
    let ins = s.code_view().instructions@;
    let k = s.frames_view().len() as int;
    lemma_ann(ins);
    assert(depth_ok_at(ins, ann_of(ins), s.pc_view() as int));
    assert(0 <= bases[k]);
}

/// Loading stack-safe code into a machine with no saved frame starts the
/// discipline, whatever the stack holds.
pub proof fn law_loaded_stacked(s: VM, code: CodeObject, start: VM)
    requires
        VM::loaded(s, code, start),
        s.frames_view().len() == 0,
        stack_safe(code.instructions@),
    ensures
        stacked(start),
{
    let bases = seq![start.stack_view().len() as int];
    lemma_ann(code.instructions@);
    assert(stacked_with(start, bases));
}

/// Along a run of steps from a state under the discipline whose values hold
/// only functions with code under it (`values_ok`), every state keeps both,
/// and so every instruction finds the values it takes.
pub proof fn law_run_finds_operands(trace: Seq<VM>)
    requires
        trace.len() > 0,
        VM::is_trace(trace),
        stacked(trace[0]),
        values_ok(trace[0]),
    ensures
        forall|i: int| 0 <= i < trace.len() ==> stacked(#[trigger] trace[i]) && values_ok(trace[i]),
        forall|i: int|
            0 <= i < trace.len() && trace[i].pc_view() < trace[i].code_view().instructions@.len()
                ==> #[trigger] trace[i].stack_view().len() >= pops(
                trace[i].code_view().instructions@[trace[i].pc_view() as int],
            ),
    decreases trace.len(),
{
    if trace.len() > 1 {
        let front = trace.drop_last();
        assert forall|i: int| 0 <= i < front.len() - 1 implies #[trigger] VM::step_spec(
            front[i],
            front[i + 1],
            Ok(false),
        ) by {
            assert(VM::step_spec(trace[i], trace[i + 1], Ok(false)));
        }
        law_run_finds_operands(front);
        let j = trace.len() - 2;
        assert(stacked(front[j]) && values_ok(front[j]));
        assert(VM::step_spec(trace[j], trace[j + 1], Ok(false)));
        lemma_values_ok_enter(trace[j]);
        law_step_keeps_stacked(trace[j], trace[j + 1]);
        law_step_keeps_values_ok(trace[j], trace[j + 1]);
        assert forall|i: int| 0 <= i < trace.len() implies stacked(#[trigger] trace[i]) && values_ok(trace[i]) by {
            if i < trace.len() - 1 {
                assert(stacked(front[i]) && values_ok(front[i]));
            }
        }
    }
    assert forall|i: int|
        0 <= i < trace.len() && trace[i].pc_view() < trace[i].code_view().instructions@.len()
            implies #[trigger] trace[i].stack_view().len() >= pops(
            trace[i].code_view().instructions@[trace[i].pc_view() as int],
        ) by {
        law_stacked_finds_operands(trace[i]);
    }
}

/// Loading code into a machine with no saved frame keeps `values_ok` when
/// the machine's values and the code satisfy it.
pub proof fn law_loaded_values_ok(s: VM, code: CodeObject, start: VM)
    requires
        VM::loaded(s, code, start),
        s.frames_view().len() == 0,
        seq_ok(s.stack_view()),
        seq_ok(s.locals_view()),
        map_ok(s.globals_view()),
        code_ok(code),
    ensures
        values_ok(start),
{
    let fresh = crate::vm::fresh_locals(code.num_locals as nat);
    assert(seq_ok(fresh)) by {
        assert forall|i: int| 0 <= i < fresh.len() implies value_ok(#[trigger] fresh[i]) by {
            assert(fresh[i] == Value::NoneVal);
        }
    }
    lemma_seq_ok_concat(s.locals_view(), fresh);
    assert forall|k: int| 0 <= k < start.code_view().instructions@.len() implies (
    #[trigger] start.code_view().instructions@[k] matches Op::LoadConst(i) ==> ((i as int)
        < start.code_view().constants@.len() ==> value_ok(start.code_view().constants@[i as int]))) by {
        assert(code.instructions@[k] == start.code_view().instructions@[k]);
    }
}

proof fn lemma_seq_ok_push(vs: Seq<Value>, v: Value)
    requires
        seq_ok(vs),
        value_ok(v),
    ensures
        seq_ok(vs.push(v)),
{
    assert forall|i: int| 0 <= i < vs.push(v).len() implies value_ok(#[trigger] vs.push(v)[i]) by {
        if i < vs.len() {
            assert(value_ok(vs[i]));
        }
    }
}

proof fn lemma_seq_ok_subrange(vs: Seq<Value>, a: int, b: int)
    requires
        seq_ok(vs),
        0 <= a <= b <= vs.len(),
    ensures
        seq_ok(vs.subrange(a, b)),
{
    assert forall|i: int| 0 <= i < vs.subrange(a, b).len() implies value_ok(#[trigger] vs.subrange(a, b)[i]) by {
        assert(value_ok(vs[a + i]));
    }
}

proof fn lemma_seq_ok_update(vs: Seq<Value>, k: int, v: Value)
    requires
        seq_ok(vs),
        value_ok(v),
        0 <= k < vs.len(),
    ensures
        seq_ok(vs.update(k, v)),
{
    assert forall|i: int| 0 <= i < vs.update(k, v).len() implies value_ok(#[trigger] vs.update(k, v)[i]) by {
        if i != k {
            assert(value_ok(vs[i]));
        }
    }
}

proof fn lemma_seq_ok_concat(a: Seq<Value>, b: Seq<Value>)
    requires
        seq_ok(a),
        seq_ok(b),
    ensures
        seq_ok(a + b),
{
    assert forall|i: int| 0 <= i < (a + b).len() implies value_ok(#[trigger] (a + b)[i]) by {
        if i < a.len() {
            assert(value_ok(a[i]));
        } else {
            assert(value_ok(b[i - a.len()]));
        }
    }
}

proof fn lemma_bind_ok(locals: Seq<Value>, base: int, slots: Seq<u16>, args: Seq<Value>)
    requires
        seq_ok(locals),
        seq_ok(args),
        forall|i: int| 0 <= i < args.len() ==> 0 <= base + #[trigger] slots[i] < locals.len(),
    ensures
        seq_ok(crate::vm::bind_args(locals, base, slots, args)),
        crate::vm::bind_args(locals, base, slots, args).len() == locals.len(),
    decreases args.len(),
{
    if args.len() > 0 {
        lemma_seq_ok_subrange(args, 0, args.len() - 1);
        assert(args.drop_last() == args.subrange(0, args.len() - 1));
        lemma_bind_ok(locals, base, slots, args.drop_last());
        assert(value_ok(args[args.len() - 1]));
        assert(0 <= base + slots[args.len() - 1] < locals.len());
        lemma_seq_ok_update(
            crate::vm::bind_args(locals, base, slots, args.drop_last()),
            base + slots[args.len() - 1],
            args.last(),
        );
    }
}

proof fn lemma_map_ok_insert(m: Map<u32, Value>, k: u32, v: Value)
    requires
        map_ok(m),
        value_ok(v),
    ensures
        map_ok(m.insert(k, v)),
{
    assert forall|j: u32| m.insert(k, v).contains_key(j) implies value_ok(#[trigger] m.insert(k, v)[j]) by {
        if j != k {
            assert(value_ok(m[j]));
        }
    }
}

proof fn lemma_map_ok_remove(m: Map<u32, Value>, k: u32)
    requires
        map_ok(m),
    ensures
        map_ok(m.remove(k)),
{
    assert forall|j: u32| m.remove(k).contains_key(j) implies value_ok(#[trigger] m.remove(k)[j]) by {
        assert(value_ok(m[j]));
    }
}

/// A step inside the same frame keeps the invariant when the values it
/// leaves do.
proof fn lemma_same_code_ok(s: VM, t: VM)
    requires
        values_ok(s),
        t.code_view() == s.code_view(),
        t.frames_view() == s.frames_view(),
        seq_ok(t.stack_view()),
        seq_ok(t.locals_view()),
        map_ok(t.globals_view()),
    ensures
        values_ok(t),
{
}

/// A return to the frame below keeps the invariant.
proof fn lemma_returned_ok(s: VM, t: VM)
    requires
        values_ok(s),
        VM::returned(s, t, t.stack_view()),
        seq_ok(t.stack_view()),
    ensures
        values_ok(t),
{
    let k = s.frames_view().len() as int;
    assert(code_ok(s.frames_view()[k - 1].0));
    if s.base_view() <= s.locals_view().len() {
        lemma_seq_ok_subrange(s.locals_view(), 0, s.base_view() as int);
    }
    assert forall|i: int| 0 <= i < t.frames_view().len() implies code_ok(#[trigger] t.frames_view()[i].0) by {
        assert(code_ok(s.frames_view()[i].0));
    }
}

/// A call keeps the invariant when the callee's code satisfies `code_ok`.
proof fn lemma_call_ok(s: VM, t: VM, f: FunctionObj, argc: int, keep: int)
    requires
        values_ok(s),
        code_ok(*f.code),
        0 <= argc,
        0 <= keep <= s.stack_view().len() - argc,
        VM::can_bind(f, argc as nat),
        VM::entered(
            s,
            t,
            f,
            s.stack_view().subrange(s.stack_view().len() - argc, s.stack_view().len() as int),
            s.stack_view().subrange(0, keep),
        ),
    ensures
        values_ok(t),
{
    let st = s.stack_view();
    let n = st.len() as int;
    let args = st.subrange(n - argc, n);
    let base = s.locals_view().len() as int;
    let fresh = crate::vm::fresh_locals(f.code.num_locals as nat);
    lemma_seq_ok_subrange(st, n - argc, n);
    lemma_seq_ok_subrange(st, 0, keep);
    assert(seq_ok(fresh)) by {
        assert forall|i: int| 0 <= i < fresh.len() implies value_ok(#[trigger] fresh[i]) by {
            assert(fresh[i] == Value::NoneVal);
        }
    }
    lemma_seq_ok_concat(s.locals_view(), fresh);
    assert forall|i: int| 0 <= i < args.len() implies 0 <= base + #[trigger] f.param_slots@[i] < (s.locals_view()
        + fresh).len() by {
        assert(f.param_slots@[i] < f.code.num_locals);
    }
    lemma_bind_ok(s.locals_view() + fresh, base, f.param_slots@, args);
    assert forall|i: int| 0 <= i < t.frames_view().len() implies code_ok(#[trigger] t.frames_view()[i].0) by {
        if i < s.frames_view().len() {
            assert(code_ok(s.frames_view()[i].0));
        }
    }
}

/// An element of the items `extreme_call` picks from satisfies `value_ok`.
proof fn lemma_extreme_ok(args: Seq<Value>, v: Value, want_max: bool)
    requires
        seq_ok(args),
        crate::builtins::extreme_call(args, Ok(v), want_max),
    ensures
        value_ok(v),
{
    let items = if args.len() == 1 && args[0] is List {
        (*args[0]->List_0)@
    } else {
        args
    };
    assert(items.contains(v));
    let k = choose|k: int| 0 <= k < items.len() && items[k] == v;
    if args.len() == 1 && args[0] is List {
        assert(value_ok(args[0]));
        assert(value_ok((*args[0]->List_0)@[k]));
    } else {
        assert(value_ok(args[k]));
    }
}

/// What a builtin returns holds only functions found among its arguments.
proof fn lemma_builtin_ok(func: crate::bytecode::Builtin, args: Seq<Value>, v: Value)
    requires
        seq_ok(args),
        crate::builtins::builtin_spec(func, args, Ok(v)),
    ensures
        value_ok(v),
{
    match func {
        crate::bytecode::Builtin::Min => lemma_extreme_ok(args, v, false),
        crate::bytecode::Builtin::Max => lemma_extreme_ok(args, v, true),
        crate::bytecode::Builtin::Range => {
            let items = v->List_0;
            assert forall|i: int| 0 <= i < items@.len() implies value_ok(#[trigger] items@[i]) by {
                assert(items@[i] is Integer);
            }
        },
        _ => {},
    }
}

proof fn lemma_binary_ok(op: Op, l: Value, r: Value, v: Value)
    requires
        value_ok(l),
        value_ok(r),
        crate::vm::binary_result(op, l, r, Ok(v)),
    ensures
        value_ok(v),
{
    match (l, r) {
        (Value::List(a), Value::List(b)) => {
            if op is BinaryAdd {
                let x = v->List_0;
                assert forall|i: int| 0 <= i < x@.len() implies value_ok(#[trigger] x@[i]) by {
                    if i < a@.len() {
                        assert(value_ok(a@[i]));
                    } else {
                        assert(value_ok(b@[i - a@.len()]));
                    }
                }
            }
        },
        (Value::List(items), Value::Integer(i)) => {
            if op is BinarySubscript {
                let k = crate::ops::index_position(i, items@.len() as usize);
                assert(value_ok(items@[k as int]));
            }
        },
        _ => {},
    }
}

/// The values a step leaves satisfy `value_ok` when those it starts from do.
pub proof fn law_step_keeps_values_ok(s: VM, t: VM)
    requires
        values_ok(s),
        VM::step_spec(s, t, Ok(false)),
    ensures
        values_ok(t),
{
    let ins = s.code_view().instructions@;
    let pc = s.pc_view() as int;
    let st = s.stack_view();
    let n = st.len() as int;
    let none = Value::NoneVal;
    assert(value_ok(none));
    if pc >= ins.len() {
        lemma_seq_ok_push(st, none);
        lemma_returned_ok(s, t);
    } else {
        let op = ins[pc];
        match op {
            Op::LoadConst(i) => {
                assert(code_ok(s.code_view()));
                assert(ins[pc] matches Op::LoadConst(c) ==> ((c as int) < s.code_view().constants@.len()
                    ==> value_ok(s.code_view().constants@[c as int])));
                lemma_seq_ok_push(st, s.code_view().constants@[i as int]);
                lemma_same_code_ok(s, t);
            },
            Op::LoadLocal(slot) => {
                assert(value_ok(s.locals_view()[s.base_view() + slot]));
                lemma_seq_ok_push(st, s.locals_view()[s.base_view() + slot]);
                lemma_same_code_ok(s, t);
            },
            Op::StoreLocal(slot) => {
                assert(value_ok(st[n - 1]));
                lemma_seq_ok_subrange(st, 0, n - 1);
                assert(st.drop_last() == st.subrange(0, n - 1));
                lemma_seq_ok_update(s.locals_view(), s.base_view() + slot, st.last());
                lemma_same_code_ok(s, t);
            },
            Op::LoadGlobal(sym) => {
                assert(value_ok(s.globals_view()[sym.0]));
                lemma_seq_ok_push(st, s.globals_view()[sym.0]);
                lemma_same_code_ok(s, t);
            },
            Op::StoreGlobal(sym) => {
                assert(value_ok(st[n - 1]));
                lemma_seq_ok_subrange(st, 0, n - 1);
                assert(st.drop_last() == st.subrange(0, n - 1));
                lemma_map_ok_insert(s.globals_view(), sym.0, st.last());
                lemma_same_code_ok(s, t);
            },
            Op::TakeGlobal(sym) => {
                assert(value_ok(s.globals_view()[sym.0]));
                lemma_seq_ok_push(st, s.globals_view()[sym.0]);
                lemma_map_ok_remove(s.globals_view(), sym.0);
                lemma_same_code_ok(s, t);
            },
            Op::IncrGlobalByConst(sym, c) => {
                let g = s.globals_view();
                assert(value_ok(g[sym.0]));
                let cv = s.code_view().constants@[c as int];
                assert(cv is Integer);
                lemma_binary_ok(Op::BinaryAdd, g[sym.0], cv, t.globals_view()[sym.0]);
                lemma_map_ok_insert(g, sym.0, t.globals_view()[sym.0]);
                lemma_same_code_ok(s, t);
            },
            Op::Call(argc) => {
                let fv = st[n - argc - 1];
                if fv is Function {
                    assert(value_ok(fv));
                    let f = *fv->Function_0;
                    assert(code_ok(*f.code));
                    lemma_call_ok(s, t, f, argc as int, n - argc - 1);
                } else {
                    lemma_seq_ok_subrange(st, n - argc, n);
                    lemma_builtin_ok(fv->func, st.subrange(n - argc, n), t.stack_view().last());
                    lemma_seq_ok_subrange(st, 0, n - argc - 1);
                    lemma_seq_ok_push(st.subrange(0, n - argc - 1), t.stack_view().last());
                    lemma_same_code_ok(s, t);
                }
            },
            Op::CallGlobal(sym, argc) => {
                let fv = s.globals_view()[sym.0];
                if fv is Function {
                    assert(value_ok(fv));
                    let f = *fv->Function_0;
                    assert(code_ok(*f.code));
                    lemma_call_ok(s, t, f, argc as int, n - argc);
                } else {
                    lemma_seq_ok_subrange(st, n - argc, n);
                    lemma_builtin_ok(fv->func, st.subrange(n - argc, n), t.stack_view().last());
                    lemma_seq_ok_subrange(st, 0, n - argc);
                    lemma_seq_ok_push(st.subrange(0, n - argc), t.stack_view().last());
                    lemma_same_code_ok(s, t);
                }
            },
            Op::Return => {
                lemma_returned_ok(s, t);
            },
            Op::ReturnNone => {
                lemma_seq_ok_push(st, none);
                lemma_returned_ok(s, t);
            },
            Op::BuildList(k) => {
                lemma_seq_ok_subrange(st, n - k, n);
                lemma_seq_ok_subrange(st, 0, n - k);
                lemma_seq_ok_push(st.subrange(0, n - k), t.stack_view().last());
                lemma_same_code_ok(s, t);
            },
            Op::BuildDict(k) => {
                let flat = st.subrange(n - 2 * k, n);
                lemma_seq_ok_subrange(st, n - 2 * k, n);
                let ps = crate::vm::pairs_of(flat);
                assert forall|i: int| 0 <= i < ps.len() implies value_ok((#[trigger] ps[i]).0) && value_ok(
                    ps[i].1,
                ) by {
                    assert(value_ok(flat[2 * i]));
                    assert(value_ok(flat[2 * i + 1]));
                }
                lemma_seq_ok_subrange(st, 0, n - 2 * k);
                lemma_seq_ok_push(st.subrange(0, n - 2 * k), t.stack_view().last());
                lemma_same_code_ok(s, t);
            },
            Op::ListAppend => {
                let old_list = st[n - 2];
                assert(value_ok(old_list));
                assert(value_ok(st[n - 1]));
                let items = (*old_list->List_0)@;
                assert forall|i: int| 0 <= i < items.push(st[n - 1]).len() implies value_ok(
                    #[trigger] items.push(st[n - 1])[i],
                ) by {
                    if i < items.len() {
                        assert(value_ok(items[i]));
                    }
                }
                lemma_seq_ok_subrange(st, 0, n - 2);
                lemma_seq_ok_push(st.subrange(0, n - 2), t.stack_view().last());
                lemma_same_code_ok(s, t);
            },
            Op::IncrLocalByConst(p) => {
                let idx = s.base_view() + (p / 65536) as int;
                let cur = s.locals_view()[idx];
                assert(value_ok(cur));
                let cv = s.code_view().constants@[(p % 65536) as int];
                assert(cv is Integer);
                lemma_binary_ok(Op::BinaryAdd, cur, cv, t.locals_view()[idx]);
                lemma_seq_ok_update(s.locals_view(), idx, t.locals_view()[idx]);
                lemma_same_code_ok(s, t);
            },
            Op::LoadLocalPair(p) => {
                let a = s.locals_view()[s.base_view() + (p / 65536) as int];
                let b = s.locals_view()[s.base_view() + (p % 65536) as int];
                assert(value_ok(a));
                assert(value_ok(b));
                lemma_seq_ok_push(st, a);
                lemma_seq_ok_push(st.push(a), b);
                lemma_same_code_ok(s, t);
            },
            Op::Print(k) => {
                lemma_seq_ok_subrange(st, 0, n - k);
                lemma_same_code_ok(s, t);
            },
            _ => {
                if crate::vm::is_binary(op) {
                    assert(value_ok(st[n - 2]));
                    assert(value_ok(st[n - 1]));
                    lemma_binary_ok(op, st[n - 2], st[n - 1], t.stack_view().last());
                    lemma_seq_ok_subrange(st, 0, n - 2);
                    lemma_seq_ok_push(st.subrange(0, n - 2), t.stack_view().last());
                } else if crate::vm::is_unary(op) || op is LoadAttr {
                    lemma_seq_ok_subrange(st, 0, n - 1);
                    assert(st.drop_last() == st.subrange(0, n - 1));
                    lemma_seq_ok_push(st.drop_last(), t.stack_view().last());
                } else if n > 0 {
                    lemma_seq_ok_subrange(st, 0, n - 1);
                    assert(st.drop_last() == st.subrange(0, n - 1));
                }
                lemma_same_code_ok(s, t);
            },
        }
    }
}

} // verus!
