//! Instructions, code objects and runtime values of the bytecode VM.
use vstd::prelude::*;

use std::collections::HashMap;
use std::rc::Rc;

use crate::float::{float_eq, float_is_zero, eq_bits, is_zero_bits, FloatOps};
use crate::symbol::Symbol;
use crate::text::{decimal_digits, i64_text, int_text, owned, push_char, u64_text};

verus! {

broadcast use vstd::std_specs::vec::group_vec_axioms;

#[derive(Debug, Clone, Copy, PartialEq, Eq, Structural)]
pub enum Op {
    LoadConst(u16),
    LoadLocal(u16),
    StoreLocal(u16),
    LoadGlobal(Symbol),
    StoreGlobal(Symbol),
    BinaryAdd,
    BinarySub,
    BinaryMul,
    BinaryDiv,
    BinaryFloorDiv,
    BinaryMod,
    BinaryPow,
    CompareEq,
    CompareNotEq,
    CompareLt,
    CompareLtE,
    CompareGt,
    CompareGtE,
    CompareIn,
    CompareNotIn,
    UnaryNeg,
    UnaryNot,
    Jump(u32),
    PopJumpIfFalse(u32),
    JumpIfTrueOrPop(u32),
    JumpIfFalseOrPop(u32),
    Call(u8),
    Return,
    ReturnNone,
    BuildList(u16),
    BuildDict(u16),
    BinarySubscript,
    LoadAttr(Symbol),
    Len,
    ListAppend,
    // Superinstructions: fused hot-path sequences. For the compare-and-jump
    // forms, pair = (slot_a << 16) | slot_b_or_const.
    /// LoadLocal(slot) + LoadConst(idx) + BinaryAdd + StoreLocal(slot); hi16=slot, lo16=const
    IncrLocalByConst(u32),
    /// LoadLocal(a) + LoadLocal(b) + CompareLt + PopJumpIfFalse(target)
    LocalLtLocalJump(u32, u32),
    /// LoadLocal(s) + LoadConst(c) + CompareLtE + PopJumpIfFalse(target)
    LocalLtEConstJump(u32, u32),
    /// LoadLocal(a) + LoadLocal(b): pushes both
    LoadLocalPair(u32),
    /// LoadLocal(s) + LoadConst(c) + CompareLt + PopJumpIfFalse(target)
    LocalLtConstJump(u32, u32),
    /// LoadLocal(s) + LoadConst(c) + CompareGt + PopJumpIfFalse(target)
    LocalGtConstJump(u32, u32),
    /// LoadGlobal(s) + LoadConst(int) + BinaryAdd + StoreGlobal(s)
    IncrGlobalByConst(Symbol, u16),
    /// Like LoadGlobal but takes (removes) the value
    TakeGlobal(Symbol),
    /// LoadGlobal(func) + Call(argc) without pushing the function
    CallGlobal(Symbol, u8),
    Pop,
    Print(u8),
}

/// The packed form of two 16-bit operands: `a` in the high half, `b` in the
/// low half.
pub open spec fn packed(a: u16, b: u16) -> int {
    (a as u32) * 65536 + (b as u32)
}

impl Op {
    pub fn pack_pair(a: u16, b: u16) -> (r: u32)
        ensures
            r == packed(a, b),
    {
        assert(((a as u32) << 16u32 | (b as u32)) == (a as u32) * 65536 + (b as u32)) by (bit_vector);
        (a as u32) << 16 | (b as u32)
    }

    pub fn unpack_pair(packed: u32) -> (r: (u16, u16))
        ensures
            r.0 as u32 == packed / 65536,
            r.1 as u32 == packed % 65536,
    {
        assert((packed >> 16u32) as u16 as u32 == packed / 65536) by (bit_vector);
        assert(packed as u16 as u32 == packed % 65536) by (bit_vector);
        ((packed >> 16) as u16, packed as u16)
    }
}

/// The builtin functions of the Python subset.
#[derive(Debug, Clone, Copy, PartialEq, Eq, Structural)]
pub enum Builtin {
    Str,
    Int,
    Float,
    Bool,
    Len,
    Range,
    Repr,
    Abs,
    Min,
    Max,
    Sum,
}

#[derive(Debug)]
pub struct CodeObject {
    pub instructions: Vec<Op>,
    pub constants: Vec<Value>,
    pub num_locals: u16,
    /// Local variable slots, keyed by the symbol's id.
    pub local_slots: HashMap<u32, u16>,
}

#[derive(Debug)]
pub struct FunctionObj {
    pub name: Symbol,
    pub params: Vec<Symbol>,
    pub param_slots: Vec<u16>,
    pub code: Rc<CodeObject>,
}

/// A runtime value. A float is kept as its IEEE-754 bit pattern.
#[derive(Debug)]
pub enum Value {
    Integer(i64),
    Float(u64),
    String(Rc<String>),
    Boolean(bool),
    List(Rc<Vec<Value>>),
    Dict(Rc<Vec<(Value, Value)>>),
    NoneVal,
    Function(Rc<FunctionObj>),
    NativeFunction { name: Rc<String>, func: Builtin },
}

/// Python truthiness.
pub open spec fn truthy(v: Value) -> bool {
    match v {
        Value::Boolean(b) => b,
        Value::Integer(n) => n != 0,
        Value::Float(f) => !float_is_zero(f),
        Value::String(s) => s@.len() != 0,
        Value::List(l) => l@.len() != 0,
        Value::Dict(d) => d@.len() != 0,
        Value::NoneVal => false,
        Value::Function(_) => true,
        Value::NativeFunction { .. } => true,
    }
}

/// Equality of values as `==` computes it: numbers, strings, booleans and
/// `None` by value, lists element by element, native functions by name;
/// dicts and user functions are never equal.
pub open spec fn value_eq(a: Value, b: Value) -> bool
    decreases a, 1int,
{
    match a {
        Value::Integer(x) => b matches Value::Integer(y) && x == y,
        Value::Float(x) => b matches Value::Float(y) && float_eq(x, y),
        Value::String(x) => b matches Value::String(y) && x@ == y@,
        Value::Boolean(x) => b matches Value::Boolean(y) && x == y,
        Value::List(x) => b matches Value::List(y) && values_eq(x@, y@),
        Value::NativeFunction { name: x, .. } => b matches Value::NativeFunction { name: y, .. }
            && x@ == y@,
        Value::NoneVal => b is NoneVal,
        _ => false,
    }
}

/// Whether no float occurs in the value (their text comes from `FloatOps`).
pub open spec fn float_free(v: Value) -> bool
    decreases v, 2int,
{
    match v {
        Value::Float(_) => false,
        Value::List(x) => all_float_free(x@),
        Value::Dict(d) => pairs_float_free(d@),
        _ => true,
    }
}

pub open spec fn all_float_free(xs: Seq<Value>) -> bool
    decreases xs, 1int,
{
    xs.len() == 0 || (all_float_free(xs.subrange(0, xs.len() - 1)) && float_free(xs[xs.len() - 1]))
}

pub open spec fn pairs_float_free(ps: Seq<(Value, Value)>) -> bool
    decreases ps, 1int,
{
    ps.len() == 0 || (pairs_float_free(ps.subrange(0, ps.len() - 1)) && float_free(
        ps[ps.len() - 1].0,
    ) && float_free(ps[ps.len() - 1].1))
}

/// The text `print` shows for a value (for floats, see `FloatOps::to_text`).
pub open spec fn display_text(v: Value) -> Seq<char>
    decreases v, 2int,
{
    match v {
        Value::Integer(n) => int_text(n as int),
        Value::Float(_) => Seq::empty(),
        Value::String(s) => s@,
        Value::Boolean(b) => if b {
            "True"@
        } else {
            "False"@
        },
        Value::List(x) => "["@ + items_text(x@) + "]"@,
        Value::Dict(d) => "{"@ + pairs_text(d@) + "}"@,
        Value::NoneVal => "None"@,
        Value::Function(f) => "<function Symbol("@ + decimal_digits(f.name.0 as nat) + ")>"@,
        Value::NativeFunction { name, .. } => "<native:"@ + name@ + ">"@,
    }
}

/// Items of a list, separated by `, `; strings in single quotes.
pub open spec fn items_text(xs: Seq<Value>) -> Seq<char>
    decreases xs, 1int,
{
    if xs.len() == 0 {
        Seq::empty()
    } else {
        let init = xs.subrange(0, xs.len() - 1);
        let item = xs[xs.len() - 1];
        let sep = if xs.len() > 1 {
            ", "@
        } else {
            Seq::empty()
        };
        items_text(init) + sep + match item {
            Value::String(s) => "'"@ + s@ + "'"@,
            _ => display_text(item),
        }
    }
}

/// Entries of a dict as `key: value`, separated by `, `.
pub open spec fn pairs_text(ps: Seq<(Value, Value)>) -> Seq<char>
    decreases ps, 1int,
{
    if ps.len() == 0 {
        Seq::empty()
    } else {
        let init = ps.subrange(0, ps.len() - 1);
        let p = ps[ps.len() - 1];
        let sep = if ps.len() > 1 {
            ", "@
        } else {
            Seq::empty()
        };
        pairs_text(init) + sep + display_text(p.0) + ": "@ + display_text(p.1)
    }
}

/// Element-wise equality of two sequences of values.
pub open spec fn values_eq(xs: Seq<Value>, ys: Seq<Value>) -> bool
    decreases xs, 0int,
{
    xs.len() == ys.len() && (xs.len() == 0 || (value_eq(xs[0], ys[0]) && values_eq(
        xs.subrange(1, xs.len() as int),
        ys.subrange(1, ys.len() as int),
    )))
}

/// `values_eq` holds when the sequences have equal lengths and equal
/// elements at every position.
pub proof fn lemma_values_eq(xs: Seq<Value>, ys: Seq<Value>)
    ensures
        values_eq(xs, ys) <==> (xs.len() == ys.len() && forall|i: int|
            0 <= i < xs.len() ==> #[trigger] value_eq(xs[i], ys[i])),
    decreases xs.len(),
{
    if xs.len() == ys.len() && xs.len() > 0 {
        let xt = xs.subrange(1, xs.len() as int);
        let yt = ys.subrange(1, ys.len() as int);
        lemma_values_eq(xt, yt);
        if values_eq(xs, ys) {
            assert forall|i: int| 0 <= i < xs.len() implies #[trigger] value_eq(xs[i], ys[i]) by {
                if i > 0 {
                    assert(xt[i - 1] == xs[i]);
                    assert(yt[i - 1] == ys[i]);
                }
            }
        }
        if forall|i: int| 0 <= i < xs.len() ==> #[trigger] value_eq(xs[i], ys[i]) {
            assert forall|i: int| 0 <= i < xt.len() implies #[trigger] value_eq(xt[i], yt[i]) by {
                assert(value_eq(xs[i + 1], ys[i + 1]));
            }
            assert(value_eq(xs[0], ys[0]));
            assert(values_eq(xt, yt));
            assert(values_eq(xs, ys));
        }
    }
}

proof fn lemma_all_float_free_prefix(xs: Seq<Value>, k: int)
    requires
        0 <= k <= xs.len(),
        all_float_free(xs),
    ensures
        all_float_free(xs.subrange(0, k)),
        k > 0 ==> float_free(xs[k - 1]),
    decreases xs.len() - k,
{
    if k < xs.len() {
        lemma_all_float_free_prefix(xs, k + 1);
        let p = xs.subrange(0, k + 1);
        assert(p.subrange(0, p.len() - 1) =~= xs.subrange(0, k));
        assert(p[p.len() - 1] == xs[k]);
    } else {
        assert(xs.subrange(0, k) =~= xs);
    }
    if k > 0 {
        let q = xs.subrange(0, k);
        assert(q[q.len() - 1] == xs[k - 1]);
        assert(all_float_free(q));
        assert(float_free(q[q.len() - 1]));
    }
}

proof fn lemma_pairs_float_free_prefix(ps: Seq<(Value, Value)>, k: int)
    requires
        0 <= k <= ps.len(),
        pairs_float_free(ps),
    ensures
        pairs_float_free(ps.subrange(0, k)),
    decreases ps.len() - k,
{
    if k < ps.len() {
        lemma_pairs_float_free_prefix(ps, k + 1);
        let p = ps.subrange(0, k + 1);
        assert(p.subrange(0, p.len() - 1) =~= ps.subrange(0, k));
    } else {
        assert(ps.subrange(0, k) =~= ps);
    }
}

/// Trusted: calls `Rc::clone`; the contract claims the clone shares the
/// same contents.
#[verifier::external_body]
pub(crate) fn rc_clone<T>(r: &Rc<T>) -> (o: Rc<T>)
    ensures
        o == *r,
{
    Rc::clone(r)
}

impl Value {
    pub fn is_truthy(&self) -> (r: bool)
        ensures
            r == truthy(*self),
    {
        match self {
            Value::Boolean(b) => *b,
            Value::Integer(n) => *n != 0,
            Value::Float(f) => !is_zero_bits(*f),
            Value::String(s) => !s.as_str().is_empty(),
            Value::List(l) => l.len() != 0,
            Value::Dict(d) => d.len() != 0,
            Value::NoneVal => false,
            Value::Function(_) => true,
            Value::NativeFunction { .. } => true,
        }
    }

    /// A copy of the value; shared parts are shared.
    pub fn copy(&self) -> (r: Value)
        ensures
            r == *self,
    {
        match self {
            Value::Integer(n) => Value::Integer(*n),
            Value::Float(f) => Value::Float(*f),
            Value::String(s) => Value::String(rc_clone(s)),
            Value::Boolean(b) => Value::Boolean(*b),
            Value::List(l) => Value::List(rc_clone(l)),
            Value::Dict(pairs) => Value::Dict(rc_clone(pairs)),
            Value::NoneVal => Value::NoneVal,
            Value::Function(f) => Value::Function(rc_clone(f)),
            Value::NativeFunction { name, func } => Value::NativeFunction {
                name: rc_clone(name),
                func: *func,
            },
        }
    }

    /// The text `print` shows for the value; floats are rendered by `F`.
    pub fn to_text<F: FloatOps>(&self) -> (r: String)
        ensures
            float_free(*self) ==> r@ == display_text(*self),
            *self matches Value::Float(x) ==> call_ensures(F::to_text, (x,), r),
        decreases self,
    {
        match self {
            Value::Integer(n) => i64_text(*n),
            Value::Float(f) => F::to_text(*f),
            Value::String(s) => owned(s.as_str()),
            Value::Boolean(b) => if *b {
                owned("True")
            } else {
                owned("False")
            },
            Value::List(items) => {
                let mut out = owned("[");
                let mut i: usize = 0;
                while i < items.len()
                    invariant
                        *self == Value::List(*items),
                        i <= items@.len(),
                        all_float_free(items@) ==> out@ == "["@ + items_text(items@.subrange(0, i as int)),
                    decreases items@.len() - i,
                {
                    let ghost sv: Value = *self;
                    let ghost pre = items@.subrange(0, i as int);
                    let ghost next = items@.subrange(0, i + 1);
                    proof {
                        assert(sv->List_0@[i as int] == items@[i as int]);
                        assert(decreases_to!(sv => sv->List_0@[i as int]));
                        assert(next.subrange(0, next.len() - 1) =~= pre);
                        if all_float_free(items@) {
                            lemma_all_float_free_prefix(items@, i + 1);
                        }
                    }
                    if i > 0 {
                        out.append(", ");
                    }
                    match &items[i] {
                        Value::String(s) => {
                            out.append("'");
                            out.append(s.as_str());
                            out.append("'");
                        },
                        item => {
                            let t = item.to_text::<F>();
                            out.append(t.as_str());
                        },
                    }
                    proof {
                        if all_float_free(items@) {
                            assert(all_float_free(next));
                            assert(float_free(next[next.len() - 1]));
                            assert(out@ =~= "["@ + items_text(next));
                        }
                    }
                    i = i + 1;
                }
                out.append("]");
                proof {
                    assert(items@.subrange(0, items@.len() as int) =~= items@);
                }
                out
            },
            Value::Dict(pairs) => {
                let mut out = owned("{");
                let mut i: usize = 0;
                while i < pairs.len()
                    invariant
                        *self == Value::Dict(*pairs),
                        i <= pairs@.len(),
                        pairs_float_free(pairs@) ==> out@ == "{"@ + pairs_text(pairs@.subrange(0, i as int)),
                    decreases pairs@.len() - i,
                {
                    let ghost sv: Value = *self;
                    let ghost pre = pairs@.subrange(0, i as int);
                    let ghost next = pairs@.subrange(0, i + 1);
                    proof {
                        assert(sv->Dict_0@[i as int] == pairs@[i as int]);
                        assert(decreases_to!(sv => sv->Dict_0@[i as int]));
                        assert(decreases_to!(sv => sv->Dict_0@[i as int].0));
                        assert(decreases_to!(sv => sv->Dict_0@[i as int].1));
                        assert(next.subrange(0, next.len() - 1) =~= pre);
                        if pairs_float_free(pairs@) {
                            lemma_pairs_float_free_prefix(pairs@, i + 1);
                        }
                    }
                    if i > 0 {
                        out.append(", ");
                    }
                    let k = pairs[i].0.to_text::<F>();
                    let v = pairs[i].1.to_text::<F>();
                    out.append(k.as_str());
                    out.append(": ");
                    out.append(v.as_str());
                    proof {
                        if pairs_float_free(pairs@) {
                            assert(pairs_float_free(next));
                            assert(out@ =~= "{"@ + pairs_text(next));
                        }
                    }
                    i = i + 1;
                }
                out.append("}");
                proof {
                    assert(pairs@.subrange(0, pairs@.len() as int) =~= pairs@);
                }
                out
            },
            Value::NoneVal => owned("None"),
            Value::Function(f) => {
                let mut out = owned("<function Symbol(");
                let id = u64_text(f.name.0 as u64);
                out.append(id.as_str());
                out.append(")>");
                out
            },
            Value::NativeFunction { name, .. } => {
                let mut out = owned("<native:");
                out.append(name.as_str());
                out.append(">");
                out
            },
        }
    }

    /// `==` on values, as `value_eq` states.
    pub fn equals(&self, other: &Value) -> (r: bool)
        ensures
            r == value_eq(*self, *other),
        decreases self,
    {
        match self {
            Value::Integer(a) => match other {
                Value::Integer(b) => *a == *b,
                _ => false,
            },
            Value::Float(a) => match other {
                Value::Float(b) => eq_bits(*a, *b),
                _ => false,
            },
            Value::String(a) => match other {
                Value::String(b) => {
                    let r = **a == **b;
                    assert(r == value_eq(*self, *other));
                    r
                },
                _ => false,
            },
            Value::Boolean(a) => match other {
                Value::Boolean(b) => *a == *b,
                _ => false,
            },
            Value::List(a) => match other {
                Value::List(b) => {
                    if a.len() != b.len() {
                        return false;
                    }
                    let mut i: usize = 0;
                    proof {
                        lemma_values_eq(a@, b@);
                    }
                    while i < a.len()
                        invariant
                            values_eq(a@, b@) <==> (a@.len() == b@.len() && forall|j: int|
                                0 <= j < a@.len() ==> #[trigger] value_eq(a@[j], b@[j])),
                            *self == Value::List(*a),
                            *other == Value::List(*b),
                            i <= a@.len(),
                            a@.len() == b@.len(),
                            forall|j: int| 0 <= j < i ==> #[trigger] value_eq(a@[j], b@[j]),
                        decreases a@.len() - i,
                    {
                        proof {
                            let ghost sv: Value = *self;
                            assert(sv is List);
                            assert(sv->List_0@[i as int] == a@[i as int]);
                            assert(decreases_to!(sv => sv->List_0@[i as int]));
                        }
                        if !a[i].equals(&b[i]) {
                            return false;
                        }
                        i = i + 1;
                    }
                    true
                },
                _ => false,
            },
            Value::NativeFunction { name: a, .. } => match other {
                Value::NativeFunction { name: b, .. } => **a == **b,
                _ => false,
            },
            Value::NoneVal => match other {
                Value::NoneVal => true,
                _ => false,
            },
            _ => false,
        }
    }
}

} // verus!
