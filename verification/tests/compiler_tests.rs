use viper::bytecode::{CodeObject, Op, Value};
use viper::compiler::{check_block, compile_module};
use viper::float::FloatOps;
use viper::lexer::Lexer;
use viper::parser::Parser;
use viper::symbol::{Interner, Symbol};

struct Bits;

impl FloatOps for Bits {
    fn from_literal(text: &str) -> u64 {
        text.parse::<f64>().unwrap_or(0.0).to_bits()
    }
    fn parse(text: &str) -> Option<u64> {
        text.parse::<f64>().ok().map(|f| f.to_bits())
    }
    fn from_int(n: i64) -> u64 {
        (n as f64).to_bits()
    }
    fn to_int(x: u64) -> i64 {
        f64::from_bits(x) as i64
    }
    fn add(a: u64, b: u64) -> u64 {
        (f64::from_bits(a) + f64::from_bits(b)).to_bits()
    }
    fn sub(a: u64, b: u64) -> u64 {
        (f64::from_bits(a) - f64::from_bits(b)).to_bits()
    }
    fn mul(a: u64, b: u64) -> u64 {
        (f64::from_bits(a) * f64::from_bits(b)).to_bits()
    }
    fn div(a: u64, b: u64) -> u64 {
        (f64::from_bits(a) / f64::from_bits(b)).to_bits()
    }
    fn to_text(x: u64) -> String {
        format!("{}", f64::from_bits(x))
    }
}

fn compile(code: &str) -> (CodeObject, Interner) {
    let mut interner = Interner::new();
    let tokens = Lexer::new(code).tokenize().unwrap();
    let stmts = Parser::new(tokens).parse(&mut interner).unwrap();
    assert!(check_block(&stmts, false));
    let code_obj = compile_module::<Bits>(&stmts, &mut interner);
    (code_obj, interner)
}

fn int_const(v: &Value) -> i64 {
    match v {
        Value::Integer(n) => *n,
        _ => panic!("not an integer constant"),
    }
}

#[test]
fn compiler_emits_operands_then_operator() {
    let (code, interner) = compile("x = 1 + 2 * 3\n");
    let x = Symbol(0);
    assert_eq!(interner.resolve(x), "x");
    assert_eq!(
        code.instructions,
        vec![
            Op::LoadConst(0),
            Op::LoadConst(1),
            Op::LoadConst(2),
            Op::BinaryMul,
            Op::BinaryAdd,
            Op::StoreGlobal(x),
        ]
    );
    let values: Vec<i64> = code.constants.iter().map(int_const).collect();
    assert_eq!(values, vec![1, 2, 3]);
    assert_eq!(code.num_locals, 0);
}

#[test]
fn compiler_shares_equal_integer_constants() {
    let (code, _) = compile("a = 7\nb = 7\nc = 8\n");
    let values: Vec<i64> = code.constants.iter().map(int_const).collect();
    assert_eq!(values, vec![7, 8]);
    assert_eq!(code.instructions[0], Op::LoadConst(0));
    assert_eq!(code.instructions[2], Op::LoadConst(0));
    assert_eq!(code.instructions[4], Op::LoadConst(1));
}

#[test]
fn compiler_jumps_past_the_right_operand_of_and() {
    let (code, _) = compile("y = a and b\n");
    let a = Symbol(1);
    let b = Symbol(2);
    assert_eq!(
        code.instructions,
        vec![Op::LoadGlobal(a), Op::JumpIfFalseOrPop(3), Op::LoadGlobal(b), Op::StoreGlobal(Symbol(0))]
    );
}

#[test]
fn compiler_fuses_a_global_increment_in_a_loop() {
    let (code, _) = compile("i = 0\nwhile i < 10:\n    i = i + 1\n");
    let i = Symbol(0);
    assert_eq!(
        code.instructions,
        vec![
            Op::LoadConst(0),
            Op::StoreGlobal(i),
            Op::LoadGlobal(i),
            Op::LoadConst(1),
            Op::CompareLt,
            Op::PopJumpIfFalse(8),
            Op::IncrGlobalByConst(i, 2),
            Op::Jump(2),
        ]
    );
    let values: Vec<i64> = code.constants.iter().map(int_const).collect();
    assert_eq!(values, vec![0, 10, 1]);
}

#[test]
fn compiler_for_loop_uses_two_hidden_slots() {
    let (code, _) = compile("for x in [5]:\n    print(x)\n");
    assert_eq!(code.num_locals, 2);
    let x = Symbol(0);
    assert_eq!(
        code.instructions,
        vec![
            Op::LoadConst(0),
            Op::BuildList(1),
            Op::StoreLocal(0),
            Op::LoadConst(1),
            Op::StoreLocal(1),
            Op::IncrLocalByConst(65538),
            Op::LoadLocalPair(65536),
            Op::Len,
            Op::CompareLt,
            Op::PopJumpIfFalse(16),
            Op::LoadLocalPair(1),
            Op::BinarySubscript,
            Op::StoreGlobal(x),
            Op::LoadGlobal(x),
            Op::Print(1),
            Op::Jump(5),
        ]
    );
    assert!(matches!(code.constants[1], Value::Integer(-1)));
    assert!(matches!(code.constants[2], Value::Integer(1)));
}

#[test]
fn compiler_function_body_uses_local_slots_and_superinstructions() {
    let (code, _) = compile("def f(n):\n    i = 0\n    while i < n:\n        i = i + 1\n    return i\n");
    assert_eq!(code.instructions.len(), 2);
    assert_eq!(code.instructions[0], Op::LoadConst(0));
    assert_eq!(code.instructions[1], Op::StoreGlobal(Symbol(0)));
    let f = match &code.constants[0] {
        Value::Function(f) => f.clone(),
        _ => panic!("not a function"),
    };
    assert_eq!(f.params, vec![Symbol(1)]);
    assert_eq!(f.param_slots, vec![0]);
    let body = &f.code;
    assert_eq!(body.num_locals, 2);
    assert_eq!(
        body.instructions,
        vec![
            Op::LoadConst(0),
            Op::StoreLocal(1),
            Op::LocalLtLocalJump(65536, 5),
            Op::IncrLocalByConst(65537),
            Op::Jump(2),
            Op::LoadLocal(1),
            Op::Return,
            Op::ReturnNone,
        ]
    );
}

#[test]
fn compiler_takes_a_global_for_string_appends_and_pools_the_literal_once() {
    let (code, _) = compile("x = x + \"a\"\n");
    let x = Symbol(0);
    assert_eq!(code.instructions, vec![Op::TakeGlobal(x), Op::LoadConst(0), Op::BinaryAdd, Op::StoreGlobal(x)]);
    assert_eq!(code.constants.len(), 1);
    assert!(matches!(&code.constants[0], Value::String(s) if s.as_str() == "a"));
}

#[test]
fn compiler_pool_follows_first_loads() {
    let (code, _) = compile("y = 7\nz = \"s\"\nw = 7 + 2\n");
    assert_eq!(code.constants.len(), 3);
    assert_eq!(int_const(&code.constants[0]), 7);
    assert!(matches!(&code.constants[1], Value::String(s) if s.as_str() == "s"));
    assert_eq!(int_const(&code.constants[2]), 2);
}
