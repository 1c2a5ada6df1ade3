use std::rc::Rc;

use viper::bench_programs::{
    gen_arithmetic_heavy, gen_deep_nesting, gen_heavy_branching, gen_iterative_fib,
    gen_large_token_stream, gen_list_build_and_sum, gen_many_function_calls, gen_many_variables,
    gen_nested_loops, gen_recursive_fib, gen_string_concat,
};
use viper::builtins::{
    as_int, parse_i64, register_python_builtins_vm, trim_text, vm_abs, vm_bool, vm_float, vm_int,
    vm_len, vm_max, vm_min, vm_range, vm_repr, vm_str, vm_sum,
};
use viper::bytecode::Value;
use viper::compiler::{check_block, compile_module};
use viper::float::FloatOps;
use viper::lexer::Lexer;
use viper::parser::Parser;
use viper::symbol::{Interner, Symbol};
use viper::vm::VM;

struct F64;

impl FloatOps for F64 {
    fn from_literal(text: &str) -> u64 {
        text.parse::<f64>().unwrap_or(0.0).to_bits()
    }
    fn parse(text: &str) -> Option<u64> {
        text.parse::<f64>().ok().map(|f| f.to_bits())
    }
    fn from_int(n: i64) -> u64 {
        (n as f64).to_bits()
    }
    fn to_int(x: u64) -> i64 {
        f64::from_bits(x) as i64
    }
    fn add(a: u64, b: u64) -> u64 {
        (f64::from_bits(a) + f64::from_bits(b)).to_bits()
    }
    fn sub(a: u64, b: u64) -> u64 {
        (f64::from_bits(a) - f64::from_bits(b)).to_bits()
    }
    fn mul(a: u64, b: u64) -> u64 {
        (f64::from_bits(a) * f64::from_bits(b)).to_bits()
    }
    fn div(a: u64, b: u64) -> u64 {
        (f64::from_bits(a) / f64::from_bits(b)).to_bits()
    }
    fn to_text(x: u64) -> String {
        let f = f64::from_bits(x);
        if f.fract() == 0.0 {
            format!("{}.0", f)
        } else {
            format!("{}", f)
        }
    }
}

fn run(code: &str) -> Vec<String> {
    let mut interner = Interner::new();
    let mut lexer = Lexer::new(code);
    let tokens = lexer.tokenize().unwrap();
    let mut parser = Parser::new(tokens);
    let stmts = parser.parse(&mut interner).unwrap();
    assert!(check_block(&stmts, false));
    let code_obj = compile_module::<F64>(&stmts, &mut interner);
    let mut vm = VM::new(interner);
    vm.set_suppress_output(true);
    vm.run::<F64>(&code_obj).unwrap();
    vm.get_output().to_vec()
}

fn text(v: &Value) -> String {
    match v {
        Value::String(s) => s.as_str().to_string(),
        _ => panic!("not a string"),
    }
}

fn int_of(v: &Value) -> i64 {
    match v {
        Value::Integer(n) => *n,
        _ => panic!("not an integer"),
    }
}

fn s(t: &str) -> Value {
    Value::String(Rc::new(t.to_string()))
}

fn list(items: Vec<Value>) -> Value {
    Value::List(Rc::new(items))
}

#[test]
fn interner_round_trip_and_idempotence() {
    let mut interner = Interner::new();
    let a = interner.intern("alpha");
    let b = interner.intern("beta");
    let a2 = interner.intern("alpha");
    assert_eq!(a, a2);
    assert_ne!(a, b);
    assert_eq!(a, Symbol(0));
    assert_eq!(b, Symbol(1));
    assert_eq!(interner.resolve(a), "alpha");
    assert_eq!(interner.resolve(b), "beta");
    assert_eq!(interner.len(), 2);
}

#[test]
fn parse_i64_follows_from_str() {
    assert_eq!(parse_i64("42"), Some(42));
    assert_eq!(parse_i64("+7"), Some(7));
    assert_eq!(parse_i64("-9223372036854775808"), Some(i64::MIN));
    assert_eq!(parse_i64("9223372036854775807"), Some(i64::MAX));
    assert_eq!(parse_i64("9223372036854775808"), None);
    assert_eq!(parse_i64(""), None);
    assert_eq!(parse_i64("-"), None);
    assert_eq!(parse_i64("1x"), None);
    for n in [0i64, 5, -5, 123456789, i64::MIN, i64::MAX] {
        assert_eq!(parse_i64(&n.to_string()), Some(n));
    }
}

#[test]
fn trim_removes_surrounding_whitespace() {
    assert_eq!(trim_text("  a b \t\n"), "a b");
    assert_eq!(trim_text("   "), "");
    assert_eq!(trim_text("x"), "x");
}

#[test]
fn builtin_str_and_repr() {
    assert_eq!(text(&vm_str::<F64>(&[Value::Integer(-12)]).unwrap()), "-12");
    assert_eq!(text(&vm_str::<F64>(&[Value::Boolean(true)]).unwrap()), "True");
    assert_eq!(text(&vm_str::<F64>(&[Value::NoneVal]).unwrap()), "None");
    assert_eq!(text(&vm_str::<F64>(&[Value::Float(2.5f64.to_bits())]).unwrap()), "2.5");
    assert_eq!(text(&vm_str::<F64>(&[list(vec![s("a"), Value::Integer(1)])]).unwrap()), "['a', 1]");
    assert_eq!(text(&vm_repr::<F64>(&[s("hi")]).unwrap()), "'hi'");
    assert!(vm_str::<F64>(&[]).is_err());
}

#[test]
fn builtin_int_and_float() {
    assert_eq!(int_of(&vm_int::<F64>(&[s(" 17 ")]).unwrap()), 17);
    assert_eq!(int_of(&vm_int::<F64>(&[Value::Boolean(true)]).unwrap()), 1);
    assert_eq!(int_of(&vm_int::<F64>(&[Value::Float(3.9f64.to_bits())]).unwrap()), 3);
    assert!(vm_int::<F64>(&[s("abc")]).is_err());
    assert!(vm_int::<F64>(&[Value::NoneVal]).is_err());
    match vm_float::<F64>(&[s(" 1.25 ")]).unwrap() {
        Value::Float(b) => assert_eq!(f64::from_bits(b), 1.25),
        _ => panic!("not a float"),
    }
    match vm_float::<F64>(&[Value::Boolean(true)]).unwrap() {
        Value::Float(b) => assert_eq!(f64::from_bits(b), 1.0),
        _ => panic!("not a float"),
    }
    assert!(vm_float::<F64>(&[s("nope")]).is_err());
}

#[test]
fn builtin_bool_len_abs() {
    assert!(matches!(vm_bool(&[]).unwrap(), Value::Boolean(false)));
    assert!(matches!(vm_bool(&[s("x")]).unwrap(), Value::Boolean(true)));
    assert!(vm_bool(&[Value::Integer(1), Value::Integer(2)]).is_err());
    assert_eq!(int_of(&vm_len(&[s("héllo")]).unwrap()), 5);
    assert_eq!(int_of(&vm_len(&[list(vec![Value::Integer(1)])]).unwrap()), 1);
    assert!(vm_len(&[Value::Integer(3)]).is_err());
    assert_eq!(int_of(&vm_abs(&[Value::Integer(-4)]).unwrap()), 4);
    assert_eq!(int_of(&vm_abs(&[Value::Integer(i64::MIN)]).unwrap()), i64::MIN);
    match vm_abs(&[Value::Float((-2.0f64).to_bits())]).unwrap() {
        Value::Float(b) => assert_eq!(f64::from_bits(b), 2.0),
        _ => panic!("not a float"),
    }
}

#[test]
fn builtin_range() {
    let ints = |v: Value| match v {
        Value::List(items) => items.iter().map(int_of).collect::<Vec<i64>>(),
        _ => panic!("not a list"),
    };
    assert_eq!(ints(vm_range(&[Value::Integer(4)]).unwrap()), vec![0, 1, 2, 3]);
    assert_eq!(ints(vm_range(&[Value::Integer(2), Value::Integer(5)]).unwrap()), vec![2, 3, 4]);
    assert_eq!(
        ints(vm_range(&[Value::Integer(5), Value::Integer(0), Value::Integer(-2)]).unwrap()),
        vec![5, 3, 1]
    );
    assert_eq!(ints(vm_range(&[Value::Integer(-3)]).unwrap()), Vec::<i64>::new());
    assert_eq!(
        ints(vm_range(&[Value::Integer(i64::MAX - 1), Value::Integer(i64::MAX), Value::Integer(5)]).unwrap()),
        vec![i64::MAX - 1]
    );
    assert!(vm_range(&[Value::Integer(1), Value::Integer(2), Value::Integer(0)]).is_err());
    assert!(vm_range(&[]).is_err());
    assert!(vm_range(&[s("a")]).is_err());
    assert!(as_int(&s("a"), "range").is_err());
    assert_eq!(as_int(&Value::Integer(9), "range"), Ok(9));
}

#[test]
fn builtin_min_max_sum() {
    let nums = vec![Value::Integer(3), Value::Integer(1), Value::Integer(2)];
    assert_eq!(int_of(&vm_min::<F64>(&nums).unwrap()), 1);
    assert_eq!(int_of(&vm_max::<F64>(&nums).unwrap()), 3);
    assert_eq!(int_of(&vm_max::<F64>(&[list(nums.iter().map(|v| v.copy()).collect())]).unwrap()), 3);
    assert_eq!(text(&vm_min::<F64>(&[s("b"), s("a")]).unwrap()), "a");
    assert!(vm_min::<F64>(&[]).is_err());
    assert!(vm_max::<F64>(&[list(vec![])]).is_err());
    assert_eq!(int_of(&vm_sum::<F64>(&[list(nums)]).unwrap()), 6);
    match vm_sum::<F64>(&[list(vec![Value::Integer(1), Value::Float(0.5f64.to_bits())])]).unwrap() {
        Value::Float(b) => assert_eq!(f64::from_bits(b), 1.5),
        _ => panic!("not a float"),
    }
    assert!(vm_sum::<F64>(&[list(vec![s("x")])]).is_err());
    assert!(vm_sum::<F64>(&[Value::Integer(1)]).is_err());
}

#[test]
fn builtins_register_as_vm_globals() {
    let mut vm = VM::new(Interner::new());
    register_python_builtins_vm(&mut vm);
    let sym = vm.interner_mut().intern("len");
    match vm.get_global(sym) {
        Some(Value::NativeFunction { name, .. }) => assert_eq!(name.as_str(), "len"),
        _ => panic!("len is not registered"),
    }
}

#[test]
fn generated_programs_have_the_expected_text() {
    assert_eq!(
        gen_recursive_fib(),
        "def fib(n):\n    if n <= 1:\n        return n\n    return fib(n - 1) + fib(n - 2)\nprint(fib(20))\n"
    );
    assert_eq!(
        gen_nested_loops(2, 3),
        "total = 0\ni = 0\nwhile i < 2:\n    j = 0\n    while j < 3:\n        total = total + i * j\n        j = j + 1\n    i = i + 1\nprint(total)\n"
    );
    assert_eq!(gen_arithmetic_heavy(1), "x = 0\nx = x + 0 * 1 - 0 + 0\nprint(x)\n");
    assert_eq!(gen_deep_nesting(2), "x = 1\nif x > 0:\n    x = x + 1\n    if x > 0:\n        x = x + 1\n        print(x)\n");
    assert_eq!(gen_many_variables(2), "var_0 = 0\nvar_1 = 1\ntotal = 0\ntotal = total + var_0\ntotal = total + var_1\nprint(total)\n");
    assert_eq!(gen_large_token_stream(0), "x = 0\nprint(x)\n");
}

#[test]
fn generated_programs_run_on_the_vm() {
    assert_eq!(run(&gen_arithmetic_heavy(2)), vec!["2"]);
    assert_eq!(run(&gen_nested_loops(3, 4)), vec!["18"]);
    assert_eq!(run(&gen_recursive_fib()), vec!["6765"]);
    assert_eq!(run(&gen_iterative_fib(10)), vec!["89"]);
    assert_eq!(run(&gen_string_concat(3)), vec!["aaa"]);
    assert_eq!(run(&gen_list_build_and_sum(5)), vec!["10"]);
    assert_eq!(run(&gen_many_function_calls(5)), vec!["5"]);
    assert_eq!(run(&gen_deep_nesting(3)), vec!["4"]);
    assert_eq!(run(&gen_many_variables(4)), vec!["6"]);
    assert_eq!(run(&gen_large_token_stream(1)), vec!["2"]);
    assert_eq!(run(&gen_heavy_branching(6)), vec!["12"]);
}
