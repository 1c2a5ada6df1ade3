use viper::bytecode::{Op, Value};
use viper::compiler::{check_block, compile_module};
use viper::float::FloatOps;
use viper::lexer::Lexer;
use viper::parser::Parser;
use viper::symbol::{Interner, Symbol};
use viper::vm::VM;

struct F64;

impl FloatOps for F64 {
    fn from_literal(text: &str) -> u64 {
        text.parse::<f64>().unwrap_or(0.0).to_bits()
    }
    fn parse(text: &str) -> Option<u64> {
        text.parse::<f64>().ok().map(|f| f.to_bits())
    }
    fn from_int(n: i64) -> u64 {
        (n as f64).to_bits()
    }
    fn to_int(x: u64) -> i64 {
        f64::from_bits(x) as i64
    }
    fn add(a: u64, b: u64) -> u64 {
        (f64::from_bits(a) + f64::from_bits(b)).to_bits()
    }
    fn sub(a: u64, b: u64) -> u64 {
        (f64::from_bits(a) - f64::from_bits(b)).to_bits()
    }
    fn mul(a: u64, b: u64) -> u64 {
        (f64::from_bits(a) * f64::from_bits(b)).to_bits()
    }
    fn div(a: u64, b: u64) -> u64 {
        (f64::from_bits(a) / f64::from_bits(b)).to_bits()
    }
    fn to_text(x: u64) -> String {
        let f = f64::from_bits(x);
        if f.fract() == 0.0 {
            format!("{}.0", f)
        } else {
            format!("{}", f)
        }
    }
}

fn try_run(code: &str) -> Result<Vec<String>, String> {
    let mut interner = Interner::new();
    let mut lexer = Lexer::new(code);
    let tokens = lexer.tokenize()?;
    let mut parser = Parser::new(tokens);
    let stmts = parser.parse(&mut interner)?;
    assert!(check_block(&stmts, false));
    let code_obj = compile_module::<F64>(&stmts, &mut interner);
    let mut vm = VM::new(interner);
    vm.run::<F64>(&code_obj)?;
    Ok(vm.get_output().to_vec())
}

fn run(code: &str) -> Vec<String> {
    try_run(code).unwrap()
}

#[test]
fn vm_test_arithmetic() {
    assert_eq!(run("print(2 + 3)\n"), vec!["5"]);
    assert_eq!(run("print(10 - 4)\n"), vec!["6"]);
    assert_eq!(run("print(3 * 7)\n"), vec!["21"]);
    assert_eq!(run("print(2 ** 10)\n"), vec!["1024"]);
}

#[test]
fn vm_test_variables() {
    assert_eq!(run("x = 10\ny = 20\nprint(x + y)\n"), vec!["30"]);
}

#[test]
fn vm_test_function() {
    assert_eq!(
        run("def add(a, b):\n    return a + b\nprint(add(3, 4))\n"),
        vec!["7"]
    );
}

#[test]
fn vm_test_if_else() {
    assert_eq!(
        run("x = 10\nif x > 5:\n    print(\"big\")\nelse:\n    print(\"small\")\n"),
        vec!["big"]
    );
}

#[test]
fn vm_test_while_loop() {
    assert_eq!(
        run("i = 0\nresult = 0\nwhile i < 5:\n    result += i\n    i += 1\nprint(result)\n"),
        vec!["10"]
    );
}

#[test]
fn vm_test_for_loop() {
    assert_eq!(
        run("total = 0\nfor x in [1, 2, 3, 4, 5]:\n    total += x\nprint(total)\n"),
        vec!["15"]
    );
}

#[test]
fn vm_test_string_ops() {
    assert_eq!(
        run("print(\"hello\" + \" \" + \"world\")\n"),
        vec!["hello world"]
    );
    assert_eq!(run("print(\"ha\" * 3)\n"), vec!["hahaha"]);
}

#[test]
fn vm_test_fibonacci() {
    assert_eq!(
        run("def fib(n):\n    if n <= 1:\n        return n\n    return fib(n - 1) + fib(n - 2)\nprint(fib(10))\n"),
        vec!["55"]
    );
}

#[test]
fn test_break_continue() {
    assert_eq!(
        run("i = 0\ntotal = 0\nwhile i < 10:\n    i += 1\n    if i == 5:\n        break\n    total += i\nprint(total)\n"),
        vec!["10"]
    );
}

#[test]
fn test_elif() {
    assert_eq!(
        run("x = 5\nif x > 10:\n    print(\"big\")\nelif x > 3:\n    print(\"mid\")\nelse:\n    print(\"small\")\n"),
        vec!["mid"]
    );
}

#[test]
fn vm_modulo_takes_the_divisor_sign() {
    assert_eq!(run("print(-7 % 3)\n"), vec!["2"]);
    assert_eq!(run("print(7 % -3)\n"), vec!["-2"]);
    assert_eq!(run("print(7 % 3)\n"), vec!["1"]);
}

#[test]
fn vm_floor_division_rounds_down() {
    assert_eq!(run("print(7 // 2)\n"), vec!["3"]);
    assert_eq!(run("print(-7 // 2)\n"), vec!["-4"]);
    assert_eq!(run("print(7 // -2)\n"), vec!["-4"]);
    assert_eq!(run("print(-7 // -2)\n"), vec!["3"]);
    assert_eq!(run("print(-8 // 2)\n"), vec!["-4"]);
}

#[test]
fn vm_division_errors() {
    assert_eq!(try_run("print(1 // 0)\n"), Err("Division by zero".to_string()));
    assert_eq!(try_run("print(1 % 0)\n"), Err("Modulo by zero".to_string()));
    assert_eq!(try_run("print(1 / 0)\n"), Err("Division by zero".to_string()));
    assert_eq!(try_run("print(1 / 0.0)\n"), Err("Division by zero".to_string()));
    assert_eq!(try_run("print(1.5 / 0)\n"), Err("Division by zero".to_string()));
}

#[test]
fn vm_float_arithmetic() {
    assert_eq!(run("print(7 / 2)\n"), vec!["3.5"]);
    assert_eq!(run("print(1.5 + 2)\n"), vec!["3.5"]);
    assert_eq!(run("print(2.0 * 3.0)\n"), vec!["6.0"]);
    assert_eq!(run("print(-2.5)\n"), vec!["-2.5"]);
    assert_eq!(run("print(1.5 < 2.5, 2.5 <= 2.5, 3.0 > 4.0)\n"), vec!["True True False"]);
}

#[test]
fn vm_comparisons_and_membership() {
    assert_eq!(run("print(\"abc\" < \"abd\")\n"), vec!["True"]);
    assert_eq!(run("print(\"b\" > \"abc\")\n"), vec!["True"]);
    assert_eq!(run("print(2 in [1, 2, 3], 5 in [1, 2])\n"), vec!["True False"]);
    assert_eq!(run("print(\"ell\" in \"hello\", \"xyz\" in \"hello\")\n"), vec!["True False"]);
    assert_eq!(run("print(1 < 2 < 3, 1 < 3 < 2)\n"), vec!["True False"]);
    assert_eq!(run("print(1 == 1, 1 != 1, [1, 2] == [1, 2])\n"), vec!["True False True"]);
}

#[test]
fn vm_indexing_and_len() {
    assert_eq!(run("a = [1, 2, 3]\nprint(a[0], a[-1])\n"), vec!["1 3"]);
    assert_eq!(run("s = \"hey\"\nprint(s[1], s[-1], s.len)\n"), vec!["e y 3"]);
    assert_eq!(try_run("a = [1]\nprint(a[5])\n"), Err("Index out of range".to_string()));
}

#[test]
fn vm_lists_dicts_and_printing() {
    assert_eq!(run("print([1, \"a\", True, None])\n"), vec!["[1, 'a', True, None]"]);
    assert_eq!(run("print({\"k\": 1})\n"), vec!["{k: 1}"]);
    assert_eq!(run("a = [1]\na += [2]\nprint(a)\n"), vec!["[1, 2]"]);
    assert_eq!(run("s = \"a\"\ns = s + \"b\"\nprint(s)\n"), vec!["ab"]);
}

#[test]
fn vm_boolean_logic() {
    assert_eq!(run("print(1 and 0, 0 or 5, not 0)\n"), vec!["0 5 True"]);
}

#[test]
fn vm_undefined_variable_is_an_error() {
    assert_eq!(try_run("print(y)\n"), Err("Undefined variable: y".to_string()));
}

#[test]
fn vm_locals_and_superinstructions() {
    let code = "def count(n):\n    i = 0\n    total = 0\n    while i < n:\n        total = total + i\n        i = i + 1\n    return total\nprint(count(100))\n";
    assert_eq!(run(code), vec!["4950"]);
    let code = "def down(n):\n    k = 0\n    while n > 0:\n        n = n - 1\n        k = k + 2\n    return k\nprint(down(5))\n";
    assert_eq!(run(code), vec!["10"]);
}

#[test]
fn vm_globals_read_back_what_was_set() {
    let mut vm = VM::new(Interner::new());
    vm.set_global(Symbol(7), Value::Integer(42));
    match vm.get_global(Symbol(7)) {
        Some(Value::Integer(n)) => assert_eq!(*n, 42),
        _ => panic!("global not found"),
    }
    assert!(vm.get_global(Symbol(8)).is_none());
}

#[test]
fn vm_pack_pair_round_trip() {
    let p = Op::pack_pair(3, 65535);
    assert_eq!(p, (3u32 << 16) | 65535);
    assert_eq!(Op::unpack_pair(p), (3, 65535));
}

#[test]
fn vm_top_level_break_is_rejected_by_the_check() {
    let mut interner = Interner::new();
    let mut lexer = Lexer::new("break\n");
    let tokens = lexer.tokenize().unwrap();
    let mut parser = Parser::new(tokens);
    let stmts = parser.parse(&mut interner).unwrap();
    assert!(!check_block(&stmts, false));
}

#[test]
fn vm_output_is_suppressed_only_when_asked() {
    let mut vm = VM::new(Interner::new());
    assert!(!vm.is_output_suppressed());
    vm.set_suppress_output(true);
    assert!(vm.is_output_suppressed());
}

#[test]
fn vm_return_from_inside_a_for_loop_leaves_the_caller_its_operands() {
    let code = "def find(xs):\n    for x in xs:\n        if x > 2:\n            return x\n    return 0\nprint(find([1, 2, 3, 4]) + 10, find([1]) * 2)\n";
    assert_eq!(run(code), vec!["13 0".to_string()]);
}

#[test]
fn vm_fused_increments_add_like_the_sequence_they_replace() {
    assert_eq!(run("x = 0.5\nx = x + 1\nprint(x)\n"), vec!["1.5"]);
    let code = "def f():\n    i = 0.5\n    while i < 2.5:\n        print(i)\n        i = i + 1\nf()\n";
    assert_eq!(run(code), vec!["0.5", "1.5"]);
    assert!(try_run("x = \"a\"\nx = x + 1\n").is_err());
}

#[test]
fn vm_runs_the_readme_example_with_its_empty_line() {
    let code = "def fib(n):\n    if n <= 1:\n        return n\n    return fib(n - 1) + fib(n - 2)\n\nprint(fib(20))\n";
    assert_eq!(run(code), vec!["6765"]);
}

fn run_with_builtins(code: &str) -> Result<Vec<String>, String> {
    let mut interner = Interner::new();
    let mut lexer = Lexer::new(code);
    let tokens = lexer.tokenize()?;
    let mut parser = Parser::new(tokens);
    let stmts = parser.parse(&mut interner)?;
    assert!(check_block(&stmts, false));
    let code_obj = compile_module::<F64>(&stmts, &mut interner);
    let mut vm = VM::new(interner);
    viper::builtins::register_python_builtins_vm(&mut vm);
    vm.run::<F64>(&code_obj)?;
    Ok(vm.get_output().to_vec())
}

#[test]
fn vm_calls_the_registered_builtins() {
    assert_eq!(run_with_builtins("print(len([1, 2, 3]))\n").unwrap(), vec!["3"]);
    assert_eq!(run_with_builtins("print(sum(range(5)))\n").unwrap(), vec!["10"]);
    assert_eq!(run_with_builtins("print(max(3, 7, 5), min([4, 2, 9]))\n").unwrap(), vec!["7 2"]);
    assert_eq!(run_with_builtins("f = len\nprint(f(\"abc\"), str(12) + \"!\")\n").unwrap(), vec!["3 12!"]);
    assert!(run_with_builtins("print(len(1, 2))\n").is_err());
}

#[test]
fn vm_continue_in_a_for_loop_moves_to_the_next_item() {
    let code = "total = 0\nfor x in [1, 2, 3, 4]:\n    if x == 2:\n        continue\n    total = total + x\nprint(total)\n";
    assert_eq!(run(code), vec!["8"]);
    let code = "def f(xs):\n    n = 0\n    for x in xs:\n        if x > 2:\n            continue\n        n = n + 1\n    return n\nprint(f([1, 5, 2, 7]))\n";
    assert_eq!(run(code), vec!["2"]);
}

#[test]
fn vm_calls_need_one_argument_per_parameter() {
    assert_eq!(try_run("def f(a, b):\n    return a\nprint(f(1))\n"), Err("Expected 2 arguments, got 1".to_string()));
    assert_eq!(try_run("def f(a):\n    return a\nprint(f(1, 2))\n"), Err("Expected 1 arguments, got 2".to_string()));
}

#[test]
fn vm_names_undefined_variables_and_stray_returns() {
    assert_eq!(try_run("print(y)\n"), Err("Undefined variable: y".to_string()));
    assert_eq!(try_run("g(1)\n"), Err("Undefined variable: g".to_string()));
    assert_eq!(try_run("return 1\n"), Err("'return' outside function".to_string()));
}
