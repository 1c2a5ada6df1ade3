use viper::float::FloatOps;
use viper::interp_builtins::register_python_builtins_interp;
use viper::interpreter::Interpreter;
use viper::lexer::Lexer;
use viper::parser::Parser;
use viper::symbol::Interner;

struct F64;

impl FloatOps for F64 {
    fn from_literal(text: &str) -> u64 {
        text.parse::<f64>().unwrap_or(0.0).to_bits()
    }
    fn parse(text: &str) -> Option<u64> {
        text.parse::<f64>().ok().map(|f| f.to_bits())
    }
    fn from_int(n: i64) -> u64 {
        (n as f64).to_bits()
    }
    fn to_int(x: u64) -> i64 {
        f64::from_bits(x) as i64
    }
    fn add(a: u64, b: u64) -> u64 {
        (f64::from_bits(a) + f64::from_bits(b)).to_bits()
    }
    fn sub(a: u64, b: u64) -> u64 {
        (f64::from_bits(a) - f64::from_bits(b)).to_bits()
    }
    fn mul(a: u64, b: u64) -> u64 {
        (f64::from_bits(a) * f64::from_bits(b)).to_bits()
    }
    fn div(a: u64, b: u64) -> u64 {
        (f64::from_bits(a) / f64::from_bits(b)).to_bits()
    }
    fn to_text(x: u64) -> String {
        let f = f64::from_bits(x);
        if f.fract() == 0.0 {
            format!("{}.0", f)
        } else {
            format!("{}", f)
        }
    }
}

fn new_interpreter() -> Interpreter {
    Interpreter::new(Interner::new())
}

fn try_run_in(interp: &mut Interpreter, code: &str) -> Result<Vec<String>, String> {
    let mut lexer = Lexer::new(code);
    let tokens = lexer.tokenize()?;
    let mut parser = Parser::new(tokens);
    let stmts = parser.parse(interp.interner_mut())?;
    interp.run::<F64>(&stmts)?;
    Ok(interp.get_output().to_vec())
}

fn try_run(code: &str) -> Result<Vec<String>, String> {
    let mut interp = new_interpreter();
    try_run_in(&mut interp, code)
}

fn run(code: &str) -> Vec<String> {
    try_run(code).unwrap()
}

#[test]
fn interpreter_test_arithmetic() {
    assert_eq!(run("print(2 + 3)\n"), vec!["5"]);
    assert_eq!(run("print(10 - 4)\n"), vec!["6"]);
    assert_eq!(run("print(3 * 7)\n"), vec!["21"]);
    assert_eq!(run("print(2 ** 10)\n"), vec!["1024"]);
}

#[test]
fn interpreter_test_variables() {
    let output = run("x = 10\ny = 20\nprint(x + y)\n");
    assert_eq!(output, vec!["30"]);
}

#[test]
fn interpreter_test_function() {
    let code = "def add(a, b):\n    return a + b\nprint(add(3, 4))\n";
    assert_eq!(run(code), vec!["7"]);
}

#[test]
fn interpreter_test_if_else() {
    let code = "x = 10\nif x > 5:\n    print(\"big\")\nelse:\n    print(\"small\")\n";
    assert_eq!(run(code), vec!["big"]);
}

#[test]
fn interpreter_test_while_loop() {
    let code =
        "i = 0\nresult = 0\nwhile i < 5:\n    result += i\n    i += 1\nprint(result)\n";
    assert_eq!(run(code), vec!["10"]);
}

#[test]
fn interpreter_test_for_loop() {
    let code = "total = 0\nfor x in [1, 2, 3, 4, 5]:\n    total += x\nprint(total)\n";
    assert_eq!(run(code), vec!["15"]);
}

#[test]
fn interpreter_test_string_ops() {
    assert_eq!(
        run("print(\"hello\" + \" \" + \"world\")\n"),
        vec!["hello world"]
    );
    assert_eq!(run("print(\"ha\" * 3)\n"), vec!["hahaha"]);
}

#[test]
fn interpreter_test_fibonacci() {
    let code = "\
def fib(n):
    if n <= 1:
        return n
    return fib(n - 1) + fib(n - 2)
print(fib(10))
";
    assert_eq!(run(code), vec!["55"]);
}

#[test]
fn interpreter_control_flow_at_top_level_is_an_error() {
    assert_eq!(try_run("return 1\n"), Err("'return' outside function".to_string()));
    assert_eq!(try_run("break\n"), Err("'break' outside loop".to_string()));
    assert_eq!(try_run("continue\n"), Err("'continue' outside loop".to_string()));
}

#[test]
fn interpreter_break_continue_and_elif() {
    let code = "i = 0\ntotal = 0\nwhile i < 10:\n    i += 1\n    if i == 5:\n        break\n    if i == 2:\n        continue\n    total += i\nprint(total)\n";
    assert_eq!(run(code), vec!["8"]);
    let code = "x = 5\nif x > 10:\n    print(\"big\")\nelif x > 3:\n    print(\"mid\")\nelse:\n    print(\"small\")\n";
    assert_eq!(run(code), vec!["mid"]);
}

#[test]
fn interpreter_for_over_string_and_locals() {
    assert_eq!(run("for c in \"ab\":\n    print(c)\n"), vec!["a", "b"]);
    let code = "g = 1\ndef f(a):\n    b = a + g\n    return b\nprint(f(2))\nprint(g)\n";
    assert_eq!(run(code), vec!["3", "1"]);
}

#[test]
fn interpreter_comparisons() {
    assert_eq!(run("print(1 < 2 < 3, 3 > 2 > 2)\n"), vec!["True False"]);
    assert_eq!(run("print({1: 2} == {1: 2}, [1] != [1])\n"), vec!["True False"]);
    assert_eq!(run("print(\"ab\" < \"b\", 2 in [1, 2], \"b\" in \"abc\")\n"), vec!["True True True"]);
    assert!(try_run("print(\"a\" <= \"b\")\n").is_err());
    assert!(try_run("print(1 < \"b\")\n").is_err());
}

#[test]
fn interpreter_and_or_return_operands() {
    assert_eq!(run("print(1 and 0, 0 or 5, 2 and 3, not 1)\n"), vec!["0 5 3 False"]);
}

#[test]
fn interpreter_errors() {
    assert_eq!(try_run("print(z)\n"), Err("Undefined variable: z".to_string()));
    assert_eq!(try_run("x += 1\n"), Err("Undefined variable: x".to_string()));
    assert_eq!(try_run("print(1 // 0)\n"), Err("Division by zero".to_string()));
    assert_eq!(
        try_run("def f(a):\n    return a\nprint(f(1, 2))\n"),
        Err("Expected 1 arguments, got 2".to_string())
    );
    assert_eq!(try_run("for x in 5:\n    pass\n"), Err("Cannot iterate over non-iterable".to_string()));
}

#[test]
fn interpreter_builtins_after_registration() {
    let mut interp = new_interpreter();
    register_python_builtins_interp(&mut interp);
    let out = try_run_in(
        &mut interp,
        "print(len(\"héllo\"), str(12) + \"!\", int(\" 42 \") + 1, abs(-3), min(4, 2, 8), max([1, 9, 3]), sum([1, 2, 3]))\nprint(range(3), range(5, 0, -2), bool(0), repr(\"q\"), float(2))\n",
    )
    .unwrap();
    assert_eq!(out, vec!["5 12! 43 3 2 9 6", "[0, 1, 2] [5, 3, 1] False 'q' 2.0"]);
}

#[test]
fn interpreter_output_accumulates_across_runs() {
    let mut interp = new_interpreter();
    try_run_in(&mut interp, "print(1)\n").unwrap();
    let out = try_run_in(&mut interp, "print(2)\n").unwrap();
    assert_eq!(out, vec!["1", "2"]);
}

#[test]
fn interpreter_len_attribute_counts_items_and_bytes() {
    assert_eq!(run("xs = [1, 2, 3]\nprint(xs.len, \"héllo\".len)\n"), vec!["3 6"]);
    assert!(try_run("n = 5\nprint(n.len)\n").is_err());
}

#[test]
fn interpreter_runs_the_readme_example_with_its_empty_line() {
    let code = "def fib(n):\n    if n <= 1:\n        return n\n    return fib(n - 1) + fib(n - 2)\n\nprint(fib(20))\n";
    assert_eq!(run(code), vec!["6765".to_string()]);
}

#[test]
fn interpreter_floor_division_rounds_down() {
    assert_eq!(run("print(-7 // 2)\nprint(7 // -2)\nprint(7 // 2)\n"), vec!["-4", "-4", "3"]);
}

#[test]
fn interpreter_passes_on_the_error_of_a_loop_body_and_of_a_print_argument() {
    assert_eq!(try_run("for x in [1, 2]:\n    print(x // 0)\n"), Err("Division by zero".to_string()));
    assert_eq!(try_run("i = 0\nwhile i < 3:\n    i = [1][5]\n"), Err("Index out of range".to_string()));
    assert_eq!(try_run("print(1, [1, 2][-3])\n"), Err("Index out of range".to_string()));
}

#[test]
fn interpreter_names_undefined_variables_and_stray_returns() {
    assert_eq!(try_run("print(y)\n"), Err("Undefined variable: y".to_string()));
    assert_eq!(try_run("y += 1\n"), Err("Undefined variable: y".to_string()));
    assert_eq!(try_run("return 1\n"), Err("'return' outside function".to_string()));
}
