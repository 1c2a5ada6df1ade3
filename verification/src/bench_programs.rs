//! Python programs of a given size, for measuring the lexer, the parser and
//! the VM.
use vstd::prelude::*;

use crate::ops::repeat_chars;
use crate::text::{decimal_digits, u64_text};

verus! {

/// Appends the decimal digits of `n`.
fn append_num(s: &mut String, n: usize)
    ensures
        final(s)@ == old(s)@ + decimal_digits(n as nat),
{
    let t = u64_text(n as u64);
    s.append(t.as_str());
}

/// The line `x = x + i * (i + 1) - (i % 7) + (i % 3)` with the numbers
/// written out.
pub open spec fn arithmetic_line(i: nat) -> Seq<char> {
    "x = x + "@ + decimal_digits(i) + " * "@ + decimal_digits(i + 1) + " - "@ + decimal_digits(i % 7)
        + " + "@ + decimal_digits(i % 3) + "\n"@
}

/// The first `k` arithmetic lines.
pub open spec fn arithmetic_lines(k: nat) -> Seq<char>
    decreases k,
{
    if k == 0 {
        Seq::empty()
    } else {
        arithmetic_lines((k - 1) as nat) + arithmetic_line((k - 1) as nat)
    }
}

/// `n` assignments of arithmetic on `x`, then `print(x)`.
pub fn gen_arithmetic_heavy(n: usize) -> (code: String)
    ensures
        code@ == "x = 0\n"@ + arithmetic_lines(n as nat) + "print(x)\n"@,
{
    let mut code = String::new();
    code.append("x = 0\n");
    let mut i: usize = 0;
    while i < n
        invariant
            i <= n,
            code@ == "x = 0\n"@ + arithmetic_lines(i as nat),
        decreases n - i,
    {
        code.append("x = x + ");
        append_num(&mut code, i);
        code.append(" * ");
        append_num(&mut code, i + 1);
        code.append(" - ");
        append_num(&mut code, i % 7);
        code.append(" + ");
        append_num(&mut code, i % 3);
        code.append("\n");
        proof {
            assert(code@ =~= "x = 0\n"@ + arithmetic_lines(i as nat) + arithmetic_line(i as nat));
        }
        i = i + 1;
    }
    code.append("print(x)\n");
    code
}

/// Two nested `while` loops summing `i * j`.
pub fn gen_nested_loops(outer: usize, inner: usize) -> (code: String)
    ensures
        code@ == "total = 0\ni = 0\nwhile i < "@ + decimal_digits(outer as nat)
            + ":\n    j = 0\n    while j < "@ + decimal_digits(inner as nat)
            + ":\n        total = total + i * j\n        j = j + 1\n    i = i + 1\nprint(total)\n"@,
{
    let mut code = String::new();
    code.append("total = 0\ni = 0\nwhile i < ");
    append_num(&mut code, outer);
    code.append(":\n    j = 0\n    while j < ");
    append_num(&mut code, inner);
    code.append(":\n        total = total + i * j\n        j = j + 1\n    i = i + 1\nprint(total)\n");
    code
}

/// The recursive Fibonacci function and `print(fib(20))`.
pub fn gen_recursive_fib() -> (code: String)
    ensures
        code@ == "def fib(n):\n    if n <= 1:\n        return n\n    return fib(n - 1) + fib(n - 2)\nprint(fib(20))\n"@,
{
    let mut code = String::new();
    code.append("def fib(n):\n    if n <= 1:\n        return n\n    return fib(n - 1) + fib(n - 2)\nprint(fib(20))\n");
    code
}

/// An iterative Fibonacci loop of `n` steps.
pub fn gen_iterative_fib(n: usize) -> (code: String)
    ensures
        code@ == "a = 0\nb = 1\ni = 0\nwhile i < "@ + decimal_digits(n as nat)
            + ":\n    c = a + b\n    a = b\n    b = c\n    i = i + 1\nprint(b)\n"@,
{
    let mut code = String::new();
    code.append("a = 0\nb = 1\ni = 0\nwhile i < ");
    append_num(&mut code, n);
    code.append(":\n    c = a + b\n    a = b\n    b = c\n    i = i + 1\nprint(b)\n");
    code
}

/// A loop appending `"a"` to a string `n` times.
pub fn gen_string_concat(n: usize) -> (code: String)
    ensures
        code@ == "s = \"\"\ni = 0\nwhile i < "@ + decimal_digits(n as nat)
            + ":\n    s = s + \"a\"\n    i = i + 1\nprint(s)\n"@,
{
    let mut code = String::new();
    code.append("s = \"\"\ni = 0\nwhile i < ");
    append_num(&mut code, n);
    code.append(":\n    s = s + \"a\"\n    i = i + 1\nprint(s)\n");
    code
}

/// Builds a list of `n` numbers, then sums it by index.
pub fn gen_list_build_and_sum(n: usize) -> (code: String)
    ensures
        code@ == "lst = []\ni = 0\nwhile i < "@ + decimal_digits(n as nat)
            + ":\n    lst = lst + [i]\n    i = i + 1\ntotal = 0\nj = 0\nwhile j < "@ + decimal_digits(n as nat)
            + ":\n    total = total + lst[j]\n    j = j + 1\nprint(total)\n"@,
{
    let mut code = String::new();
    code.append("lst = []\ni = 0\nwhile i < ");
    append_num(&mut code, n);
    code.append(":\n    lst = lst + [i]\n    i = i + 1\ntotal = 0\nj = 0\nwhile j < ");
    append_num(&mut code, n);
    code.append(":\n    total = total + lst[j]\n    j = j + 1\nprint(total)\n");
    code
}

/// `n` calls of a one-line function.
pub fn gen_many_function_calls(n: usize) -> (code: String)
    ensures
        code@ == "def inc(x):\n    return x + 1\nresult = 0\ni = 0\nwhile i < "@ + decimal_digits(n as nat)
            + ":\n    result = inc(result)\n    i = i + 1\nprint(result)\n"@,
{
    let mut code = String::new();
    code.append("def inc(x):\n    return x + 1\nresult = 0\ni = 0\nwhile i < ");
    append_num(&mut code, n);
    code.append(":\n    result = inc(result)\n    i = i + 1\nprint(result)\n");
    code
}

/// Indentation of `level` blocks, four spaces each.
pub open spec fn indentation(level: nat) -> Seq<char> {
    repeat_chars("    "@, level)
}

/// The `if` statements of the first `k` levels of nesting.
pub open spec fn nesting_lines(k: nat) -> Seq<char>
    decreases k,
{
    if k == 0 {
        Seq::empty()
    } else {
        let i = (k - 1) as nat;
        nesting_lines(i) + indentation(i) + "if x > 0:\n"@ + indentation(i) + "    x = x + 1\n"@
    }
}

/// Appends `level` indentation steps.
fn append_indent(s: &mut String, level: usize)
    ensures
        final(s)@ == old(s)@ + indentation(level as nat),
{
    let mut k: usize = 0;
    while k < level
        invariant
            k <= level,
            s@ == old(s)@ + indentation(k as nat),
        decreases level - k,
    {
        s.append("    ");
        proof {
            assert(s@ =~= old(s)@ + indentation((k + 1) as nat));
        }
        k = k + 1;
    }
}

/// `depth` nested `if` statements, then `print(x)` inside the innermost.
pub fn gen_deep_nesting(depth: usize) -> (code: String)
    ensures
        code@ == "x = 1\n"@ + nesting_lines(depth as nat) + indentation(depth as nat) + "print(x)\n"@,
{
    let mut code = String::new();
    code.append("x = 1\n");
    let mut i: usize = 0;
    while i < depth
        invariant
            i <= depth,
            code@ == "x = 1\n"@ + nesting_lines(i as nat),
        decreases depth - i,
    {
        append_indent(&mut code, i);
        code.append("if x > 0:\n");
        append_indent(&mut code, i);
        code.append("    x = x + 1\n");
        proof {
            assert(code@ =~= "x = 1\n"@ + nesting_lines((i + 1) as nat));
        }
        i = i + 1;
    }
    append_indent(&mut code, depth);
    code.append("print(x)\n");
    code
}

/// The assignments `var_i = i` for the first `k` numbers.
pub open spec fn variable_lines(k: nat) -> Seq<char>
    decreases k,
{
    if k == 0 {
        Seq::empty()
    } else {
        let i = (k - 1) as nat;
        variable_lines(i) + "var_"@ + decimal_digits(i) + " = "@ + decimal_digits(i) + "\n"@
    }
}

/// The additions `total = total + var_i` for the first `k` numbers.
pub open spec fn total_lines(k: nat) -> Seq<char>
    decreases k,
{
    if k == 0 {
        Seq::empty()
    } else {
        let i = (k - 1) as nat;
        total_lines(i) + "total = total + var_"@ + decimal_digits(i) + "\n"@
    }
}

/// `n` variables, then their sum.
pub fn gen_many_variables(n: usize) -> (code: String)
    ensures
        code@ == variable_lines(n as nat) + "total = 0\n"@ + total_lines(n as nat) + "print(total)\n"@,
{
    let mut code = String::new();
    let mut i: usize = 0;
    proof {
        assert(code@ =~= variable_lines(0));
    }
    while i < n
        invariant
            i <= n,
            code@ == variable_lines(i as nat),
        decreases n - i,
    {
        code.append("var_");
        append_num(&mut code, i);
        code.append(" = ");
        append_num(&mut code, i);
        code.append("\n");
        proof {
            assert(code@ =~= variable_lines((i + 1) as nat));
        }
        i = i + 1;
    }
    code.append("total = 0\n");
    let ghost head = code@;
    let mut j: usize = 0;
    while j < n
        invariant
            j <= n,
            head == variable_lines(n as nat) + "total = 0\n"@,
            code@ == head + total_lines(j as nat),
        decreases n - j,
    {
        code.append("total = total + var_");
        append_num(&mut code, j);
        code.append("\n");
        proof {
            assert(code@ =~= head + total_lines((j + 1) as nat));
        }
        j = j + 1;
    }
    code.append("print(total)\n");
    code
}

/// The expression line that `gen_large_token_stream` repeats.
pub open spec fn token_line() -> Seq<char> {
    "x = (x + 1) * 2 - 1 + (3 * 4) - (5 + 6)\n"@
}

/// `n` copies of a long expression line.
pub fn gen_large_token_stream(n: usize) -> (code: String)
    ensures
        code@ == "x = 0\n"@ + repeat_chars(token_line(), n as nat) + "print(x)\n"@,
{
    let mut code = String::new();
    code.append("x = 0\n");
    let mut i: usize = 0;
    while i < n
        invariant
            i <= n,
            code@ == "x = 0\n"@ + repeat_chars(token_line(), i as nat),
        decreases n - i,
    {
        code.append("x = (x + 1) * 2 - 1 + (3 * 4) - (5 + 6)\n");
        proof {
            assert(code@ =~= "x = 0\n"@ + repeat_chars(token_line(), (i + 1) as nat));
        }
        i = i + 1;
    }
    code.append("print(x)\n");
    code
}

/// A loop of `n` steps through an `if`/`elif`/`else`.
pub fn gen_heavy_branching(n: usize) -> (code: String)
    ensures
        code@ == "count = 0\ni = 0\nwhile i < "@ + decimal_digits(n as nat)
            + ":\n    if i % 3 == 0:\n        count = count + 1\n    elif i % 3 == 1:\n        count = count + 2\n    else:\n        count = count + 3\n    i = i + 1\nprint(count)\n"@,
{
    let mut code = String::new();
    code.append("count = 0\ni = 0\nwhile i < ");
    append_num(&mut code, n);
    code.append(":\n    if i % 3 == 0:\n        count = count + 1\n    elif i % 3 == 1:\n        count = count + 2\n    else:\n        count = count + 3\n    i = i + 1\nprint(count)\n");
    code
}

} // verus!
