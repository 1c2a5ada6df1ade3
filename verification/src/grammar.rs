//! The grammar of the Python subset, as functions from a token sequence to
//! syntax trees. The parser is proved to compute exactly these functions.
//!
//! Each function reads the tokens from a position and threads the interned
//! names: an identifier is interned when it is read. A result is the tree,
//! the position after it and the names after it; `None` is a syntax error.
//! Past the last token every position reads as `Eof`.
use vstd::prelude::*;

use crate::ast::{BinOp, CmpOp, Expr, Stmt, UnaryOp};
use crate::symbol::{distinct_names, interned, Symbol};
use crate::token::Token;

verus! {

/// Interned names, a symbol's id being its position.
pub type Names = Seq<Seq<char>>;

/// An expression, with its texts as characters.
pub enum ExprV {
    Integer(i64),
    Float(Seq<char>),
    Str(Seq<char>),
    Boolean(bool),
    NoneLit,
    Identifier(Symbol),
    BinaryOp(Box<ExprV>, BinOp, Box<ExprV>),
    UnaryOp(UnaryOp, Box<ExprV>),
    Call(Box<ExprV>, Seq<ExprV>),
    Index(Box<ExprV>, Box<ExprV>),
    Attribute(Box<ExprV>, Symbol),
    List(Seq<ExprV>),
    Dict(Seq<(ExprV, ExprV)>),
    Compare(Box<ExprV>, Seq<CmpOp>, Seq<ExprV>),
}

/// A statement, with its texts as characters and its blocks as sequences.
pub enum StmtV {
    Expression(ExprV),
    Assign(Symbol, ExprV),
    AugAssign(Symbol, BinOp, ExprV),
    Print(Seq<ExprV>),
    If(ExprV, Seq<StmtV>, Seq<(ExprV, Seq<StmtV>)>, Option<Seq<StmtV>>),
    While(ExprV, Seq<StmtV>),
    For(Symbol, ExprV, Seq<StmtV>),
    FunctionDef(Symbol, Seq<Symbol>, Seq<StmtV>),
    Return(Option<ExprV>),
    Break,
    Continue,
    Pass,
}

/// The view of an expression.
pub open spec fn expr_view(e: Expr) -> ExprV
    decreases e, 0int,
{
    match e {
        Expr::Integer(n) => ExprV::Integer(n),
        Expr::Float(s) => ExprV::Float(s@),
        Expr::StringLiteral(s) => ExprV::Str(s@),
        Expr::Boolean(b) => ExprV::Boolean(b),
        Expr::NoneLit => ExprV::NoneLit,
        Expr::Identifier(s) => ExprV::Identifier(s),
        Expr::BinaryOp { left, op, right } => ExprV::BinaryOp(
            Box::new(expr_view(*left)),
            op,
            Box::new(expr_view(*right)),
        ),
        Expr::UnaryOp { op, operand } => ExprV::UnaryOp(op, Box::new(expr_view(*operand))),
        Expr::Call { function, args } => ExprV::Call(Box::new(expr_view(*function)), exprs_view(args@)),
        Expr::Index { object, index } => ExprV::Index(Box::new(expr_view(*object)), Box::new(expr_view(*index))),
        Expr::Attribute { object, name } => ExprV::Attribute(Box::new(expr_view(*object)), name),
        Expr::List(items) => ExprV::List(exprs_view(items@)),
        Expr::Dict(pairs) => ExprV::Dict(expr_pairs_view(pairs@)),
        Expr::Compare { left, ops, comparators } => ExprV::Compare(
            Box::new(expr_view(*left)),
            ops@,
            exprs_view(comparators@),
        ),
    }
}

/// The views of a sequence of expressions.
pub open spec fn exprs_view(es: Seq<Expr>) -> Seq<ExprV>
    decreases es, 0int,
{
    if es.len() == 0 {
        Seq::empty()
    } else {
        exprs_view(es.drop_last()).push(expr_view(es.last()))
    }
}

/// The views of a sequence of key-value pairs.
pub open spec fn expr_pairs_view(ps: Seq<(Expr, Expr)>) -> Seq<(ExprV, ExprV)>
    decreases ps, 0int,
{
    if ps.len() == 0 {
        Seq::empty()
    } else {
        expr_pairs_view(ps.drop_last()).push((expr_view(ps.last().0), expr_view(ps.last().1)))
    }
}

/// The view of a statement.
pub open spec fn stmt_view(s: Stmt) -> StmtV
    decreases s, 0int,
{
    match s {
        Stmt::Expression(e) => StmtV::Expression(expr_view(e)),
        Stmt::Assign { target, value } => StmtV::Assign(target, expr_view(value)),
        Stmt::AugAssign { target, op, value } => StmtV::AugAssign(target, op, expr_view(value)),
        Stmt::Print(args) => StmtV::Print(exprs_view(args@)),
        Stmt::If { condition, body, elif_clauses, else_body } => StmtV::If(
            expr_view(condition),
            stmts_view(body@),
            elifs_view(elif_clauses@),
            match else_body {
                Some(b) => Some(stmts_view(b@)),
                None => None,
            },
        ),
        Stmt::While { condition, body } => StmtV::While(expr_view(condition), stmts_view(body@)),
        Stmt::For { target, iter, body } => StmtV::For(target, expr_view(iter), stmts_view(body@)),
        Stmt::FunctionDef { name, params, body } => StmtV::FunctionDef(name, params@, stmts_view(body@)),
        Stmt::Return(v) => StmtV::Return(
            match v {
                Some(e) => Some(expr_view(e)),
                None => None,
            },
        ),
        Stmt::Break => StmtV::Break,
        Stmt::Continue => StmtV::Continue,
        Stmt::Pass => StmtV::Pass,
    }
}

/// The views of a sequence of statements.
pub open spec fn stmts_view(ss: Seq<Stmt>) -> Seq<StmtV>
    decreases ss, 0int,
{
    if ss.len() == 0 {
        Seq::empty()
    } else {
        stmts_view(ss.drop_last()).push(stmt_view(ss.last()))
    }
}

/// The views of `elif` clauses.
pub open spec fn elifs_view(cs: Seq<(Expr, Vec<Stmt>)>) -> Seq<(ExprV, Seq<StmtV>)>
    decreases cs, 0int,
{
    if cs.len() == 0 {
        Seq::empty()
    } else {
        elifs_view(cs.drop_last()).push((expr_view(cs.last().0), stmts_view(cs.last().1@)))
    }
}

/// The token at `pos`; `Eof` outside the sequence.
pub open spec fn tok_at(t: Seq<Token>, pos: int) -> Token {
    if 0 <= pos < t.len() {
        t[pos]
    } else {
        Token::Eof
    }
}

/// Whether a parse moved from `pos` to `p`, forward and within the tokens.
/// Every successful parse of a construct consumes a token.
pub open spec fn advanced(t: Seq<Token>, pos: int, p: int) -> bool {
    pos < p <= t.len()
}

/// The names after interning `n`, and its symbol: a known name keeps its
/// position, a new one is appended.
pub open spec fn intern_spec(names: Names, n: Seq<char>) -> (Names, Symbol) {
    if names.contains(n) {
        (names, Symbol(names.index_of(n) as u32))
    } else {
        (names.push(n), Symbol(names.len() as u32))
    }
}

/// The position after the newlines at `pos`.
pub open spec fn skip_nl(t: Seq<Token>, pos: int) -> int
    decreases t.len() - pos,
{
    if 0 <= pos < t.len() && t[pos] is Newline {
        skip_nl(t, pos + 1)
    } else {
        pos
    }
}

pub proof fn lemma_skip_nl(t: Seq<Token>, pos: int)
    requires
        0 <= pos <= t.len(),
    ensures
        pos <= skip_nl(t, pos) <= t.len(),
        !(tok_at(t, skip_nl(t, pos)) is Newline),
    decreases t.len() - pos,
{
    if pos < t.len() && t[pos] is Newline {
        lemma_skip_nl(t, pos + 1);
    }
}

/// The comparison operator a token stands for.
pub open spec fn comparison_op(tk: Token) -> Option<CmpOp> {
    match tk {
        Token::Equal => Some(CmpOp::Eq),
        Token::NotEqual => Some(CmpOp::NotEq),
        Token::Less => Some(CmpOp::Lt),
        Token::LessEqual => Some(CmpOp::LtE),
        Token::Greater => Some(CmpOp::Gt),
        Token::GreaterEqual => Some(CmpOp::GtE),
        Token::In => Some(CmpOp::In),
        _ => None,
    }
}

/// The additive operator a token stands for.
pub open spec fn add_op(tk: Token) -> Option<BinOp> {
    match tk {
        Token::Plus => Some(BinOp::Add),
        Token::Minus => Some(BinOp::Sub),
        _ => None,
    }
}

/// The multiplicative operator a token stands for.
pub open spec fn mul_op(tk: Token) -> Option<BinOp> {
    match tk {
        Token::Star => Some(BinOp::Mul),
        Token::Slash => Some(BinOp::Div),
        Token::DoubleSlash => Some(BinOp::FloorDiv),
        Token::Percent => Some(BinOp::Mod),
        _ => None,
    }
}

/// The operator of an augmented assignment token.
pub open spec fn aug_op(tk: Token) -> Option<BinOp> {
    match tk {
        Token::PlusAssign => Some(BinOp::Add),
        Token::MinusAssign => Some(BinOp::Sub),
        Token::StarAssign => Some(BinOp::Mul),
        Token::SlashAssign => Some(BinOp::Div),
        _ => None,
    }
}

/// expression: or-expression.
pub open spec fn p_expression(t: Seq<Token>, pos: int, names: Names) -> Option<(ExprV, int, Names)>
    decreases t.len() + 1 - pos, 12int,
{
    p_or(t, pos, names)
}

/// or-expression: and-expressions joined by `or`, grouped to the left.
pub open spec fn p_or(t: Seq<Token>, pos: int, names: Names) -> Option<(ExprV, int, Names)>
    decreases t.len() + 1 - pos, 11int,
{
    match p_and(t, pos, names) {
        Some((l, p, n)) => if advanced(t, pos, p) {
            or_tail(t, p, n, l)
        } else {
            None
        },
        None => None,
    }
}

pub open spec fn or_tail(t: Seq<Token>, pos: int, names: Names, left: ExprV) -> Option<(ExprV, int, Names)>
    decreases t.len() + 1 - pos, 1int,
{
    if tok_at(t, pos) is Or {
        match p_and(t, pos + 1, names) {
            Some((r, p, n)) => if advanced(t, pos + 1, p) {
                or_tail(t, p, n, ExprV::BinaryOp(Box::new(left), BinOp::Or, Box::new(r)))
            } else {
                None
            },
            None => None,
        }
    } else {
        Some((left, pos, names))
    }
}

/// and-expression: not-expressions joined by `and`, grouped to the left.
pub open spec fn p_and(t: Seq<Token>, pos: int, names: Names) -> Option<(ExprV, int, Names)>
    decreases t.len() + 1 - pos, 10int,
{
    match p_not(t, pos, names) {
        Some((l, p, n)) => if advanced(t, pos, p) {
            and_tail(t, p, n, l)
        } else {
            None
        },
        None => None,
    }
}

pub open spec fn and_tail(t: Seq<Token>, pos: int, names: Names, left: ExprV) -> Option<(ExprV, int, Names)>
    decreases t.len() + 1 - pos, 1int,
{
    if tok_at(t, pos) is And {
        match p_not(t, pos + 1, names) {
            Some((r, p, n)) => if advanced(t, pos + 1, p) {
                and_tail(t, p, n, ExprV::BinaryOp(Box::new(left), BinOp::And, Box::new(r)))
            } else {
                None
            },
            None => None,
        }
    } else {
        Some((left, pos, names))
    }
}

/// not-expression: `not` not-expression, or a comparison.
pub open spec fn p_not(t: Seq<Token>, pos: int, names: Names) -> Option<(ExprV, int, Names)>
    decreases t.len() + 1 - pos, 9int,
{
    if tok_at(t, pos) is Not {
        match p_not(t, pos + 1, names) {
            Some((o, p, n)) => Some((ExprV::UnaryOp(UnaryOp::Not, Box::new(o)), p, n)),
            None => None,
        }
    } else {
        p_comparison(t, pos, names)
    }
}

/// comparison: an addition followed by any number of comparison operators
/// each with an addition; with none it is the addition itself.
pub open spec fn p_comparison(t: Seq<Token>, pos: int, names: Names) -> Option<(ExprV, int, Names)>
    decreases t.len() + 1 - pos, 8int,
{
    match p_addition(t, pos, names) {
        Some((l, p, n)) => if advanced(t, pos, p) {
            comparison_tail(t, p, n, l, Seq::empty(), Seq::empty())
        } else {
            None
        },
        None => None,
    }
}

pub open spec fn comparison_tail(
    t: Seq<Token>,
    pos: int,
    names: Names,
    left: ExprV,
    ops: Seq<CmpOp>,
    comps: Seq<ExprV>,
) -> Option<(ExprV, int, Names)>
    decreases t.len() + 1 - pos, 1int,
{
    match comparison_op(tok_at(t, pos)) {
        Some(op) => match p_addition(t, pos + 1, names) {
            Some((c, p, n)) => if advanced(t, pos + 1, p) {
                comparison_tail(t, p, n, left, ops.push(op), comps.push(c))
            } else {
                None
            },
            None => None,
        },
        None => if ops.len() == 0 {
            Some((left, pos, names))
        } else {
            Some((ExprV::Compare(Box::new(left), ops, comps), pos, names))
        },
    }
}

/// addition: multiplications joined by `+` or `-`, grouped to the left.
pub open spec fn p_addition(t: Seq<Token>, pos: int, names: Names) -> Option<(ExprV, int, Names)>
    decreases t.len() + 1 - pos, 7int,
{
    match p_multiplication(t, pos, names) {
        Some((l, p, n)) => if advanced(t, pos, p) {
            add_tail(t, p, n, l)
        } else {
            None
        },
        None => None,
    }
}

pub open spec fn add_tail(t: Seq<Token>, pos: int, names: Names, left: ExprV) -> Option<(ExprV, int, Names)>
    decreases t.len() + 1 - pos, 1int,
{
    match add_op(tok_at(t, pos)) {
        Some(op) => match p_multiplication(t, pos + 1, names) {
            Some((r, p, n)) => if advanced(t, pos + 1, p) {
                add_tail(t, p, n, ExprV::BinaryOp(Box::new(left), op, Box::new(r)))
            } else {
                None
            },
            None => None,
        },
        None => Some((left, pos, names)),
    }
}

/// multiplication: powers joined by `*`, `/`, `//` or `%`, grouped to the
/// left.
pub open spec fn p_multiplication(t: Seq<Token>, pos: int, names: Names) -> Option<(ExprV, int, Names)>
    decreases t.len() + 1 - pos, 6int,
{
    match p_power(t, pos, names) {
        Some((l, p, n)) => if advanced(t, pos, p) {
            mul_tail(t, p, n, l)
        } else {
            None
        },
        None => None,
    }
}

pub open spec fn mul_tail(t: Seq<Token>, pos: int, names: Names, left: ExprV) -> Option<(ExprV, int, Names)>
    decreases t.len() + 1 - pos, 1int,
{
    match mul_op(tok_at(t, pos)) {
        Some(op) => match p_power(t, pos + 1, names) {
            Some((r, p, n)) => if advanced(t, pos + 1, p) {
                mul_tail(t, p, n, ExprV::BinaryOp(Box::new(left), op, Box::new(r)))
            } else {
                None
            },
            None => None,
        },
        None => Some((left, pos, names)),
    }
}

/// power: a unary expression, optionally `**` and another unary expression.
pub open spec fn p_power(t: Seq<Token>, pos: int, names: Names) -> Option<(ExprV, int, Names)>
    decreases t.len() + 1 - pos, 5int,
{
    match p_unary(t, pos, names) {
        Some((b, p, n)) => if advanced(t, pos, p) {
            if tok_at(t, p) is DoubleStar {
                match p_unary(t, p + 1, n) {
                    Some((e, q, n2)) => Some((ExprV::BinaryOp(Box::new(b), BinOp::Pow, Box::new(e)), q, n2)),
                    None => None,
                }
            } else {
                Some((b, p, n))
            }
        } else {
            None
        },
        None => None,
    }
}

/// unary: `-` and a postfix expression, or a postfix expression.
pub open spec fn p_unary(t: Seq<Token>, pos: int, names: Names) -> Option<(ExprV, int, Names)>
    decreases t.len() + 1 - pos, 4int,
{
    if tok_at(t, pos) is Minus {
        match p_postfix(t, pos + 1, names) {
            Some((o, p, n)) => Some((ExprV::UnaryOp(UnaryOp::Neg, Box::new(o)), p, n)),
            None => None,
        }
    } else {
        p_postfix(t, pos, names)
    }
}

/// postfix: a primary followed by calls, subscripts and attributes.
pub open spec fn p_postfix(t: Seq<Token>, pos: int, names: Names) -> Option<(ExprV, int, Names)>
    decreases t.len() + 1 - pos, 3int,
{
    match p_primary(t, pos, names) {
        Some((e, p, n)) => if advanced(t, pos, p) {
            postfix_tail(t, p, n, e)
        } else {
            None
        },
        None => None,
    }
}

pub open spec fn postfix_tail(t: Seq<Token>, pos: int, names: Names, e: ExprV) -> Option<(ExprV, int, Names)>
    decreases t.len() + 1 - pos, 1int,
{
    if tok_at(t, pos) is LeftParen {
        match call_args(t, pos + 1, names, Seq::empty()) {
            Some((args, p, n)) => if advanced(t, pos, p) {
                postfix_tail(t, p, n, ExprV::Call(Box::new(e), args))
            } else {
                None
            },
            None => None,
        }
    } else if tok_at(t, pos) is LeftBracket {
        match p_expression(t, pos + 1, names) {
            Some((i, p, n)) => if advanced(t, pos + 1, p) && tok_at(t, p) is RightBracket {
                postfix_tail(t, p + 1, n, ExprV::Index(Box::new(e), Box::new(i)))
            } else {
                None
            },
            None => None,
        }
    } else if tok_at(t, pos) is Dot {
        match tok_at(t, pos + 1) {
            Token::Identifier(s) => {
                let (n, sym) = intern_spec(names, s@);
                postfix_tail(t, pos + 2, n, ExprV::Attribute(Box::new(e), sym))
            },
            _ => None,
        }
    } else {
        Some((e, pos, names))
    }
}

/// Expressions up to and including `)`, each optionally followed by a comma,
/// appended to `acc`.
pub open spec fn call_args(t: Seq<Token>, pos: int, names: Names, acc: Seq<ExprV>) -> Option<(Seq<ExprV>, int, Names)>
    decreases t.len() + 1 - pos, 13int,
{
    if tok_at(t, pos) is RightParen {
        Some((acc, pos + 1, names))
    } else {
        match p_expression(t, pos, names) {
            Some((x, p, n)) => if advanced(t, pos, p) {
                let q = if tok_at(t, p) is Comma { p + 1 } else { p };
                call_args(t, q, n, acc.push(x))
            } else {
                None
            },
            None => None,
        }
    }
}

/// Expressions up to and including `]`, each optionally followed by a comma,
/// appended to `acc`.
pub open spec fn list_items(t: Seq<Token>, pos: int, names: Names, acc: Seq<ExprV>) -> Option<(Seq<ExprV>, int, Names)>
    decreases t.len() + 1 - pos, 13int,
{
    if tok_at(t, pos) is RightBracket {
        Some((acc, pos + 1, names))
    } else {
        match p_expression(t, pos, names) {
            Some((x, p, n)) => if advanced(t, pos, p) {
                let q = if tok_at(t, p) is Comma { p + 1 } else { p };
                list_items(t, q, n, acc.push(x))
            } else {
                None
            },
            None => None,
        }
    }
}

/// `key: value` pairs up to and including `}`, each optionally followed by
/// a comma, appended to `acc`.
pub open spec fn dict_items(t: Seq<Token>, pos: int, names: Names, acc: Seq<(ExprV, ExprV)>) -> Option<(Seq<(ExprV, ExprV)>, int, Names)>
    decreases t.len() + 1 - pos, 13int,
{
    if tok_at(t, pos) is RightBrace {
        Some((acc, pos + 1, names))
    } else {
        match p_expression(t, pos, names) {
            Some((k, p, n)) => if advanced(t, pos, p) && tok_at(t, p) is Colon {
                match p_expression(t, p + 1, n) {
                    Some((v, q, n2)) => if advanced(t, p + 1, q) {
                        let r = if tok_at(t, q) is Comma { q + 1 } else { q };
                        dict_items(t, r, n2, acc.push((k, v)))
                    } else {
                        None
                    },
                    None => None,
                }
            } else {
                None
            },
            None => None,
        }
    }
}

/// primary: a literal, a name, a parenthesized expression, a list or a dict.
pub open spec fn p_primary(t: Seq<Token>, pos: int, names: Names) -> Option<(ExprV, int, Names)>
    decreases t.len() + 1 - pos, 2int,
{
    match tok_at(t, pos) {
        Token::Integer(n) => Some((ExprV::Integer(n), pos + 1, names)),
        Token::Float(f) => Some((ExprV::Float(f@), pos + 1, names)),
        Token::StringLiteral(s) => Some((ExprV::Str(s@), pos + 1, names)),
        Token::True => Some((ExprV::Boolean(true), pos + 1, names)),
        Token::False => Some((ExprV::Boolean(false), pos + 1, names)),
        Token::NoneKw => Some((ExprV::NoneLit, pos + 1, names)),
        Token::Identifier(s) => {
            let (n, sym) = intern_spec(names, s@);
            Some((ExprV::Identifier(sym), pos + 1, n))
        },
        Token::LeftParen => match p_expression(t, pos + 1, names) {
            Some((x, p, n)) => if advanced(t, pos + 1, p) && tok_at(t, p) is RightParen {
                Some((x, p + 1, n))
            } else {
                None
            },
            None => None,
        },
        Token::LeftBracket => match list_items(t, pos + 1, names, Seq::empty()) {
            Some((xs, p, n)) => Some((ExprV::List(xs), p, n)),
            None => None,
        },
        Token::LeftBrace => match dict_items(t, pos + 1, names, Seq::empty()) {
            Some((ps, p, n)) => Some((ExprV::Dict(ps), p, n)),
            None => None,
        },
        _ => None,
    }
}

/// Parameter names up to and including `)`, each optionally followed by a
/// comma, appended to `acc`.
pub open spec fn param_list(t: Seq<Token>, pos: int, names: Names, acc: Seq<Symbol>) -> Option<(Seq<Symbol>, int, Names)>
    decreases t.len() + 1 - pos,
{
    if tok_at(t, pos) is RightParen {
        Some((acc, pos + 1, names))
    } else {
        match tok_at(t, pos) {
            Token::Identifier(s) => {
                let (n, sym) = intern_spec(names, s@);
                let q = if tok_at(t, pos + 1) is Comma { pos + 2 } else { pos + 1 };
                param_list(t, q, n, acc.push(sym))
            },
            _ => None,
        }
    }
}

/// statement: a compound statement by its keyword, `break`, `continue`,
/// `pass`, or an expression or assignment.
pub open spec fn p_statement(t: Seq<Token>, pos: int, names: Names) -> Option<(StmtV, int, Names)>
    decreases t.len() + 1 - pos, 30int,
{
    match tok_at(t, pos) {
        Token::Def => p_function_def(t, pos, names),
        Token::If => p_if(t, pos, names),
        Token::While => p_while(t, pos, names),
        Token::For => p_for(t, pos, names),
        Token::Return => p_return(t, pos, names),
        Token::Break => Some((StmtV::Break, pos + 1, names)),
        Token::Continue => Some((StmtV::Continue, pos + 1, names)),
        Token::Pass => Some((StmtV::Pass, pos + 1, names)),
        Token::Print => p_print(t, pos, names),
        _ => p_expr_or_assign(t, pos, names),
    }
}

/// `def name(params): block`
pub open spec fn p_function_def(t: Seq<Token>, pos: int, names: Names) -> Option<(StmtV, int, Names)>
    decreases t.len() + 1 - pos, 29int,
{
    if tok_at(t, pos) is Def {
        match tok_at(t, pos + 1) {
            Token::Identifier(s) => {
                let (n1, name) = intern_spec(names, s@);
                if tok_at(t, pos + 2) is LeftParen {
                    match param_list(t, pos + 3, n1, Seq::empty()) {
                        Some((params, p, n2)) => if advanced(t, pos, p) && tok_at(t, p) is Colon {
                            match p_block(t, p + 1, n2) {
                                Some((body, q, n3)) => Some((StmtV::FunctionDef(name, params, body), q, n3)),
                                None => None,
                            }
                        } else {
                            None
                        },
                        None => None,
                    }
                } else {
                    None
                }
            },
            _ => None,
        }
    } else {
        None
    }
}

/// block: newlines, `Indent`, statements separated by newlines, then a
/// `Dedent` or the end of the tokens.
pub open spec fn p_block(t: Seq<Token>, pos: int, names: Names) -> Option<(Seq<StmtV>, int, Names)>
    decreases t.len() + 1 - pos, 28int,
{
    if 0 <= pos <= t.len() {
        let q = skip_nl(t, pos);
        proof {
            lemma_skip_nl(t, pos);
        }
        if tok_at(t, q) is Indent {
            proof {
                lemma_skip_nl(t, q + 1);
            }
            block_items(t, skip_nl(t, q + 1), names, Seq::empty())
        } else {
            None
        }
    } else {
        None
    }
}

pub open spec fn block_items(t: Seq<Token>, pos: int, names: Names, acc: Seq<StmtV>) -> Option<(Seq<StmtV>, int, Names)>
    decreases t.len() + 1 - pos, 31int,
{
    if tok_at(t, pos) is Dedent {
        Some((acc, pos + 1, names))
    } else if tok_at(t, pos) is Eof {
        Some((acc, pos, names))
    } else {
        match p_statement(t, pos, names) {
            Some((s, p, n)) => if advanced(t, pos, p) {
                proof {
                    lemma_skip_nl(t, p);
                }
                block_items(t, skip_nl(t, p), n, acc.push(s))
            } else {
                None
            },
            None => None,
        }
    }
}

/// `if cond: block`, any number of `elif cond: block`, optionally
/// `else: block`.
pub open spec fn p_if(t: Seq<Token>, pos: int, names: Names) -> Option<(StmtV, int, Names)>
    decreases t.len() + 1 - pos, 29int,
{
    if tok_at(t, pos) is If {
        match p_expression(t, pos + 1, names) {
            Some((c, p, n)) => if advanced(t, pos + 1, p) && tok_at(t, p) is Colon {
                match p_block(t, p + 1, n) {
                    Some((body, q, n2)) => if advanced(t, p + 1, q) {
                        match elif_tail(t, q, n2, Seq::empty()) {
                            Some((elifs, r, n3)) => if q <= r <= t.len() {
                                if tok_at(t, r) is Else {
                                    if tok_at(t, r + 1) is Colon {
                                        match p_block(t, r + 2, n3) {
                                            Some((eb, w, n4)) => Some((StmtV::If(c, body, elifs, Some(eb)), w, n4)),
                                            None => None,
                                        }
                                    } else {
                                        None
                                    }
                                } else {
                                    Some((StmtV::If(c, body, elifs, None), r, n3))
                                }
                            } else {
                                None
                            },
                            None => None,
                        }
                    } else {
                        None
                    },
                    None => None,
                }
            } else {
                None
            },
            None => None,
        }
    } else {
        None
    }
}

pub open spec fn elif_tail(t: Seq<Token>, pos: int, names: Names, acc: Seq<(ExprV, Seq<StmtV>)>) -> Option<(Seq<(ExprV, Seq<StmtV>)>, int, Names)>
    decreases t.len() + 1 - pos, 1int,
{
    if tok_at(t, pos) is Elif {
        match p_expression(t, pos + 1, names) {
            Some((c, p, n)) => if advanced(t, pos + 1, p) && tok_at(t, p) is Colon {
                match p_block(t, p + 1, n) {
                    Some((b, q, n2)) => if advanced(t, p + 1, q) {
                        elif_tail(t, q, n2, acc.push((c, b)))
                    } else {
                        None
                    },
                    None => None,
                }
            } else {
                None
            },
            None => None,
        }
    } else {
        Some((acc, pos, names))
    }
}

/// `while cond: block`
pub open spec fn p_while(t: Seq<Token>, pos: int, names: Names) -> Option<(StmtV, int, Names)>
    decreases t.len() + 1 - pos, 29int,
{
    if tok_at(t, pos) is While {
        match p_expression(t, pos + 1, names) {
            Some((c, p, n)) => if advanced(t, pos + 1, p) && tok_at(t, p) is Colon {
                match p_block(t, p + 1, n) {
                    Some((body, q, n2)) => Some((StmtV::While(c, body), q, n2)),
                    None => None,
                }
            } else {
                None
            },
            None => None,
        }
    } else {
        None
    }
}

/// `for name in expr: block`
pub open spec fn p_for(t: Seq<Token>, pos: int, names: Names) -> Option<(StmtV, int, Names)>
    decreases t.len() + 1 - pos, 29int,
{
    if tok_at(t, pos) is For {
        match tok_at(t, pos + 1) {
            Token::Identifier(s) => {
                let (n1, target) = intern_spec(names, s@);
                if tok_at(t, pos + 2) is In {
                    match p_expression(t, pos + 3, n1) {
                        Some((it, p, n2)) => if advanced(t, pos + 3, p) && tok_at(t, p) is Colon {
                            match p_block(t, p + 1, n2) {
                                Some((body, q, n3)) => Some((StmtV::For(target, it, body), q, n3)),
                                None => None,
                            }
                        } else {
                            None
                        },
                        None => None,
                    }
                } else {
                    None
                }
            },
            _ => None,
        }
    } else {
        None
    }
}

/// `return`, with an expression unless a newline, `Dedent` or the end
/// follows.
pub open spec fn p_return(t: Seq<Token>, pos: int, names: Names) -> Option<(StmtV, int, Names)>
    decreases t.len() + 1 - pos, 29int,
{
    if tok_at(t, pos) is Return {
        let nx = tok_at(t, pos + 1);
        if nx is Newline || nx is Eof || nx is Dedent {
            Some((StmtV::Return(None), pos + 1, names))
        } else {
            match p_expression(t, pos + 1, names) {
                Some((e, p, n)) => Some((StmtV::Return(Some(e)), p, n)),
                None => None,
            }
        }
    } else {
        None
    }
}

/// `print(args)`
pub open spec fn p_print(t: Seq<Token>, pos: int, names: Names) -> Option<(StmtV, int, Names)>
    decreases t.len() + 1 - pos, 29int,
{
    if tok_at(t, pos) is Print && tok_at(t, pos + 1) is LeftParen {
        match call_args(t, pos + 2, names, Seq::empty()) {
            Some((args, p, n)) => Some((StmtV::Print(args), p, n)),
            None => None,
        }
    } else {
        None
    }
}

/// An expression statement, or an assignment or augmented assignment to a
/// name.
pub open spec fn p_expr_or_assign(t: Seq<Token>, pos: int, names: Names) -> Option<(StmtV, int, Names)>
    decreases t.len() + 1 - pos, 29int,
{
    match p_expression(t, pos, names) {
        Some((e, p, n)) => if advanced(t, pos, p) {
            if tok_at(t, p) is Assign {
                match e {
                    ExprV::Identifier(target) => match p_expression(t, p + 1, n) {
                        Some((v, q, n2)) => Some((StmtV::Assign(target, v), q, n2)),
                        None => None,
                    },
                    _ => None,
                }
            } else if aug_op(tok_at(t, p)) is Some {
                match e {
                    ExprV::Identifier(target) => match p_expression(t, p + 1, n) {
                        Some((v, q, n2)) => Some((StmtV::AugAssign(target, aug_op(tok_at(t, p))->Some_0, v), q, n2)),
                        None => None,
                    },
                    _ => None,
                }
            } else {
                Some((StmtV::Expression(e), p, n))
            }
        } else {
            None
        },
        None => None,
    }
}

/// A program: statements separated by newlines up to `Eof`, appended to
/// `acc`.
pub open spec fn program(t: Seq<Token>, pos: int, names: Names, acc: Seq<StmtV>) -> Option<(Seq<StmtV>, Names)>
    decreases t.len() + 1 - pos,
{
    if tok_at(t, pos) is Eof {
        Some((acc, names))
    } else {
        match p_statement(t, pos, names) {
            Some((s, p, n)) => if advanced(t, pos, p) {
                proof {
                    lemma_skip_nl(t, p);
                }
                program(t, skip_nl(t, p), n, acc.push(s))
            } else {
                None
            },
            None => None,
        }
    }
}

/// The interner's `intern` computes `intern_spec`.
pub proof fn lemma_intern_spec(before: Names, after: Names, name: Seq<char>, sym: Symbol)
    requires
        distinct_names(before),
        interned(before, after, name, sym),
    ensures
        (after, sym) == intern_spec(before, name),
{
    if before.contains(name) {
        let i = before.index_of(name);
        assert(before[i] == name);
        assert(before[sym.0 as int] == name);
        assert(i == sym.0 as int);
    }
}

pub proof fn lemma_exprs_push(es: Seq<Expr>, e: Expr)
    ensures
        exprs_view(es.push(e)) == exprs_view(es).push(expr_view(e)),
{
    assert(es.push(e).drop_last() =~= es);
}

pub proof fn lemma_pairs_push(ps: Seq<(Expr, Expr)>, p: (Expr, Expr))
    ensures
        expr_pairs_view(ps.push(p)) == expr_pairs_view(ps).push((expr_view(p.0), expr_view(p.1))),
{
    assert(ps.push(p).drop_last() =~= ps);
}

pub proof fn lemma_stmts_push(ss: Seq<Stmt>, s: Stmt)
    ensures
        stmts_view(ss.push(s)) == stmts_view(ss).push(stmt_view(s)),
{
    assert(ss.push(s).drop_last() =~= ss);
}

pub proof fn lemma_elifs_push(cs: Seq<(Expr, Vec<Stmt>)>, c: (Expr, Vec<Stmt>))
    ensures
        elifs_view(cs.push(c)) == elifs_view(cs).push((expr_view(c.0), stmts_view(c.1@))),
{
    assert(cs.push(c).drop_last() =~= cs);
}

/// What a parse of an expression gave, against the grammar's answer `s`.
pub open spec fn expr_outcome(s: Option<(ExprV, int, Names)>, r: Result<Expr, String>, pos: int, names: Names) -> bool {
    match s {
        Some((v, p, n)) => r matches Ok(x) && expr_view(x) == v && pos == p && names == n,
        None => r is Err,
    }
}

/// What a parse of a statement gave, against the grammar's answer `s`.
pub open spec fn stmt_outcome(s: Option<(StmtV, int, Names)>, r: Result<Stmt, String>, pos: int, names: Names) -> bool {
    match s {
        Some((v, p, n)) => r matches Ok(x) && stmt_view(x) == v && pos == p && names == n,
        None => r is Err,
    }
}

/// What a parse of a block gave, against the grammar's answer `s`.
pub open spec fn block_outcome(s: Option<(Seq<StmtV>, int, Names)>, r: Result<Vec<Stmt>, String>, pos: int, names: Names) -> bool {
    match s {
        Some((v, p, n)) => r matches Ok(x) && stmts_view(x@) == v && pos == p && names == n,
        None => r is Err,
    }
}

} // verus!
