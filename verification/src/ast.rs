//! The syntax tree produced by the parser.
use vstd::prelude::*;

use crate::grammar::{
    elifs_view, expr_pairs_view, expr_view, exprs_view, lemma_elifs_push, lemma_exprs_push,
    lemma_pairs_push, lemma_stmts_push, stmt_view, stmts_view,
};
use crate::symbol::Symbol;

verus! {

#[derive(Debug, Clone, Copy, PartialEq, Eq, Structural)]
pub enum BinOp {
    Add,
    Sub,
    Mul,
    Div,
    FloorDiv,
    Mod,
    Pow,
    And,
    Or,
}

#[derive(Debug, Clone, Copy, PartialEq, Eq, Structural)]
pub enum UnaryOp {
    Neg,
    Not,
}

#[derive(Debug, Clone, Copy, PartialEq, Eq, Structural)]
pub enum CmpOp {
    Eq,
    NotEq,
    Lt,
    LtE,
    Gt,
    GtE,
    In,
    NotIn,
}

/// An expression. A float literal keeps the text it was written with.
#[derive(Debug, PartialEq)]
pub enum Expr {
    Integer(i64),
    Float(String),
    StringLiteral(String),
    Boolean(bool),
    NoneLit,
    Identifier(Symbol),
    BinaryOp { left: Box<Expr>, op: BinOp, right: Box<Expr> },
    UnaryOp { op: UnaryOp, operand: Box<Expr> },
    Call { function: Box<Expr>, args: Vec<Expr> },
    Index { object: Box<Expr>, index: Box<Expr> },
    Attribute { object: Box<Expr>, name: Symbol },
    List(Vec<Expr>),
    Dict(Vec<(Expr, Expr)>),
    Compare { left: Box<Expr>, ops: Vec<CmpOp>, comparators: Vec<Expr> },
}

#[derive(Debug, PartialEq)]
pub enum Stmt {
    Expression(Expr),
    Assign { target: Symbol, value: Expr },
    AugAssign { target: Symbol, op: BinOp, value: Expr },
    Print(Vec<Expr>),
    If {
        condition: Expr,
        body: Vec<Stmt>,
        elif_clauses: Vec<(Expr, Vec<Stmt>)>,
        else_body: Option<Vec<Stmt>>,
    },
    While { condition: Expr, body: Vec<Stmt> },
    For { target: Symbol, iter: Expr, body: Vec<Stmt> },
    FunctionDef { name: Symbol, params: Vec<Symbol>, body: Vec<Stmt> },
    Return(Option<Expr>),
    Break,
    Continue,
    Pass,
}


impl Expr {
    /// A copy of the expression.
    pub fn copy(&self) -> (r: Expr)
        ensures
            expr_view(r) == expr_view(*self),
        decreases self, 1int,
    {
        let ghost g: Expr = *self;
        match self {
            Expr::Integer(n) => Expr::Integer(*n),
            Expr::Float(t) => Expr::Float(t.clone()),
            Expr::StringLiteral(t) => Expr::StringLiteral(t.clone()),
            Expr::Boolean(b) => Expr::Boolean(*b),
            Expr::NoneLit => Expr::NoneLit,
            Expr::Identifier(name) => Expr::Identifier(*name),
            Expr::BinaryOp { left, op, right } => Expr::BinaryOp {
                left: Box::new(left.copy()),
                op: *op,
                right: Box::new(right.copy()),
            },
            Expr::UnaryOp { op, operand } => Expr::UnaryOp { op: *op, operand: Box::new(operand.copy()) },
            Expr::Call { function, args } => {
                proof {
                    assert(decreases_to!(g => g->args@));
                }
                Expr::Call { function: Box::new(function.copy()), args: copy_exprs(args.as_slice()) }
            },
            Expr::Index { object, index } => Expr::Index {
                object: Box::new(object.copy()),
                index: Box::new(index.copy()),
            },
            Expr::Attribute { object, name } => Expr::Attribute {
                object: Box::new(object.copy()),
                name: *name,
            },
            Expr::List(items) => {
                proof {
                    assert(decreases_to!(g => g->List_0@));
                }
                Expr::List(copy_exprs(items.as_slice()))
            },
            Expr::Dict(pairs) => {
                proof {
                    assert(decreases_to!(g => g->Dict_0@));
                }
                let mut out: Vec<(Expr, Expr)> = Vec::new();
                let mut i: usize = 0;
                proof {
                    assert(pairs@.subrange(0, 0) =~= Seq::<(Expr, Expr)>::empty());
                    assert(out@ =~= Seq::<(Expr, Expr)>::empty());
                }
                while i < pairs.len()
                    invariant
                        g == *self,
                        g == Expr::Dict(*pairs),
                        i <= pairs@.len(),
                        expr_pairs_view(out@) == expr_pairs_view(pairs@.subrange(0, i as int)),
                    decreases pairs@.len() - i,
                {
                    proof {
                        assert(decreases_to!(g => g->Dict_0@[i as int].0));
                        assert(decreases_to!(g => g->Dict_0@[i as int].1));
                    }
                    let k = pairs[i].0.copy();
                    let v = pairs[i].1.copy();
                    proof {
                        lemma_pairs_push(out@, (k, v));
                        lemma_pairs_push(pairs@.subrange(0, i as int), pairs@[i as int]);
                        assert(pairs@.subrange(0, i as int).push(pairs@[i as int]) =~= pairs@.subrange(0, i + 1));
                    }
                    out.push((k, v));
                    i = i + 1;
                }
                proof {
                    assert(pairs@.subrange(0, pairs@.len() as int) =~= pairs@);
                }
                Expr::Dict(out)
            },
            Expr::Compare { left, ops, comparators } => {
                proof {
                    assert(decreases_to!(g => g->comparators@));
                }
                let mut new_ops: Vec<CmpOp> = Vec::new();
                let mut i: usize = 0;
                while i < ops.len()
                    invariant
                        i <= ops@.len(),
                        new_ops@ == ops@.subrange(0, i as int),
                    decreases ops@.len() - i,
                {
                    new_ops.push(ops[i]);
                    proof {
                        assert(ops@.subrange(0, i + 1) =~= ops@.subrange(0, i as int).push(ops@[i as int]));
                    }
                    i = i + 1;
                }
                proof {
                    assert(ops@.subrange(0, ops@.len() as int) =~= ops@);
                }
                Expr::Compare {
                    left: Box::new(left.copy()),
                    ops: new_ops,
                    comparators: copy_exprs(comparators.as_slice()),
                }
            },
        }
    }
}

/// Copies of the expressions.
pub fn copy_exprs(es: &[Expr]) -> (r: Vec<Expr>)
    ensures
        r@.len() == es@.len(),
        exprs_view(r@) == exprs_view(es@),
    decreases es@, 0int,
{
    let mut out: Vec<Expr> = Vec::new();
    let mut i: usize = 0;
    proof {
        assert(out@ =~= es@.subrange(0, 0));
    }
    while i < es.len()
        invariant
            i <= es@.len(),
            out@.len() == i,
            exprs_view(out@) == exprs_view(es@.subrange(0, i as int)),
        decreases es@.len() - i,
    {
        proof {
            assert(decreases_to!(es@ => es@[i as int]));
        }
        let e = es[i].copy();
        proof {
            lemma_exprs_push(out@, e);
            lemma_exprs_push(es@.subrange(0, i as int), es@[i as int]);
            assert(es@.subrange(0, i as int).push(es@[i as int]) =~= es@.subrange(0, i + 1));
        }
        out.push(e);
        i = i + 1;
    }
    proof {
        assert(es@.subrange(0, es@.len() as int) =~= es@);
    }
    out
}

impl Stmt {
    /// A copy of the statement.
    pub fn copy(&self) -> (r: Stmt)
        ensures
            stmt_view(r) == stmt_view(*self),
        decreases self, 1int,
    {
        let ghost g: Stmt = *self;
        match self {
            Stmt::Expression(e) => Stmt::Expression(e.copy()),
            Stmt::Assign { target, value } => Stmt::Assign { target: *target, value: value.copy() },
            Stmt::AugAssign { target, op, value } => Stmt::AugAssign {
                target: *target,
                op: *op,
                value: value.copy(),
            },
            Stmt::Print(args) => Stmt::Print(copy_exprs(args.as_slice())),
            Stmt::If { condition, body, elif_clauses, else_body } => {
                proof {
                    assert(decreases_to!(g => g->If_body@));
                }
                let new_body = copy_stmts(body.as_slice());
                let mut elifs: Vec<(Expr, Vec<Stmt>)> = Vec::new();
                let mut i: usize = 0;
                proof {
                    assert(elifs@ =~= elif_clauses@.subrange(0, 0));
                }
                while i < elif_clauses.len()
                    invariant
                        g == *self,
                        g == (Stmt::If { condition: *condition, body: *body, elif_clauses: *elif_clauses, else_body: *else_body }),
                        i <= elif_clauses@.len(),
                        elifs_view(elifs@) == elifs_view(elif_clauses@.subrange(0, i as int)),
                    decreases elif_clauses@.len() - i,
                {
                    proof {
                        assert(decreases_to!(g => g->elif_clauses@[i as int].1@));
                    }
                    let c = elif_clauses[i].0.copy();
                    let b = copy_stmts(elif_clauses[i].1.as_slice());
                    proof {
                        lemma_elifs_push(elifs@, (c, b));
                        lemma_elifs_push(elif_clauses@.subrange(0, i as int), elif_clauses@[i as int]);
                        assert(elif_clauses@.subrange(0, i as int).push(elif_clauses@[i as int]) =~= elif_clauses@.subrange(0, i + 1));
                    }
                    elifs.push((c, b));
                    i = i + 1;
                }
                proof {
                    assert(elif_clauses@.subrange(0, elif_clauses@.len() as int) =~= elif_clauses@);
                }
                let new_else = match else_body {
                    Some(b) => {
                        proof {
                            assert(decreases_to!(g => g->else_body->Some_0@));
                        }
                        Some(copy_stmts(b.as_slice()))
                    },
                    None => None,
                };
                Stmt::If {
                    condition: condition.copy(),
                    body: new_body,
                    elif_clauses: elifs,
                    else_body: new_else,
                }
            },
            Stmt::While { condition, body } => {
                proof {
                    assert(decreases_to!(g => g->While_body@));
                }
                Stmt::While { condition: condition.copy(), body: copy_stmts(body.as_slice()) }
            },
            Stmt::For { target, iter, body } => {
                proof {
                    assert(decreases_to!(g => g->For_body@));
                }
                Stmt::For { target: *target, iter: iter.copy(), body: copy_stmts(body.as_slice()) }
            },
            Stmt::FunctionDef { name, params, body } => {
                proof {
                    assert(decreases_to!(g => g->FunctionDef_body@));
                }
                let mut new_params: Vec<Symbol> = Vec::new();
                let mut i: usize = 0;
                while i < params.len()
                    invariant
                        i <= params@.len(),
                        new_params@ == params@.subrange(0, i as int),
                    decreases params@.len() - i,
                {
                    new_params.push(params[i]);
                    proof {
                        assert(params@.subrange(0, i + 1) =~= params@.subrange(0, i as int).push(params@[i as int]));
                    }
                    i = i + 1;
                }
                proof {
                    assert(params@.subrange(0, params@.len() as int) =~= params@);
                }
                Stmt::FunctionDef { name: *name, params: new_params, body: copy_stmts(body.as_slice()) }
            },
            Stmt::Return(e) => match e {
                Some(x) => Stmt::Return(Some(x.copy())),
                None => Stmt::Return(None),
            },
            Stmt::Break => Stmt::Break,
            Stmt::Continue => Stmt::Continue,
            Stmt::Pass => Stmt::Pass,
        }
    }
}

/// Copies of the statements.
pub fn copy_stmts(ss: &[Stmt]) -> (r: Vec<Stmt>)
    ensures
        r@.len() == ss@.len(),
        stmts_view(r@) == stmts_view(ss@),
    decreases ss@, 0int,
{
    let mut out: Vec<Stmt> = Vec::new();
    let mut i: usize = 0;
    proof {
        assert(out@ =~= ss@.subrange(0, 0));
    }
    while i < ss.len()
        invariant
            i <= ss@.len(),
            out@.len() == i,
            stmts_view(out@) == stmts_view(ss@.subrange(0, i as int)),
        decreases ss@.len() - i,
    {
        proof {
            assert(decreases_to!(ss@ => ss@[i as int]));
        }
        let st = ss[i].copy();
        proof {
            lemma_stmts_push(out@, st);
            lemma_stmts_push(ss@.subrange(0, i as int), ss@[i as int]);
            assert(ss@.subrange(0, i as int).push(ss@[i as int]) =~= ss@.subrange(0, i + 1));
        }
        out.push(st);
        i = i + 1;
    }
    proof {
        assert(ss@.subrange(0, ss@.len() as int) =~= ss@);
    }
    out
}

} // verus!
