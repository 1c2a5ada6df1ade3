//! A recursive-descent parser from tokens to statements.
use vstd::prelude::*;

use crate::ast::{BinOp, CmpOp, Expr, Stmt, UnaryOp};
use crate::grammar::{
    add_op, aug_op, block_items, block_outcome, call_args, comparison_tail, dict_items, elif_tail, elifs_view,
    expr_outcome, expr_pairs_view, expr_view, exprs_view, intern_spec, lemma_elifs_push,
    lemma_exprs_push, lemma_intern_spec, lemma_pairs_push, lemma_stmts_push, list_items, p_addition,
    p_and, p_block, p_comparison, p_expr_or_assign, p_expression, p_for, p_function_def, p_if,
    p_multiplication, p_not, p_or, p_postfix, p_power, p_primary, p_print, p_return, p_statement,
    p_unary, p_while, param_list, postfix_tail, program, skip_nl, stmt_outcome, stmts_view, tok_at,
    and_tail, mul_tail, or_tail, add_tail, ExprV, StmtV,
};
use crate::symbol::{Interner, Symbol};
use crate::text::{concat, decimal_digits, owned, u64_text};
use crate::token::{token_text, token_text_spec, Token};

verus! {

/// Whether a token carries no data.
pub open spec fn fieldless(t: Token) -> bool {
    !(t is Integer || t is Float || t is StringLiteral || t is Boolean || t is Identifier)
}

/// Whether `a` is the data-less token `b`.
fn same_kind(a: &Token, b: &Token) -> (r: bool)
    requires
        fieldless(*b),
    ensures
        r == (*a == *b),
{
    match b {
        Token::Def => matches!(a, Token::Def),
        Token::Return => matches!(a, Token::Return),
        Token::If => matches!(a, Token::If),
        Token::Elif => matches!(a, Token::Elif),
        Token::Else => matches!(a, Token::Else),
        Token::While => matches!(a, Token::While),
        Token::For => matches!(a, Token::For),
        Token::In => matches!(a, Token::In),
        Token::Break => matches!(a, Token::Break),
        Token::Continue => matches!(a, Token::Continue),
        Token::Pass => matches!(a, Token::Pass),
        Token::NoneKw => matches!(a, Token::NoneKw),
        Token::True => matches!(a, Token::True),
        Token::False => matches!(a, Token::False),
        Token::And => matches!(a, Token::And),
        Token::Or => matches!(a, Token::Or),
        Token::Not => matches!(a, Token::Not),
        Token::Print => matches!(a, Token::Print),
        Token::Class => matches!(a, Token::Class),
        Token::Import => matches!(a, Token::Import),
        Token::From => matches!(a, Token::From),
        Token::As => matches!(a, Token::As),
        Token::Plus => matches!(a, Token::Plus),
        Token::Minus => matches!(a, Token::Minus),
        Token::Star => matches!(a, Token::Star),
        Token::Slash => matches!(a, Token::Slash),
        Token::DoubleSlash => matches!(a, Token::DoubleSlash),
        Token::Percent => matches!(a, Token::Percent),
        Token::DoubleStar => matches!(a, Token::DoubleStar),
        Token::Assign => matches!(a, Token::Assign),
        Token::PlusAssign => matches!(a, Token::PlusAssign),
        Token::MinusAssign => matches!(a, Token::MinusAssign),
        Token::StarAssign => matches!(a, Token::StarAssign),
        Token::SlashAssign => matches!(a, Token::SlashAssign),
        Token::Equal => matches!(a, Token::Equal),
        Token::NotEqual => matches!(a, Token::NotEqual),
        Token::Less => matches!(a, Token::Less),
        Token::LessEqual => matches!(a, Token::LessEqual),
        Token::Greater => matches!(a, Token::Greater),
        Token::GreaterEqual => matches!(a, Token::GreaterEqual),
        Token::LeftParen => matches!(a, Token::LeftParen),
        Token::RightParen => matches!(a, Token::RightParen),
        Token::LeftBracket => matches!(a, Token::LeftBracket),
        Token::RightBracket => matches!(a, Token::RightBracket),
        Token::LeftBrace => matches!(a, Token::LeftBrace),
        Token::RightBrace => matches!(a, Token::RightBrace),
        Token::Comma => matches!(a, Token::Comma),
        Token::Colon => matches!(a, Token::Colon),
        Token::Dot => matches!(a, Token::Dot),
        Token::Arrow => matches!(a, Token::Arrow),
        Token::Indent => matches!(a, Token::Indent),
        Token::Dedent => matches!(a, Token::Dedent),
        Token::Newline => matches!(a, Token::Newline),
        Token::Eof => matches!(a, Token::Eof),
        _ => false,
    }
}

/// An error naming a token: the prefix, then the token as `token_text`
/// names it.
fn token_message(prefix: &str, t: &Token) -> (r: String)
    ensures
        r@ == prefix@ + token_text_spec(*t),
{
    concat(prefix, token_text(t).as_str())
}

/// The error of a failed `expect`: what was expected, what came, and where.
fn expect_message(expected: &Token, got: &Token, pos: usize) -> (r: String)
    ensures
        r@ == "Expected "@ + token_text_spec(*expected) + ", got "@ + token_text_spec(*got) + " at position "@
            + decimal_digits(pos as nat),
{
    let mut r = owned("Expected ");
    r.append(token_text(expected).as_str());
    r.append(", got ");
    r.append(token_text(got).as_str());
    r.append(" at position ");
    r.append(u64_text(pos as u64).as_str());
    r
}

pub struct Parser {
    tokens: Vec<Token>,
    pos: usize,
    // what `current` reports past the last token
    eof: Token,
}

impl Parser {
    pub fn new(tokens: Vec<Token>) -> (r: Self)
        requires
            tokens@.len() < usize::MAX,
        ensures
            r.wf(),
            r.tokens() == tokens@,
            r.position() == 0,
    {
        Parser { tokens, pos: 0, eof: Token::Eof }
    }

    pub closed spec fn tokens(&self) -> Seq<Token> {
        self.tokens@
    }

    pub closed spec fn position(&self) -> int {
        self.pos as int
    }

    /// The parser's invariant: the position lies within the token stream.
    pub closed spec fn wf(&self) -> bool {
        &&& self.tokens@.len() < usize::MAX
        &&& self.pos <= self.tokens@.len()
        &&& self.eof == Token::Eof
    }

    /// Each remaining token can intern at most one new name, so the interner
    /// stays below its limit of `u32::MAX` names.
    pub closed spec fn room(&self, interned: nat) -> bool {
        interned + self.tokens@.len() < u32::MAX + self.pos
    }

    /// Same tokens and end marker.
    pub closed spec fn same_stream(&self, other: &Parser) -> bool {
        &&& self.tokens == other.tokens
        &&& self.eof == other.eof
    }

    closed spec fn cur(&self) -> Token {
        tok_at(self.tokens@, self.pos as int)
    }

    fn current(&self) -> (r: &Token)
        requires
            self.eof == Token::Eof,
        ensures
            *r == self.cur(),
    {
        if self.pos < self.tokens.len() {
            &self.tokens[self.pos]
        } else {
            &self.eof
        }
    }

    fn at(&self, k: &Token) -> (r: bool)
        requires
            self.eof == Token::Eof,
            fieldless(*k),
        ensures
            r == (self.cur() == *k),
    {
        same_kind(self.current(), k)
    }

    fn advance(&mut self) -> (t: Token)
        requires
            old(self).eof == Token::Eof,
            old(self).pos <= old(self).tokens@.len(),
            old(self).tokens@.len() < usize::MAX,
        ensures
            t == old(self).cur(),
            final(self).same_stream(old(self)),
            final(self).pos == old(self).pos + 1,
    {
        let tok = self.current().copy();
        self.pos = self.pos + 1;
        tok
    }

    fn expect(&mut self, expected: &Token) -> (r: Result<(), String>)
        requires
            old(self).wf(),
            fieldless(*expected),
            !(*expected is Eof),
        ensures
            final(self).same_stream(old(self)),
            r is Ok <==> old(self).cur() == *expected,
            r is Ok ==> final(self).pos == old(self).pos + 1 && final(self).pos <= final(self).tokens@.len(),
            r is Err ==> final(self).pos == old(self).pos,
    {
        if self.at(expected) {
            self.advance();
            Ok(())
        } else {
            Err(expect_message(expected, self.current(), self.pos))
        }
    }

    fn at_end(&self) -> (r: bool)
        requires
            self.eof == Token::Eof,
        ensures
            r == (self.cur() is Eof),
    {
        self.at(&Token::Eof)
    }

    fn skip_newlines(&mut self)
        requires
            old(self).wf(),
        ensures
            final(self).wf(),
            final(self).same_stream(old(self)),
            final(self).pos >= old(self).pos,
            final(self).pos == skip_nl(old(self).tokens@, old(self).pos as int),
            !(final(self).cur() is Newline),
    {
        while self.at(&Token::Newline)
            invariant
                self.wf(),
                self.same_stream(old(self)),
                self.pos >= old(self).pos,
                skip_nl(self.tokens@, old(self).pos as int) == skip_nl(self.tokens@, self.pos as int),
            decreases self.tokens@.len() - self.pos,
        {
            self.advance();
        }
    }

    /// Parses the rest of the token stream, after its leading newlines, into
    /// statements: exactly the `program` of the grammar, interning the names
    /// it reads. Started at the front of a stream from `Parser::new`, that is
    /// the whole program.
    pub fn parse(&mut self, interner: &mut Interner) -> (r: Result<Vec<Stmt>, String>)
        requires
            old(self).wf(),
            old(interner).wf(),
            old(self).room(old(interner)@.len()),
        ensures
            final(interner).wf(),
            final(self).tokens() == old(self).tokens(),
            (match program(old(self).tokens(), skip_nl(old(self).tokens(), old(self).position()), old(interner)@, Seq::empty()) {
                Some((stmts, names)) => r matches Ok(v) && stmts_view(v@) == stmts && final(interner)@ == names,
                None => r is Err,
            }),
    {
        let ghost t = self.tokens@;
        let mut stmts: Vec<Stmt> = Vec::new();
        self.skip_newlines();
        let ghost total = program(t, self.pos as int, interner@, Seq::empty());
        assert(stmts_view(stmts@) =~= Seq::<StmtV>::empty());
        while !self.at_end()
            invariant
                self.wf(),
                interner.wf(),
                self.room(interner@.len()),
                self.same_stream(old(self)),
                self.tokens@ == t,
                total == program(t, self.pos as int, interner@, stmts_view(stmts@)),
                total == program(t, skip_nl(t, old(self).pos as int), old(interner)@, Seq::empty()),
            decreases self.tokens@.len() - self.pos,
        {
            match self.parse_statement(interner) {
                Ok(s) => {
                    proof {
                        lemma_stmts_push(stmts@, s);
                    }
                    stmts.push(s);
                },
                Err(e) => return Err(e),
            }
            self.skip_newlines();
        }
        Ok(stmts)
    }

    #[verifier::rlimit(40)]
    #[verifier::spinoff_prover]
    fn parse_statement(&mut self, interner: &mut Interner) -> (r: Result<Stmt, String>)
        requires
            old(self).wf(),
            old(interner).wf(),
            old(self).room(old(interner)@.len()),
        ensures
            final(self).same_stream(old(self)),
            final(self).pos >= old(self).pos,
            final(self).pos <= final(self).tokens@.len() + 1,
            final(interner).wf(),
            final(self).room(final(interner)@.len()),
            r is Ok ==> final(self).pos > old(self).pos && final(self).pos <= final(self).tokens@.len(),
            stmt_outcome(p_statement(old(self).tokens@, old(self).pos as int, old(interner)@), r, final(self).pos as int, final(interner)@),
        decreases old(self).tokens@.len() - old(self).pos, 30int,
    {
        if self.at(&Token::Def) {
            self.parse_function_def(interner)
        } else if self.at(&Token::If) {
            self.parse_if(interner)
        } else if self.at(&Token::While) {
            self.parse_while(interner)
        } else if self.at(&Token::For) {
            self.parse_for(interner)
        } else if self.at(&Token::Return) {
            self.parse_return(interner)
        } else if self.at(&Token::Break) {
            self.advance();
            Ok(Stmt::Break)
        } else if self.at(&Token::Continue) {
            self.advance();
            Ok(Stmt::Continue)
        } else if self.at(&Token::Pass) {
            self.advance();
            Ok(Stmt::Pass)
        } else if self.at(&Token::Print) {
            self.parse_print(interner)
        } else {
            self.parse_expr_or_assign(interner)
        }
    }

    /// Reads an identifier token and interns its name; any other token is
    /// given back.
    fn name_at(&mut self, interner: &mut Interner) -> (r: Result<Symbol, Token>)
        requires
            old(self).wf(),
            old(interner).wf(),
            old(self).room(old(interner)@.len()),
        ensures
            final(self).same_stream(old(self)),
            final(self).pos == old(self).pos + 1,
            final(interner).wf(),
            final(self).room(final(interner)@.len()),
            (match old(self).cur() {
                Token::Identifier(s) => r == Ok::<Symbol, Token>(intern_spec(old(interner)@, s@).1)
                    && final(interner)@ == intern_spec(old(interner)@, s@).0,
                _ => r == Err::<Symbol, Token>(old(self).cur()) && final(interner)@ == old(interner)@,
            }),
    {
        match self.advance() {
            Token::Identifier(n) => {
                let sym = interner.intern(n.as_str());
                proof {
                    lemma_intern_spec(old(interner)@, interner@, n@, sym);
                }
                Ok(sym)
            },
            t => Err(t),
        }
    }

    #[verifier::loop_isolation(false)]
    #[verifier::rlimit(40)]
    #[verifier::spinoff_prover]
    fn parse_function_def(&mut self, interner: &mut Interner) -> (r: Result<Stmt, String>)
        requires
            old(self).wf(),
            old(interner).wf(),
            old(self).room(old(interner)@.len()),
        ensures
            final(self).same_stream(old(self)),
            final(self).pos >= old(self).pos,
            final(self).pos <= final(self).tokens@.len() + 1,
            final(interner).wf(),
            final(self).room(final(interner)@.len()),
            r is Ok ==> final(self).pos > old(self).pos && final(self).pos <= final(self).tokens@.len(),
            stmt_outcome(p_function_def(old(self).tokens@, old(self).pos as int, old(interner)@), r, final(self).pos as int, final(interner)@),
        decreases old(self).tokens@.len() - old(self).pos, 29int,
    {
        let ghost t = self.tokens@;
        match self.expect(&Token::Def) {
            Ok(()) => {},
            Err(e) => return Err(e),
        }
        let name = match self.name_at(interner) {
            Ok(sym) => sym,
            Err(t) => return Err(token_message("Expected function name, got ", &t)),
        };
        match self.expect(&Token::LeftParen) {
            Ok(()) => {},
            Err(e) => return Err(e),
        }
        let ghost total = param_list(t, self.pos as int, interner@, Seq::empty());
        let mut params: Vec<Symbol> = Vec::new();
        while !self.at(&Token::RightParen)
            invariant
                self.wf(),
                interner.wf(),
                self.room(interner@.len()),
                self.same_stream(old(self)),
                self.pos > old(self).pos,
                self.tokens@ == t,
                total == param_list(t, self.pos as int, interner@, params@),
            decreases self.tokens@.len() - self.pos,
        {
            match self.name_at(interner) {
                Ok(sym) => params.push(sym),
                Err(t) => return Err(token_message("Expected parameter name, got ", &t)),
            }
            if self.at(&Token::Comma) {
                self.advance();
            }
        }
        match self.expect(&Token::RightParen) {
            Ok(()) => {},
            Err(e) => return Err(e),
        }
        match self.expect(&Token::Colon) {
            Ok(()) => {},
            Err(e) => return Err(e),
        }
        let body = match self.parse_block(interner) {
            Ok(b) => b,
            Err(e) => return Err(e),
        };
        Ok(Stmt::FunctionDef { name, params, body })
    }

    #[verifier::loop_isolation(false)]
    #[verifier::rlimit(40)]
    #[verifier::spinoff_prover]
    fn parse_block(&mut self, interner: &mut Interner) -> (r: Result<Vec<Stmt>, String>)
        requires
            old(self).wf(),
            old(interner).wf(),
            old(self).room(old(interner)@.len()),
        ensures
            final(self).same_stream(old(self)),
            final(self).pos >= old(self).pos,
            final(self).pos <= final(self).tokens@.len() + 1,
            final(interner).wf(),
            final(self).room(final(interner)@.len()),
            r is Ok ==> final(self).pos > old(self).pos && final(self).pos <= final(self).tokens@.len(),
            block_outcome(p_block(old(self).tokens@, old(self).pos as int, old(interner)@), r, final(self).pos as int, final(interner)@),
        decreases old(self).tokens@.len() - old(self).pos, 28int,
    {
        let ghost t = self.tokens@;
        self.skip_newlines();
        match self.expect(&Token::Indent) {
            Ok(()) => {},
            Err(e) => return Err(e),
        }
        let mut stmts: Vec<Stmt> = Vec::new();
        self.skip_newlines();
        let ghost total = block_items(t, self.pos as int, interner@, Seq::empty());
        assert(stmts_view(stmts@) =~= Seq::<StmtV>::empty());
        while !(self.at(&Token::Dedent) || self.at(&Token::Eof))
            invariant
                self.wf(),
                interner.wf(),
                self.room(interner@.len()),
                self.same_stream(old(self)),
                self.pos > old(self).pos,
                self.tokens@ == t,
                total == block_items(t, self.pos as int, interner@, stmts_view(stmts@)),
            decreases self.tokens@.len() - self.pos,
        {
            match self.parse_statement(interner) {
                Ok(s) => {
                    proof {
                        lemma_stmts_push(stmts@, s);
                    }
                    stmts.push(s);
                },
                Err(e) => return Err(e),
            }
            self.skip_newlines();
        }
        if self.at(&Token::Dedent) {
            self.advance();
        }
        Ok(stmts)
    }

    #[verifier::loop_isolation(false)]
    #[verifier::rlimit(40)]
    #[verifier::spinoff_prover]
    fn parse_if(&mut self, interner: &mut Interner) -> (r: Result<Stmt, String>)
        requires
            old(self).wf(),
            old(interner).wf(),
            old(self).room(old(interner)@.len()),
        ensures
            final(self).same_stream(old(self)),
            final(self).pos >= old(self).pos,
            final(self).pos <= final(self).tokens@.len() + 1,
            final(interner).wf(),
            final(self).room(final(interner)@.len()),
            r is Ok ==> final(self).pos > old(self).pos && final(self).pos <= final(self).tokens@.len(),
            stmt_outcome(p_if(old(self).tokens@, old(self).pos as int, old(interner)@), r, final(self).pos as int, final(interner)@),
        decreases old(self).tokens@.len() - old(self).pos, 29int,
    {
        let ghost t = self.tokens@;
        match self.expect(&Token::If) {
            Ok(()) => {},
            Err(e) => return Err(e),
        }
        let condition = match self.parse_expression(interner) {
            Ok(c) => c,
            Err(e) => return Err(e),
        };
        match self.expect(&Token::Colon) {
            Ok(()) => {},
            Err(e) => return Err(e),
        }
        let body = match self.parse_block(interner) {
            Ok(b) => b,
            Err(e) => return Err(e),
        };
        let ghost q = self.pos as int;
        let ghost total = elif_tail(t, q, interner@, Seq::empty());
        let mut elif_clauses: Vec<(Expr, Vec<Stmt>)> = Vec::new();
        assert(elifs_view(elif_clauses@) =~= Seq::<(ExprV, Seq<StmtV>)>::empty());
        while self.at(&Token::Elif)
            invariant
                self.wf(),
                interner.wf(),
                self.room(interner@.len()),
                self.same_stream(old(self)),
                self.pos > old(self).pos,
                self.tokens@ == t,
                q <= self.pos <= t.len(),
                total == elif_tail(t, self.pos as int, interner@, elifs_view(elif_clauses@)),
            decreases self.tokens@.len() - self.pos,
        {
            self.advance();
            let elif_cond = match self.parse_expression(interner) {
                Ok(c) => c,
                Err(e) => return Err(e),
            };
            match self.expect(&Token::Colon) {
                Ok(()) => {},
                Err(e) => return Err(e),
            }
            let elif_body = match self.parse_block(interner) {
                Ok(b) => b,
                Err(e) => return Err(e),
            };
            proof {
                lemma_elifs_push(elif_clauses@, (elif_cond, elif_body));
            }
            elif_clauses.push((elif_cond, elif_body));
        }
        let else_body = if self.at(&Token::Else) {
            self.advance();
            match self.expect(&Token::Colon) {
                Ok(()) => {},
                Err(e) => return Err(e),
            }
            match self.parse_block(interner) {
                Ok(b) => Some(b),
                Err(e) => return Err(e),
            }
        } else {
            None
        };
        Ok(Stmt::If { condition, body, elif_clauses, else_body })
    }

    #[verifier::rlimit(40)]
    #[verifier::spinoff_prover]
    fn parse_while(&mut self, interner: &mut Interner) -> (r: Result<Stmt, String>)
        requires
            old(self).wf(),
            old(interner).wf(),
            old(self).room(old(interner)@.len()),
        ensures
            final(self).same_stream(old(self)),
            final(self).pos >= old(self).pos,
            final(self).pos <= final(self).tokens@.len() + 1,
            final(interner).wf(),
            final(self).room(final(interner)@.len()),
            r is Ok ==> final(self).pos > old(self).pos && final(self).pos <= final(self).tokens@.len(),
            stmt_outcome(p_while(old(self).tokens@, old(self).pos as int, old(interner)@), r, final(self).pos as int, final(interner)@),
        decreases old(self).tokens@.len() - old(self).pos, 29int,
    {
        match self.expect(&Token::While) {
            Ok(()) => {},
            Err(e) => return Err(e),
        }
        let condition = match self.parse_expression(interner) {
            Ok(c) => c,
            Err(e) => return Err(e),
        };
        match self.expect(&Token::Colon) {
            Ok(()) => {},
            Err(e) => return Err(e),
        }
        let body = match self.parse_block(interner) {
            Ok(b) => b,
            Err(e) => return Err(e),
        };
        Ok(Stmt::While { condition, body })
    }

    #[verifier::rlimit(40)]
    #[verifier::spinoff_prover]
    fn parse_for(&mut self, interner: &mut Interner) -> (r: Result<Stmt, String>)
        requires
            old(self).wf(),
            old(interner).wf(),
            old(self).room(old(interner)@.len()),
        ensures
            final(self).same_stream(old(self)),
            final(self).pos >= old(self).pos,
            final(self).pos <= final(self).tokens@.len() + 1,
            final(interner).wf(),
            final(self).room(final(interner)@.len()),
            r is Ok ==> final(self).pos > old(self).pos && final(self).pos <= final(self).tokens@.len(),
            stmt_outcome(p_for(old(self).tokens@, old(self).pos as int, old(interner)@), r, final(self).pos as int, final(interner)@),
        decreases old(self).tokens@.len() - old(self).pos, 29int,
    {
        match self.expect(&Token::For) {
            Ok(()) => {},
            Err(e) => return Err(e),
        }
        let target = match self.name_at(interner) {
            Ok(sym) => sym,
            Err(t) => return Err(token_message("Expected variable name, got ", &t)),
        };
        match self.expect(&Token::In) {
            Ok(()) => {},
            Err(e) => return Err(e),
        }
        let iter = match self.parse_expression(interner) {
            Ok(c) => c,
            Err(e) => return Err(e),
        };
        match self.expect(&Token::Colon) {
            Ok(()) => {},
            Err(e) => return Err(e),
        }
        let body = match self.parse_block(interner) {
            Ok(b) => b,
            Err(e) => return Err(e),
        };
        Ok(Stmt::For { target, iter, body })
    }

    #[verifier::rlimit(40)]
    #[verifier::spinoff_prover]
    fn parse_return(&mut self, interner: &mut Interner) -> (r: Result<Stmt, String>)
        requires
            old(self).wf(),
            old(interner).wf(),
            old(self).room(old(interner)@.len()),
        ensures
            final(self).same_stream(old(self)),
            final(self).pos >= old(self).pos,
            final(self).pos <= final(self).tokens@.len() + 1,
            final(interner).wf(),
            final(self).room(final(interner)@.len()),
            r is Ok ==> final(self).pos > old(self).pos && final(self).pos <= final(self).tokens@.len(),
            stmt_outcome(p_return(old(self).tokens@, old(self).pos as int, old(interner)@), r, final(self).pos as int, final(interner)@),
        decreases old(self).tokens@.len() - old(self).pos, 29int,
    {
        match self.expect(&Token::Return) {
            Ok(()) => {},
            Err(e) => return Err(e),
        }
        if self.at(&Token::Newline) || self.at(&Token::Eof) || self.at(&Token::Dedent) {
            Ok(Stmt::Return(None))
        } else {
            match self.parse_expression(interner) {
                Ok(e) => Ok(Stmt::Return(Some(e))),
                Err(e) => Err(e),
            }
        }
    }

    #[verifier::rlimit(40)]
    #[verifier::spinoff_prover]
    fn parse_print(&mut self, interner: &mut Interner) -> (r: Result<Stmt, String>)
        requires
            old(self).wf(),
            old(interner).wf(),
            old(self).room(old(interner)@.len()),
        ensures
            final(self).same_stream(old(self)),
            final(self).pos >= old(self).pos,
            final(self).pos <= final(self).tokens@.len() + 1,
            final(interner).wf(),
            final(self).room(final(interner)@.len()),
            r is Ok ==> final(self).pos > old(self).pos && final(self).pos <= final(self).tokens@.len(),
            stmt_outcome(p_print(old(self).tokens@, old(self).pos as int, old(interner)@), r, final(self).pos as int, final(interner)@),
        decreases old(self).tokens@.len() - old(self).pos, 29int,
    {
        match self.expect(&Token::Print) {
            Ok(()) => {},
            Err(e) => return Err(e),
        }
        match self.expect(&Token::LeftParen) {
            Ok(()) => {},
            Err(e) => return Err(e),
        }
        let args = match self.parse_call_args(interner) {
            Ok(a) => a,
            Err(e) => return Err(e),
        };
        Ok(Stmt::Print(args))
    }

    /// Arguments up to and including the closing `)`.
    #[verifier::loop_isolation(false)]
    #[verifier::rlimit(40)]
    #[verifier::spinoff_prover]
    fn parse_call_args(&mut self, interner: &mut Interner) -> (r: Result<Vec<Expr>, String>)
        requires
            old(self).wf(),
            old(interner).wf(),
            old(self).room(old(interner)@.len()),
        ensures
            final(self).same_stream(old(self)),
            final(self).pos >= old(self).pos,
            final(self).pos <= final(self).tokens@.len() + 1,
            final(interner).wf(),
            final(self).room(final(interner)@.len()),
            r is Ok ==> final(self).pos > old(self).pos && final(self).pos <= final(self).tokens@.len(),
            (match call_args(old(self).tokens@, old(self).pos as int, old(interner)@, Seq::empty()) {
                Some((xs, p, n)) => r matches Ok(v) && exprs_view(v@) == xs && final(self).pos == p && final(interner)@ == n,
                None => r is Err,
            }),
        decreases old(self).tokens@.len() - old(self).pos, 13int,
    {
        let ghost t = self.tokens@;
        let ghost total = call_args(t, self.pos as int, interner@, Seq::empty());
        let mut args: Vec<Expr> = Vec::new();
        assert(exprs_view(args@) =~= Seq::<ExprV>::empty());
        while !self.at(&Token::RightParen)
            invariant
                self.wf(),
                interner.wf(),
                self.room(interner@.len()),
                self.same_stream(old(self)),
                self.pos >= old(self).pos,
                self.tokens@ == t,
                total == call_args(t, self.pos as int, interner@, exprs_view(args@)),
            decreases self.tokens@.len() - self.pos,
        {
            match self.parse_expression(interner) {
                Ok(e) => {
                    proof {
                        lemma_exprs_push(args@, e);
                    }
                    args.push(e);
                },
                Err(e) => return Err(e),
            }
            if self.at(&Token::Comma) {
                self.advance();
            }
        }
        match self.expect(&Token::RightParen) {
            Ok(()) => {},
            Err(e) => return Err(e),
        }
        Ok(args)
    }

    /// The operator of the augmented assignment token at the position.
    fn aug_assign_op(&self) -> (r: Option<BinOp>)
        requires
            self.eof == Token::Eof,
        ensures
            r == aug_op(self.cur()),
    {
        if self.at(&Token::PlusAssign) {
            Some(BinOp::Add)
        } else if self.at(&Token::MinusAssign) {
            Some(BinOp::Sub)
        } else if self.at(&Token::StarAssign) {
            Some(BinOp::Mul)
        } else if self.at(&Token::SlashAssign) {
            Some(BinOp::Div)
        } else {
            None
        }
    }

    #[verifier::rlimit(40)]
    #[verifier::spinoff_prover]
    fn parse_expr_or_assign(&mut self, interner: &mut Interner) -> (r: Result<Stmt, String>)
        requires
            old(self).wf(),
            old(interner).wf(),
            old(self).room(old(interner)@.len()),
        ensures
            final(self).same_stream(old(self)),
            final(self).pos >= old(self).pos,
            final(self).pos <= final(self).tokens@.len() + 1,
            final(interner).wf(),
            final(self).room(final(interner)@.len()),
            r is Ok ==> final(self).pos > old(self).pos && final(self).pos <= final(self).tokens@.len(),
            stmt_outcome(p_expr_or_assign(old(self).tokens@, old(self).pos as int, old(interner)@), r, final(self).pos as int, final(interner)@),
        decreases old(self).tokens@.len() - old(self).pos, 29int,
    {
        let ghost t = self.tokens@;
        let expr = match self.parse_expression(interner) {
            Ok(e) => e,
            Err(e) => return Err(e),
        };
        let ghost p = self.pos as int;
        let ghost n = interner@;
        assert(p_expr_or_assign(t, old(self).pos as int, old(interner)@) == (if tok_at(t, p) is Assign {
            match expr_view(expr) {
                ExprV::Identifier(target) => match p_expression(t, p + 1, n) {
                    Some((v, q, n2)) => Some((StmtV::Assign(target, v), q, n2)),
                    None => None,
                },
                _ => None,
            }
        } else if aug_op(tok_at(t, p)) is Some {
            match expr_view(expr) {
                ExprV::Identifier(target) => match p_expression(t, p + 1, n) {
                    Some((v, q, n2)) => Some((StmtV::AugAssign(target, aug_op(tok_at(t, p))->Some_0, v), q, n2)),
                    None => None,
                },
                _ => None,
            }
        } else {
            Some((StmtV::Expression(expr_view(expr)), p, n))
        }));
        if self.at(&Token::Assign) {
            self.advance();
            if let Expr::Identifier(name) = expr {
                match self.parse_expression(interner) {
                    Ok(value) => Ok(Stmt::Assign { target: name, value }),
                    Err(e) => Err(e),
                }
            } else {
                Err(owned("Invalid assignment target"))
            }
        } else if let Some(op) = self.aug_assign_op() {
            self.advance();
            if let Expr::Identifier(name) = expr {
                match self.parse_expression(interner) {
                    Ok(value) => Ok(Stmt::AugAssign { target: name, op, value }),
                    Err(e) => Err(e),
                }
            } else {
                Err(owned("Invalid augmented assignment target"))
            }
        } else {
            Ok(Stmt::Expression(expr))
        }
    }

    fn parse_expression(&mut self, interner: &mut Interner) -> (r: Result<Expr, String>)
        requires
            old(self).wf(),
            old(interner).wf(),
            old(self).room(old(interner)@.len()),
        ensures
            final(self).same_stream(old(self)),
            final(self).pos >= old(self).pos,
            final(self).pos <= final(self).tokens@.len() + 1,
            final(interner).wf(),
            final(self).room(final(interner)@.len()),
            r is Ok ==> final(self).pos > old(self).pos && final(self).pos <= final(self).tokens@.len(),
            expr_outcome(p_expression(old(self).tokens@, old(self).pos as int, old(interner)@), r, final(self).pos as int, final(interner)@),
        decreases old(self).tokens@.len() - old(self).pos, 12int,
    {
        self.parse_or(interner)
    }

    #[verifier::loop_isolation(false)]
    #[verifier::rlimit(40)]
    #[verifier::spinoff_prover]
    fn parse_or(&mut self, interner: &mut Interner) -> (r: Result<Expr, String>)
        requires
            old(self).wf(),
            old(interner).wf(),
            old(self).room(old(interner)@.len()),
        ensures
            final(self).same_stream(old(self)),
            final(self).pos >= old(self).pos,
            final(self).pos <= final(self).tokens@.len() + 1,
            final(interner).wf(),
            final(self).room(final(interner)@.len()),
            r is Ok ==> final(self).pos > old(self).pos && final(self).pos <= final(self).tokens@.len(),
            expr_outcome(p_or(old(self).tokens@, old(self).pos as int, old(interner)@), r, final(self).pos as int, final(interner)@),
        decreases old(self).tokens@.len() - old(self).pos, 11int,
    {
        let ghost t = self.tokens@;
        let mut left = match self.parse_and(interner) {
            Ok(e) => e,
            Err(e) => return Err(e),
        };
        let ghost total = or_tail(t, self.pos as int, interner@, expr_view(left));
        while self.at(&Token::Or)
            invariant
                self.wf(),
                interner.wf(),
                self.room(interner@.len()),
                self.same_stream(old(self)),
                self.pos > old(self).pos,
                self.tokens@ == t,
                total == or_tail(t, self.pos as int, interner@, expr_view(left)),
            decreases self.tokens@.len() - self.pos,
        {
            self.advance();
            let right = match self.parse_and(interner) {
                Ok(e) => e,
                Err(e) => return Err(e),
            };
            left = Expr::BinaryOp { left: Box::new(left), op: BinOp::Or, right: Box::new(right) };
        }
        Ok(left)
    }

    #[verifier::loop_isolation(false)]
    #[verifier::rlimit(40)]
    #[verifier::spinoff_prover]
    fn parse_and(&mut self, interner: &mut Interner) -> (r: Result<Expr, String>)
        requires
            old(self).wf(),
            old(interner).wf(),
            old(self).room(old(interner)@.len()),
        ensures
            final(self).same_stream(old(self)),
            final(self).pos >= old(self).pos,
            final(self).pos <= final(self).tokens@.len() + 1,
            final(interner).wf(),
            final(self).room(final(interner)@.len()),
            r is Ok ==> final(self).pos > old(self).pos && final(self).pos <= final(self).tokens@.len(),
            expr_outcome(p_and(old(self).tokens@, old(self).pos as int, old(interner)@), r, final(self).pos as int, final(interner)@),
        decreases old(self).tokens@.len() - old(self).pos, 10int,
    {
        let ghost t = self.tokens@;
        let mut left = match self.parse_not(interner) {
            Ok(e) => e,
            Err(e) => return Err(e),
        };
        let ghost total = and_tail(t, self.pos as int, interner@, expr_view(left));
        while self.at(&Token::And)
            invariant
                self.wf(),
                interner.wf(),
                self.room(interner@.len()),
                self.same_stream(old(self)),
                self.pos > old(self).pos,
                self.tokens@ == t,
                total == and_tail(t, self.pos as int, interner@, expr_view(left)),
            decreases self.tokens@.len() - self.pos,
        {
            self.advance();
            let right = match self.parse_not(interner) {
                Ok(e) => e,
                Err(e) => return Err(e),
            };
            left = Expr::BinaryOp { left: Box::new(left), op: BinOp::And, right: Box::new(right) };
        }
        Ok(left)
    }

    #[verifier::rlimit(40)]
    #[verifier::spinoff_prover]
    fn parse_not(&mut self, interner: &mut Interner) -> (r: Result<Expr, String>)
        requires
            old(self).wf(),
            old(interner).wf(),
            old(self).room(old(interner)@.len()),
        ensures
            final(self).same_stream(old(self)),
            final(self).pos >= old(self).pos,
            final(self).pos <= final(self).tokens@.len() + 1,
            final(interner).wf(),
            final(self).room(final(interner)@.len()),
            r is Ok ==> final(self).pos > old(self).pos && final(self).pos <= final(self).tokens@.len(),
            expr_outcome(p_not(old(self).tokens@, old(self).pos as int, old(interner)@), r, final(self).pos as int, final(interner)@),
        decreases old(self).tokens@.len() - old(self).pos, 9int,
    {
        if self.at(&Token::Not) {
            self.advance();
            match self.parse_not(interner) {
                Ok(operand) => Ok(Expr::UnaryOp { op: UnaryOp::Not, operand: Box::new(operand) }),
                Err(e) => Err(e),
            }
        } else {
            self.parse_comparison(interner)
        }
    }

    #[verifier::loop_isolation(false)]
    #[verifier::rlimit(40)]
    #[verifier::spinoff_prover]
    fn parse_comparison(&mut self, interner: &mut Interner) -> (r: Result<Expr, String>)
        requires
            old(self).wf(),
            old(interner).wf(),
            old(self).room(old(interner)@.len()),
        ensures
            final(self).same_stream(old(self)),
            final(self).pos >= old(self).pos,
            final(self).pos <= final(self).tokens@.len() + 1,
            final(interner).wf(),
            final(self).room(final(interner)@.len()),
            r is Ok ==> final(self).pos > old(self).pos && final(self).pos <= final(self).tokens@.len(),
            expr_outcome(p_comparison(old(self).tokens@, old(self).position(), old(interner)@), r, final(self).position(), final(interner)@),
        decreases old(self).tokens@.len() - old(self).pos, 8int,
    {
        let ghost t = self.tokens@;
        let left = match self.parse_addition(interner) {
            Ok(e) => e,
            Err(e) => return Err(e),
        };
        let mut ops: Vec<CmpOp> = Vec::new();
        let mut comparators: Vec<Expr> = Vec::new();
        let ghost total = comparison_tail(t, self.position(), interner@, expr_view(left), Seq::empty(), Seq::empty());
        assert(exprs_view(comparators@) =~= Seq::<ExprV>::empty());
        assert(ops@ =~= Seq::<CmpOp>::empty());
        loop
            invariant
                self.wf(),
                interner.wf(),
                self.room(interner@.len()),
                self.same_stream(old(self)),
                self.pos > old(self).pos,
                self.tokens@ == t,
                total == comparison_tail(t, self.position(), interner@, expr_view(left), ops@, exprs_view(comparators@)),
            decreases self.tokens@.len() - self.pos,
        {
            let op = if self.at(&Token::Equal) {
                CmpOp::Eq
            } else if self.at(&Token::NotEqual) {
                CmpOp::NotEq
            } else if self.at(&Token::Less) {
                CmpOp::Lt
            } else if self.at(&Token::LessEqual) {
                CmpOp::LtE
            } else if self.at(&Token::Greater) {
                CmpOp::Gt
            } else if self.at(&Token::GreaterEqual) {
                CmpOp::GtE
            } else if self.at(&Token::In) {
                CmpOp::In
            } else {
                break ;
            };
            self.advance();
            ops.push(op);
            match self.parse_addition(interner) {
                Ok(e) => {
                    proof {
                        lemma_exprs_push(comparators@, e);
                    }
                    comparators.push(e);
                },
                Err(e) => return Err(e),
            }
        }
        if ops.len() == 0 {
            Ok(left)
        } else {
            Ok(Expr::Compare { left: Box::new(left), ops, comparators })
        }
    }

    #[verifier::loop_isolation(false)]
    #[verifier::rlimit(40)]
    #[verifier::spinoff_prover]
    fn parse_addition(&mut self, interner: &mut Interner) -> (r: Result<Expr, String>)
        requires
            old(self).wf(),
            old(interner).wf(),
            old(self).room(old(interner)@.len()),
        ensures
            final(self).same_stream(old(self)),
            final(self).pos >= old(self).pos,
            final(self).pos <= final(self).tokens@.len() + 1,
            final(interner).wf(),
            final(self).room(final(interner)@.len()),
            r is Ok ==> final(self).pos > old(self).pos && final(self).pos <= final(self).tokens@.len(),
            expr_outcome(p_addition(old(self).tokens@, old(self).pos as int, old(interner)@), r, final(self).pos as int, final(interner)@),
        decreases old(self).tokens@.len() - old(self).pos, 7int,
    {
        let ghost t = self.tokens@;
        let mut left = match self.parse_multiplication(interner) {
            Ok(e) => e,
            Err(e) => return Err(e),
        };
        let ghost total = add_tail(t, self.pos as int, interner@, expr_view(left));
        loop
            invariant
                self.wf(),
                interner.wf(),
                self.room(interner@.len()),
                self.same_stream(old(self)),
                self.pos > old(self).pos,
                self.tokens@ == t,
                total == add_tail(t, self.pos as int, interner@, expr_view(left)),
            decreases self.tokens@.len() - self.pos,
        {
            let op = if self.at(&Token::Plus) {
                BinOp::Add
            } else if self.at(&Token::Minus) {
                BinOp::Sub
            } else {
                break ;
            };
            self.advance();
            let right = match self.parse_multiplication(interner) {
                Ok(e) => e,
                Err(e) => return Err(e),
            };
            left = Expr::BinaryOp { left: Box::new(left), op, right: Box::new(right) };
        }
        Ok(left)
    }

    #[verifier::loop_isolation(false)]
    #[verifier::rlimit(40)]
    #[verifier::spinoff_prover]
    fn parse_multiplication(&mut self, interner: &mut Interner) -> (r: Result<Expr, String>)
        requires
            old(self).wf(),
            old(interner).wf(),
            old(self).room(old(interner)@.len()),
        ensures
            final(self).same_stream(old(self)),
            final(self).pos >= old(self).pos,
            final(self).pos <= final(self).tokens@.len() + 1,
            final(interner).wf(),
            final(self).room(final(interner)@.len()),
            r is Ok ==> final(self).pos > old(self).pos && final(self).pos <= final(self).tokens@.len(),
            expr_outcome(p_multiplication(old(self).tokens@, old(self).pos as int, old(interner)@), r, final(self).pos as int, final(interner)@),
        decreases old(self).tokens@.len() - old(self).pos, 6int,
    {
        let ghost t = self.tokens@;
        let mut left = match self.parse_power(interner) {
            Ok(e) => e,
            Err(e) => return Err(e),
        };
        let ghost total = mul_tail(t, self.pos as int, interner@, expr_view(left));
        loop
            invariant
                self.wf(),
                interner.wf(),
                self.room(interner@.len()),
                self.same_stream(old(self)),
                self.pos > old(self).pos,
                self.tokens@ == t,
                total == mul_tail(t, self.pos as int, interner@, expr_view(left)),
            decreases self.tokens@.len() - self.pos,
        {
            let op = if self.at(&Token::Star) {
                BinOp::Mul
            } else if self.at(&Token::Slash) {
                BinOp::Div
            } else if self.at(&Token::DoubleSlash) {
                BinOp::FloorDiv
            } else if self.at(&Token::Percent) {
                BinOp::Mod
            } else {
                break ;
            };
            self.advance();
            let right = match self.parse_power(interner) {
                Ok(e) => e,
                Err(e) => return Err(e),
            };
            left = Expr::BinaryOp { left: Box::new(left), op, right: Box::new(right) };
        }
        Ok(left)
    }

    #[verifier::rlimit(40)]
    #[verifier::spinoff_prover]
    fn parse_power(&mut self, interner: &mut Interner) -> (r: Result<Expr, String>)
        requires
            old(self).wf(),
            old(interner).wf(),
            old(self).room(old(interner)@.len()),
        ensures
            final(self).same_stream(old(self)),
            final(self).pos >= old(self).pos,
            final(self).pos <= final(self).tokens@.len() + 1,
            final(interner).wf(),
            final(self).room(final(interner)@.len()),
            r is Ok ==> final(self).pos > old(self).pos && final(self).pos <= final(self).tokens@.len(),
            expr_outcome(p_power(old(self).tokens@, old(self).pos as int, old(interner)@), r, final(self).pos as int, final(interner)@),
        decreases old(self).tokens@.len() - old(self).pos, 5int,
    {
        let base = match self.parse_unary(interner) {
            Ok(e) => e,
            Err(e) => return Err(e),
        };
        if self.at(&Token::DoubleStar) {
            self.advance();
            match self.parse_unary(interner) {
                Ok(exp) => Ok(Expr::BinaryOp { left: Box::new(base), op: BinOp::Pow, right: Box::new(exp) }),
                Err(e) => Err(e),
            }
        } else {
            Ok(base)
        }
    }

    #[verifier::rlimit(40)]
    #[verifier::spinoff_prover]
    fn parse_unary(&mut self, interner: &mut Interner) -> (r: Result<Expr, String>)
        requires
            old(self).wf(),
            old(interner).wf(),
            old(self).room(old(interner)@.len()),
        ensures
            final(self).same_stream(old(self)),
            final(self).pos >= old(self).pos,
            final(self).pos <= final(self).tokens@.len() + 1,
            final(interner).wf(),
            final(self).room(final(interner)@.len()),
            r is Ok ==> final(self).pos > old(self).pos && final(self).pos <= final(self).tokens@.len(),
            expr_outcome(p_unary(old(self).tokens@, old(self).pos as int, old(interner)@), r, final(self).pos as int, final(interner)@),
        decreases old(self).tokens@.len() - old(self).pos, 4int,
    {
        if self.at(&Token::Minus) {
            self.advance();
            match self.parse_postfix(interner) {
                Ok(operand) => Ok(Expr::UnaryOp { op: UnaryOp::Neg, operand: Box::new(operand) }),
                Err(e) => Err(e),
            }
        } else {
            self.parse_postfix(interner)
        }
    }

    #[verifier::loop_isolation(false)]
    #[verifier::rlimit(40)]
    #[verifier::spinoff_prover]
    fn parse_postfix(&mut self, interner: &mut Interner) -> (r: Result<Expr, String>)
        requires
            old(self).wf(),
            old(interner).wf(),
            old(self).room(old(interner)@.len()),
        ensures
            final(self).same_stream(old(self)),
            final(self).pos >= old(self).pos,
            final(self).pos <= final(self).tokens@.len() + 1,
            final(interner).wf(),
            final(self).room(final(interner)@.len()),
            r is Ok ==> final(self).pos > old(self).pos && final(self).pos <= final(self).tokens@.len(),
            expr_outcome(p_postfix(old(self).tokens@, old(self).pos as int, old(interner)@), r, final(self).pos as int, final(interner)@),
        decreases old(self).tokens@.len() - old(self).pos, 3int,
    {
        let ghost t = self.tokens@;
        let mut expr = match self.parse_primary(interner) {
            Ok(e) => e,
            Err(e) => return Err(e),
        };
        let ghost total = postfix_tail(t, self.pos as int, interner@, expr_view(expr));
        loop
            invariant
                self.wf(),
                interner.wf(),
                self.room(interner@.len()),
                self.same_stream(old(self)),
                self.pos > old(self).pos,
                self.tokens@ == t,
                total == postfix_tail(t, self.pos as int, interner@, expr_view(expr)),
            decreases self.tokens@.len() - self.pos,
        {
            if self.at(&Token::LeftParen) {
                self.advance();
                let args = match self.parse_call_args(interner) {
                    Ok(a) => a,
                    Err(e) => return Err(e),
                };
                expr = Expr::Call { function: Box::new(expr), args };
            } else if self.at(&Token::LeftBracket) {
                self.advance();
                let index = match self.parse_expression(interner) {
                    Ok(e) => e,
                    Err(e) => return Err(e),
                };
                match self.expect(&Token::RightBracket) {
                    Ok(()) => {},
                    Err(e) => return Err(e),
                }
                expr = Expr::Index { object: Box::new(expr), index: Box::new(index) };
            } else if self.at(&Token::Dot) {
                self.advance();
                let name = match self.name_at(interner) {
                    Ok(sym) => sym,
                    Err(t) => return Err(token_message("Expected attribute name, got ", &t)),
                };
                expr = Expr::Attribute { object: Box::new(expr), name };
            } else {
                break ;
            }
        }
        Ok(expr)
    }

    #[verifier::loop_isolation(false)]
    #[verifier::rlimit(40)]
    #[verifier::spinoff_prover]
    fn parse_primary(&mut self, interner: &mut Interner) -> (r: Result<Expr, String>)
        requires
            old(self).wf(),
            old(interner).wf(),
            old(self).room(old(interner)@.len()),
        ensures
            final(self).same_stream(old(self)),
            final(self).pos >= old(self).pos,
            final(self).pos <= final(self).tokens@.len() + 1,
            final(interner).wf(),
            final(self).room(final(interner)@.len()),
            r is Ok ==> final(self).pos > old(self).pos && final(self).pos <= final(self).tokens@.len(),
            expr_outcome(p_primary(old(self).tokens@, old(self).pos as int, old(interner)@), r, final(self).pos as int, final(interner)@),
        decreases old(self).tokens@.len() - old(self).pos, 2int,
    {
        let ghost t = self.tokens@;
        let ghost n0 = interner@;
        let ghost p0 = self.pos as int;
        match self.advance() {
            Token::Integer(n) => Ok(Expr::Integer(n)),
            Token::Float(f) => Ok(Expr::Float(f)),
            Token::StringLiteral(s) => Ok(Expr::StringLiteral(s)),
            Token::True => Ok(Expr::Boolean(true)),
            Token::False => Ok(Expr::Boolean(false)),
            Token::NoneKw => Ok(Expr::NoneLit),
            Token::Identifier(name) => {
                let sym = interner.intern(name.as_str());
                proof {
                    lemma_intern_spec(n0, interner@, name@, sym);
                }
                Ok(Expr::Identifier(sym))
            },
            Token::LeftParen => {
                let expr = match self.parse_expression(interner) {
                    Ok(e) => e,
                    Err(e) => return Err(e),
                };
                match self.expect(&Token::RightParen) {
                    Ok(()) => {},
                    Err(e) => return Err(e),
                }
                Ok(expr)
            },
            Token::LeftBracket => {
                let ghost total = list_items(t, self.pos as int, interner@, Seq::empty());
                let mut elements: Vec<Expr> = Vec::new();
                assert(exprs_view(elements@) =~= Seq::<ExprV>::empty());
                while !self.at(&Token::RightBracket)
                    invariant
                self.wf(),
                interner.wf(),
                self.room(interner@.len()),
                self.same_stream(old(self)),
                self.pos > old(self).pos,
                        self.tokens@ == t,
                        total == list_items(t, self.pos as int, interner@, exprs_view(elements@)),
                    decreases self.tokens@.len() - self.pos,
                {
                    match self.parse_expression(interner) {
                        Ok(e) => {
                            proof {
                                lemma_exprs_push(elements@, e);
                            }
                            elements.push(e);
                        },
                        Err(e) => return Err(e),
                    }
                    if self.at(&Token::Comma) {
                        self.advance();
                    }
                }
                match self.expect(&Token::RightBracket) {
                    Ok(()) => {},
                    Err(e) => return Err(e),
                }
                Ok(Expr::List(elements))
            },
            Token::LeftBrace => {
                let ghost total = dict_items(t, self.pos as int, interner@, Seq::empty());
                let mut pairs: Vec<(Expr, Expr)> = Vec::new();
                assert(expr_pairs_view(pairs@) =~= Seq::<(ExprV, ExprV)>::empty());
                while !self.at(&Token::RightBrace)
                    invariant
                self.wf(),
                interner.wf(),
                self.room(interner@.len()),
                self.same_stream(old(self)),
                self.pos > old(self).pos,
                        self.tokens@ == t,
                        total == dict_items(t, self.pos as int, interner@, expr_pairs_view(pairs@)),
                    decreases self.tokens@.len() - self.pos,
                {
                    let key = match self.parse_expression(interner) {
                        Ok(e) => e,
                        Err(e) => return Err(e),
                    };
                    match self.expect(&Token::Colon) {
                        Ok(()) => {},
                        Err(e) => return Err(e),
                    }
                    let value = match self.parse_expression(interner) {
                        Ok(e) => e,
                        Err(e) => return Err(e),
                    };
                    proof {
                        lemma_pairs_push(pairs@, (key, value));
                    }
                    pairs.push((key, value));
                    if self.at(&Token::Comma) {
                        self.advance();
                    }
                }
                match self.expect(&Token::RightBrace) {
                    Ok(()) => {},
                    Err(e) => return Err(e),
                }
                Ok(Expr::Dict(pairs))
            },
            t => Err(token_message("Unexpected token: ", &t)),
        }
    }
}

} // verus!
