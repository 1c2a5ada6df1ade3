use vstd::prelude::*;

use crate::text::{concat, decimal_digits, owned, push_char, str_to_chars, string_from_range, u64_text};
use crate::token::{keyword_spec, Token};

verus! {

/// Whether `c` is an ASCII decimal digit.
pub open spec fn is_digit(c: char) -> bool {
    '0' <= c && c <= '9'
}

/// Whether `c` is alphabetic in Unicode's sense (`char::is_alphabetic`).
pub uninterp spec fn char_alphabetic(c: char) -> bool;

/// Whether `c` is alphanumeric in Unicode's sense (`char::is_alphanumeric`).
pub uninterp spec fn char_alphanumeric(c: char) -> bool;

/// Trusted: calls `char::is_alphabetic`; the result is named by
/// `char_alphabetic`. Among ASCII characters, exactly the letters `A`-`Z`
/// and `a`-`z` are alphabetic, as the documentation of `char` shows.
#[verifier::external_body]
fn is_alphabetic(c: char) -> (r: bool)
    ensures
        r == char_alphabetic(c),
        (c as u32) < 128 ==> (r <==> (('a' <= c && c <= 'z') || ('A' <= c && c <= 'Z'))),
{
    c.is_alphabetic()
}

/// Trusted: calls `char::is_alphanumeric`; the result is named by
/// `char_alphanumeric`. Among ASCII characters, exactly the letters and the
/// digits `0`-`9` are alphanumeric, as the documentation of `char` shows.
#[verifier::external_body]
fn is_alphanumeric(c: char) -> (r: bool)
    ensures
        r == char_alphanumeric(c),
        (c as u32) < 128 ==> (r <==> (('a' <= c && c <= 'z') || ('A' <= c && c <= 'Z') || ('0' <= c && c <= '9'))),
{
    c.is_alphanumeric()
}

/// Whether `c` can start a name's letters: an ASCII letter, or outside
/// ASCII an alphabetic character.
pub open spec fn letter_char(c: char) -> bool {
    if (c as u32) < 128 {
        ('a' <= c && c <= 'z') || ('A' <= c && c <= 'Z')
    } else {
        char_alphabetic(c)
    }
}

/// Whether `c` can continue a name: an ASCII letter or digit, or outside
/// ASCII an alphanumeric character.
pub open spec fn word_char(c: char) -> bool {
    if (c as u32) < 128 {
        ('a' <= c && c <= 'z') || ('A' <= c && c <= 'Z') || ('0' <= c && c <= '9')
    } else {
        char_alphanumeric(c)
    }
}

/// Open indentation levels: +1 for each `Indent`, -1 for each `Dedent`.
pub open spec fn indent_balance(toks: Seq<Token>) -> int
    decreases toks.len(),
{
    if toks.len() == 0 {
        0
    } else {
        let rest = indent_balance(toks.drop_last());
        match toks.last() {
            Token::Indent => rest + 1,
            Token::Dedent => rest - 1,
            _ => rest,
        }
    }
}

/// Every prefix has at least as many `Indent`s as `Dedent`s: each `Dedent`
/// closes an earlier `Indent`.
pub open spec fn well_nested(toks: Seq<Token>) -> bool
    decreases toks.len(),
{
    toks.len() == 0 || (well_nested(toks.drop_last()) && indent_balance(toks) >= 0)
}

/// No token of the sequence is `Eof`.
pub open spec fn no_eof(toks: Seq<Token>) -> bool {
    forall|i: int| 0 <= i < toks.len() ==> !(toks[i] is Eof)
}

/// What a successful run of the lexer produces: a single `Eof` at the end,
/// and indentation that is opened and closed in nested fashion, every
/// `Indent` closed by a `Dedent`.
pub open spec fn token_stream_shape(toks: Seq<Token>) -> bool {
    &&& toks.len() > 0
    &&& toks.last() is Eof
    &&& no_eof(toks.drop_last())
    &&& well_nested(toks)
    &&& indent_balance(toks) == 0
}

/// The value of a sequence of decimal digits.
pub open spec fn digits_value(ds: Seq<char>) -> nat
    decreases ds.len(),
{
    if ds.len() == 0 {
        0
    } else {
        digits_value(ds.drop_last()) * 10 + ((ds.last() as u32) - 48) as nat
    }
}

/// A token as the lexer's specification sees it: tokens without a payload
/// as they are, texts as characters.
pub enum LexTok {
    Simple(Token),
    Int(i64),
    FloatText(Seq<char>),
    Str(Seq<char>),
    Name(Seq<char>),
    Bool(bool),
}

/// The view of a token: its payload text as characters.
pub open spec fn tok_view(t: Token) -> LexTok {
    match t {
        Token::Integer(n) => LexTok::Int(n),
        Token::Float(s) => LexTok::FloatText(s@),
        Token::StringLiteral(s) => LexTok::Str(s@),
        Token::Identifier(s) => LexTok::Name(s@),
        Token::Boolean(b) => LexTok::Bool(b),
        _ => LexTok::Simple(t),
    }
}

/// The views of a sequence of tokens.
pub open spec fn token_views(ts: Seq<Token>) -> Seq<LexTok> {
    ts.map_values(|t: Token| tok_view(t))
}

/// A result of lexing with `p` in front of the tokens, if it succeeded.
pub open spec fn with_prefix(p: Seq<LexTok>, r: Result<Seq<LexTok>, Seq<char>>) -> Result<Seq<LexTok>, Seq<char>> {
    match r {
        Ok(rest) => Ok(p + rest),
        Err(m) => Err(m),
    }
}

/// The kinds of characters the lexer scans over.
pub enum RunKind {
    Digits,
    Spaces,
    NameChars,
    NotNewline,
}

/// Whether `c` continues a run of kind `k`.
pub open spec fn in_run(k: RunKind, c: char) -> bool {
    match k {
        RunKind::Digits => is_digit(c),
        RunKind::Spaces => c == ' ',
        RunKind::NameChars => word_char(c) || c == '_',
        RunKind::NotNewline => c != '\n',
    }
}

/// The first position at or after `pos` whose character does not continue a
/// run of kind `k` (the end of the text if all do).
pub open spec fn run_end(s: Seq<char>, pos: int, k: RunKind) -> int
    decreases s.len() - pos,
{
    if 0 <= pos < s.len() && in_run(k, s[pos]) {
        run_end(s, pos + 1, k)
    } else {
        pos
    }
}

/// `run_end` lies between `pos` and the end of the text.
pub proof fn lemma_run_end(s: Seq<char>, pos: int, k: RunKind)
    requires
        0 <= pos <= s.len(),
    ensures
        pos <= run_end(s, pos, k) <= s.len(),
        run_end(s, pos, k) < s.len() ==> !in_run(k, s[run_end(s, pos, k)]),
        forall|i: int| pos <= i < run_end(s, pos, k) ==> in_run(k, #[trigger] s[i]),
    decreases s.len() - pos,
{
    if pos < s.len() && in_run(k, s[pos]) {
        lemma_run_end(s, pos + 1, k);
    }
}

/// A number starting at `pos`: digits, and if a `.` follows, a float
/// literal with the digits after it; an integer must fit in `i64`. Gives the
/// token and the position after it.
pub open spec fn number_at(s: Seq<char>, pos: int) -> Result<(LexTok, int), Seq<char>> {
    let e1 = run_end(s, pos, RunKind::Digits);
    if 0 <= e1 < s.len() && s[e1] == '.' {
        let e2 = run_end(s, e1 + 1, RunKind::Digits);
        Ok((LexTok::FloatText(s.subrange(pos, e2)), e2))
    } else if digits_value(s.subrange(pos, e1)) > i64::MAX {
        Err("Invalid integer: number too large to fit in target type"@)
    } else {
        Ok((LexTok::Int(digits_value(s.subrange(pos, e1)) as i64), e1))
    }
}

/// The characters an escape `\c` stands for in a string literal.
pub open spec fn escaped(c: char) -> Seq<char> {
    if c == 'n' {
        seq!['\n']
    } else if c == 't' {
        seq!['\t']
    } else if c == '\\' {
        seq!['\\']
    } else if c == '\'' {
        seq!['\'']
    } else if c == '"' {
        seq!['"']
    } else {
        seq!['\\', c]
    }
}

/// The body of a string literal from `pos` up to the closing `quote`, with
/// its escapes decoded, and the position of the closing quote.
pub open spec fn scan_string(s: Seq<char>, pos: int, quote: char) -> Result<(Seq<char>, int), Seq<char>>
    decreases s.len() - pos,
{
    if pos < 0 || pos >= s.len() {
        Err("Unterminated string"@)
    } else if s[pos] == quote {
        Ok((Seq::empty(), pos))
    } else if s[pos] == '\\' {
        if pos + 1 >= s.len() {
            Err("Unterminated string escape"@)
        } else {
            match scan_string(s, pos + 2, quote) {
                Ok((rest, e)) => Ok((escaped(s[pos + 1]) + rest, e)),
                Err(m) => Err(m),
            }
        }
    } else {
        match scan_string(s, pos + 1, quote) {
            Ok((rest, e)) => Ok((seq![s[pos]] + rest, e)),
            Err(m) => Err(m),
        }
    }
}

/// A successful scan ends at a quote inside the text.
pub proof fn lemma_scan_string(s: Seq<char>, pos: int, quote: char)
    requires
        0 <= pos,
    ensures
        scan_string(s, pos, quote) matches Ok((_, e)) ==> pos <= e < s.len(),
    decreases s.len() - pos,
{
    if 0 <= pos < s.len() && s[pos] != quote {
        if s[pos] == '\\' {
            if pos + 1 < s.len() {
                lemma_scan_string(s, pos + 2, quote);
            }
        } else {
            lemma_scan_string(s, pos + 1, quote);
        }
    }
}

/// Whether the character at `p` is `c`.
pub open spec fn next_is(s: Seq<char>, p: int, c: char) -> bool {
    0 <= p < s.len() && s[p] == c
}

/// The operator or delimiter at `pos`, and the position after it.
pub open spec fn operator_at(s: Seq<char>, pos: int) -> Result<(Token, int), Seq<char>> {
    let c = s[pos];
    let p = pos + 1;
    if c == '+' {
        if next_is(s, p, '=') { Ok((Token::PlusAssign, p + 1)) } else { Ok((Token::Plus, p)) }
    } else if c == '-' {
        if next_is(s, p, '>') {
            Ok((Token::Arrow, p + 1))
        } else if next_is(s, p, '=') {
            Ok((Token::MinusAssign, p + 1))
        } else {
            Ok((Token::Minus, p))
        }
    } else if c == '*' {
        if next_is(s, p, '*') {
            Ok((Token::DoubleStar, p + 1))
        } else if next_is(s, p, '=') {
            Ok((Token::StarAssign, p + 1))
        } else {
            Ok((Token::Star, p))
        }
    } else if c == '/' {
        if next_is(s, p, '/') {
            Ok((Token::DoubleSlash, p + 1))
        } else if next_is(s, p, '=') {
            Ok((Token::SlashAssign, p + 1))
        } else {
            Ok((Token::Slash, p))
        }
    } else if c == '%' {
        Ok((Token::Percent, p))
    } else if c == '=' {
        if next_is(s, p, '=') { Ok((Token::Equal, p + 1)) } else { Ok((Token::Assign, p)) }
    } else if c == '!' && next_is(s, p, '=') {
        Ok((Token::NotEqual, p + 1))
    } else if c == '<' {
        if next_is(s, p, '=') { Ok((Token::LessEqual, p + 1)) } else { Ok((Token::Less, p)) }
    } else if c == '>' {
        if next_is(s, p, '=') { Ok((Token::GreaterEqual, p + 1)) } else { Ok((Token::Greater, p)) }
    } else if c == '(' {
        Ok((Token::LeftParen, p))
    } else if c == ')' {
        Ok((Token::RightParen, p))
    } else if c == '[' {
        Ok((Token::LeftBracket, p))
    } else if c == ']' {
        Ok((Token::RightBracket, p))
    } else if c == '{' {
        Ok((Token::LeftBrace, p))
    } else if c == '}' {
        Ok((Token::RightBrace, p))
    } else if c == ',' {
        Ok((Token::Comma, p))
    } else if c == ':' {
        Ok((Token::Colon, p))
    } else if c == '.' {
        Ok((Token::Dot, p))
    } else {
        Err("Unexpected character: "@.push(c))
    }
}

/// The keyword or identifier token of a word.
pub open spec fn word_token(w: Seq<char>) -> LexTok {
    match keyword_spec(w) {
        Some(k) => LexTok::Simple(k),
        None => LexTok::Name(w),
    }
}

/// `n` dedent tokens.
pub open spec fn dedent_run(n: nat) -> Seq<LexTok> {
    Seq::new(n, |i: int| LexTok::Simple(Token::Dedent))
}

/// The indentation stack after closing every level deeper than `indent`.
pub open spec fn pop_levels(stack: Seq<usize>, indent: int) -> Seq<usize>
    decreases stack.len(),
{
    if stack.len() > 0 && indent < stack.last() {
        pop_levels(stack.drop_last(), indent)
    } else {
        stack
    }
}

/// What the start of a non-empty line at `pos` gives: the indentation
/// tokens, the position after the leading spaces and the new indentation
/// stack. A line of spaces, or spaces then a comment, gives no token; a
/// deeper line opens a level; a shallower one closes levels and must land
/// on an open one.
pub open spec fn indent_step(s: Seq<char>, pos: int, stack: Seq<usize>) -> Result<(Seq<LexTok>, int, Seq<usize>), Seq<char>> {
    {
        let p2 = run_end(s, pos, RunKind::Spaces);
        let indent = p2 - pos;
        if p2 >= s.len() || s[p2] == '\n' || s[p2] == '#' {
            Ok((Seq::empty(), p2, stack))
        } else if indent > stack.last() {
            Ok((seq![LexTok::Simple(Token::Indent)], p2, stack.push(indent as usize)))
        } else {
            let st = pop_levels(stack, indent);
            if indent != st.last() {
                Err("Indentation error at position "@ + decimal_digits(p2 as nat))
            } else {
                Ok((dedent_run((stack.len() - st.len()) as nat), p2, st))
            }
        }
    }
}

/// The tokens of `s` from `pos` on, with `ls` telling whether a line starts
/// there and `stack` the open indentation levels; or the error message of
/// the first malformed part. At the end every open level is closed and
/// `Eof` follows.
pub open spec fn lex_from(s: Seq<char>, pos: int, ls: bool, stack: Seq<usize>) -> Result<Seq<LexTok>, Seq<char>>
    decreases 2 * (s.len() - pos) + (if ls { 1int } else { 0int }),
{
    if pos < 0 || pos >= s.len() {
        Ok(dedent_run((stack.len() - 1) as nat).push(LexTok::Simple(Token::Eof)))
    } else if ls && s[pos] == '\n' {
        // an empty line: the next line starts right after it
        lex_from(s, pos + 1, true, stack)
    } else if ls {
        match indent_step(s, pos, stack) {
            Ok((emitted, p, st)) => {
                proof {
                    lemma_run_end(s, pos, RunKind::Spaces);
                }
                with_prefix(emitted, lex_from(s, p, false, st))
            },
            Err(m) => Err(m),
        }
    } else {
        let c = s[pos];
        if c == ' ' || c == '\t' {
            lex_from(s, pos + 1, false, stack)
        } else if c == '#' {
            proof {
                lemma_run_end(s, pos + 1, RunKind::NotNewline);
            }
            lex_from(s, run_end(s, pos + 1, RunKind::NotNewline), false, stack)
        } else if c == '\n' {
            with_prefix(seq![LexTok::Simple(Token::Newline)], lex_from(s, pos + 1, true, stack))
        } else if is_digit(c) {
            match number_at(s, pos) {
                Ok((t, e)) => {
                    proof {
                        lemma_run_end(s, pos, RunKind::Digits);
                        let e1 = run_end(s, pos, RunKind::Digits);
                        if 0 <= e1 < s.len() {
                            lemma_run_end(s, e1 + 1, RunKind::Digits);
                        }
                    }
                    with_prefix(seq![t], lex_from(s, e, false, stack))
                },
                Err(m) => Err(m),
            }
        } else if c == '"' || c == '\'' {
            match scan_string(s, pos + 1, c) {
                Ok((body, e)) => {
                    proof {
                        lemma_scan_string(s, pos + 1, c);
                    }
                    with_prefix(seq![LexTok::Str(body)], lex_from(s, e + 1, false, stack))
                },
                Err(m) => Err(m),
            }
        } else if letter_char(c) || c == '_' {
            proof {
                lemma_run_end(s, pos + 1, RunKind::NameChars);
            }
            let e = run_end(s, pos + 1, RunKind::NameChars);
            with_prefix(seq![word_token(s.subrange(pos, e))], lex_from(s, e, false, stack))
        } else {
            match operator_at(s, pos) {
                Ok((t, e)) => with_prefix(seq![LexTok::Simple(t)], lex_from(s, e, false, stack)),
                Err(m) => Err(m),
            }
        }
    }
}

/// The tokens of a whole text, or the error message of its first malformed
/// part.
pub open spec fn lex(s: Seq<char>) -> Result<Seq<LexTok>, Seq<char>> {
    lex_from(s, 0, true, seq![0usize])
}

/// The outcome of a run of the lexer, as views.
pub open spec fn lex_outcome(r: Result<Vec<Token>, String>) -> Result<Seq<LexTok>, Seq<char>> {
    match r {
        Ok(toks) => Ok(token_views(toks@)),
        Err(e) => Err(e@),
    }
}

proof fn lemma_prefix_assoc(a: Seq<LexTok>, b: Seq<LexTok>, x: Result<Seq<LexTok>, Seq<char>>)
    ensures
        with_prefix(a, with_prefix(b, x)) == with_prefix(a + b, x),
{
    match x {
        Ok(rest) => {
            assert(a + (b + rest) =~= (a + b) + rest);
        },
        Err(_) => {},
    }
}

proof fn lemma_views_push(ts: Seq<Token>, t: Token)
    ensures
        token_views(ts.push(t)) == token_views(ts) + seq![tok_view(t)],
{
    assert(token_views(ts.push(t)) =~= token_views(ts) + seq![tok_view(t)]);
}

proof fn lemma_keyword_plain(w: Seq<char>)
    ensures
        keyword_spec(w) matches Some(k) ==> tok_view(k) == LexTok::Simple(k),
{
}

pub struct Lexer {
    input: Vec<char>,
    pos: usize,
    indent_stack: Vec<usize>,
    at_line_start: bool,
    pending_tokens: Vec<Token>,
}

proof fn lemma_push_balance(toks: Seq<Token>, t: Token)
    ensures
        indent_balance(toks.push(t)) == indent_balance(toks) + (match t {
            Token::Indent => 1int,
            Token::Dedent => -1int,
            _ => 0int,
        }),
        well_nested(toks) && indent_balance(toks.push(t)) >= 0 ==> well_nested(toks.push(t)),
{
    assert(toks.push(t).drop_last() =~= toks);
}

impl Lexer {
    /// The characters of the input.
    pub closed spec fn input(&self) -> Seq<char> {
        self.input@
    }

    /// The position of the next character to read.
    pub closed spec fn position(&self) -> int {
        self.pos as int
    }

    /// Whether a line starts at the position.
    pub closed spec fn line_start(&self) -> bool {
        self.at_line_start
    }

    /// The open indentation levels, outermost first.
    pub closed spec fn levels(&self) -> Seq<usize> {
        self.indent_stack@
    }

    /// The lexer's invariant: the position lies within the input, the
    /// indentation stack starts with a base level, and nothing is pending.
    pub closed spec fn wf(&self) -> bool {
        &&& self.pos <= self.input@.len()
        &&& self.indent_stack@.len() >= 1
        &&& self.indent_stack@[0] == 0
        &&& self.pending_tokens@.len() == 0
    }

    /// Whether no indentation level is open beyond the base level.
    pub closed spec fn at_base_level(&self) -> bool {
        self.indent_stack@.len() == 1
    }

    closed spec fn same_setting(&self, other: &Lexer) -> bool {
        &&& self.input == other.input
        &&& self.indent_stack == other.indent_stack
        &&& self.pending_tokens == other.pending_tokens
        &&& self.at_line_start == other.at_line_start
    }

    pub fn new(input: &str) -> (r: Self)
        ensures
            r.wf(),
            r.at_base_level(),
            r.input() == input@,
            r.position() == 0,
            r.line_start(),
            r.levels() == seq![0usize],
    {
        let mut indent_stack = Vec::new();
        indent_stack.push(0);
        let r = Lexer {
            input: str_to_chars(input),
            pos: 0,
            indent_stack,
            at_line_start: true,
            pending_tokens: Vec::new(),
        };
        assert(r.levels() =~= seq![0usize]);
        r
    }

    /// Splits the input into tokens, ending with `Eof`: the tokens are those
    /// of `lex_from` from the lexer's state (`lex` of the input for a new
    /// lexer), and an error is the message of the first malformed part.
    /// Started at the base indentation level, a successful run yields a
    /// stream of the shape `token_stream_shape`: one `Eof` at the end and
    /// balanced, nested `Indent`/`Dedent` pairs.
    pub fn tokenize(&mut self) -> (r: Result<Vec<Token>, String>)
        requires
            old(self).wf(),
        ensures
            final(self).wf(),
            lex_outcome(r) == lex_from(old(self).input(), old(self).position(), old(self).line_start(), old(self).levels()),
            r matches Ok(toks) ==> (old(self).at_base_level() ==> token_stream_shape(toks@)),
    {
        let mut tokens: Vec<Token> = Vec::new();
        let ghost base = self.indent_stack@.len();
        let ghost in0 = self.input@;
        let ghost total = lex_from(self.input@, self.pos as int, self.at_line_start, self.indent_stack@);
        assert(old(self).at_base_level() ==> base == 1);
        proof {
            assert(token_views(tokens@) =~= Seq::<LexTok>::empty());
            match total {
                Ok(rest) => {
                    assert(Seq::<LexTok>::empty() + rest =~= rest);
                },
                Err(_) => {},
            }
        }
        loop
            invariant
                self.wf(),
                self.input@ == in0,
                old(self).at_base_level() ==> base == 1,
                no_eof(tokens@),
                base == 1 ==> well_nested(tokens@),
                indent_balance(tokens@) == self.indent_stack@.len() - base,
                total == with_prefix(token_views(tokens@), lex_from(in0, self.pos as int, self.at_line_start, self.indent_stack@)),
                total == lex_from(old(self).input(), old(self).position(), old(self).line_start(), old(self).levels()),
            decreases 2 * (self.input@.len() - self.pos) + (if self.at_line_start { 1int } else { 0int }),
        {
            while self.pending_tokens.len() > 0
                invariant
                    self.wf(),
                decreases self.pending_tokens.len(),
            {
                // nothing is ever pending
            }
            let ghost cur = lex_from(in0, self.pos as int, self.at_line_start, self.indent_stack@);
            if self.pos >= self.input.len() {
                let ghost t0 = token_views(tokens@);
                let ghost st0 = self.indent_stack@;
                while self.indent_stack.len() > 1
                    invariant
                        self.wf(),
                        self.input@ == in0,
                        no_eof(tokens@),
                        base == 1 ==> well_nested(tokens@),
                        indent_balance(tokens@) == self.indent_stack@.len() - base,
                        1 <= self.indent_stack@.len() <= st0.len(),
                        token_views(tokens@) == t0 + dedent_run((st0.len() - self.indent_stack@.len()) as nat),
                    decreases self.indent_stack.len(),
                {
                    self.indent_stack.pop();
                    proof {
                        lemma_push_balance(tokens@, Token::Dedent);
                        lemma_views_push(tokens@, Token::Dedent);
                        assert(t0 + dedent_run((st0.len() - self.indent_stack@.len()) as nat) =~= t0 + dedent_run(
                            (st0.len() - self.indent_stack@.len() - 1) as nat,
                        ) + seq![tok_view(Token::Dedent)]);
                    }
                    tokens.push(Token::Dedent);
                }
                proof {
                    lemma_push_balance(tokens@, Token::Eof);
                    lemma_views_push(tokens@, Token::Eof);
                    assert(tokens@.push(Token::Eof).drop_last() =~= tokens@);
                    assert(t0 + dedent_run((st0.len() - 1) as nat).push(LexTok::Simple(Token::Eof)) =~= token_views(
                        tokens@,
                    ) + seq![tok_view(Token::Eof)]);
                }
                let ghost before = tokens@;
                tokens.push(Token::Eof);
                proof {
                    if base == 1 {
                        assert(indent_balance(tokens@) == 0);
                        assert(well_nested(tokens@));
                        assert(tokens@.drop_last() =~= before);
                        assert(token_stream_shape(tokens@));
                    }
                }
                return Ok(tokens);
            }
            if self.at_line_start && self.input[self.pos] == '\n' {
                self.pos = self.pos + 1;
                continue ;
            }
            if self.at_line_start {
                let ghost t0 = token_views(tokens@);
                let ghost step = indent_step(in0, self.pos as int, self.indent_stack@);
                let res = self.handle_indentation(&mut tokens, Ghost(base as int));
                match res {
                    Ok(()) => {},
                    Err(e) => return Err(e),
                }
                self.at_line_start = false;
                proof {
                    let (emitted, p, st) = step->Ok_0;
                    lemma_prefix_assoc(t0, emitted, lex_from(in0, p, false, st));
                }
                continue ;
            }
            let ch = self.input[self.pos];
            // Skip spaces/tabs (not at line start)
            if ch == ' ' || ch == '\t' {
                self.pos = self.pos + 1;
                continue ;
            }
            // Comments

            if ch == '#' {
                self.pos = self.pos + 1;
                let ghost pos0 = self.pos;
                while self.pos < self.input.len() && self.input[self.pos] != '\n'
                    invariant
                        self.wf(),
                        !self.at_line_start,
                        self.input@ == in0,
                        self.pos >= pos0,
                        run_end(in0, pos0 as int, RunKind::NotNewline) == run_end(in0, self.pos as int, RunKind::NotNewline),
                        old(self).at_base_level() ==> base == 1,
                        no_eof(tokens@),
                        base == 1 ==> well_nested(tokens@),
                        indent_balance(tokens@) == self.indent_stack@.len() - base,
                        total == with_prefix(token_views(tokens@), lex_from(in0, pos0 - 1, false, self.indent_stack@)),
                        total == lex_from(old(self).input(), old(self).position(), old(self).line_start(), old(self).levels()),
                    decreases self.input@.len() - self.pos,
                {
                    self.pos = self.pos + 1;
                }
                assert(run_end(in0, self.pos as int, RunKind::NotNewline) == self.pos);
                continue ;
            }
            // Newline

            if ch == '\n' {
                proof {
                    lemma_push_balance(tokens@, Token::Newline);
                    lemma_views_push(tokens@, Token::Newline);
                    lemma_prefix_assoc(token_views(tokens@), seq![LexTok::Simple(Token::Newline)], lex_from(in0, self.pos + 1, true, self.indent_stack@));
                }
                tokens.push(Token::Newline);
                self.pos = self.pos + 1;
                self.at_line_start = true;
                continue ;
            }
            let tok: Token;
            if '0' <= ch && ch <= '9' {
                match self.read_number() {
                    Ok(t) => {
                        tok = t;
                    },
                    Err(e) => return Err(e),
                }
            } else if ch == '"' || ch == '\'' {
                match self.read_string() {
                    Ok(t) => {
                        tok = t;
                    },
                    Err(e) => return Err(e),
                }
            } else if is_alphabetic(ch) || ch == '_' {
                tok = self.read_identifier();
            } else {
                match self.read_operator() {
                    Ok(t) => {
                        tok = t;
                    },
                    Err(e) => return Err(e),
                }
            }
            proof {
                lemma_push_balance(tokens@, tok);
                lemma_views_push(tokens@, tok);
                lemma_prefix_assoc(token_views(tokens@), seq![tok_view(tok)], lex_from(in0, self.pos as int, false, self.indent_stack@));
            }
            tokens.push(tok);
        }
    }

    fn handle_indentation(&mut self, tokens: &mut Vec<Token>, Ghost(base): Ghost<int>) -> (r: Result<(), String>)
        requires
            old(self).wf(),
            old(self).at_line_start,
            old(self).pos < old(self).input@.len(),
            old(self).input@[old(self).pos as int] != '\n',
            no_eof(old(tokens)@),
            base == 1 ==> well_nested(old(tokens)@),
            indent_balance(old(tokens)@) == old(self).indent_stack@.len() - base,
        ensures
            final(self).wf(),
            final(self).input == old(self).input,
            (match indent_step(old(self).input@, old(self).pos as int, old(self).indent_stack@) {
                Ok((emitted, p, st)) => {
                    &&& r is Ok
                    &&& token_views(final(tokens)@) == token_views(old(tokens)@) + emitted
                    &&& final(self).pos == p
                    &&& final(self).indent_stack@ == st
                },
                Err(m) => r matches Err(x) && x@ == m,
            }),
            r is Ok ==> {
                &&& final(self).pos >= old(self).pos
                &&& no_eof(final(tokens)@)
                &&& base == 1 ==> well_nested(final(tokens)@)
                &&& indent_balance(final(tokens)@) == final(self).indent_stack@.len() - base
            },
    {
        proof {
            assert(token_views(tokens@) + Seq::<LexTok>::empty() =~= token_views(tokens@));
        }
        // Count leading spaces

        let mut indent: usize = 0;
        while self.pos < self.input.len() && self.input[self.pos] == ' '
            invariant
                old(self).pos <= self.pos <= self.input@.len(),
                self.input == old(self).input,
                self.indent_stack == old(self).indent_stack,
                self.pending_tokens == old(self).pending_tokens,
                indent == self.pos - old(self).pos,
                run_end(self.input@, old(self).pos as int, RunKind::Spaces) == run_end(self.input@, self.pos as int, RunKind::Spaces),
            decreases self.input@.len() - self.pos,
        {
            indent = indent + 1;
            self.pos = self.pos + 1;
        }
        assert(run_end(self.input@, self.pos as int, RunKind::Spaces) == self.pos);
        // Skip blank/comment-only lines

        if self.pos >= self.input.len() || self.input[self.pos] == '\n' || self.input[self.pos]
            == '#' {
            return Ok(());
        }
        let current_indent = self.indent_stack[self.indent_stack.len() - 1];
        if indent > current_indent {
            self.indent_stack.push(indent);
            proof {
                lemma_push_balance(tokens@, Token::Indent);
                lemma_views_push(tokens@, Token::Indent);
            }
            tokens.push(Token::Indent);
        } else {
            let ghost t0 = token_views(tokens@);
            let ghost st0 = self.indent_stack@;
            proof {
                assert(t0 + dedent_run(0) =~= t0);
            }
            while indent < self.indent_stack[self.indent_stack.len() - 1]
                invariant
                    self.wf(),
                    self.input == old(self).input,
                    self.pos >= old(self).pos,
                    self.pos < self.input@.len(),
                    no_eof(tokens@),
                    base == 1 ==> well_nested(tokens@),
                    indent_balance(tokens@) == self.indent_stack@.len() - base,
                    1 <= self.indent_stack@.len() <= st0.len(),
                    self.indent_stack@ == st0.subrange(0, self.indent_stack@.len() as int),
                    pop_levels(st0, indent as int) == pop_levels(self.indent_stack@, indent as int),
                    st0 == old(self).indent_stack@,
                    indent <= st0.last(),
                    t0 == token_views(old(tokens)@),
                    indent == self.pos - old(self).pos,
                    self.input@[self.pos as int] != '\n' && self.input@[self.pos as int] != '#',
                    run_end(self.input@, old(self).pos as int, RunKind::Spaces) == self.pos,
                    old(self).input@[old(self).pos as int] != '\n',
                    token_views(tokens@) == t0 + dedent_run((st0.len() - self.indent_stack@.len()) as nat),
                decreases self.indent_stack.len(),
            {
                let ghost st1 = self.indent_stack@;
                self.indent_stack.pop();
                proof {
                    assert(self.indent_stack@ =~= st1.drop_last());
                    assert(self.indent_stack@ =~= st0.subrange(0, self.indent_stack@.len() as int));
                    lemma_push_balance(tokens@, Token::Dedent);
                    lemma_views_push(tokens@, Token::Dedent);
                    assert(t0 + dedent_run((st0.len() - self.indent_stack@.len()) as nat) =~= t0 + dedent_run(
                        (st0.len() - self.indent_stack@.len() - 1) as nat,
                    ) + seq![tok_view(Token::Dedent)]);
                }
                tokens.push(Token::Dedent);
            }
            assert(pop_levels(self.indent_stack@, indent as int) == self.indent_stack@);
            if indent != self.indent_stack[self.indent_stack.len() - 1] {
                let msg = concat("Indentation error at position ", u64_text(self.pos as u64).as_str());
                return Err(msg);
            }
        }
        Ok(())
    }

    fn read_number(&mut self) -> (r: Result<Token, String>)
        requires
            old(self).wf(),
            old(self).pos < old(self).input.len(),
            is_digit(old(self).input@[old(self).pos as int]),
        ensures
            final(self).same_setting(old(self)),
            final(self).wf(),
            (match number_at(old(self).input@, old(self).pos as int) {
                Ok((t, e)) => r matches Ok(x) && tok_view(x) == t && final(self).pos == e,
                Err(m) => r matches Err(x) && x@ == m,
            }),
            r is Ok ==> final(self).pos > old(self).pos,
    {
        let start = self.pos;
        let mut is_float = false;
        let mut value: u64 = 0;
        let mut overflow = false;
        while self.pos < self.input.len() && '0' <= self.input[self.pos] && self.input[self.pos]
            <= '9'
            invariant
                start <= self.pos <= self.input@.len(),
                self.same_setting(old(self)),
                run_end(self.input@, start as int, RunKind::Digits) == run_end(self.input@, self.pos as int, RunKind::Digits),
                forall|k: int| start <= k < self.pos ==> is_digit(self.input@[k]),
                !overflow ==> value as nat == digits_value(self.input@.subrange(start as int, self.pos as int)),
                !overflow ==> value <= i64::MAX,
                overflow ==> digits_value(self.input@.subrange(start as int, self.pos as int)) > i64::MAX,
            decreases self.input@.len() - self.pos,
        {
            let d = self.input[self.pos];
            let dv = ((d as u32) - 48) as u64;
            let ghost prev = self.input@.subrange(start as int, self.pos as int);
            assert(self.input@.subrange(start as int, self.pos + 1).drop_last() =~= prev);
            if !overflow {
                if value > (9223372036854775807u64 - dv) / 10 {
                    overflow = true;
                    assert(value * 10 + dv > 9223372036854775807) by (nonlinear_arith)
                        requires value > (9223372036854775807u64 - dv) / 10, dv <= 9;
                } else {
                    assert(value * 10 + dv <= 9223372036854775807) by (nonlinear_arith)
                        requires value <= (9223372036854775807u64 - dv) / 10, dv <= 9;
                    value = value * 10 + dv;
                }
            } else {
                assert(digits_value(prev) * 10 + dv >= digits_value(prev)) by (nonlinear_arith);
            }
            self.pos = self.pos + 1;
        }
        let ghost e1 = self.pos;
        if self.pos < self.input.len() && self.input[self.pos] == '.' {
            is_float = true;
            self.pos = self.pos + 1;
            while self.pos < self.input.len() && '0' <= self.input[self.pos] && self.input[self.pos]
                <= '9'
                invariant
                    start < self.pos <= self.input@.len(),
                    self.same_setting(old(self)),
                    run_end(self.input@, e1 + 1, RunKind::Digits) == run_end(self.input@, self.pos as int, RunKind::Digits),
                decreases self.input@.len() - self.pos,
            {
                self.pos = self.pos + 1;
            }
        }
        if is_float {
            Ok(Token::Float(string_from_range(&self.input, start, self.pos)))
        } else if overflow {
            Err(owned("Invalid integer: number too large to fit in target type"))
        } else {
            Ok(Token::Integer(value as i64))
        }
    }

    fn read_string(&mut self) -> (r: Result<Token, String>)
        requires
            old(self).wf(),
            old(self).pos < old(self).input.len(),
        ensures
            final(self).same_setting(old(self)),
            final(self).wf(),
            (match scan_string(old(self).input@, old(self).pos + 1, old(self).input@[old(self).pos as int]) {
                Ok((body, e)) => r matches Ok(x) && tok_view(x) == LexTok::Str(body) && final(self).pos == e + 1,
                Err(m) => r matches Err(x) && x@ == m,
            }),
            r is Ok ==> final(self).pos > old(self).pos,
    {
        let quote = self.input[self.pos];
        self.pos = self.pos + 1;
        let ghost whole = scan_string(self.input@, self.pos as int, quote);
        let mut s = String::new();
        proof {
            match whole {
                Ok((b, e)) => {
                    assert(Seq::<char>::empty() + b =~= b);
                },
                Err(_) => {},
            }
        }
        while self.pos < self.input.len() && self.input[self.pos] != quote
            invariant
                old(self).pos < self.pos <= self.input@.len(),
                self.same_setting(old(self)),
                self.wf(),
                quote == self.input@[old(self).pos as int],
                whole == scan_string(self.input@, old(self).pos + 1, quote),
                whole == (match scan_string(self.input@, self.pos as int, quote) {
                    Ok((b, e)) => Ok((s@ + b, e)),
                    Err(m) => Err(m),
                }),
            decreases self.input@.len() - self.pos,
        {
            let ghost here = self.pos as int;
            let ghost s0 = s@;
            if self.input[self.pos] == '\\' {
                self.pos = self.pos + 1;
                if self.pos >= self.input.len() {
                    return Err(owned("Unterminated string escape"));
                }
                let e = self.input[self.pos];
                if e == 'n' {
                    push_char(&mut s, '\n');
                } else if e == 't' {
                    push_char(&mut s, '\t');
                } else if e == '\\' {
                    push_char(&mut s, '\\');
                } else if e == '\'' {
                    push_char(&mut s, '\'');
                } else if e == '"' {
                    push_char(&mut s, '"');
                } else {
                    push_char(&mut s, '\\');
                    push_char(&mut s, e);
                }
                proof {
                    assert(s@ =~= s0 + escaped(e));
                    match scan_string(self.input@, here + 2, quote) {
                        Ok((b, f)) => {
                            assert(s0 + (escaped(e) + b) =~= s@ + b);
                        },
                        Err(_) => {},
                    }
                }
            } else {
                let c = self.input[self.pos];
                push_char(&mut s, c);
                proof {
                    match scan_string(self.input@, here + 1, quote) {
                        Ok((b, f)) => {
                            assert(s0 + (seq![c] + b) =~= s@ + b);
                        },
                        Err(_) => {},
                    }
                }
            }
            self.pos = self.pos + 1;
        }
        if self.pos >= self.input.len() {
            return Err(owned("Unterminated string"));
        }
        proof {
            assert(s@ + Seq::<char>::empty() =~= s@);
        }
        self.pos = self.pos + 1;
        Ok(Token::StringLiteral(s))
    }

    fn read_identifier(&mut self) -> (r: Token)
        requires
            old(self).wf(),
            old(self).pos < old(self).input.len(),
        ensures
            final(self).same_setting(old(self)),
            final(self).wf(),
            final(self).pos == run_end(old(self).input@, old(self).pos + 1, RunKind::NameChars),
            final(self).pos > old(self).pos,
            tok_view(r) == word_token(old(self).input@.subrange(old(self).pos as int, final(self).pos as int)),
    {
        let start = self.pos;
        // the first character was already classified by the caller
        self.pos = self.pos + 1;
        while self.pos < self.input.len() && (is_alphanumeric(self.input[self.pos])
            || self.input[self.pos] == '_')
            invariant
                start < self.pos <= self.input@.len(),
                self.same_setting(old(self)),
                start == old(self).pos,
                run_end(self.input@, start + 1, RunKind::NameChars) == run_end(self.input@, self.pos as int, RunKind::NameChars),
            decreases self.input@.len() - self.pos,
        {
            self.pos = self.pos + 1;
        }
        let word = string_from_range(&self.input, start, self.pos);
        proof {
            lemma_keyword_plain(word@);
        }
        match Token::keyword_from_str(word.as_str()) {
            Some(k) => k,
            None => Token::Identifier(word),
        }
    }

    fn read_operator(&mut self) -> (r: Result<Token, String>)
        requires
            old(self).wf(),
            old(self).pos < old(self).input.len(),
        ensures
            final(self).same_setting(old(self)),
            final(self).wf(),
            (match operator_at(old(self).input@, old(self).pos as int) {
                Ok((t, e)) => r matches Ok(x) && x == t && final(self).pos == e,
                Err(m) => r matches Err(x) && x@ == m,
            }),
            r matches Ok(t) ==> tok_view(t) == LexTok::Simple(t),
            r is Ok ==> final(self).pos > old(self).pos,
    {
        let ch = self.input[self.pos];
        self.pos = self.pos + 1;
        let next_is_eq = self.pos < self.input.len() && self.input[self.pos] == '=';
        if ch == '+' {
            if next_is_eq {
                self.pos = self.pos + 1;
                Ok(Token::PlusAssign)
            } else {
                Ok(Token::Plus)
            }
        } else if ch == '-' {
            if self.pos < self.input.len() && self.input[self.pos] == '>' {
                self.pos = self.pos + 1;
                Ok(Token::Arrow)
            } else if next_is_eq {
                self.pos = self.pos + 1;
                Ok(Token::MinusAssign)
            } else {
                Ok(Token::Minus)
            }
        } else if ch == '*' {
            if self.pos < self.input.len() && self.input[self.pos] == '*' {
                self.pos = self.pos + 1;
                Ok(Token::DoubleStar)
            } else if next_is_eq {
                self.pos = self.pos + 1;
                Ok(Token::StarAssign)
            } else {
                Ok(Token::Star)
            }
        } else if ch == '/' {
            if self.pos < self.input.len() && self.input[self.pos] == '/' {
                self.pos = self.pos + 1;
                Ok(Token::DoubleSlash)
            } else if next_is_eq {
                self.pos = self.pos + 1;
                Ok(Token::SlashAssign)
            } else {
                Ok(Token::Slash)
            }
        } else if ch == '%' {
            Ok(Token::Percent)
        } else if ch == '=' {
            if next_is_eq {
                self.pos = self.pos + 1;
                Ok(Token::Equal)
            } else {
                Ok(Token::Assign)
            }
        } else if ch == '!' && next_is_eq {
            self.pos = self.pos + 1;
            Ok(Token::NotEqual)
        } else if ch == '<' {
            if next_is_eq {
                self.pos = self.pos + 1;
                Ok(Token::LessEqual)
            } else {
                Ok(Token::Less)
            }
        } else if ch == '>' {
            if next_is_eq {
                self.pos = self.pos + 1;
                Ok(Token::GreaterEqual)
            } else {
                Ok(Token::Greater)
            }
        } else if ch == '(' {
            Ok(Token::LeftParen)
        } else if ch == ')' {
            Ok(Token::RightParen)
        } else if ch == '[' {
            Ok(Token::LeftBracket)
        } else if ch == ']' {
            Ok(Token::RightBracket)
        } else if ch == '{' {
            Ok(Token::LeftBrace)
        } else if ch == '}' {
            Ok(Token::RightBrace)
        } else if ch == ',' {
            Ok(Token::Comma)
        } else if ch == ':' {
            Ok(Token::Colon)
        } else if ch == '.' {
            Ok(Token::Dot)
        } else {
            let mut msg = owned("Unexpected character: ");
            push_char(&mut msg, ch);
            Err(msg)
        }
    }
}

} // verus!
