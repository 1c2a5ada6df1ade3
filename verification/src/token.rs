use vstd::prelude::*;

use crate::text::{i64_text, int_text, push_char, str_equal, str_to_chars};

verus! {

/// A lexical token. A float literal keeps the text it was written with.
#[derive(Debug, Clone, PartialEq)]
pub enum Token {
    // Literals
    Integer(i64),
    Float(String),
    StringLiteral(String),
    Boolean(bool),
    Identifier(String),
    // Keywords
    Def,
    Return,
    If,
    Elif,
    Else,
    While,
    For,
    In,
    Break,
    Continue,
    Pass,
    NoneKw,
    True,
    False,
    And,
    Or,
    Not,
    Print,
    Class,
    Import,
    From,
    As,
    // Operators
    Plus,
    Minus,
    Star,
    Slash,
    DoubleSlash,
    Percent,
    DoubleStar,
    Assign,
    PlusAssign,
    MinusAssign,
    StarAssign,
    SlashAssign,
    // Comparison
    Equal,
    NotEqual,
    Less,
    LessEqual,
    Greater,
    GreaterEqual,
    // Delimiters
    LeftParen,
    RightParen,
    LeftBracket,
    RightBracket,
    LeftBrace,
    RightBrace,
    Comma,
    Colon,
    Dot,
    Arrow,
    // Indentation
    Indent,
    Dedent,
    Newline,
    // Special
    Eof,
}

/// How an operator or delimiter token is written in source text, as Python
/// spells it (`>=` for `GreaterEqual`, `//` for `DoubleSlash`); empty for
/// every other token.
pub open spec fn operator_spelling(t: Token) -> Seq<char> {
    match t {
        Token::Plus => seq!['+'],
        Token::Minus => seq!['-'],
        Token::Star => seq!['*'],
        Token::Slash => seq!['/'],
        Token::DoubleSlash => seq!['/', '/'],
        Token::Percent => seq!['%'],
        Token::DoubleStar => seq!['*', '*'],
        Token::Assign => seq!['='],
        Token::PlusAssign => seq!['+', '='],
        Token::MinusAssign => seq!['-', '='],
        Token::StarAssign => seq!['*', '='],
        Token::SlashAssign => seq!['/', '='],
        Token::Equal => seq!['=', '='],
        Token::NotEqual => seq!['!', '='],
        Token::Less => seq!['<'],
        Token::LessEqual => seq!['<', '='],
        Token::Greater => seq!['>'],
        Token::GreaterEqual => seq!['>', '='],
        Token::LeftParen => seq!['('],
        Token::RightParen => seq![')'],
        Token::LeftBracket => seq!['['],
        Token::RightBracket => seq![']'],
        Token::LeftBrace => seq!['{'],
        Token::RightBrace => seq!['}'],
        Token::Comma => seq![','],
        Token::Colon => seq![':'],
        Token::Dot => seq!['.'],
        Token::Arrow => seq!['-', '>'],
        _ => Seq::empty(),
    }
}

/// The reserved word a keyword token stands for; empty for every other
/// token.
pub open spec fn keyword_spelling(t: Token) -> Seq<char> {
    match t {
        Token::Def => seq!['d', 'e', 'f'],
        Token::Return => seq!['r', 'e', 't', 'u', 'r', 'n'],
        Token::If => seq!['i', 'f'],
        Token::Elif => seq!['e', 'l', 'i', 'f'],
        Token::Else => seq!['e', 'l', 's', 'e'],
        Token::While => seq!['w', 'h', 'i', 'l', 'e'],
        Token::For => seq!['f', 'o', 'r'],
        Token::In => seq!['i', 'n'],
        Token::Break => seq!['b', 'r', 'e', 'a', 'k'],
        Token::Continue => seq!['c', 'o', 'n', 't', 'i', 'n', 'u', 'e'],
        Token::Pass => seq!['p', 'a', 's', 's'],
        Token::NoneKw => seq!['N', 'o', 'n', 'e'],
        Token::True => seq!['T', 'r', 'u', 'e'],
        Token::False => seq!['F', 'a', 'l', 's', 'e'],
        Token::And => seq!['a', 'n', 'd'],
        Token::Or => seq!['o', 'r'],
        Token::Not => seq!['n', 'o', 't'],
        Token::Print => seq!['p', 'r', 'i', 'n', 't'],
        Token::Class => seq!['c', 'l', 'a', 's', 's'],
        Token::Import => seq!['i', 'm', 'p', 'o', 'r', 't'],
        Token::From => seq!['f', 'r', 'o', 'm'],
        Token::As => seq!['a', 's'],
        _ => Seq::empty(),
    }
}

/// How a token is written in source text, for operators, delimiters and
/// keywords.
pub open spec fn source_spelling(t: Token) -> Seq<char> {
    operator_spelling(t) + keyword_spelling(t)
}

/// The keyword spelled by `w`, if `w` is one of the reserved words.
pub open spec fn keyword_spec(w: Seq<char>) -> Option<Token> {
    if w == "def"@ {
        Some(Token::Def)
    } else if w == "return"@ {
        Some(Token::Return)
    } else if w == "if"@ {
        Some(Token::If)
    } else if w == "elif"@ {
        Some(Token::Elif)
    } else if w == "else"@ {
        Some(Token::Else)
    } else if w == "while"@ {
        Some(Token::While)
    } else if w == "for"@ {
        Some(Token::For)
    } else if w == "in"@ {
        Some(Token::In)
    } else if w == "break"@ {
        Some(Token::Break)
    } else if w == "continue"@ {
        Some(Token::Continue)
    } else if w == "pass"@ {
        Some(Token::Pass)
    } else if w == "None"@ {
        Some(Token::NoneKw)
    } else if w == "True"@ {
        Some(Token::True)
    } else if w == "False"@ {
        Some(Token::False)
    } else if w == "and"@ {
        Some(Token::And)
    } else if w == "or"@ {
        Some(Token::Or)
    } else if w == "not"@ {
        Some(Token::Not)
    } else if w == "print"@ {
        Some(Token::Print)
    } else if w == "class"@ {
        Some(Token::Class)
    } else if w == "import"@ {
        Some(Token::Import)
    } else if w == "from"@ {
        Some(Token::From)
    } else if w == "as"@ {
        Some(Token::As)
    } else {
        None
    }
}

impl Token {
    /// The keyword token spelled by `s`, or `None` for any other word.
    pub fn keyword_from_str(s: &str) -> (r: Option<Token>)
        ensures
            r == keyword_spec(s@),
    {
        if str_equal(s, "def") {
            Some(Token::Def)
        } else if str_equal(s, "return") {
            Some(Token::Return)
        } else if str_equal(s, "if") {
            Some(Token::If)
        } else if str_equal(s, "elif") {
            Some(Token::Elif)
        } else if str_equal(s, "else") {
            Some(Token::Else)
        } else if str_equal(s, "while") {
            Some(Token::While)
        } else if str_equal(s, "for") {
            Some(Token::For)
        } else if str_equal(s, "in") {
            Some(Token::In)
        } else if str_equal(s, "break") {
            Some(Token::Break)
        } else if str_equal(s, "continue") {
            Some(Token::Continue)
        } else if str_equal(s, "pass") {
            Some(Token::Pass)
        } else if str_equal(s, "None") {
            Some(Token::NoneKw)
        } else if str_equal(s, "True") {
            Some(Token::True)
        } else if str_equal(s, "False") {
            Some(Token::False)
        } else if str_equal(s, "and") {
            Some(Token::And)
        } else if str_equal(s, "or") {
            Some(Token::Or)
        } else if str_equal(s, "not") {
            Some(Token::Not)
        } else if str_equal(s, "print") {
            Some(Token::Print)
        } else if str_equal(s, "class") {
            Some(Token::Class)
        } else if str_equal(s, "import") {
            Some(Token::Import)
        } else if str_equal(s, "from") {
            Some(Token::From)
        } else if str_equal(s, "as") {
            Some(Token::As)
        } else {
            None
        }
    }

    /// A copy of the token.
    pub fn copy(&self) -> (r: Token)
        ensures
            r == *self,
    {
        match self {
            Token::Integer(n) => Token::Integer(*n),
            Token::Float(s) => Token::Float(s.clone()),
            Token::StringLiteral(s) => Token::StringLiteral(s.clone()),
            Token::Boolean(b) => Token::Boolean(*b),
            Token::Identifier(s) => Token::Identifier(s.clone()),
            Token::Def => Token::Def,
            Token::Return => Token::Return,
            Token::If => Token::If,
            Token::Elif => Token::Elif,
            Token::Else => Token::Else,
            Token::While => Token::While,
            Token::For => Token::For,
            Token::In => Token::In,
            Token::Break => Token::Break,
            Token::Continue => Token::Continue,
            Token::Pass => Token::Pass,
            Token::NoneKw => Token::NoneKw,
            Token::True => Token::True,
            Token::False => Token::False,
            Token::And => Token::And,
            Token::Or => Token::Or,
            Token::Not => Token::Not,
            Token::Print => Token::Print,
            Token::Class => Token::Class,
            Token::Import => Token::Import,
            Token::From => Token::From,
            Token::As => Token::As,
            Token::Plus => Token::Plus,
            Token::Minus => Token::Minus,
            Token::Star => Token::Star,
            Token::Slash => Token::Slash,
            Token::DoubleSlash => Token::DoubleSlash,
            Token::Percent => Token::Percent,
            Token::DoubleStar => Token::DoubleStar,
            Token::Assign => Token::Assign,
            Token::PlusAssign => Token::PlusAssign,
            Token::MinusAssign => Token::MinusAssign,
            Token::StarAssign => Token::StarAssign,
            Token::SlashAssign => Token::SlashAssign,
            Token::Equal => Token::Equal,
            Token::NotEqual => Token::NotEqual,
            Token::Less => Token::Less,
            Token::LessEqual => Token::LessEqual,
            Token::Greater => Token::Greater,
            Token::GreaterEqual => Token::GreaterEqual,
            Token::LeftParen => Token::LeftParen,
            Token::RightParen => Token::RightParen,
            Token::LeftBracket => Token::LeftBracket,
            Token::RightBracket => Token::RightBracket,
            Token::LeftBrace => Token::LeftBrace,
            Token::RightBrace => Token::RightBrace,
            Token::Comma => Token::Comma,
            Token::Colon => Token::Colon,
            Token::Dot => Token::Dot,
            Token::Arrow => Token::Arrow,
            Token::Indent => Token::Indent,
            Token::Dedent => Token::Dedent,
            Token::Newline => Token::Newline,
            Token::Eof => Token::Eof,
        }
    }
}


/// The escaped form of one character inside a quoted text: a quote, a
/// backslash, and the newline, tab, carriage return and NUL characters get a
/// backslash escape, as Rust's `Debug` writes them; any other character
/// stands for itself.
pub open spec fn escape_char(c: char) -> Seq<char> {
    if c == '"' {
        seq!['\\', '"']
    } else if c == '\\' {
        seq!['\\', '\\']
    } else if c == '\n' {
        seq!['\\', 'n']
    } else if c == '\t' {
        seq!['\\', 't']
    } else if c == '\r' {
        seq!['\\', 'r']
    } else if c == '\0' {
        seq!['\\', '0']
    } else {
        seq![c]
    }
}

/// A text between double quotes, each character escaped by `escape_char`.
pub open spec fn quoted(s: Seq<char>) -> Seq<char> {
    seq!['"'] + escaped(s) + seq!['"']
}

/// Each character of `s` escaped by `escape_char`, in order.
pub open spec fn escaped(s: Seq<char>) -> Seq<char>
    decreases s.len(),
{
    if s.len() == 0 {
        Seq::empty()
    } else {
        escaped(s.drop_last()) + escape_char(s.last())
    }
}

/// How error messages name a token: its variant name, with its payload in
/// brackets (a number in decimal, a text quoted, a float as written).
pub open spec fn token_text_spec(t: Token) -> Seq<char> {
    match t {
        Token::Integer(n) => seq!['I', 'n', 't', 'e', 'g', 'e', 'r', '('] + int_text(n as int) + seq![')'],
        Token::Float(s) => seq!['F', 'l', 'o', 'a', 't', '('] + s@ + seq![')'],
        Token::StringLiteral(s) => seq!['S', 't', 'r', 'i', 'n', 'g', 'L', 'i', 't', 'e', 'r', 'a', 'l', '('] + quoted(s@) + seq![')'],
        Token::Boolean(b) => seq!['B', 'o', 'o', 'l', 'e', 'a', 'n', '('] + (if b { seq!['t', 'r', 'u', 'e'] } else { seq!['f', 'a', 'l', 's', 'e'] }) + seq![')'],
        Token::Identifier(s) => seq!['I', 'd', 'e', 'n', 't', 'i', 'f', 'i', 'e', 'r', '('] + quoted(s@) + seq![')'],
        Token::Def => seq!['D', 'e', 'f'],
        Token::Return => seq!['R', 'e', 't', 'u', 'r', 'n'],
        Token::If => seq!['I', 'f'],
        Token::Elif => seq!['E', 'l', 'i', 'f'],
        Token::Else => seq!['E', 'l', 's', 'e'],
        Token::While => seq!['W', 'h', 'i', 'l', 'e'],
        Token::For => seq!['F', 'o', 'r'],
        Token::In => seq!['I', 'n'],
        Token::Break => seq!['B', 'r', 'e', 'a', 'k'],
        Token::Continue => seq!['C', 'o', 'n', 't', 'i', 'n', 'u', 'e'],
        Token::Pass => seq!['P', 'a', 's', 's'],
        Token::NoneKw => seq!['N', 'o', 'n', 'e'],
        Token::True => seq!['T', 'r', 'u', 'e'],
        Token::False => seq!['F', 'a', 'l', 's', 'e'],
        Token::And => seq!['A', 'n', 'd'],
        Token::Or => seq!['O', 'r'],
        Token::Not => seq!['N', 'o', 't'],
        Token::Print => seq!['P', 'r', 'i', 'n', 't'],
        Token::Class => seq!['C', 'l', 'a', 's', 's'],
        Token::Import => seq!['I', 'm', 'p', 'o', 'r', 't'],
        Token::From => seq!['F', 'r', 'o', 'm'],
        Token::As => seq!['A', 's'],
        Token::Plus => seq!['P', 'l', 'u', 's'],
        Token::Minus => seq!['M', 'i', 'n', 'u', 's'],
        Token::Star => seq!['S', 't', 'a', 'r'],
        Token::Slash => seq!['S', 'l', 'a', 's', 'h'],
        Token::DoubleSlash => seq!['D', 'o', 'u', 'b', 'l', 'e', 'S', 'l', 'a', 's', 'h'],
        Token::Percent => seq!['P', 'e', 'r', 'c', 'e', 'n', 't'],
        Token::DoubleStar => seq!['D', 'o', 'u', 'b', 'l', 'e', 'S', 't', 'a', 'r'],
        Token::Assign => seq!['A', 's', 's', 'i', 'g', 'n'],
        Token::PlusAssign => seq!['P', 'l', 'u', 's', 'A', 's', 's', 'i', 'g', 'n'],
        Token::MinusAssign => seq!['M', 'i', 'n', 'u', 's', 'A', 's', 's', 'i', 'g', 'n'],
        Token::StarAssign => seq!['S', 't', 'a', 'r', 'A', 's', 's', 'i', 'g', 'n'],
        Token::SlashAssign => seq!['S', 'l', 'a', 's', 'h', 'A', 's', 's', 'i', 'g', 'n'],
        Token::Equal => seq!['E', 'q', 'u', 'a', 'l'],
        Token::NotEqual => seq!['N', 'o', 't', 'E', 'q', 'u', 'a', 'l'],
        Token::Less => seq!['L', 'e', 's', 's'],
        Token::LessEqual => seq!['L', 'e', 's', 's', 'E', 'q', 'u', 'a', 'l'],
        Token::Greater => seq!['G', 'r', 'e', 'a', 't', 'e', 'r'],
        Token::GreaterEqual => seq!['G', 'r', 'e', 'a', 't', 'e', 'r', 'E', 'q', 'u', 'a', 'l'],
        Token::LeftParen => seq!['L', 'e', 'f', 't', 'P', 'a', 'r', 'e', 'n'],
        Token::RightParen => seq!['R', 'i', 'g', 'h', 't', 'P', 'a', 'r', 'e', 'n'],
        Token::LeftBracket => seq!['L', 'e', 'f', 't', 'B', 'r', 'a', 'c', 'k', 'e', 't'],
        Token::RightBracket => seq!['R', 'i', 'g', 'h', 't', 'B', 'r', 'a', 'c', 'k', 'e', 't'],
        Token::LeftBrace => seq!['L', 'e', 'f', 't', 'B', 'r', 'a', 'c', 'e'],
        Token::RightBrace => seq!['R', 'i', 'g', 'h', 't', 'B', 'r', 'a', 'c', 'e'],
        Token::Comma => seq!['C', 'o', 'm', 'm', 'a'],
        Token::Colon => seq!['C', 'o', 'l', 'o', 'n'],
        Token::Dot => seq!['D', 'o', 't'],
        Token::Arrow => seq!['A', 'r', 'r', 'o', 'w'],
        Token::Indent => seq!['I', 'n', 'd', 'e', 'n', 't'],
        Token::Dedent => seq!['D', 'e', 'd', 'e', 'n', 't'],
        Token::Newline => seq!['N', 'e', 'w', 'l', 'i', 'n', 'e'],
        Token::Eof => seq!['E', 'o', 'f'],
    }
}

/// A string of the given characters.
fn chars_text(cs: &[char]) -> (r: String)
    ensures
        r@ == cs@,
{
    let mut r = String::new();
    let mut i: usize = 0;
    while i < cs.len()
        invariant
            i <= cs@.len(),
            r@ == cs@.subrange(0, i as int),
        decreases cs@.len() - i,
    {
        push_char(&mut r, cs[i]);
        proof {
            assert(cs@.subrange(0, i + 1) =~= cs@.subrange(0, i as int).push(cs@[i as int]));
        }
        i = i + 1;
    }
    proof {
        assert(cs@.subrange(0, cs@.len() as int) =~= cs@);
    }
    r
}

/// Appends `s` quoted and escaped.
fn push_quoted(r: &mut String, s: &str)
    ensures
        final(r)@ == old(r)@ + quoted(s@),
{
    let cs = str_to_chars(s);
    push_char(r, '"');
    let mut i: usize = 0;
    while i < cs.len()
        invariant
            i <= cs@.len(),
            cs@ == s@,
            r@ == old(r)@ + seq!['"'] + escaped(cs@.subrange(0, i as int)),
        decreases cs@.len() - i,
    {
        let c = cs[i];
        let piece = if c == '"' {
            chars_text(&['\\', '"'])
        } else if c == '\\' {
            chars_text(&['\\', '\\'])
        } else if c == '\n' {
            chars_text(&['\\', 'n'])
        } else if c == '\t' {
            chars_text(&['\\', 't'])
        } else if c == '\r' {
            chars_text(&['\\', 'r'])
        } else if c == '\0' {
            chars_text(&['\\', '0'])
        } else {
            chars_text(&[c])
        };
        r.append(piece.as_str());
        proof {
            let pre = cs@.subrange(0, i + 1);
            assert(pre.drop_last() =~= cs@.subrange(0, i as int));
            assert(pre.last() == c);
        }
        i = i + 1;
    }
    proof {
        assert(cs@.subrange(0, cs@.len() as int) =~= cs@);
    }
    push_char(r, '"');
}

/// The text that names a token in error messages (`token_text_spec`).
pub fn token_text(t: &Token) -> (r: String)
    ensures
        r@ == token_text_spec(*t),
{
    match t {
        Token::Integer(n) => {
            let mut r = chars_text(&['I', 'n', 't', 'e', 'g', 'e', 'r', '(']);
            r.append(i64_text(*n).as_str());
            push_char(&mut r, ')');
            r
        },
        Token::Float(s) => {
            let mut r = chars_text(&['F', 'l', 'o', 'a', 't', '(']);
            r.append(s.as_str());
            push_char(&mut r, ')');
            r
        },
        Token::StringLiteral(s) => {
            let mut r = chars_text(&['S', 't', 'r', 'i', 'n', 'g', 'L', 'i', 't', 'e', 'r', 'a', 'l', '(']);
            push_quoted(&mut r, s.as_str());
            push_char(&mut r, ')');
            r
        },
        Token::Boolean(b) => {
            let mut r = chars_text(&['B', 'o', 'o', 'l', 'e', 'a', 'n', '(']);
            let v = if *b {
                chars_text(&['t', 'r', 'u', 'e'])
            } else {
                chars_text(&['f', 'a', 'l', 's', 'e'])
            };
            r.append(v.as_str());
            push_char(&mut r, ')');
            r
        },
        Token::Identifier(s) => {
            let mut r = chars_text(&['I', 'd', 'e', 'n', 't', 'i', 'f', 'i', 'e', 'r', '(']);
            push_quoted(&mut r, s.as_str());
            push_char(&mut r, ')');
            r
        },
        Token::Def => chars_text(&['D', 'e', 'f']),
        Token::Return => chars_text(&['R', 'e', 't', 'u', 'r', 'n']),
        Token::If => chars_text(&['I', 'f']),
        Token::Elif => chars_text(&['E', 'l', 'i', 'f']),
        Token::Else => chars_text(&['E', 'l', 's', 'e']),
        Token::While => chars_text(&['W', 'h', 'i', 'l', 'e']),
        Token::For => chars_text(&['F', 'o', 'r']),
        Token::In => chars_text(&['I', 'n']),
        Token::Break => chars_text(&['B', 'r', 'e', 'a', 'k']),
        Token::Continue => chars_text(&['C', 'o', 'n', 't', 'i', 'n', 'u', 'e']),
        Token::Pass => chars_text(&['P', 'a', 's', 's']),
        Token::NoneKw => chars_text(&['N', 'o', 'n', 'e']),
        Token::True => chars_text(&['T', 'r', 'u', 'e']),
        Token::False => chars_text(&['F', 'a', 'l', 's', 'e']),
        Token::And => chars_text(&['A', 'n', 'd']),
        Token::Or => chars_text(&['O', 'r']),
        Token::Not => chars_text(&['N', 'o', 't']),
        Token::Print => chars_text(&['P', 'r', 'i', 'n', 't']),
        Token::Class => chars_text(&['C', 'l', 'a', 's', 's']),
        Token::Import => chars_text(&['I', 'm', 'p', 'o', 'r', 't']),
        Token::From => chars_text(&['F', 'r', 'o', 'm']),
        Token::As => chars_text(&['A', 's']),
        Token::Plus => chars_text(&['P', 'l', 'u', 's']),
        Token::Minus => chars_text(&['M', 'i', 'n', 'u', 's']),
        Token::Star => chars_text(&['S', 't', 'a', 'r']),
        Token::Slash => chars_text(&['S', 'l', 'a', 's', 'h']),
        Token::DoubleSlash => chars_text(&['D', 'o', 'u', 'b', 'l', 'e', 'S', 'l', 'a', 's', 'h']),
        Token::Percent => chars_text(&['P', 'e', 'r', 'c', 'e', 'n', 't']),
        Token::DoubleStar => chars_text(&['D', 'o', 'u', 'b', 'l', 'e', 'S', 't', 'a', 'r']),
        Token::Assign => chars_text(&['A', 's', 's', 'i', 'g', 'n']),
        Token::PlusAssign => chars_text(&['P', 'l', 'u', 's', 'A', 's', 's', 'i', 'g', 'n']),
        Token::MinusAssign => chars_text(&['M', 'i', 'n', 'u', 's', 'A', 's', 's', 'i', 'g', 'n']),
        Token::StarAssign => chars_text(&['S', 't', 'a', 'r', 'A', 's', 's', 'i', 'g', 'n']),
        Token::SlashAssign => chars_text(&['S', 'l', 'a', 's', 'h', 'A', 's', 's', 'i', 'g', 'n']),
        Token::Equal => chars_text(&['E', 'q', 'u', 'a', 'l']),
        Token::NotEqual => chars_text(&['N', 'o', 't', 'E', 'q', 'u', 'a', 'l']),
        Token::Less => chars_text(&['L', 'e', 's', 's']),
        Token::LessEqual => chars_text(&['L', 'e', 's', 's', 'E', 'q', 'u', 'a', 'l']),
        Token::Greater => chars_text(&['G', 'r', 'e', 'a', 't', 'e', 'r']),
        Token::GreaterEqual => chars_text(&['G', 'r', 'e', 'a', 't', 'e', 'r', 'E', 'q', 'u', 'a', 'l']),
        Token::LeftParen => chars_text(&['L', 'e', 'f', 't', 'P', 'a', 'r', 'e', 'n']),
        Token::RightParen => chars_text(&['R', 'i', 'g', 'h', 't', 'P', 'a', 'r', 'e', 'n']),
        Token::LeftBracket => chars_text(&['L', 'e', 'f', 't', 'B', 'r', 'a', 'c', 'k', 'e', 't']),
        Token::RightBracket => chars_text(&['R', 'i', 'g', 'h', 't', 'B', 'r', 'a', 'c', 'k', 'e', 't']),
        Token::LeftBrace => chars_text(&['L', 'e', 'f', 't', 'B', 'r', 'a', 'c', 'e']),
        Token::RightBrace => chars_text(&['R', 'i', 'g', 'h', 't', 'B', 'r', 'a', 'c', 'e']),
        Token::Comma => chars_text(&['C', 'o', 'm', 'm', 'a']),
        Token::Colon => chars_text(&['C', 'o', 'l', 'o', 'n']),
        Token::Dot => chars_text(&['D', 'o', 't']),
        Token::Arrow => chars_text(&['A', 'r', 'r', 'o', 'w']),
        Token::Indent => chars_text(&['I', 'n', 'd', 'e', 'n', 't']),
        Token::Dedent => chars_text(&['D', 'e', 'd', 'e', 'n', 't']),
        Token::Newline => chars_text(&['N', 'e', 'w', 'l', 'i', 'n', 'e']),
        Token::Eof => chars_text(&['E', 'o', 'f']),
    }
}

} // verus!
