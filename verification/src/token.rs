//! Tokens produced by the scanner, literal values, and runtime values.
use vstd::prelude::*;

verus! {

/// The kinds of token in Lox source text.
#[derive(Clone, Copy, Debug, PartialEq, Eq, Structural)]
pub enum TokenType {
    // Single-character tokens.
    LeftParen,
    RightParen,
    LeftBrace,
    RightBrace,
    Comma,
    Dot,
    Minus,
    Plus,
    Semicolon,
    Slash,
    Star,
    // One or two character tokens.
    Bang,
    BangEqual,
    Equal,
    EqualEqual,
    Greater,
    GreaterEqual,
    Less,
    LessEqual,
    // Literals.
    Identifier,
    String,
    Number,
    // Keywords.
    And,
    Break,
    Class,
    Else,
    False,
    Fun,
    For,
    If,
    Nil,
    Or,
    Print,
    Return,
    Super,
    This,
    True,
    Var,
    While,
    Eof,
}

/// A literal value. Numbers are IEEE-754 doubles, held as their bit pattern
/// (see [`crate::numbers::NumberOps`]).
#[derive(Debug, PartialEq)]
pub enum Literal {
    Number(u64),
    String(String),
    Boolean(bool),
    Nil,
}

impl Clone for Literal {
    fn clone(&self) -> (r: Self)
        ensures
            r == *self,
    {
        match self {
            Literal::Number(n) => Literal::Number(*n),
            Literal::String(s) => Literal::String(s.clone()),
            Literal::Boolean(b) => Literal::Boolean(*b),
            Literal::Nil => Literal::Nil,
        }
    }
}

/// A token: its kind, the source text it was scanned from, its literal value
/// (for strings and numbers) and the line it starts on.
#[derive(Debug, PartialEq)]
pub struct Token {
    pub token_type: TokenType,
    pub lexeme: String,
    pub literal: Option<Literal>,
    pub line: usize,
}

impl Clone for Token {
    fn clone(&self) -> (r: Self)
        ensures
            r == *self,
    {
        Token {
            token_type: self.token_type,
            lexeme: self.lexeme.clone(),
            literal: match &self.literal {
                Some(l) => Some(l.clone()),
                None => None,
            },
            line: self.line,
        }
    }
}

impl Token {
    pub fn new(token_type: TokenType, lexeme: String, literal: Option<Literal>, line: usize) -> (t:
        Token)
        ensures
            t.token_type == token_type,
            t.lexeme == lexeme,
            t.literal == literal,
            t.line == line,
    {
        Token { token_type, lexeme, literal, line }
    }
}

/// Handle of a function in the interpreter's heap.
pub type FunctionRef = usize;

/// Handle of a class object in the interpreter's heap.
pub type ClassRef = usize;

/// Handle of an instance in the interpreter's heap.
pub type InstanceRef = usize;

/// Something that can be called.
#[derive(Debug, Clone, Copy, PartialEq, Eq, Structural)]
pub enum Callable {
    /// A user function (or bound method) in the interpreter's heap.
    Function(FunctionRef),
    /// The native `clock()` function.
    Clock,
}

/// A runtime value.
#[derive(Debug, PartialEq)]
pub enum Value {
    Literal(Literal),
    Callable(Callable),
    Class(ClassRef),
    Instance(InstanceRef),
}

impl Clone for Value {
    fn clone(&self) -> (r: Self)
        ensures
            r == *self,
    {
        match self {
            Value::Literal(l) => Value::Literal(l.clone()),
            Value::Callable(c) => Value::Callable(*c),
            Value::Class(c) => Value::Class(*c),
            Value::Instance(i) => Value::Instance(*i),
        }
    }
}

/// The `nil` value.
pub open spec fn nil() -> Value {
    Value::Literal(Literal::Nil)
}

} // verus!
