//! The scanner: turns source text into tokens.
use vstd::prelude::*;
use crate::numbers::NumberOps;
use crate::text::{chars_of, string_from_chars, string_is, owned};
use crate::token::{Literal, Token, TokenType};

verus! {

pub open spec fn is_digit(c: char) -> bool {
    '0' <= c && c <= '9'
}

pub open spec fn is_alpha(c: char) -> bool {
    ('a' <= c && c <= 'z') || ('A' <= c && c <= 'Z') || c == '_'
}

pub open spec fn is_alphanumeric(c: char) -> bool {
    is_alpha(c) || is_digit(c)
}

/// The keyword spelled by `s`, if it is one.
pub open spec fn keyword_type(s: Seq<char>) -> Option<TokenType> {
    if s == "and"@ { Some(TokenType::And) }
    else if s == "break"@ { Some(TokenType::Break) }
    else if s == "class"@ { Some(TokenType::Class) }
    else if s == "else"@ { Some(TokenType::Else) }
    else if s == "false"@ { Some(TokenType::False) }
    else if s == "for"@ { Some(TokenType::For) }
    else if s == "fun"@ { Some(TokenType::Fun) }
    else if s == "if"@ { Some(TokenType::If) }
    else if s == "nil"@ { Some(TokenType::Nil) }
    else if s == "or"@ { Some(TokenType::Or) }
    else if s == "print"@ { Some(TokenType::Print) }
    else if s == "return"@ { Some(TokenType::Return) }
    else if s == "super"@ { Some(TokenType::Super) }
    else if s == "this"@ { Some(TokenType::This) }
    else if s == "true"@ { Some(TokenType::True) }
    else if s == "var"@ { Some(TokenType::Var) }
    else if s == "while"@ { Some(TokenType::While) }
    else { None }
}

/// The kind of token a word scans to: its keyword, or `Identifier`.
pub open spec fn word_type(s: Seq<char>) -> TokenType {
    match keyword_type(s) {
        Some(t) => t,
        None => TokenType::Identifier,
    }
}

/// A word: a letter or `_`, then letters, digits or `_`.
pub open spec fn is_word(s: Seq<char>) -> bool {
    &&& s.len() > 0
    &&& is_alpha(s[0])
    &&& forall|i: int| 1 <= i < s.len() ==> is_alphanumeric(#[trigger] s[i])
}

pub open spec fn all_digits(s: Seq<char>) -> bool {
    forall|i: int| 0 <= i < s.len() ==> is_digit(#[trigger] s[i])
}

/// A number literal: digits, optionally followed by `.` and more digits.
pub open spec fn is_number_text(s: Seq<char>) -> bool {
    ||| (s.len() > 0 && all_digits(s))
    ||| exists|k: int|
        0 < k < s.len() - 1 && s[k] == '.' && all_digits(#[trigger] s.take(k)) && all_digits(s.skip(k + 1))
}

/// The fixed text of a punctuation or operator token.
pub open spec fn fixed_lexeme(t: TokenType) -> Seq<char> {
    match t {
        TokenType::LeftParen => seq!['('],
        TokenType::RightParen => seq![')'],
        TokenType::LeftBrace => seq!['{'],
        TokenType::RightBrace => seq!['}'],
        TokenType::Comma => seq![','],
        TokenType::Dot => seq!['.'],
        TokenType::Minus => seq!['-'],
        TokenType::Plus => seq!['+'],
        TokenType::Semicolon => seq![';'],
        TokenType::Slash => seq!['/'],
        TokenType::Star => seq!['*'],
        TokenType::Bang => seq!['!'],
        TokenType::BangEqual => seq!['!', '='],
        TokenType::Equal => seq!['='],
        TokenType::EqualEqual => seq!['=', '='],
        TokenType::Greater => seq!['>'],
        TokenType::GreaterEqual => seq!['>', '='],
        TokenType::Less => seq!['<'],
        TokenType::LessEqual => seq!['<', '='],
        _ => seq![],
    }
}

pub open spec fn is_punctuation(t: TokenType) -> bool {
    fixed_lexeme(t).len() > 0
}

/// A token that the scanner produces before the end: its kind agrees with its
/// text, and its literal with both.
pub open spec fn scanned_token(t: Token) -> bool {
    let s = t.lexeme@;
    if is_punctuation(t.token_type) {
        s == fixed_lexeme(t.token_type) && t.literal is None
    } else if t.token_type == TokenType::Number {
        is_number_text(s) && t.literal matches Some(Literal::Number(_))
    } else if t.token_type == TokenType::String {
        &&& s.len() >= 2
        &&& s[0] == '"' && s[s.len() - 1] == '"'
        &&& forall|i: int| 1 <= i < s.len() - 1 ==> #[trigger] s[i] != '"'
        &&& t.literal matches Some(Literal::String(v)) && v@ == s.subrange(1, s.len() - 1)
    } else if t.token_type == TokenType::Eof {
        false
    } else {
        is_word(s) && t.token_type == word_type(s) && t.literal is None
    }
}

/// Each number token carries the value the host's `parse` gives for its text.
pub open spec fn number_values<N: NumberOps>(numbers: &N, tokens: Seq<Token>) -> bool {
    forall|i: int|
        0 <= i < tokens.len() && (#[trigger] tokens[i]).token_type == TokenType::Number ==> tokens[i].literal
            == Some(Literal::Number(numbers.parse_spec(tokens[i].lexeme@)))
}

/// What `scan_tokens` returns: scanned tokens, then one `Eof` token with an
/// empty lexeme.
pub open spec fn scanned_tokens(tokens: Seq<Token>) -> bool {
    &&& tokens.len() > 0
    &&& forall|i: int| 0 <= i < tokens.len() - 1 ==> scanned_token(#[trigger] tokens[i])
    &&& tokens.last().token_type == TokenType::Eof
    &&& tokens.last().lexeme@.len() == 0
    &&& tokens.last().literal is None
}

// ----------------------------------------------------------------------
// Where each token starts and ends.

/// How many newlines `s` holds.
pub open spec fn newlines(s: Seq<char>) -> nat
    decreases s.len(),
{
    if s.len() == 0 {
        0
    } else {
        newlines(s.drop_last()) + if s.last() == '\n' { 1nat } else { 0nat }
    }
}

/// The line that position `pos` of `src` is on (lines count from 1).
pub open spec fn line_at(src: Seq<char>, pos: nat) -> nat {
    1 + newlines(src.take(pos as int))
}

/// The first position from `pos` on that holds no digit.
pub open spec fn digits_end(src: Seq<char>, pos: nat) -> nat
    decreases src.len() - pos,
{
    if pos < src.len() && is_digit(src[pos as int]) {
        digits_end(src, pos + 1)
    } else {
        pos
    }
}

/// The first position from `pos` on that holds no letter, digit or `_`.
pub open spec fn word_end(src: Seq<char>, pos: nat) -> nat
    decreases src.len() - pos,
{
    if pos < src.len() && is_alphanumeric(src[pos as int]) {
        word_end(src, pos + 1)
    } else {
        pos
    }
}

/// The first position from `pos` on that holds a newline, or the end.
pub open spec fn line_end(src: Seq<char>, pos: nat) -> nat
    decreases src.len() - pos,
{
    if pos < src.len() && src[pos as int] != '\n' {
        line_end(src, pos + 1)
    } else {
        pos
    }
}

/// The first position from `pos` on that holds `"`, or the end.
pub open spec fn quote_at_or_after(src: Seq<char>, pos: nat) -> nat
    decreases src.len() - pos,
{
    if pos < src.len() && src[pos as int] != '"' {
        quote_at_or_after(src, pos + 1)
    } else {
        pos
    }
}

/// Where a block comment ends when `depth` comments are open at `pos`, and
/// whether all of them were closed.
pub open spec fn comment_end(src: Seq<char>, pos: nat, depth: nat) -> (nat, bool)
    decreases src.len() - pos,
{
    if depth == 0 {
        (pos, true)
    } else if pos >= src.len() {
        (pos, false)
    } else if pos + 1 < src.len() && src[pos as int] == '/' && src[(pos + 1) as int] == '*' {
        comment_end(src, pos + 2, depth + 1)
    } else if pos + 1 < src.len() && src[pos as int] == '*' && src[(pos + 1) as int] == '/' {
        comment_end(src, pos + 2, (depth - 1) as nat)
    } else {
        comment_end(src, pos + 1, depth)
    }
}

/// The end of a number literal whose first digit is at `pos`.
pub open spec fn number_end(src: Seq<char>, pos: nat) -> nat {
    let e = digits_end(src, pos + 1);
    if e + 1 < src.len() && src[e as int] == '.' && is_digit(src[(e + 1) as int]) {
        digits_end(src, e + 1)
    } else {
        e
    }
}

/// What the scanner makes of the text at `pos`: the kind of token it starts
/// (if it starts one), the error it reports (if any), and where the next
/// token may start.
pub struct Lexeme {
    pub kind: Option<TokenType>,
    pub error: Option<Seq<char>>,
    pub end: nat,
}

/// A one-character token.
pub open spec fn single(kind: TokenType, pos: nat) -> Lexeme {
    Lexeme { kind: Some(kind), error: None, end: pos + 1 }
}

/// A token of one character, or of two when the next one is `=`.
pub open spec fn with_equal(src: Seq<char>, pos: nat, one: TokenType, two: TokenType) -> Lexeme {
    if pos + 1 < src.len() && src[(pos + 1) as int] == '=' {
        Lexeme { kind: Some(two), error: None, end: pos + 2 }
    } else {
        single(one, pos)
    }
}

/// Text that starts no token and reports nothing, up to `end`.
pub open spec fn skipped(end: nat) -> Lexeme {
    Lexeme { kind: None, error: None, end }
}

/// What the text at `pos` (before the end of `src`) scans to.
pub open spec fn lex_at(src: Seq<char>, pos: nat) -> Lexeme {
    let c = src[pos as int];
    if c == '(' { single(TokenType::LeftParen, pos) }
    else if c == ')' { single(TokenType::RightParen, pos) }
    else if c == '{' { single(TokenType::LeftBrace, pos) }
    else if c == '}' { single(TokenType::RightBrace, pos) }
    else if c == ',' { single(TokenType::Comma, pos) }
    else if c == '.' { single(TokenType::Dot, pos) }
    else if c == '-' { single(TokenType::Minus, pos) }
    else if c == '+' { single(TokenType::Plus, pos) }
    else if c == ';' { single(TokenType::Semicolon, pos) }
    else if c == '*' { single(TokenType::Star, pos) }
    else if c == '!' { with_equal(src, pos, TokenType::Bang, TokenType::BangEqual) }
    else if c == '=' { with_equal(src, pos, TokenType::Equal, TokenType::EqualEqual) }
    else if c == '<' { with_equal(src, pos, TokenType::Less, TokenType::LessEqual) }
    else if c == '>' { with_equal(src, pos, TokenType::Greater, TokenType::GreaterEqual) }
    else if c == '/' {
        if pos + 1 < src.len() && src[(pos + 1) as int] == '/' {
            skipped(line_end(src, pos + 2))
        } else if pos + 1 < src.len() && src[(pos + 1) as int] == '*' {
            let (end, closed) = comment_end(src, pos + 2, 1);
            Lexeme {
                kind: None,
                error: if closed { None } else { Some("Unterminated block comment."@) },
                end,
            }
        } else {
            single(TokenType::Slash, pos)
        }
    }
    else if c == ' ' || c == '\r' || c == '\t' || c == '\n' { skipped(pos + 1) }
    else if c == '"' {
        let close = quote_at_or_after(src, pos + 1);
        if close < src.len() {
            Lexeme { kind: Some(TokenType::String), error: None, end: close + 1 }
        } else {
            Lexeme { kind: None, error: Some("Unterminated string."@), end: close }
        }
    }
    else if is_digit(c) { Lexeme { kind: Some(TokenType::Number), error: None, end: number_end(src, pos) } }
    else if is_alpha(c) {
        let end = word_end(src, pos + 1);
        Lexeme { kind: Some(word_type(src.subrange(pos as int, end as int))), error: None, end }
    }
    else { Lexeme { kind: None, error: Some("Unexpected character."@), end: pos + 1 } }
}

/// What is known of a token: its kind, its text and its line.
pub open spec fn token_shape(t: Token) -> (TokenType, Seq<char>, nat) {
    (t.token_type, t.lexeme@, t.line as nat)
}

pub open spec fn token_shapes(tokens: Seq<Token>) -> Seq<(TokenType, Seq<char>, nat)> {
    tokens.map_values(|t: Token| token_shape(t))
}

/// The token the text at `pos` scans to, if any, with the line it ends on.
pub open spec fn token_at(src: Seq<char>, pos: nat) -> Seq<(TokenType, Seq<char>, nat)> {
    let l = lex_at(src, pos);
    match l.kind {
        Some(k) => seq![(k, src.subrange(pos as int, l.end as int), line_at(src, l.end))],
        None => Seq::empty(),
    }
}

/// The error the text at `pos` is reported with, if any, with its line.
pub open spec fn error_at(src: Seq<char>, pos: nat) -> Seq<(nat, Seq<char>)> {
    let l = lex_at(src, pos);
    match l.error {
        Some(m) => seq![(line_at(src, l.end), m)],
        None => Seq::empty(),
    }
}

/// Scanning moves forward.
pub proof fn lemma_lex_advances(src: Seq<char>, pos: nat)
    requires
        pos < src.len(),
    ensures
        pos < lex_at(src, pos).end <= src.len(),
{
    lemma_ends_in_range(src, pos + 1);
    lemma_ends_in_range(src, pos + 2);
    let e = digits_end(src, pos + 1);
    lemma_ends_in_range(src, e + 1);
    if pos + 2 <= src.len() {
        lemma_comment_end_in_range(src, pos + 2, 1);
    }
}

/// Each end-finding function stops between where it starts and the end.
pub proof fn lemma_ends_in_range(src: Seq<char>, pos: nat)
    ensures
        pos <= src.len() ==> pos <= digits_end(src, pos) <= src.len(),
        pos <= src.len() ==> pos <= word_end(src, pos) <= src.len(),
        pos <= src.len() ==> pos <= line_end(src, pos) <= src.len(),
        pos <= src.len() ==> pos <= quote_at_or_after(src, pos) <= src.len(),
        pos > src.len() ==> digits_end(src, pos) == pos && word_end(src, pos) == pos,
        pos > src.len() ==> line_end(src, pos) == pos && quote_at_or_after(src, pos) == pos,
    decreases src.len() - pos,
{
    if pos < src.len() {
        lemma_ends_in_range(src, pos + 1);
    }
}

pub proof fn lemma_comment_end_in_range(src: Seq<char>, pos: nat, depth: nat)
    requires
        pos <= src.len(),
    ensures
        pos <= comment_end(src, pos, depth).0 <= src.len(),
    decreases src.len() - pos,
{
    if depth > 0 && pos < src.len() {
        if pos + 1 < src.len() && src[pos as int] == '/' && src[(pos + 1) as int] == '*' {
            lemma_comment_end_in_range(src, pos + 2, depth + 1);
        } else if pos + 1 < src.len() && src[pos as int] == '*' && src[(pos + 1) as int] == '/' {
            lemma_comment_end_in_range(src, pos + 2, (depth - 1) as nat);
        } else {
            lemma_comment_end_in_range(src, pos + 1, depth);
        }
    }
}

/// The tokens the text from `pos` on scans to, in order.
pub open spec fn tokens_from(src: Seq<char>, pos: nat) -> Seq<(TokenType, Seq<char>, nat)>
    decreases src.len() - pos,
{
    if pos >= src.len() {
        Seq::empty()
    } else {
        proof {
            lemma_lex_advances(src, pos);
        }
        token_at(src, pos) + tokens_from(src, lex_at(src, pos).end)
    }
}

/// The errors the text from `pos` on is reported with, in order.
pub open spec fn errors_from(src: Seq<char>, pos: nat) -> Seq<(nat, Seq<char>)>
    decreases src.len() - pos,
{
    if pos >= src.len() {
        Seq::empty()
    } else {
        proof {
            lemma_lex_advances(src, pos);
        }
        error_at(src, pos) + errors_from(src, lex_at(src, pos).end)
    }
}

/// A problem found while scanning, and the line it is on.
#[derive(Debug)]
pub struct ScanError {
    pub line: usize,
    pub message: String,
}

pub struct Scanner {
    source: Vec<char>,
    start: usize,
    current: usize,
    line: usize,
    errors: Vec<ScanError>,
}

impl View for Scanner {
    /// The source text.
    type V = Seq<char>;

    closed spec fn view(&self) -> Seq<char> {
        self.source@
    }
}

impl Scanner {
    /// Positions are in order within the source, and `line` is the line that
    /// `current` is on.
    pub closed spec fn wf(&self) -> bool {
        &&& self.start <= self.current <= self.source@.len()
        &&& self.source@.len() <= usize::MAX
        &&& self.line == line_at(self.source@, self.current as nat)
        &&& self.line <= self.current + 1
    }

    /// Where scanning goes on from.
    pub closed spec fn position(&self) -> nat {
        self.current as nat
    }

    /// Whether the scanner has met an error.
    pub closed spec fn has_errors(&self) -> bool {
        self.errors@.len() > 0
    }

    /// The errors met so far, in order, each with its line.
    pub closed spec fn error_list(&self) -> Seq<(nat, Seq<char>)> {
        self.errors@.map_values(|e: ScanError| (e.line as nat, e.message@))
    }

    pub fn new(source: &str) -> (s: Self)
        ensures
            s@ == source@,
            s.wf(),
            s.position() == 0,
            s.error_list().len() == 0,
            !s.has_errors(),
    {
        let chars = chars_of(source);
        let _n = chars.len();
        let s = Scanner { source: chars, start: 0, current: 0, line: 1, errors: Vec::new() };
        assert(s.source@.take(0) =~= Seq::<char>::empty());
        assert(s.error_list() =~= Seq::<(nat, Seq<char>)>::empty());
        s
    }

    /// Whether the source is short enough to scan (its length is below `usize::MAX`).
    pub fn can_scan(&self) -> (r: bool)
        ensures
            r == (self@.len() < usize::MAX),
    {
        self.source.len() < usize::MAX
    }

    pub fn had_error(&self) -> (r: bool)
        ensures
            r == self.has_errors(),
    {
        self.errors.len() > 0
    }

    /// The errors met so far, in order.
    pub fn errors(&self) -> (e: &Vec<ScanError>)
        ensures
            e@.map_values(|e: ScanError| (e.line as nat, e.message@)) == self.error_list(),
            e@.len() == self.error_list().len(),
    {
        &self.errors
    }

    /// Scans the rest of the source. Whitespace and comments (`//` to the end
    /// of the line, and `/* ... */`, which nest) separate tokens; characters
    /// that start no token are reported and skipped. The tokens are those
    /// `tokens_from` gives, then an `Eof` token on the last line; the errors
    /// met are those `errors_from` gives.
    pub fn scan_tokens<N: NumberOps>(&mut self, numbers: &N) -> (tokens: Vec<Token>)
        requires
            old(self).wf(),
            old(self)@.len() < usize::MAX,
        ensures
            final(self).wf(),
            final(self)@ == old(self)@,
            final(self).position() == old(self)@.len(),
            token_shapes(tokens@) == tokens_from(old(self)@, old(self).position()).push(
                (TokenType::Eof, Seq::<char>::empty(), line_at(old(self)@, old(self)@.len())),
            ),
            final(self).error_list() == old(self).error_list() + errors_from(old(self)@, old(self).position()),
            old(self).has_errors() ==> final(self).has_errors(),
            scanned_tokens(tokens@),
            number_values(numbers, tokens@),
    {
        let ghost src = self.source@;
        let ghost from = self.current as nat;
        let mut tokens: Vec<Token> = Vec::new();
        assert(token_shapes(tokens@) =~= Seq::<(TokenType, Seq<char>, nat)>::empty());
        while self.current < self.source.len()
            invariant
                self.wf(),
                self@ == src,
                src.len() < usize::MAX,
                self.current >= from,
                old(self).has_errors() ==> self.has_errors(),
                forall|i: int| 0 <= i < tokens@.len() ==> scanned_token(#[trigger] tokens@[i]),
                number_values(numbers, tokens@),
                token_shapes(tokens@) + tokens_from(src, self.current as nat) == tokens_from(src, from),
                self.error_list() + errors_from(src, self.current as nat) == old(self).error_list()
                    + errors_from(src, from),
            decreases self.source@.len() - self.current,
        {
            let ghost pos = self.current as nat;
            let ghost shapes = token_shapes(tokens@);
            let ghost errs = self.error_list();
            self.start = self.current;
            self.scan_token(numbers, &mut tokens);
            proof {
                lemma_lex_advances(src, pos);
                assert(tokens_from(src, pos) == token_at(src, pos) + tokens_from(src, self.current as nat));
                assert(errors_from(src, pos) == error_at(src, pos) + errors_from(src, self.current as nat));
                assert(token_shapes(tokens@) + tokens_from(src, self.current as nat) =~= shapes + tokens_from(src, pos));
                assert(self.error_list() + errors_from(src, self.current as nat) =~= errs + errors_from(src, pos));
            }
        }
        let ghost shapes = token_shapes(tokens@);
        let eof = Token::new(TokenType::Eof, String::new(), None, self.line);
        tokens.push(eof);
        proof {
            assert(tokens_from(src, self.current as nat) =~= Seq::<(TokenType, Seq<char>, nat)>::empty());
            assert(errors_from(src, self.current as nat) =~= Seq::<(nat, Seq<char>)>::empty());
            assert(shapes =~= tokens_from(src, from));
            assert(token_shapes(tokens@) =~= shapes.push(token_shape(eof)));
            assert(self.error_list() =~= old(self).error_list() + errors_from(src, from));
        }
        tokens
    }

    fn is_at_end(&self) -> (r: bool)
        ensures
            r == (self.current >= self.source@.len()),
    {
        self.current >= self.source.len()
    }

    /// Consumes one character, counting it if it ends a line.
    fn advance(&mut self) -> (c: char)
        requires
            old(self).wf(),
            old(self).current < old(self).source@.len(),
            old(self).source@.len() < usize::MAX,
        ensures
            final(self).wf(),
            final(self).current == old(self).current + 1,
            final(self).source == old(self).source,
            final(self).start == old(self).start,
            final(self).errors == old(self).errors,
            c == old(self).source@[old(self).current as int],
    {
        let c = self.source[self.current];
        proof {
            lemma_newlines_step(self.source@, self.current as nat);
        }
        self.current = self.current + 1;
        if c == '\n' {
            self.line = self.line + 1;
        }
        c
    }

    fn peek(&self) -> (c: char)
        ensures
            self.current < self.source@.len() ==> c == self.source@[self.current as int],
            self.current >= self.source@.len() ==> c == '\0',
    {
        if self.current >= self.source.len() {
            '\0'
        } else {
            self.source[self.current]
        }
    }

    fn peek_next(&self) -> (c: char)
        ensures
            self.current + 1 < self.source@.len() ==> c == self.source@[self.current + 1],
            self.current + 1 >= self.source@.len() ==> c == '\0',
    {
        if self.current >= self.source.len() || self.current + 1 >= self.source.len() {
            '\0'
        } else {
            self.source[self.current + 1]
        }
    }

    /// Consumes the next character if it is `expected` (never a newline).
    fn matches(&mut self, expected: char) -> (r: bool)
        requires
            old(self).wf(),
            old(self).source@.len() < usize::MAX,
            expected != '\n',
        ensures
            final(self).wf(),
            r == (old(self).current < old(self).source@.len() && old(self).source@[old(self).current as int] == expected),
            final(self).current == old(self).current + (if r { 1int } else { 0int }),
            final(self).source == old(self).source,
            final(self).start == old(self).start,
            final(self).errors == old(self).errors,
    {
        if self.is_at_end() {
            return false;
        }
        if self.source[self.current] != expected {
            return false;
        }
        self.advance();
        true
    }

    fn error(&mut self, message: &str)
        requires
            old(self).wf(),
        ensures
            final(self).wf(),
            final(self).has_errors(),
            final(self).error_list() == old(self).error_list().push(
                (line_at(old(self).source@, old(self).current as nat), message@),
            ),
            final(self).source == old(self).source,
            final(self).start == old(self).start,
            final(self).current == old(self).current,
    {
        let e = ScanError { line: self.line, message: owned(message) };
        self.errors.push(e);
        assert(self.error_list() =~= old(self).error_list().push((self.line as nat, message@)));
    }

    fn lexeme(&self) -> (s: String)
        requires
            self.wf(),
        ensures
            s@ == self.source@.subrange(self.start as int, self.current as int),
    {
        string_from_chars(&self.source, self.start, self.current)
    }

    fn add_token(&self, tokens: &mut Vec<Token>, token_type: TokenType, literal: Option<Literal>)
        requires
            self.wf(),
        ensures
            final(tokens)@.len() == old(tokens)@.len() + 1,
            final(tokens)@.drop_last() == old(tokens)@,
            final(tokens)@.last().token_type == token_type,
            final(tokens)@.last().lexeme@ == self.source@.subrange(self.start as int, self.current as int),
            final(tokens)@.last().literal == literal,
            token_shapes(final(tokens)@) == token_shapes(old(tokens)@).push(
                (token_type, self.source@.subrange(self.start as int, self.current as int), line_at(self.source@, self.current as nat)),
            ),
    {
        let text = self.lexeme();
        tokens.push(Token::new(token_type, text, literal, self.line));
        assert(tokens@.drop_last() =~= old(tokens)@);
        assert(token_shapes(tokens@) =~= token_shapes(old(tokens)@).push(token_shape(tokens@.last())));
    }

    fn add_simple(&self, tokens: &mut Vec<Token>, token_type: TokenType)
        requires
            self.wf(),
            is_punctuation(token_type),
            self.source@.subrange(self.start as int, self.current as int) =~= fixed_lexeme(token_type),
        ensures
            final(tokens)@.last().token_type == token_type,
            token_type != TokenType::Number,
            final(tokens)@.len() == old(tokens)@.len() + 1,
            final(tokens)@.drop_last() == old(tokens)@,
            scanned_token(final(tokens)@.last()),
            token_shapes(final(tokens)@) == token_shapes(old(tokens)@).push(
                (token_type, self.source@.subrange(self.start as int, self.current as int), line_at(self.source@, self.current as nat)),
            ),
    {
        self.add_token(tokens, token_type, None);
    }

    /// Scans one token (or skips whitespace or a comment) starting at `start`.
    fn scan_token<N: NumberOps>(&mut self, numbers: &N, tokens: &mut Vec<Token>)
        requires
            old(self).wf(),
            old(self)@.len() < usize::MAX,
            old(self).start == old(self).current,
            old(self).current < old(self)@.len(),
            forall|i: int| 0 <= i < old(tokens)@.len() ==> scanned_token(#[trigger] old(tokens)@[i]),
            number_values(numbers, old(tokens)@),
        ensures
            number_values(numbers, final(tokens)@),
            final(self).wf(),
            final(self)@ == old(self)@,
            final(self).current == lex_at(old(self)@, old(self).current as nat).end,
            token_shapes(final(tokens)@) == token_shapes(old(tokens)@) + token_at(old(self)@, old(self).current as nat),
            final(self).error_list() == old(self).error_list() + error_at(old(self)@, old(self).current as nat),
            old(self).has_errors() ==> final(self).has_errors(),
            forall|i: int| 0 <= i < final(tokens)@.len() ==> scanned_token(#[trigger] final(tokens)@[i]),
    {
        let ghost s0 = *self;
        let ghost src = self.source@;
        let ghost pos = self.current as nat;
        let ghost shapes0 = token_shapes(tokens@);
        let ghost errs0 = self.error_list();
        let c = self.advance();
        let ghost t0 = tokens@;
        if c == '(' {
            self.add_simple(tokens, TokenType::LeftParen);
        } else if c == ')' {
            self.add_simple(tokens, TokenType::RightParen);
        } else if c == '{' {
            self.add_simple(tokens, TokenType::LeftBrace);
        } else if c == '}' {
            self.add_simple(tokens, TokenType::RightBrace);
        } else if c == ',' {
            self.add_simple(tokens, TokenType::Comma);
        } else if c == '.' {
            self.add_simple(tokens, TokenType::Dot);
        } else if c == '-' {
            self.add_simple(tokens, TokenType::Minus);
        } else if c == '+' {
            self.add_simple(tokens, TokenType::Plus);
        } else if c == ';' {
            self.add_simple(tokens, TokenType::Semicolon);
        } else if c == '*' {
            self.add_simple(tokens, TokenType::Star);
        } else if c == '!' {
            let t = if self.matches('=') { TokenType::BangEqual } else { TokenType::Bang };
            self.add_simple(tokens, t);
        } else if c == '=' {
            let t = if self.matches('=') { TokenType::EqualEqual } else { TokenType::Equal };
            self.add_simple(tokens, t);
        } else if c == '<' {
            let t = if self.matches('=') { TokenType::LessEqual } else { TokenType::Less };
            self.add_simple(tokens, t);
        } else if c == '>' {
            let t = if self.matches('=') { TokenType::GreaterEqual } else { TokenType::Greater };
            self.add_simple(tokens, t);
        } else if c == '/' {
            if self.matches('/') {
                while self.peek() != '\n' && !self.is_at_end()
                    invariant
                        self.wf(),
                        self@ == src,
                        src.len() < usize::MAX,
                        self.start == s0.start,
                        self.errors == s0.errors,
                        tokens@ == t0,
                        pos + 2 <= self.current,
                        line_end(src, self.current as nat) == line_end(src, pos + 2),
                    decreases self.source@.len() - self.current,
                {
                    self.advance();
                }
            } else if self.matches('*') {
                self.block_comment();
            } else {
                self.add_simple(tokens, TokenType::Slash);
            }
        } else if c == ' ' || c == '\r' || c == '\t' || c == '\n' {
        } else if c == '"' {
            self.string(tokens);
            proof {
                if tokens@.len() > t0.len() {
                    let k = t0.len() as int;
                    assert(token_shapes(tokens@)[k] == token_shape(tokens@[k]));
                    assert(token_shapes(tokens@)[k].0 == TokenType::String);
                }
            }
        } else if '0' <= c && c <= '9' {
            self.number(numbers, tokens);
            proof {
                assert(tokens@.last() == tokens@[t0.len() as int]);
            }
        } else if ('a' <= c && c <= 'z') || ('A' <= c && c <= 'Z') || c == '_' {
            self.identifier(tokens);
            proof {
                let k = t0.len() as int;
                assert(token_shapes(tokens@)[k] == token_shape(tokens@[k]));
                assert(token_shapes(tokens@)[k].0 != TokenType::Number);
                assert(tokens@.last() == tokens@[k]);
            }
        } else {
            self.error("Unexpected character.");
        }
        proof {
            if tokens@.len() > t0.len() {
                assert forall|i: int| 0 <= i < tokens@.len() implies scanned_token(#[trigger] tokens@[i]) by {
                    if i < t0.len() {
                        assert(tokens@[i] == tokens@.drop_last()[i]);
                    }
                }
                assert forall|i: int|
                    0 <= i < tokens@.len() && (#[trigger] tokens@[i]).token_type == TokenType::Number implies tokens@[i].literal
                        == Some(Literal::Number(numbers.parse_spec(tokens@[i].lexeme@))) by {
                    if i < t0.len() {
                        assert(tokens@[i] == tokens@.drop_last()[i]);
                        assert(t0[i] == tokens@.drop_last()[i]);
                    }
                }
            }
            assert(token_shapes(tokens@) =~= shapes0 + token_at(src, pos));
            assert(self.error_list() =~= errs0 + error_at(src, pos));
        }
    }

    /// Skips a (possibly nested) block comment whose opening `/*` has been consumed.
    fn block_comment(&mut self)
        requires
            old(self).wf(),
            old(self)@.len() < usize::MAX,
        ensures
            final(self).wf(),
            final(self)@ == old(self)@,
            final(self).start == old(self).start,
            final(self).current == comment_end(old(self)@, old(self).current as nat, 1).0,
            final(self).error_list() == old(self).error_list() + if comment_end(old(self)@, old(self).current as nat, 1).1 {
                Seq::<(nat, Seq<char>)>::empty()
            } else {
                seq![(line_at(old(self)@, final(self).current as nat), "Unterminated block comment."@)]
            },
            old(self).has_errors() ==> final(self).has_errors(),
    {
        let ghost src = self.source@;
        let ghost goal = comment_end(src, self.current as nat, 1);
        let mut depth: usize = 1;
        while depth > 0 && !self.is_at_end()
            invariant
                self.wf(),
                self@ == src,
                src.len() < usize::MAX,
                self.start == old(self).start,
                self.errors == old(self).errors,
                self.current >= old(self).current,
                depth <= self.current + 1,
                comment_end(src, self.current as nat, depth as nat) == goal,
            decreases self.source@.len() - self.current,
        {
            if self.peek() == '/' && self.peek_next() == '*' {
                self.advance();
                self.advance();
                depth = depth + 1;
            } else if self.peek() == '*' && self.peek_next() == '/' {
                self.advance();
                self.advance();
                depth = depth - 1;
            } else {
                self.advance();
            }
        }
        if depth > 0 {
            self.error("Unterminated block comment.");
        } else {
            assert(self.error_list() =~= old(self).error_list() + Seq::<(nat, Seq<char>)>::empty());
        }
    }

    fn string(&mut self, tokens: &mut Vec<Token>)
        requires
            old(self).wf(),
            old(self)@.len() < usize::MAX,
            old(self).current == old(self).start + 1,
            old(self)@[old(self).start as int] == '"',
        ensures
            final(self).wf(),
            final(self)@ == old(self)@,
            ({
                let src = old(self)@;
                let close = quote_at_or_after(src, old(self).current as nat);
                if close < src.len() {
                    &&& final(self).current == close + 1
                    &&& final(self).errors == old(self).errors
                    &&& final(tokens)@.drop_last() == old(tokens)@
                    &&& final(tokens)@.len() == old(tokens)@.len() + 1
                    &&& scanned_token(final(tokens)@.last())
                    &&& token_shapes(final(tokens)@) == token_shapes(old(tokens)@).push(
                        (TokenType::String, src.subrange(old(self).start as int, (close + 1) as int), line_at(src, close + 1)),
                    )
                } else {
                    &&& final(self).current == close
                    &&& final(tokens)@ == old(tokens)@
                    &&& final(self).error_list() == old(self).error_list().push(
                        (line_at(src, close), "Unterminated string."@),
                    )
                }
            }),
    {
        let ghost src = self.source@;
        let ghost goal = quote_at_or_after(src, self.current as nat);
        while self.peek() != '"' && !self.is_at_end()
            invariant
                self.wf(),
                self@ == src,
                src.len() < usize::MAX,
                self.start == old(self).start,
                self.errors == old(self).errors,
                self.current >= old(self).current,
                quote_at_or_after(src, self.current as nat) == goal,
                forall|i: int| self.start < i < self.current ==> #[trigger] self.source@[i] != '"',
            decreases self.source@.len() - self.current,
        {
            self.advance();
        }
        if self.is_at_end() {
            self.error("Unterminated string.");
            return;
        }
        self.advance();
        let value = string_from_chars(&self.source, self.start + 1, self.current - 1);
        self.add_token(tokens, TokenType::String, Some(Literal::String(value)));
        proof {
            let s = tokens@.last().lexeme@;
            assert(s == self.source@.subrange(self.start as int, self.current as int));
            assert(s.subrange(1, s.len() - 1) =~= self.source@.subrange(self.start + 1, self.current - 1));
            assert forall|i: int| 1 <= i < s.len() - 1 implies #[trigger] s[i] != '"' by {
                assert(s[i] == self.source@[self.start + i]);
            }
        }
    }

    fn number<N: NumberOps>(&mut self, numbers: &N, tokens: &mut Vec<Token>)
        requires
            old(self).wf(),
            old(self)@.len() < usize::MAX,
            old(self).current == old(self).start + 1,
            is_digit(old(self)@[old(self).start as int]),
        ensures
            final(self).wf(),
            final(self)@ == old(self)@,
            final(self).errors == old(self).errors,
            final(self).current == number_end(old(self)@, old(self).start as nat),
            final(tokens)@.drop_last() == old(tokens)@,
            final(tokens)@.len() == old(tokens)@.len() + 1,
            scanned_token(final(tokens)@.last()),
            final(tokens)@.last().literal == Some(Literal::Number(numbers.parse_spec(final(tokens)@.last().lexeme@))),
            token_shapes(final(tokens)@) == token_shapes(old(tokens)@).push(
                (
                    TokenType::Number,
                    old(self)@.subrange(old(self).start as int, final(self).current as int),
                    line_at(old(self)@, final(self).current as nat),
                ),
            ),
    {
        let ghost src = self.source@;
        let ghost st = self.start as int;
        while '0' <= self.peek() && self.peek() <= '9'
            invariant
                self.wf(),
                self@ == src,
                src.len() < usize::MAX,
                self.start == st,
                self.errors == old(self).errors,
                self.current > self.start,
                all_digits(src.subrange(st, self.current as int)),
                digits_end(src, self.current as nat) == digits_end(src, (st + 1) as nat),
            decreases src.len() - self.current,
        {
            let ghost before = src.subrange(st, self.current as int);
            self.advance();
            proof {
                let after = src.subrange(st, self.current as int);
                assert forall|i: int| 0 <= i < after.len() implies is_digit(#[trigger] after[i]) by {
                    if i < before.len() {
                        assert(after[i] == before[i]);
                    }
                }
            }
        }
        let ghost int_end = self.current as int;
        if self.peek() == '.' && '0' <= self.peek_next() && self.peek_next() <= '9' {
            self.advance();
            while '0' <= self.peek() && self.peek() <= '9'
                invariant
                    self.wf(),
                    self@ == src,
                    src.len() < usize::MAX,
                    self.start == st,
                    self.errors == old(self).errors,
                    self.current >= int_end + 1,
                    int_end > st,
                    int_end + 1 < src.len() && src[int_end] == '.',
                    is_digit(src[int_end + 1]),
                    all_digits(src.subrange(st, int_end)),
                    all_digits(src.subrange(int_end + 1, self.current as int)),
                    digits_end(src, self.current as nat) == digits_end(src, (int_end + 1) as nat),
                decreases src.len() - self.current,
            {
                let ghost before = src.subrange(int_end + 1, self.current as int);
                let ghost cur = self.current as int;
                assert(is_digit(src[cur]));
                self.advance();
                proof {
                    let after = src.subrange(int_end + 1, self.current as int);
                    assert(after =~= before.push(src[cur]));
                }
            }
            proof {
                let s = src.subrange(st, self.current as int);
                let k = int_end - st;
                assert(s.take(k) =~= src.subrange(st, int_end));
                assert(s.skip(k + 1) =~= src.subrange(int_end + 1, self.current as int));
                assert(s[k] == '.');
                assert(is_number_text(s));
            }
        }
        let text = self.lexeme();
        let value = numbers.parse(text.as_str());
        self.add_token(tokens, TokenType::Number, Some(Literal::Number(value)));
    }

    fn identifier(&mut self, tokens: &mut Vec<Token>)
        requires
            old(self).wf(),
            old(self)@.len() < usize::MAX,
            old(self).current == old(self).start + 1,
            is_alpha(old(self)@[old(self).start as int]),
        ensures
            final(self).wf(),
            final(self)@ == old(self)@,
            final(self).errors == old(self).errors,
            final(self).current == word_end(old(self)@, old(self).current as nat),
            final(tokens)@.drop_last() == old(tokens)@,
            final(tokens)@.len() == old(tokens)@.len() + 1,
            scanned_token(final(tokens)@.last()),
            token_shapes(final(tokens)@) == token_shapes(old(tokens)@).push(
                (
                    word_type(old(self)@.subrange(old(self).start as int, final(self).current as int)),
                    old(self)@.subrange(old(self).start as int, final(self).current as int),
                    line_at(old(self)@, final(self).current as nat),
                ),
            ),
    {
        let ghost src = self.source@;
        let ghost st = self.start as int;
        while is_alnum_char(self.peek())
            invariant
                self.wf(),
                self@ == src,
                src.len() < usize::MAX,
                self.start == st,
                self.errors == old(self).errors,
                self.current > self.start,
                is_word(src.subrange(st, self.current as int)),
                word_end(src, self.current as nat) == word_end(src, (st + 1) as nat),
            decreases src.len() - self.current,
        {
            let ghost before = src.subrange(st, self.current as int);
            self.advance();
            proof {
                let after = src.subrange(st, self.current as int);
                assert forall|i: int| 1 <= i < after.len() implies is_alphanumeric(#[trigger] after[i]) by {
                    if i < before.len() {
                        assert(after[i] == before[i]);
                    }
                }
            }
        }
        let text = self.lexeme();
        let token_type = keyword(&text);
        self.add_token(tokens, token_type, None);
    }
}

/// Counting newlines one character further.
proof fn lemma_newlines_step(src: Seq<char>, p: nat)
    requires
        p < src.len(),
    ensures
        newlines(src.take((p + 1) as int)) == newlines(src.take(p as int)) + if src[p as int] == '\n' { 1nat } else { 0nat },
        newlines(src.take(p as int)) <= p,
{
    assert(src.take((p + 1) as int).drop_last() =~= src.take(p as int));
    lemma_newlines_bound(src.take(p as int));
}

/// A text has no more newlines than characters.
proof fn lemma_newlines_bound(s: Seq<char>)
    ensures
        newlines(s) <= s.len(),
    decreases s.len(),
{
    if s.len() > 0 {
        lemma_newlines_bound(s.drop_last());
    }
}

fn is_alnum_char(c: char) -> (r: bool)
    ensures
        r == is_alphanumeric(c),
{
    ('a' <= c && c <= 'z') || ('A' <= c && c <= 'Z') || c == '_' || ('0' <= c && c <= '9')
}

/// The token kind of a scanned word: its keyword, or `Identifier`.
pub fn keyword(text: &String) -> (t: TokenType)
    ensures
        t == word_type(text@),
{
    if string_is(text, "and") { TokenType::And }
    else if string_is(text, "break") { TokenType::Break }
    else if string_is(text, "class") { TokenType::Class }
    else if string_is(text, "else") { TokenType::Else }
    else if string_is(text, "false") { TokenType::False }
    else if string_is(text, "for") { TokenType::For }
    else if string_is(text, "fun") { TokenType::Fun }
    else if string_is(text, "if") { TokenType::If }
    else if string_is(text, "nil") { TokenType::Nil }
    else if string_is(text, "or") { TokenType::Or }
    else if string_is(text, "print") { TokenType::Print }
    else if string_is(text, "return") { TokenType::Return }
    else if string_is(text, "super") { TokenType::Super }
    else if string_is(text, "this") { TokenType::This }
    else if string_is(text, "true") { TokenType::True }
    else if string_is(text, "var") { TokenType::Var }
    else if string_is(text, "while") { TokenType::While }
    else { TokenType::Identifier }
}

} // verus!
