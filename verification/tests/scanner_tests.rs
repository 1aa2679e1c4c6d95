use lib::numbers::{NumberOps, NumberText};
use lib::scanner::Scanner;
use lib::token::{Literal, Token, TokenType};

/// IEEE doubles, as the host supplies them to the interpreter.
struct F64;

impl NumberOps for F64 {
    // Read by the verifier only: a literal's characters are not kept at run time.
    fn parse_spec(&self, _literal: NumberText) -> u64 {
        unreachable!()
    }
    fn add_spec(&self, a: u64, b: u64) -> u64 {
        self.add(a, b)
    }
    fn subtract_spec(&self, a: u64, b: u64) -> u64 {
        self.subtract(a, b)
    }
    fn multiply_spec(&self, a: u64, b: u64) -> u64 {
        self.multiply(a, b)
    }
    fn divide_spec(&self, a: u64, b: u64) -> u64 {
        self.divide(a, b)
    }
    fn negate_spec(&self, a: u64) -> u64 {
        self.negate(a)
    }
    fn equal_spec(&self, a: u64, b: u64) -> bool {
        self.equal(a, b)
    }
    fn greater_spec(&self, a: u64, b: u64) -> bool {
        self.greater(a, b)
    }
    fn greater_equal_spec(&self, a: u64, b: u64) -> bool {
        self.greater_equal(a, b)
    }
    fn less_spec(&self, a: u64, b: u64) -> bool {
        self.less(a, b)
    }
    fn less_equal_spec(&self, a: u64, b: u64) -> bool {
        self.less_equal(a, b)
    }
    fn format_spec(&self, a: u64) -> String {
        self.format(a)
    }
    fn parse(&self, literal: &str) -> u64 {
        literal.parse::<f64>().unwrap().to_bits()
    }
    fn add(&self, a: u64, b: u64) -> u64 {
        (f64::from_bits(a) + f64::from_bits(b)).to_bits()
    }
    fn subtract(&self, a: u64, b: u64) -> u64 {
        (f64::from_bits(a) - f64::from_bits(b)).to_bits()
    }
    fn multiply(&self, a: u64, b: u64) -> u64 {
        (f64::from_bits(a) * f64::from_bits(b)).to_bits()
    }
    fn divide(&self, a: u64, b: u64) -> u64 {
        (f64::from_bits(a) / f64::from_bits(b)).to_bits()
    }
    fn negate(&self, a: u64) -> u64 {
        (-f64::from_bits(a)).to_bits()
    }
    fn equal(&self, a: u64, b: u64) -> bool {
        f64::from_bits(a) == f64::from_bits(b)
    }
    fn greater(&self, a: u64, b: u64) -> bool {
        f64::from_bits(a) > f64::from_bits(b)
    }
    fn greater_equal(&self, a: u64, b: u64) -> bool {
        f64::from_bits(a) >= f64::from_bits(b)
    }
    fn less(&self, a: u64, b: u64) -> bool {
        f64::from_bits(a) < f64::from_bits(b)
    }
    fn less_equal(&self, a: u64, b: u64) -> bool {
        f64::from_bits(a) <= f64::from_bits(b)
    }
    fn format(&self, a: u64) -> String {
        let v = f64::from_bits(a);
        if v.fract() == 0.0 {
            format!("{:.0}", v)
        } else {
            v.to_string()
        }
    }
    fn clock(&self) -> u64 {
        0.0f64.to_bits()
    }
}

fn num(v: f64) -> u64 {
    v.to_bits()
}

fn scan(source: &str) -> (Vec<Token>, Scanner) {
    let mut scanner = Scanner::new(source);
    let tokens = scanner.scan_tokens(&F64);
    (tokens, scanner)
}

fn token_types(tokens: &[Token]) -> Vec<TokenType> {
    tokens.iter().map(|token| token.token_type).collect()
}

#[test]
fn scans_single_character_tokens() {
    let (tokens, _) = scan("(){} ,.-+;*");
    assert_eq!(
        token_types(&tokens),
        vec![
            TokenType::LeftParen,
            TokenType::RightParen,
            TokenType::LeftBrace,
            TokenType::RightBrace,
            TokenType::Comma,
            TokenType::Dot,
            TokenType::Minus,
            TokenType::Plus,
            TokenType::Semicolon,
            TokenType::Star,
            TokenType::Eof,
        ]
    );
}

#[test]
fn scans_operators() {
    let (tokens, _) = scan("! != = == < <= > >=");
    assert_eq!(
        token_types(&tokens),
        vec![
            TokenType::Bang,
            TokenType::BangEqual,
            TokenType::Equal,
            TokenType::EqualEqual,
            TokenType::Less,
            TokenType::LessEqual,
            TokenType::Greater,
            TokenType::GreaterEqual,
            TokenType::Eof,
        ]
    );
}

#[test]
fn ignores_comments() {
    let (tokens, _) = scan(
        r#"
        // this should disappear
        print 123;

        /* this should also disappear */

        print 456;
        "#,
    );
    assert_eq!(
        token_types(&tokens),
        vec![
            TokenType::Print,
            TokenType::Number,
            TokenType::Semicolon,
            TokenType::Print,
            TokenType::Number,
            TokenType::Semicolon,
            TokenType::Eof,
        ]
    );
}

#[test]
fn supports_nested_block_comments() {
    let (tokens, _) = scan(
        r#"
        print 1;

        /*
            outer comment

            /*
                nested comment
            */

            back in outer comment
        */

        print 2;
        "#,
    );
    assert_eq!(
        token_types(&tokens),
        vec![
            TokenType::Print,
            TokenType::Number,
            TokenType::Semicolon,
            TokenType::Print,
            TokenType::Number,
            TokenType::Semicolon,
            TokenType::Eof,
        ]
    );
}

#[test]
fn scans_strings() {
    let (tokens, _) = scan(r#""hello" "hello world""#);
    assert_eq!(tokens[0].token_type, TokenType::String);
    assert_eq!(tokens[0].literal, Some(Literal::String("hello".to_string())));
    assert_eq!(tokens[1].token_type, TokenType::String);
    assert_eq!(tokens[1].literal, Some(Literal::String("hello world".to_string())));
    assert_eq!(tokens[2].token_type, TokenType::Eof);
}

#[test]
fn scans_multiline_string() {
    let (tokens, _) = scan("\"hello\nworld\"");
    assert_eq!(tokens[0].token_type, TokenType::String);
    assert_eq!(tokens[0].literal, Some(Literal::String("hello\nworld".to_string())));
    assert_eq!(tokens[1].token_type, TokenType::Eof);
}

#[test]
fn scans_numbers() {
    let (tokens, _) = scan("123 456.789");
    assert_eq!(tokens[0].literal, Some(Literal::Number(num(123.0))));
    assert_eq!(tokens[1].literal, Some(Literal::Number(num(456.789))));
    assert_eq!(tokens[2].token_type, TokenType::Eof);
}

#[test]
fn scans_number_edge_cases() {
    let (tokens, _) = scan("123. 123.45 .123");
    assert_eq!(tokens[0].token_type, TokenType::Number);
    assert_eq!(tokens[0].literal, Some(Literal::Number(num(123.0))));
    assert_eq!(tokens[1].token_type, TokenType::Dot);
    assert_eq!(tokens[2].token_type, TokenType::Number);
    assert_eq!(tokens[2].literal, Some(Literal::Number(num(123.45))));
    assert_eq!(tokens[3].token_type, TokenType::Dot);
    assert_eq!(tokens[4].token_type, TokenType::Number);
    assert_eq!(tokens[4].literal, Some(Literal::Number(num(123.0))));
    assert_eq!(tokens[5].token_type, TokenType::Eof);
}

#[test]
fn scans_identifiers() {
    let (tokens, _) = scan("hello world _private variable123 test_123");
    assert_eq!(
        token_types(&tokens),
        vec![
            TokenType::Identifier,
            TokenType::Identifier,
            TokenType::Identifier,
            TokenType::Identifier,
            TokenType::Identifier,
            TokenType::Eof,
        ]
    );
}

#[test]
fn scans_keywords() {
    let (tokens, _) = scan(
        "and class else false for fun if nil or \
         print return super this true var while",
    );
    assert_eq!(
        token_types(&tokens),
        vec![
            TokenType::And,
            TokenType::Class,
            TokenType::Else,
            TokenType::False,
            TokenType::For,
            TokenType::Fun,
            TokenType::If,
            TokenType::Nil,
            TokenType::Or,
            TokenType::Print,
            TokenType::Return,
            TokenType::Super,
            TokenType::This,
            TokenType::True,
            TokenType::Var,
            TokenType::While,
            TokenType::Eof,
        ]
    );
}

#[test]
fn does_not_confuse_keywords_with_identifiers() {
    let (tokens, _) = scan("or orchid class classifier true truthful");
    assert_eq!(
        token_types(&tokens),
        vec![
            TokenType::Or,
            TokenType::Identifier,
            TokenType::Class,
            TokenType::Identifier,
            TokenType::True,
            TokenType::Identifier,
            TokenType::Eof,
        ]
    );
}

#[test]
fn preserves_literal_values() {
    let (tokens, _) = scan(r#"123 45.67 "hello" "world""#);
    assert_eq!(tokens[0].literal, Some(Literal::Number(num(123.0))));
    assert_eq!(tokens[1].literal, Some(Literal::Number(num(45.67))));
    assert_eq!(tokens[2].literal, Some(Literal::String("hello".to_string())));
    assert_eq!(tokens[3].literal, Some(Literal::String("world".to_string())));
}

#[test]
fn tracks_lines() {
    let (tokens, _) = scan("print 1;\nprint 2;\nprint 3;");
    assert_eq!(tokens[0].line, 1);
    assert_eq!(tokens[4].line, 2);
    assert_eq!(tokens[8].line, 3);
}

#[test]
fn tracks_lines_inside_block_comments() {
    let (tokens, _) = scan("/*\n\n\n*/\nprint 123;");
    assert_eq!(tokens[0].token_type, TokenType::Print);
    assert_eq!(tokens[0].line, 5);
    assert_eq!(tokens[1].token_type, TokenType::Number);
    assert_eq!(tokens[1].line, 5);
}

#[test]
fn continues_after_invalid_character() {
    let (tokens, scanner) = scan("@ print 123; #");
    assert_eq!(
        token_types(&tokens),
        vec![TokenType::Print, TokenType::Number, TokenType::Semicolon, TokenType::Eof]
    );
    assert!(scanner.had_error());
}

// Further cases.

#[test]
fn scans_break_as_keyword() {
    let (tokens, _) = scan("break breaker");
    assert_eq!(token_types(&tokens), vec![TokenType::Break, TokenType::Identifier, TokenType::Eof]);
}

#[test]
fn string_lexeme_keeps_its_quotes() {
    let (tokens, _) = scan("\"hi\"");
    assert_eq!(tokens[0].lexeme, "\"hi\"");
    assert_eq!(tokens[1].lexeme, "");
}

#[test]
fn reports_unterminated_string() {
    let (tokens, scanner) = scan("\"open");
    assert_eq!(token_types(&tokens), vec![TokenType::Eof]);
    assert!(scanner.had_error());
    assert_eq!(scanner.errors()[0].message, "Unterminated string.");
}

#[test]
fn reports_unterminated_block_comment() {
    let (tokens, scanner) = scan("/* /* */ print");
    assert_eq!(token_types(&tokens), vec![TokenType::Eof]);
    assert_eq!(scanner.errors()[0].message, "Unterminated block comment.");
}

#[test]
fn empty_source_is_only_eof() {
    let (tokens, scanner) = scan("");
    assert_eq!(tokens.len(), 1);
    assert_eq!(tokens[0].token_type, TokenType::Eof);
    assert_eq!(tokens[0].line, 1);
    assert!(!scanner.had_error());
}

#[test]
fn slash_alone_is_division() {
    let (tokens, _) = scan("1 / 2");
    assert_eq!(
        token_types(&tokens),
        vec![TokenType::Number, TokenType::Slash, TokenType::Number, TokenType::Eof]
    );
}
