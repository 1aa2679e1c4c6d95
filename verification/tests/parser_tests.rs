use lib::ast_printer::AstPrinter;
use lib::expr::Expr;
use lib::lox::Lox;
use lib::numbers::{NumberOps, NumberText};
use lib::parser::Parser;
use lib::scanner::Scanner;
use lib::stmt::{ClassMember, Stmt};
use lib::token::{Literal, Token, TokenType};

/// IEEE doubles, as the host supplies them to the interpreter.
struct F64;

impl NumberOps for F64 {
    // Read by the verifier only: a literal's characters are not kept at run time.
    fn parse_spec(&self, _literal: NumberText) -> u64 {
        unreachable!()
    }
    fn add_spec(&self, a: u64, b: u64) -> u64 {
        self.add(a, b)
    }
    fn subtract_spec(&self, a: u64, b: u64) -> u64 {
        self.subtract(a, b)
    }
    fn multiply_spec(&self, a: u64, b: u64) -> u64 {
        self.multiply(a, b)
    }
    fn divide_spec(&self, a: u64, b: u64) -> u64 {
        self.divide(a, b)
    }
    fn negate_spec(&self, a: u64) -> u64 {
        self.negate(a)
    }
    fn equal_spec(&self, a: u64, b: u64) -> bool {
        self.equal(a, b)
    }
    fn greater_spec(&self, a: u64, b: u64) -> bool {
        self.greater(a, b)
    }
    fn greater_equal_spec(&self, a: u64, b: u64) -> bool {
        self.greater_equal(a, b)
    }
    fn less_spec(&self, a: u64, b: u64) -> bool {
        self.less(a, b)
    }
    fn less_equal_spec(&self, a: u64, b: u64) -> bool {
        self.less_equal(a, b)
    }
    fn format_spec(&self, a: u64) -> String {
        self.format(a)
    }
    fn parse(&self, literal: &str) -> u64 {
        literal.parse::<f64>().unwrap().to_bits()
    }
    fn add(&self, a: u64, b: u64) -> u64 {
        (f64::from_bits(a) + f64::from_bits(b)).to_bits()
    }
    fn subtract(&self, a: u64, b: u64) -> u64 {
        (f64::from_bits(a) - f64::from_bits(b)).to_bits()
    }
    fn multiply(&self, a: u64, b: u64) -> u64 {
        (f64::from_bits(a) * f64::from_bits(b)).to_bits()
    }
    fn divide(&self, a: u64, b: u64) -> u64 {
        (f64::from_bits(a) / f64::from_bits(b)).to_bits()
    }
    fn negate(&self, a: u64) -> u64 {
        (-f64::from_bits(a)).to_bits()
    }
    fn equal(&self, a: u64, b: u64) -> bool {
        f64::from_bits(a) == f64::from_bits(b)
    }
    fn greater(&self, a: u64, b: u64) -> bool {
        f64::from_bits(a) > f64::from_bits(b)
    }
    fn greater_equal(&self, a: u64, b: u64) -> bool {
        f64::from_bits(a) >= f64::from_bits(b)
    }
    fn less(&self, a: u64, b: u64) -> bool {
        f64::from_bits(a) < f64::from_bits(b)
    }
    fn less_equal(&self, a: u64, b: u64) -> bool {
        f64::from_bits(a) <= f64::from_bits(b)
    }
    fn format(&self, a: u64) -> String {
        let v = f64::from_bits(a);
        if v.fract() == 0.0 {
            format!("{:.0}", v)
        } else {
            v.to_string()
        }
    }
    fn clock(&self) -> u64 {
        0.0f64.to_bits()
    }
}

fn num(v: f64) -> u64 {
    v.to_bits()
}

fn parse(source: &str) -> Vec<Stmt> {
    let mut lox = Lox::new();

    let mut scanner = Scanner::new(source);
    let tokens = scanner.scan_tokens(&F64);

    let mut parser = Parser::new(tokens, &mut lox);

    parser.parse()
}

fn parse_expression(source: &str) -> Expr {
    let mut statements = parse(source);

    assert_eq!(statements.len(), 1);

    match statements.remove(0) {
        Stmt::Expression { expression } => expression,

        _ => panic!("Expected an expression statement"),
    }
}

fn token(token_type: TokenType, lexeme: &str) -> Token {
    Token::new(token_type, lexeme.to_string(), None, 1)
}

#[test]
fn parses_number_literal() {
    let expr = parse_expression("123;");

    assert_eq!(
        expr,
        Expr::Literal {
            value: Literal::Number(num(123.0))
        }
    );
}

#[test]
fn parses_string_literal() {
    let expr = parse_expression("\"hello\";");

    assert_eq!(
        expr,
        Expr::Literal {
            value: Literal::String("hello".to_string())
        }
    );
}

#[test]
fn parses_true() {
    let expr = parse_expression("true;");

    assert_eq!(
        expr,
        Expr::Literal {
            value: Literal::Boolean(true)
        }
    );
}

#[test]
fn parses_false() {
    let expr = parse_expression("false;");

    assert_eq!(
        expr,
        Expr::Literal {
            value: Literal::Boolean(false)
        }
    );
}

#[test]
fn parses_nil() {
    let expr = parse_expression("nil;");

    assert_eq!(
        expr,
        Expr::Literal {
            value: Literal::Nil
        }
    );
}

#[test]
fn parses_unary_expression() {
    let expr = parse_expression("-123;");

    assert_eq!(
        expr,
        Expr::Unary {
            operator: token(TokenType::Minus, "-"),
            right: Box::new(Expr::Literal {
                value: Literal::Number(num(123.0))
            }),
        }
    );
}

#[test]
fn parses_binary_expression() {
    let expr = parse_expression("1 + 2;");

    assert_eq!(
        expr,
        Expr::Binary {
            left: Box::new(Expr::Literal {
                value: Literal::Number(num(1.0))
            }),
            operator: token(TokenType::Plus, "+"),
            right: Box::new(Expr::Literal {
                value: Literal::Number(num(2.0))
            }),
        }
    );
}

#[test]
fn respects_multiplication_precedence() {
    let expr = parse_expression("1 + 2 * 3;");

    assert_eq!(
        expr,
        Expr::Binary {
            left: Box::new(Expr::Literal {
                value: Literal::Number(num(1.0))
            }),
            operator: token(TokenType::Plus, "+"),
            right: Box::new(Expr::Binary {
                left: Box::new(Expr::Literal {
                    value: Literal::Number(num(2.0))
                }),
                operator: token(TokenType::Star, "*"),
                right: Box::new(Expr::Literal {
                    value: Literal::Number(num(3.0))
                }),
            }),
        }
    );
}

#[test]
fn respects_parentheses() {
    let expr = parse_expression("(1 + 2) * 3;");

    assert_eq!(
        expr,
        Expr::Binary {
            left: Box::new(Expr::Grouping {
                expression: Box::new(Expr::Binary {
                    left: Box::new(Expr::Literal {
                        value: Literal::Number(num(1.0))
                    }),
                    operator: token(TokenType::Plus, "+"),
                    right: Box::new(Expr::Literal {
                        value: Literal::Number(num(2.0))
                    }),
                }),
            }),
            operator: token(TokenType::Star, "*"),
            right: Box::new(Expr::Literal {
                value: Literal::Number(num(3.0))
            }),
        }
    );
}

#[test]
fn unary_has_higher_precedence_than_binary() {
    let expr = parse_expression("-1 + 2;");

    assert_eq!(
        expr,
        Expr::Binary {
            left: Box::new(Expr::Unary {
                operator: token(TokenType::Minus, "-"),
                right: Box::new(Expr::Literal {
                    value: Literal::Number(num(1.0))
                }),
            }),
            operator: token(TokenType::Plus, "+"),
            right: Box::new(Expr::Literal {
                value: Literal::Number(num(2.0))
            }),
        }
    );
}

#[test]
fn binary_operators_are_left_associative() {
    let expr = parse_expression("1 - 2 - 3;");

    assert_eq!(
        expr,
        Expr::Binary {
            left: Box::new(Expr::Binary {
                left: Box::new(Expr::Literal {
                    value: Literal::Number(num(1.0))
                }),
                operator: token(TokenType::Minus, "-"),
                right: Box::new(Expr::Literal {
                    value: Literal::Number(num(2.0))
                }),
            }),
            operator: token(TokenType::Minus, "-"),
            right: Box::new(Expr::Literal {
                value: Literal::Number(num(3.0))
            }),
        }
    );
}

#[test]
fn parses_equality() {
    let expr = parse_expression("1 == 2;");

    assert_eq!(
        expr,
        Expr::Binary {
            left: Box::new(Expr::Literal {
                value: Literal::Number(num(1.0))
            }),
            operator: token(TokenType::EqualEqual, "=="),
            right: Box::new(Expr::Literal {
                value: Literal::Number(num(2.0))
            }),
        }
    );
}

#[test]
fn parses_comparison() {
    let expr = parse_expression("1 < 2;");

    assert_eq!(
        expr,
        Expr::Binary {
            left: Box::new(Expr::Literal {
                value: Literal::Number(num(1.0))
            }),
            operator: token(TokenType::Less, "<"),
            right: Box::new(Expr::Literal {
                value: Literal::Number(num(2.0))
            }),
        }
    );
}

#[test]
fn respects_comparison_over_equality() {
    let expr = parse_expression("1 < 2 == true;");

    assert_eq!(
        expr,
        Expr::Binary {
            left: Box::new(Expr::Binary {
                left: Box::new(Expr::Literal {
                    value: Literal::Number(num(1.0))
                }),
                operator: token(TokenType::Less, "<"),
                right: Box::new(Expr::Literal {
                    value: Literal::Number(num(2.0))
                }),
            }),
            operator: token(TokenType::EqualEqual, "=="),
            right: Box::new(Expr::Literal {
                value: Literal::Boolean(true)
            }),
        }
    );
}

#[test]
fn parses_nested_expression() {
    let expr = parse_expression("-123 * (45.67);");

    assert_eq!(
        expr,
        Expr::Binary {
            left: Box::new(Expr::Unary {
                operator: token(TokenType::Minus, "-"),
                right: Box::new(Expr::Literal {
                    value: Literal::Number(num(123.0))
                }),
            }),
            operator: token(TokenType::Star, "*"),
            right: Box::new(Expr::Grouping {
                expression: Box::new(Expr::Literal {
                    value: Literal::Number(num(45.67))
                }),
            }),
        }
    );
}

#[test]
fn rejects_missing_expression() {
    let statements = parse("+;");

    assert!(statements.is_empty());
}

#[test]
fn rejects_missing_closing_parenthesis() {
    let statements = parse("(1 + 2;");

    assert!(statements.is_empty());
}

#[test]
fn rejects_empty_parentheses() {
    let statements = parse("();");

    assert!(statements.is_empty());
}

#[test]
fn rejects_invalid_operator_sequence() {
    let statements = parse("1 + * 2;");

    assert!(statements.is_empty());
}

#[test]
fn respects_all_precedence_levels() {
    let expr = parse_expression("1 + 2 * 3 == 7;");

    assert_eq!(
        expr,
        Expr::Binary {
            left: Box::new(Expr::Binary {
                left: Box::new(Expr::Literal {
                    value: Literal::Number(num(1.0)),
                }),
                operator: token(TokenType::Plus, "+"),
                right: Box::new(Expr::Binary {
                    left: Box::new(Expr::Literal {
                        value: Literal::Number(num(2.0)),
                    }),
                    operator: token(TokenType::Star, "*"),
                    right: Box::new(Expr::Literal {
                        value: Literal::Number(num(3.0)),
                    }),
                }),
            }),
            operator: token(TokenType::EqualEqual, "=="),
            right: Box::new(Expr::Literal {
                value: Literal::Number(num(7.0)),
            }),
        }
    );
}

#[test]
fn scanner_parser_printer_integration() {
    let source = "-123 * (45.67);";

    let mut lox = Lox::new();

    let mut scanner = Scanner::new(source);
    let tokens = scanner.scan_tokens(&F64);

    let mut parser = Parser::new(tokens, &mut lox);
    let statements = parser.parse();

    assert_eq!(statements.len(), 1);

    let expression = match &statements[0] {
        Stmt::Expression { expression } => expression,
        _ => panic!("Expected an expression statement"),
    };

    let output = AstPrinter::new().print(expression, &F64);

    assert_eq!(output, "(* (- 123) (group 45.67))");
}

#[test]
fn parses_expression_statement() {
    let statements = parse("1 + 2;");

    assert_eq!(statements.len(), 1);

    assert!(matches!(&statements[0], Stmt::Expression { .. }));
}

#[test]
fn parses_print_statement() {
    let statements = parse("print 123;");

    assert_eq!(statements.len(), 1);

    assert!(matches!(&statements[0], Stmt::Print { .. }));
}

#[test]
fn parses_multiple_statements() {
    let statements = parse(
        r#"
        print "one";
        print true;
        2 + 1;
        "#,
    );

    assert_eq!(statements.len(), 3);
}

#[test]
fn requires_semicolon_after_expression() {
    let statements = parse("123");

    assert!(statements.is_empty());
}

#[test]
fn requires_semicolon_after_print() {
    let statements = parse("print 123");

    assert!(statements.is_empty());
}

#[test]
fn parses_variable_declaration() {
    let statements = parse("var beverage = \"espresso\";");

    assert_eq!(statements.len(), 1);

    match &statements[0] {
        Stmt::Var { name, initializer } => {
            assert_eq!(name.lexeme, "beverage");

            assert_eq!(
                initializer,
                &Some(Expr::Literal {
                    value: Literal::String("espresso".to_string())
                })
            );
        }

        _ => panic!("Expected variable declaration"),
    }
}

#[test]
fn parses_variable_without_initializer() {
    let statements = parse("var beverage;");

    assert_eq!(statements.len(), 1);

    match &statements[0] {
        Stmt::Var { name, initializer } => {
            assert_eq!(name.lexeme, "beverage");
            assert_eq!(initializer, &None);
        }

        _ => panic!("Expected variable declaration"),
    }
}

#[test]
fn parses_variable_expression() {
    let statements = parse("beverage;");

    assert_eq!(statements.len(), 1);

    match &statements[0] {
        Stmt::Expression {
            expression: Expr::Variable { name, .. },
        } => {
            assert_eq!(name.lexeme, "beverage");
        }

        _ => panic!("Expected variable expression"),
    }
}

#[test]
fn parses_class_declaration() {
    let statements = parse(
        r#"
        class Breakfast {
            cook() {
                print "Eggs a-fryin'!";
            }

            serve(who) {
                print who;
            }
        }
        "#,
    );

    assert_eq!(statements.len(), 1);

    match &statements[0] {
        Stmt::Class { name, methods, .. } => {
            assert_eq!(name.lexeme, "Breakfast");
            assert_eq!(methods.len(), 2);

            for method in methods {
                assert!(matches!(method, ClassMember::Method { .. }));
            }
        }

        _ => panic!("Expected class declaration"),
    }
}

fn parse_with_reports(source: &str) -> (Vec<Stmt>, Vec<String>) {
    let mut lox = Lox::new();
    let mut scanner = Scanner::new(source);
    let tokens = scanner.scan_tokens(&F64);
    let statements = {
        let mut parser = Parser::new(tokens, &mut lox);
        parser.parse()
    };
    let reports = lox.take_reports();
    (statements, reports)
}

#[test]
fn reports_missing_closing_parenthesis_at_the_offending_token() {
    let (statements, reports) = parse_with_reports("(1 + 2;");
    assert!(statements.is_empty());
    assert_eq!(reports, vec!["[line 1] Error at ';': Expect ')' after expression.".to_string()]);
}

#[test]
fn reports_missing_semicolon_at_end() {
    let (_, reports) = parse_with_reports("print 123");
    assert_eq!(reports, vec!["[line 1] Error at end: Expect ';' after value.".to_string()]);
}

#[test]
fn recovers_after_an_error_and_parses_the_next_statement() {
    let (statements, reports) = parse_with_reports("var = 1;\nprint 2;");
    assert_eq!(statements.len(), 1);
    assert!(matches!(&statements[0], Stmt::Print { .. }));
    assert_eq!(reports, vec!["[line 1] Error at '=': Expect variable name.".to_string()]);
}

#[test]
fn rejects_break_outside_loop() {
    let (statements, reports) = parse_with_reports("break;");
    assert!(statements.is_empty());
    assert_eq!(reports, vec!["[line 1] Error at 'break': Cannot use 'break' outside of a loop.".to_string()]);
}

#[test]
fn rejects_invalid_assignment_target() {
    let (_, reports) = parse_with_reports("1 = 2;");
    assert_eq!(reports, vec!["[line 1] Error at '=': Invalid assignment target.".to_string()]);
}

#[test]
fn parses_while_and_break() {
    let statements = parse("while (true) { break; }");
    assert_eq!(statements.len(), 1);
    match &statements[0] {
        Stmt::While { condition, body } => {
            assert_eq!(condition, &Expr::Literal { value: Literal::Boolean(true) });
            match body.as_ref() {
                Stmt::Block { statements } => assert!(matches!(statements.as_slice(), [Stmt::Break])),
                _ => panic!("Expected a block body"),
            }
        }
        _ => panic!("Expected a while statement"),
    }
}

#[test]
fn desugars_for_into_block_with_while() {
    let statements = parse("for (var i = 0; i < 3; i = i + 1) print i;");
    assert_eq!(statements.len(), 1);
    match &statements[0] {
        Stmt::Block { statements } => {
            assert_eq!(statements.len(), 2);
            assert!(matches!(&statements[0], Stmt::Var { .. }));
            assert!(matches!(&statements[1], Stmt::While { .. }));
        }
        _ => panic!("Expected a block"),
    }
}

#[test]
fn parses_function_declaration() {
    let statements = parse("fun add(a, b) { return a + b; }");
    assert_eq!(statements.len(), 1);
    match &statements[0] {
        Stmt::Function { name, parameters, body } => {
            assert_eq!(name.lexeme, "add");
            assert_eq!(parameters.len(), 2);
            assert_eq!(parameters[0].lexeme, "a");
            assert_eq!(parameters[1].lexeme, "b");
            assert_eq!(body.len(), 1);
            assert!(matches!(&body[0], Stmt::Return { value: Some(_), .. }));
        }
        _ => panic!("Expected a function declaration"),
    }
}

#[test]
fn parses_subclass_with_getter_and_static_method() {
    let statements = parse("class B < A { area { return 1; } class make() { return B(); } }");
    assert_eq!(statements.len(), 1);
    match &statements[0] {
        Stmt::Class { name, superclass, methods } => {
            assert_eq!(name.lexeme, "B");
            assert!(matches!(superclass, Some(Expr::Variable { .. })));
            assert_eq!(methods.len(), 2);
            assert!(matches!(&methods[0], ClassMember::Getter { .. }));
            assert!(matches!(&methods[1], ClassMember::StaticMethod { .. }));
        }
        _ => panic!("Expected a class declaration"),
    }
}

#[test]
fn parses_calls_and_property_assignment() {
    let expr = parse_expression("a.b(1).c = 2;");
    match expr {
        Expr::SetProperty { object, name, value } => {
            assert_eq!(name.lexeme, "c");
            assert!(matches!(*object, Expr::Call { .. }));
            assert_eq!(*value, Expr::Literal { value: Literal::Number(num(2.0)) });
        }
        _ => panic!("Expected a property assignment"),
    }
}

#[test]
fn gives_each_variable_reference_its_own_id() {
    let statements = parse("a; a;");
    let ids: Vec<usize> = statements
        .iter()
        .map(|s| match s {
            Stmt::Expression { expression: Expr::Variable { id, .. } } => *id,
            _ => panic!("Expected variable expressions"),
        })
        .collect();
    assert_eq!(ids.len(), 2);
    assert_ne!(ids[0], ids[1]);
}

#[test]
fn a_failed_loop_body_leaves_the_loop_nesting_raised() {
    let (statements, reports) = parse_with_reports("while (true) +; break;");
    assert_eq!(reports, vec!["[line 1] Error at '+': Expect expression.".to_string()]);
    assert_eq!(statements.len(), 1);
    assert!(matches!(statements[0], Stmt::Break));
}
