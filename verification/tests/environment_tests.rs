use lib::environment::Environment;
use lib::token::{Literal, Token, TokenType, Value};

fn name(lexeme: &str) -> Token {
    Token::new(TokenType::Identifier, lexeme.to_string(), None, 1)
}

fn string(s: &str) -> Value {
    Value::Literal(Literal::String(s.to_string()))
}

/// A global scope and a block scope inside it.
fn arena() -> Vec<Environment> {
    let mut environments = vec![Environment::new()];
    environments.push(Environment::from(0));
    environments
}

#[test]
fn get_reads_what_define_bound() {
    let mut environments = arena();
    environments[0].define("a".to_string(), Some(string("one")));
    assert_eq!(Environment::get(&environments, 1, &name("a")).unwrap(), string("one"));
}

#[test]
fn variable_declared_without_value_reads_as_nil() {
    let mut environments = arena();
    environments[0].define("a".to_string(), None);
    assert_eq!(Environment::get(&environments, 0, &name("a")).unwrap(), Value::Literal(Literal::Nil));
}

#[test]
fn get_after_assign_reads_the_assigned_value() {
    let mut environments = arena();
    environments[0].define("a".to_string(), Some(string("one")));
    environments[0].define("b".to_string(), Some(string("other")));
    Environment::assign(&mut environments, 1, &name("a"), string("two")).unwrap();
    assert_eq!(Environment::get(&environments, 1, &name("a")).unwrap(), string("two"));
    assert_eq!(Environment::get(&environments, 1, &name("b")).unwrap(), string("other"));
}

#[test]
fn assigning_an_undefined_variable_fails_and_changes_nothing() {
    let mut environments = arena();
    let error = Environment::assign(&mut environments, 1, &name("missing"), string("x")).unwrap_err();
    assert_eq!(error.message, "Undefined variable 'missing'.");
    let error = Environment::get(&environments, 1, &name("missing")).unwrap_err();
    assert_eq!(error.message, "Undefined variable 'missing'.");
}

#[test]
fn get_at_after_assign_at_reads_the_assigned_slot() {
    let mut environments = arena();
    environments[1].define_local(Some(string("first")));
    environments[1].define_local(None);
    environments.push(Environment::from(1));
    Environment::assign_at(&mut environments, 2, 1, 1, string("second"));
    assert_eq!(Environment::get_at(&environments, 2, 1, 1, &name("b")).unwrap(), string("second"));
    assert_eq!(Environment::get_at(&environments, 2, 1, 0, &name("a")).unwrap(), string("first"));
}

#[test]
fn ancestor_walks_out_through_enclosing_scopes() {
    let mut environments = arena();
    environments.push(Environment::from(1));
    assert_eq!(Environment::ancestor(&environments, 2, 0), 2);
    assert_eq!(Environment::ancestor(&environments, 2, 1), 1);
    assert_eq!(Environment::ancestor(&environments, 2, 2), 0);
    assert_eq!(environments[2].enclosing(), Some(1));
    assert_eq!(environments[0].enclosing(), None);
}

#[test]
fn assign_last_local_replaces_the_newest_slot() {
    let mut environments = arena();
    environments[1].define_local(Some(string("a")));
    environments[1].define_local(Some(string("b")));
    environments[1].assign_last_local(Some(string("c")));
    assert_eq!(Environment::get_at(&environments, 1, 0, 0, &name("x")).unwrap(), string("a"));
    assert_eq!(Environment::get_at(&environments, 1, 0, 1, &name("y")).unwrap(), string("c"));
}

#[test]
fn redefining_a_name_replaces_its_binding() {
    let mut environments = arena();
    environments[0].define("a".to_string(), Some(string("one")));
    environments[0].define("a".to_string(), Some(string("two")));
    assert_eq!(Environment::get(&environments, 0, &name("a")).unwrap(), string("two"));
    assert_eq!(Environment::get(&environments, 1, &name("a")).unwrap(), string("two"));
}

#[test]
fn a_new_scope_finds_what_its_enclosing_scope_finds() {
    let mut environments = arena();
    environments[1].define("inner".to_string(), Some(string("block")));
    environments[0].define("outer".to_string(), Some(string("global")));
    environments.push(Environment::from(1));
    assert_eq!(Environment::get(&environments, 2, &name("inner")).unwrap(), string("block"));
    assert_eq!(Environment::get(&environments, 2, &name("outer")).unwrap(), string("global"));
    assert!(Environment::get(&environments, 2, &name("missing")).is_err());
}
