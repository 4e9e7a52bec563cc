use rlox::lox::ast::environment::Environment;
use rlox::token_type::{Literal, Token, TokenType, Value};

fn name(text: &str) -> Token {
    Token::new(TokenType::IDENTIFIER, text.to_string(), Literal::Nil, 7)
}

fn number(env: &Environment, variable: &str) -> u64 {
    match env.get(&name(variable)) {
        Ok(Value::Number(n)) => n,
        other => panic!("{other:?}"),
    }
}

#[test]
fn a_new_environment_has_one_empty_scope() {
    let env = Environment::new();
    assert_eq!(env.len(), 1);
    assert_eq!(env.current(), 0);
    let err = env.get(&name("x")).unwrap_err();
    assert_eq!(err.message, "undefined variable 'x'");
    assert_eq!(err.token.lexeme, "x");
    assert_eq!(err.token.line, 7);
}

#[test]
fn define_adds_and_overwrites() {
    let mut env = Environment::new();
    env.define(&"x".to_string(), &Value::Number(1));
    env.define(&"y".to_string(), &Value::Number(2));
    assert_eq!(number(&env, "x"), 1);
    assert_eq!(number(&env, "y"), 2);
    env.define(&"x".to_string(), &Value::Number(3));
    assert_eq!(number(&env, "x"), 3);
    assert_eq!(number(&env, "y"), 2);
}

#[test]
fn a_variable_of_an_inner_scope_hides_the_outer_one_until_the_scope_is_left() {
    let mut env = Environment::new();
    env.define(&"x".to_string(), &Value::Number(1));
    env.enter(0);
    assert_eq!(env.current(), 1);
    assert_eq!(number(&env, "x"), 1);
    env.define(&"x".to_string(), &Value::Number(2));
    assert_eq!(number(&env, "x"), 2);
    env.leave(0);
    assert_eq!(env.current(), 0);
    assert_eq!(env.len(), 1);
    assert_eq!(number(&env, "x"), 1);
}

#[test]
fn assignment_fails_on_a_name_that_no_scope_has() {
    let mut env = Environment::new();
    env.enter(0);
    let err = env.assign(&name("x"), &Value::Nil).unwrap_err();
    assert_eq!(err.message, "can't assign to undefined variable 'x'");
    assert_eq!(err.token.lexeme, "x");
    assert!(env.get(&name("x")).is_err());
    env.leave(0);
    assert!(env.get(&name("x")).is_err());
}

#[test]
fn assignment_changes_the_variable_of_the_enclosing_scope() {
    let mut env = Environment::new();
    env.define(&"x".to_string(), &Value::Number(1));
    env.enter(0);
    env.enter(1);
    assert!(env.assign(&name("x"), &Value::Number(5)).unwrap());
    assert_eq!(number(&env, "x"), 5);
    env.leave(1);
    env.leave(0);
    assert_eq!(number(&env, "x"), 5);
    assert_eq!(env.len(), 1);
}

#[test]
fn assignment_changes_the_nearest_variable_of_that_name() {
    let mut env = Environment::new();
    env.define(&"x".to_string(), &Value::Number(1));
    env.enter(0);
    env.define(&"x".to_string(), &Value::Number(2));
    env.enter(1);
    assert!(env.assign(&name("x"), &Value::Number(9)).unwrap());
    env.leave(1);
    assert_eq!(number(&env, "x"), 9);
    env.leave(0);
    assert_eq!(number(&env, "x"), 1);
}

#[test]
fn a_scope_in_which_a_function_was_declared_is_kept() {
    let mut env = Environment::new();
    env.enter(0);
    env.define(&"x".to_string(), &Value::Number(4));
    env.capture();
    env.leave(0);
    assert_eq!(env.len(), 2);
    assert!(env.get(&name("x")).is_err());
    env.enter(1);
    assert_eq!(env.current(), 2);
    assert_eq!(number(&env, "x"), 4);
    env.leave(0);
    assert_eq!(env.len(), 2);
}

#[test]
fn leaving_for_a_scope_that_is_not_before_the_current_one_changes_nothing() {
    let mut env = Environment::new();
    env.enter(0);
    env.leave(1);
    assert_eq!(env.current(), 1);
    env.leave(5);
    assert_eq!(env.current(), 1);
    assert_eq!(env.len(), 2);
}

#[test]
fn values_of_every_kind_are_kept() {
    let mut env = Environment::new();
    env.define(&"s".to_string(), &Value::String("text".to_string()));
    env.define(&"b".to_string(), &Value::Boolean(true));
    env.define(&"n".to_string(), &Value::Nil);
    env.define(&"f".to_string(), &Value::Callable(3));
    assert!(matches!(env.get(&name("s")), Ok(Value::String(s)) if s == "text"));
    assert!(matches!(env.get(&name("b")), Ok(Value::Boolean(true))));
    assert!(matches!(env.get(&name("n")), Ok(Value::Nil)));
    assert!(matches!(env.get(&name("f")), Ok(Value::Callable(3))));
}
