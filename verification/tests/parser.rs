use rlox::lox::ast::parser::Parser;
use rlox::lox::ast::printer::Printer;
use rlox::lox::ast::{Expr, Stmt};
use rlox::lox::error;
use rlox::scanner::Scanner;
use rlox::token_type::{Literal, Token, TokenType};

fn parser_of(source: &str) -> Parser {
    let mut scanner = Scanner::new(source.to_string());
    Parser::new(scanner.scan_tokens())
}

fn printed(source: &str) -> String {
    let mut parser = parser_of(source);
    let expr = parser.parse_expr().unwrap();
    Printer.print(&expr)
}

fn parse(source: &str) -> (Vec<Stmt>, Vec<String>) {
    let mut parser = parser_of(source);
    let statements = parser.parse();
    let errors = parser.errors().iter().map(|e| e.message.clone()).collect();
    (statements, errors)
}

#[test]
fn parser_test_parser() {
    println!("hi TEST START");
    let my_string = String::from("func(x, y, z)(2);");
    let mut my_scanner = Scanner::new(my_string);
    let tokens = my_scanner.scan_tokens();
    println!("tokens: {tokens:?}");
    let mut my_parser = Parser::new(tokens);
    let expr = my_parser.parse_expr().unwrap();
    println!("expr: {expr:?}");
    let mut printer = Printer;
    let out = printer.print(&expr);
    println!("printed: {out}");
    assert!(3 == 3);
    assert_eq!(out, "(func_call with args 2)");
    match expr {
        Expr::Call(outer) => {
            assert_eq!(outer.arguments.len(), 1);
            assert_eq!(outer.paren.token_type, TokenType::RIGHT_PAREN);
            match *outer.callee {
                Expr::Call(inner) => {
                    assert_eq!(inner.arguments.len(), 3);
                    assert!(matches!(*inner.callee, Expr::Variable(ref t) if t.lexeme == "func"));
                }
                other => panic!("{other:?}"),
            }
        }
        other => panic!("{other:?}"),
    }
}

#[test]
fn factors_bind_tighter_than_terms() {
    assert_eq!(printed("1 + 2 * 3"), "(+ 1 (* 2 3))");
    assert_eq!(printed("1 * 2 + 3"), "(+ (* 1 2) 3)");
    assert_eq!(printed("(1 + 2) * 3"), "(* (group (+ 1 2)) 3)");
}

#[test]
fn binary_operators_group_to_the_left() {
    assert_eq!(printed("1 - 2 - 3"), "(- (- 1 2) 3)");
    assert_eq!(printed("8 / 4 / 2"), "(/ (/ 8 4) 2)");
    assert_eq!(printed("1 < 2 == true"), "(== (< 1 2) true)");
    assert_eq!(printed("a or b or c"), "(or (or var:a var:b) var:c)");
}

#[test]
fn the_levels_from_or_down_to_unary() {
    assert_eq!(
        printed("a or b and c == d < e + f * -g"),
        "(or var:a (and var:b (== var:c (< var:d (+ var:e (* var:f (- var:g)))))))"
    );
    assert_eq!(printed("!!x"), "(! (! var:x))");
    assert_eq!(printed("1 >= 2 != 3 <= 4"), "(!= (>= 1 2) (<= 3 4))");
}

#[test]
fn assignment_groups_to_the_right() {
    assert_eq!(printed("a = b = 3"), "(assign= var:a (assign= var:b 3))");
    assert_eq!(printed("a = 1 or 2"), "(assign= var:a (or 1 2))");
}

#[test]
fn only_a_variable_can_be_assigned_to() {
    let mut parser = parser_of("1 = 2;");
    assert!(parser.parse_expr().is_none());
    let (statements, errors) = parse("a + b = 2; print 1;");
    assert_eq!(statements.len(), 1);
    assert_eq!(errors, vec!["Invalid assignment target.".to_string()]);
}

#[test]
fn literals_and_strings() {
    assert_eq!(printed("\"hi\" + \"there\""), "(+ hi there)");
    assert_eq!(printed("nil"), "nil");
    assert_eq!(printed("true"), "true");
    assert_eq!(printed("false"), "false");
    assert_eq!(printed("12.5"), "12.5");
}

#[test]
fn what_is_no_expression_gives_none() {
    assert!(parser_of("").parse_expr().is_none());
    assert!(parser_of("+").parse_expr().is_none());
    assert!(parser_of("(1").parse_expr().is_none());
    assert!(parser_of("f(1").parse_expr().is_none());
    assert!(parser_of("1 +").parse_expr().is_none());
}

#[test]
fn one_bad_statement_and_one_good_one() {
    let mut parser = parser_of("print ; print 1;");
    let statements = parser.parse();
    assert_eq!(parser.errors().len(), 1);
    assert_eq!(parser.errors()[0].message, "primary unable to match");
    assert_eq!(parser.errors()[0].token.token_type, TokenType::SEMICOLON);
    assert_eq!(statements.len(), 1);
    assert!(matches!(&statements[0], Stmt::Print(Expr::Literal(Literal::Number(n))) if n == "1"));
}

#[test]
fn recovery_stops_at_a_keyword_that_starts_a_statement() {
    let (statements, errors) = parse("1 + * 2 3 var x = 1; (; print x;");
    assert_eq!(errors.len(), 2);
    assert_eq!(statements.len(), 2);
    assert!(matches!(&statements[0], Stmt::Var(v) if v.name.lexeme == "x"));
    assert!(matches!(&statements[1], Stmt::Print(_)));
}

#[test]
fn an_error_at_the_end_of_the_tokens() {
    let (statements, errors) = parse("print 1");
    assert!(statements.is_empty());
    assert_eq!(errors, vec!["Expected ';' after value".to_string()]);
    let (statements, errors) = parse("print 1; {");
    assert_eq!(statements.len(), 1);
    assert_eq!(errors, vec!["Expected '}' after block".to_string()]);
}

#[test]
fn an_empty_program() {
    let (statements, errors) = parse("");
    assert!(statements.is_empty());
    assert!(errors.is_empty());
}

#[test]
fn a_variable_without_initializer_starts_as_nil() {
    let (statements, errors) = parse("var x; var y = 2;");
    assert!(errors.is_empty());
    assert_eq!(statements.len(), 2);
    match &statements[0] {
        Stmt::Var(v) => {
            assert_eq!(v.name.lexeme, "x");
            assert!(matches!(v.initializer, Expr::Literal(Literal::Nil)));
        }
        other => panic!("{other:?}"),
    }
    assert!(matches!(&statements[1], Stmt::Var(v) if v.name.lexeme == "y"));
    let (_, errors) = parse("var 1;");
    assert_eq!(errors, vec!["expected IDENTIFIER in var declaration".to_string()]);
}

#[test]
fn blocks_nest() {
    let (statements, errors) = parse("{ var x = 1; { print x; } }");
    assert!(errors.is_empty());
    assert_eq!(statements.len(), 1);
    match &statements[0] {
        Stmt::Block(outer) => {
            assert_eq!(outer.len(), 2);
            assert!(matches!(&outer[1], Stmt::Block(inner) if inner.len() == 1));
        }
        other => panic!("{other:?}"),
    }
}

#[test]
fn if_with_and_without_else() {
    let (statements, errors) = parse("if (a) print 1; else print 2; if (b) {}");
    assert!(errors.is_empty());
    assert_eq!(statements.len(), 2);
    assert!(matches!(&statements[0], Stmt::If(i) if i.else_branch.is_some()));
    assert!(matches!(&statements[1], Stmt::If(i) if i.else_branch.is_none()));
    let (_, errors) = parse("if a) print 1;");
    assert_eq!(errors[0], "Expect '(' after IF");
    let (_, errors) = parse("if (a print 1;");
    assert_eq!(errors[0], "Expected ')' closing IF condition");
}

#[test]
fn an_else_belongs_to_the_nearest_if() {
    let (statements, _) = parse("if (a) if (b) print 1; else print 2;");
    match &statements[0] {
        Stmt::If(outer) => {
            assert!(outer.else_branch.is_none());
            assert!(matches!(&*outer.if_branch, Stmt::If(inner) if inner.else_branch.is_some()));
        }
        other => panic!("{other:?}"),
    }
}

#[test]
fn while_loops_parse() {
    let (statements, errors) = parse("while (x < 3) x = x + 1;");
    assert!(errors.is_empty());
    match &statements[0] {
        Stmt::While(w) => {
            assert_eq!(Printer.print(&w.condition), "(< var:x 3)");
            assert!(matches!(&*w.body, Stmt::Expression(_)));
        }
        other => panic!("{other:?}"),
    }
    let (_, errors) = parse("while x) print 1;");
    assert_eq!(errors[0], "Expect '(' after WHILE");
}

#[test]
fn a_for_loop_is_written_with_while() {
    let (statements, errors) = parse("for (var i = 0; i < 3; i = i + 1) print i;");
    assert!(errors.is_empty());
    assert_eq!(statements.len(), 1);
    match &statements[0] {
        Stmt::Block(parts) => {
            assert_eq!(parts.len(), 2);
            assert!(matches!(&parts[0], Stmt::Var(v) if v.name.lexeme == "i"));
            match &parts[1] {
                Stmt::While(w) => {
                    assert_eq!(Printer.print(&w.condition), "(< var:i 3)");
                    match &*w.body {
                        Stmt::Block(body) => {
                            assert_eq!(body.len(), 2);
                            assert!(matches!(&body[0], Stmt::Print(_)));
                            match &body[1] {
                                Stmt::Expression(e) => {
                                    assert_eq!(Printer.print(e), "(assign= var:i (+ var:i 1))")
                                }
                                other => panic!("{other:?}"),
                            }
                        }
                        other => panic!("{other:?}"),
                    }
                }
                other => panic!("{other:?}"),
            }
        }
        other => panic!("{other:?}"),
    }
}

#[test]
fn a_for_loop_without_clauses_runs_while_true() {
    let (statements, errors) = parse("for (;;) print 1;");
    assert!(errors.is_empty());
    match &statements[0] {
        Stmt::While(w) => {
            assert!(matches!(w.condition, Expr::Literal(Literal::Boolean(true))));
            assert!(matches!(&*w.body, Stmt::Print(_)));
        }
        other => panic!("{other:?}"),
    }
    let (statements, errors) = parse("for (i = 0;;) print 1;");
    assert!(errors.is_empty());
    assert!(matches!(&statements[0], Stmt::Block(parts) if parts.len() == 2));
    let (_, errors) = parse("for (;; print 1;");
    assert_eq!(errors.len(), 1);
    let (_, errors) = parse("for (var i = 0; i < 3) print i;");
    assert_eq!(errors[0], "Expected ';' before increment in FOR");
}

#[test]
fn function_declarations() {
    let (statements, errors) = parse("fun add(a, b) { print a + b; } fun f() {}");
    assert!(errors.is_empty());
    assert_eq!(statements.len(), 2);
    match &statements[0] {
        Stmt::Func(f) => {
            assert_eq!(f.name.lexeme, "add");
            assert_eq!(f.parameters.len(), 2);
            assert_eq!(f.parameters[1].lexeme, "b");
            assert_eq!(f.body.len(), 1);
        }
        other => panic!("{other:?}"),
    }
    assert!(matches!(&statements[1], Stmt::Func(f) if f.parameters.is_empty() && f.body.is_empty()));
    let (_, errors) = parse("fun (a) {}");
    assert_eq!(errors[0], "fun declaration lacking identifier");
    let (_, errors) = parse("fun f a) {}");
    assert_eq!(errors[0], "expect '(' after func identifier decl");
    let (_, errors) = parse("fun f(1) {}");
    assert_eq!(errors[0], "expected IDENTIFIER arg, got something else");
    let (_, errors) = parse("fun f() print 1;");
    assert_eq!(errors[0], "Expected opening brace for func body");
}

fn call_with(arguments: usize) -> String {
    let list: Vec<String> = (0..arguments).map(|i| i.to_string()).collect();
    format!("f({});", list.join(", "))
}

#[test]
fn a_call_takes_up_to_255_arguments() {
    let (statements, errors) = parse(&call_with(255));
    assert!(errors.is_empty());
    match &statements[0] {
        Stmt::Expression(Expr::Call(c)) => assert_eq!(c.arguments.len(), 255),
        other => panic!("{other:?}"),
    }
    let (statements, errors) = parse(&format!("{} print 1;", call_with(256)));
    assert_eq!(errors, vec!["too many arguments".to_string()]);
    assert_eq!(statements.len(), 1);
}

#[test]
fn a_function_takes_up_to_255_parameters() {
    let names: Vec<String> = (0..255).map(|i| format!("p{i}")).collect();
    let (statements, errors) = parse(&format!("fun f({}) {{}}", names.join(", ")));
    assert!(errors.is_empty());
    assert!(matches!(&statements[0], Stmt::Func(f) if f.parameters.len() == 255));
    let names: Vec<String> = (0..256).map(|i| format!("p{i}")).collect();
    let (statements, errors) = parse(&format!("fun f({}) {{}}", names.join(", ")));
    assert!(statements.is_empty() || errors.len() >= 1);
    assert_eq!(errors[0], "too many arguments");
}

#[test]
fn commas_between_arguments_may_be_left_out() {
    assert_eq!(printed("f(1 2)"), "(func_call with args 1 2)");
    assert_eq!(printed("f(1, 2,)"), "(func_call with args 1 2)");
}

#[test]
fn the_report_of_a_parse_error() {
    let token = Token::new(TokenType::SEMICOLON, ";".to_string(), Literal::Nil, 3);
    assert_eq!(
        error(&token, "primary unable to match"),
        "ParseError: [line 3] at ';' primary unable to match"
    );
    let end = Token::new(TokenType::EOF, String::new(), Literal::Nil, 12);
    assert_eq!(
        error(&end, "Expected ';' after value"),
        "ParseError: [line 12] at end Expected ';' after value"
    );
}

#[test]
fn every_missing_token_has_its_message() {
    let cases = [
        ("(1;", "Expect ')' after expression."),
        ("1 + 2", "Expected ';' after expression"),
        ("while (true print 1;", "Expected ')' closing WHILE condition"),
        ("for var", "Expect '(' after FOR"),
        ("for (;; 1 print 1;", "Expected final ')' in FOR"),
        ("var x = 1", "Expected ';' after value"),
        ("var x", "Expected ';' after value"),
        ("print", "primary unable to match"),
        ("{ print 1;", "Expected '}' after block"),
        ("1 = 2;", "Invalid assignment target."),
    ];
    for (source, message) in cases {
        let (statements, errors) = parse(source);
        assert!(statements.is_empty(), "{source}");
        assert_eq!(errors, vec![message.to_string()], "{source}");
    }
}

#[test]
fn an_error_names_the_token_it_was_met_at() {
    let mut parser = parser_of("var x = 1\nprint x;");
    let statements = parser.parse();
    assert!(statements.is_empty());
    assert_eq!(parser.errors().len(), 1);
    assert_eq!(parser.errors()[0].token.token_type, TokenType::PRINT);
    assert_eq!(parser.errors()[0].token.line, 2);
    assert_eq!(
        error(&parser.errors()[0].token, &parser.errors()[0].message),
        "ParseError: [line 2] at 'print' Expected ';' after value"
    );
}
