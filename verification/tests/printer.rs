use rlox::lox::ast::printer::Printer;
use rlox::lox::ast::{Assign, Binary, Call, Expr, Grouping, Logical, Unary};
use rlox::token_type::{Literal, Token, TokenType};

fn number(text: &str) -> Expr {
    Expr::Literal(Literal::Number(text.to_string()))
}

#[test]
fn mod_test_ast_printer() {
    let expr = Expr::Binary(Binary {
        operator: Token::new(TokenType::STAR, "*".to_owned(), Literal::Nil, 0),
        left: Box::new(Expr::Unary(Unary {
            operator: Token::new(TokenType::MINUS, "-".to_owned(), Literal::Nil, 0),
            right: Box::new(number("123")),
        })),
        right: Box::new(Expr::Grouping(Grouping(Box::new(number("45.67"))))),
    });
    let mut printer = Printer;
    let out = printer.print(&expr);
    println!("{out}");
    assert!(out == "(* (- 123) (group 45.67))");
}

#[test]
fn printer_test_ast_printer() {
    let expr = Expr::Binary(Binary {
        operator: Token::new(TokenType::STAR, "*".to_owned(), Literal::Nil, 0),
        left: Box::new(Expr::Unary(Unary {
            operator: Token::new(TokenType::MINUS, "-".to_owned(), Literal::Nil, 0),
            right: Box::new(number("123")),
        })),
        right: Box::new(Expr::Grouping(Grouping(Box::new(number("45.67"))))),
    });
    let mut printer = Printer;
    let out = printer.print(&expr);
    println!("{out}");
    assert!(out == "(* (- 123) (group 45.67))")
}

#[test]
fn literals_print_as_their_text() {
    let mut printer = Printer;
    assert_eq!(printer.print(&Expr::Literal(Literal::Nil)), "nil");
    assert_eq!(printer.print(&Expr::Literal(Literal::Boolean(true))), "true");
    assert_eq!(printer.print(&Expr::Literal(Literal::Boolean(false))), "false");
    assert_eq!(
        printer.print(&Expr::Literal(Literal::String("a b".to_string()))),
        "a b"
    );
    assert_eq!(printer.print(&number("1.50")), "1.50");
}

#[test]
fn variables_assignments_and_logic() {
    let x = Token::new(TokenType::IDENTIFIER, "x".to_string(), Literal::Nil, 1);
    let mut printer = Printer;
    assert_eq!(printer.print(&Expr::Variable(x.clone())), "var:x");
    let assign = Expr::Assign(Assign { name: x.clone(), value: Box::new(number("4")) });
    assert_eq!(printer.print(&assign), "(assign= var:x 4)");
    let or = Expr::Logical(Logical {
        operator: Token::new(TokenType::OR, "or".to_string(), Literal::Nil, 1),
        left: Box::new(Expr::Variable(x)),
        right: Box::new(Expr::Literal(Literal::Nil)),
    });
    assert_eq!(printer.print(&or), "(or var:x nil)");
}

#[test]
fn a_call_prints_its_arguments() {
    let paren = Token::new(TokenType::RIGHT_PAREN, ")".to_string(), Literal::Nil, 1);
    let f = Token::new(TokenType::IDENTIFIER, "f".to_string(), Literal::Nil, 1);
    let mut printer = Printer;
    let none = Expr::Call(Call {
        callee: Box::new(Expr::Variable(f.clone())),
        paren: paren.clone(),
        arguments: vec![],
    });
    assert_eq!(printer.print(&none), "(func_call with args)");
    let three = Expr::Call(Call {
        callee: Box::new(Expr::Variable(f)),
        paren,
        arguments: vec![number("1"), number("2"), Expr::Literal(Literal::Nil)],
    });
    assert_eq!(printer.print(&three), "(func_call with args 1 2 nil)");
}
