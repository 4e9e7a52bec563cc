use rlox::lox::ast::interpreter;
use rlox::lox::ast::interpreter::{
    binary_operation, unary_operation, BinaryStep, Interp, RuntimeError,
};
use rlox::lox::ast::machine::{Reply, Request};
use rlox::lox::ast::parser::Parser;
use rlox::lox::ast::printer::Printer;
use rlox::lox::ast::{Binary, Call, Expr, Stmt};
use rlox::scanner::Scanner;
use rlox::token_type::{is_equal, is_truthy, Literal, Token, TokenType, Value};
use rlox::{error, report, runtime_error};

fn bits(x: f64) -> u64 {
    x.to_bits()
}

fn number(x: f64) -> Value {
    Value::Number(x.to_bits())
}

/// Does what the interpreter asks until nothing is left to run; gives the
/// lines printed and the errors reported.
fn drive(interp: &mut Interp) -> (Vec<String>, Vec<RuntimeError>) {
    let mut printed = Vec::new();
    let mut errors = Vec::new();
    let mut reply = Reply::Nothing;
    loop {
        let request = interp.step(reply);
        reply = Reply::Nothing;
        match request {
            Request::Continue => {}
            Request::Parse(text) => {
                reply = Reply::Number(text.parse::<f64>().unwrap().to_bits());
            }
            Request::Calculate(operator, a, b) => {
                let (a, b) = (f64::from_bits(a), f64::from_bits(b));
                let result = match operator {
                    TokenType::MINUS => a - b,
                    TokenType::SLASH => a / b,
                    TokenType::STAR => a * b,
                    TokenType::PLUS => a + b,
                    other => panic!("{other:?}"),
                };
                reply = Reply::Number(result.to_bits());
            }
            Request::Format(n) => {
                reply = Reply::Text(format!("{}", f64::from_bits(n)));
            }
            Request::Clock => {
                reply = Reply::Number(bits(1234.5));
            }
            Request::Print(line) => printed.push(line),
            Request::Report(e) => errors.push(e),
            Request::Finished => return (printed, errors),
        }
    }
}

fn parse(source: &str) -> Vec<Stmt> {
    let mut scanner = Scanner::new(source.to_string());
    let tokens = scanner.scan_tokens();
    assert!(scanner.errors().is_empty());
    let mut parser = Parser::new(tokens);
    let statements = parser.parse();
    assert!(parser.errors().is_empty(), "{:?}", parser.errors());
    statements
}

fn run(source: &str) -> (Vec<String>, Vec<String>) {
    let mut interp = Interp::new();
    assert!(interp.interpret_stmts(&parse(source)));
    let (printed, errors) = drive(&mut interp);
    assert_eq!(interp.had_runtime_error(), !errors.is_empty());
    assert!(interp.is_idle());
    (printed, errors.into_iter().map(|e| e.message).collect())
}

fn output(source: &str) -> Vec<String> {
    let (printed, errors) = run(source);
    assert!(errors.is_empty(), "{errors:?}");
    printed
}

fn value_of(source: &str) -> Result<Value, String> {
    let mut scanner = Scanner::new(source.to_string());
    let mut parser = Parser::new(scanner.scan_tokens());
    let expr = parser.parse_expr().unwrap();
    let mut interp = Interp::new();
    assert!(interp.evaluate(&expr));
    let (_, errors) = drive(&mut interp);
    match interp.value() {
        Some(v) => Ok(v),
        None => Err(errors[0].message.clone()),
    }
}

fn number_of(source: &str) -> f64 {
    match value_of(source) {
        Ok(Value::Number(n)) => f64::from_bits(n),
        other => panic!("{other:?}"),
    }
}

fn truth_of(source: &str) -> bool {
    match value_of(source) {
        Ok(Value::Boolean(b)) => b,
        other => panic!("{other:?}"),
    }
}

#[test]
fn interpreter_test_parser2() {
    println!("hi TEST START");
    let temp = Token::new(TokenType::NUMBER, "4".to_string(), Literal::Number("4".to_string()), 0);
    println!("asdf {:?}", temp.literal.val());
    let mut my_interpreter = Interp::new();
    let my_string = String::from("print 2*3; var x = 3; print x;");
    let mut my_scanner = Scanner::new(my_string.clone());
    let tokens = my_scanner.scan_tokens();
    println!("tokens: {tokens:?}");
    let mut my_parser = Parser::new(tokens);
    let stmts = my_parser.parse();
    for stmt in &stmts {
        println!("stmt: {stmt:?}");
    }
    assert!(my_interpreter.interpret_stmts(&stmts));
    let (printed, errors) = drive(&mut my_interpreter);
    assert_eq!(printed, vec!["6".to_string(), "3".to_string()]);
    assert!(errors.is_empty());
}

#[test]
fn interpreter_old_test_parser2() {
    println!("hi TEST START");
    let temp = Token::new(TokenType::NUMBER, "4".to_string(), Literal::Number("4".to_string()), 0);
    println!("asdf {:?}", temp.literal.val());
    let my_string = String::from("(2 + 3) * 4");
    let mut my_scanner = Scanner::new(my_string);
    let tokens = my_scanner.scan_tokens();
    println!("tokens: {tokens:?}");
    let mut my_parser = Parser::new(tokens);
    let expr = my_parser.parse_expr().unwrap();
    println!("expr: {expr:?}");
    let mut printer = Printer;
    let out = printer.print(&expr);
    println!("printed: {out}");
    assert_eq!(out, "(* (group (+ 2 3)) 4)");
    let mut my_interpreter = Interp::new();
    assert!(my_interpreter.evaluate(&expr));
    drive(&mut my_interpreter);
    let out = my_interpreter.value().unwrap();
    println!("interpreted: {}", interpreter::stringify(&out, "20"));
    println!("is truthy: {:?}", is_truthy(&out));
    assert!(matches!(out, Value::Number(n) if f64::from_bits(n) == 20.0));
    assert!(is_truthy(&out));
}

#[test]
fn printing_and_variables() {
    assert_eq!(output("print 2*3; var x = 3; print x;"), vec!["6", "3"]);
}

#[test]
fn a_shadow_reads_the_outer_variable_before_it_hides_it() {
    assert_eq!(
        output("var x = 3; { var x = x + 1; print x; } print x;"),
        vec!["4", "3"]
    );
}

#[test]
fn strings_are_joined_by_plus() {
    assert_eq!(output("print \"a\" + \"b\";"), vec!["ab"]);
    assert!(matches!(value_of("\"a\" + \"b\""), Ok(Value::String(s)) if s == "ab"));
}

#[test]
fn a_number_and_a_string_are_not_added() {
    let (printed, errors) = run("print 1 + \"2\";");
    assert!(printed.is_empty());
    assert_eq!(errors, vec!["no valid operator for operand types."]);
    let (_, errors) = run("print \"1\" + 2;");
    assert_eq!(errors, vec!["no valid operator for operand types."]);
    let (_, errors) = run("print nil + nil;");
    assert_eq!(errors, vec!["no valid operator for operand types."]);
    let (_, errors) = run("print \"a\" - \"b\";");
    assert_eq!(errors, vec!["Unexpected binary operator for strings"]);
    let (_, errors) = run("print \"a\" < \"b\";");
    assert_eq!(errors, vec!["Unexpected binary operator for strings"]);
}

#[test]
fn a_for_loop_counts() {
    assert_eq!(
        output("for (var i = 0; i < 3; i = i + 1) print i;"),
        vec!["0", "1", "2"]
    );
}

#[test]
fn arithmetic_is_that_of_doubles() {
    assert_eq!(number_of("1 + 2 * 3"), 7.0);
    assert_eq!(number_of("(1 + 2) * 3"), 9.0);
    assert_eq!(number_of("7 / 2"), 3.5);
    assert_eq!(number_of("0.1 + 0.2"), 0.1 + 0.2);
    assert_eq!(number_of("1 - 2 - 3"), -4.0);
    assert_eq!(number_of("-3"), -3.0);
    assert_eq!(number_of("--3"), 3.0);
    assert_eq!(number_of("1 / 0"), f64::INFINITY);
    assert_eq!(number_of("-1 / 0"), f64::NEG_INFINITY);
    assert!(number_of("0 / 0").is_nan());
    assert_eq!(output("print 1 / 0; print 0 / 0 == 0 / 0;"), vec!["inf", "false"]);
}

#[test]
fn comparisons() {
    assert!(truth_of("1 < 2"));
    assert!(!truth_of("2 < 1"));
    assert!(truth_of("2 <= 2"));
    assert!(truth_of("3 > 2"));
    assert!(!truth_of("2 > 2"));
    assert!(truth_of("2 >= 2"));
    assert!(truth_of("-1 < 0"));
    assert!(!truth_of("0 / 0 < 1"));
    assert!(!truth_of("0 / 0 >= 1"));
    assert!(matches!(value_of("1 < \"a\""), Err(m) if m == "no valid operator for operand types."));
}

#[test]
fn equality_of_values() {
    assert!(truth_of("nil == nil"));
    assert!(truth_of("1 == 1"));
    assert!(!truth_of("1 == 2"));
    assert!(truth_of("\"a\" == \"a\""));
    assert!(!truth_of("\"a\" == \"b\""));
    assert!(truth_of("true == true"));
    assert!(!truth_of("true == false"));
    assert!(!truth_of("1 == \"1\""));
    assert!(!truth_of("nil == false"));
    assert!(!truth_of("0 == false"));
    assert!(truth_of("1 != \"1\""));
    assert!(!truth_of("nil != nil"));
    assert!(truth_of("0 == -0"));
}

#[test]
fn equality_is_symmetric_and_reflexive_but_for_nan() {
    let values = vec![
        Value::Nil,
        Value::Boolean(true),
        Value::Boolean(false),
        number(0.0),
        number(-0.0),
        number(1.5),
        number(f64::NAN),
        Value::String(String::new()),
        Value::String("a".to_string()),
        Value::Callable(0),
        Value::Callable(1),
    ];
    for a in &values {
        let is_nan = matches!(a, Value::Number(n) if f64::from_bits(*n).is_nan());
        assert_eq!(is_equal(a, a), !is_nan, "{a:?}");
        for b in &values {
            assert_eq!(is_equal(a, b), is_equal(b, a), "{a:?} {b:?}");
        }
    }
    assert!(is_equal(&Value::Nil, &Value::Nil));
    assert!(!is_equal(&Value::Nil, &Value::Boolean(false)));
    assert!(!is_equal(&number(0.0), &Value::String("0".to_string())));
    assert!(!is_equal(&Value::Callable(0), &number(0.0)));
}

#[test]
fn nil_and_false_are_falsy_and_all_else_is_truthy() {
    assert!(!is_truthy(&Value::Nil));
    assert!(!is_truthy(&Value::Boolean(false)));
    assert!(is_truthy(&Value::Boolean(true)));
    assert!(is_truthy(&number(0.0)));
    assert!(is_truthy(&Value::String(String::new())));
    assert!(is_truthy(&Value::Callable(0)));
    assert!(truth_of("!nil"));
    assert!(truth_of("!false"));
    assert!(!truth_of("!0"));
    assert!(!truth_of("!\"\""));
    assert!(truth_of("!!1"));
}

#[test]
fn unary_minus_takes_a_number() {
    assert!(matches!(value_of("-\"a\""), Err(m) if m == "operand must be a number"));
    assert!(matches!(value_of("-nil"), Err(m) if m == "operand must be a number"));
    assert!(matches!(unary_operation(TokenType::MINUS, &number(2.0)), Ok(Value::Number(n)) if n == bits(-2.0)));
    assert!(matches!(unary_operation(TokenType::BANG, &Value::Nil), Ok(Value::Boolean(true))));
    assert!(matches!(unary_operation(TokenType::PLUS, &Value::Nil), Err(m) if m == "Unexpected unary operator"));
}

#[test]
fn what_a_binary_operator_makes_of_its_operands() {
    assert!(matches!(
        binary_operation(TokenType::PLUS, number(1.0), number(2.0)),
        BinaryStep::Calculate(TokenType::PLUS, a, b) if a == bits(1.0) && b == bits(2.0)
    ));
    assert!(matches!(
        binary_operation(TokenType::SLASH, number(1.0), number(0.0)),
        BinaryStep::Calculate(TokenType::SLASH, _, _)
    ));
    assert!(matches!(
        binary_operation(TokenType::LESS, number(1.0), number(2.0)),
        BinaryStep::Value(Value::Boolean(true))
    ));
    assert!(matches!(
        binary_operation(TokenType::GREATER, number(1.0), number(2.0)),
        BinaryStep::Value(Value::Boolean(false))
    ));
    assert!(matches!(
        binary_operation(TokenType::AND, number(1.0), number(2.0)),
        BinaryStep::Error(m) if m == "Unexpected binary operator for numbers"
    ));
    assert!(matches!(
        binary_operation(TokenType::PLUS, Value::String("x".to_string()), Value::String("y".to_string())),
        BinaryStep::Value(Value::String(s)) if s == "xy"
    ));
    assert!(matches!(
        binary_operation(TokenType::EQUAL_EQUAL, Value::Nil, number(2.0)),
        BinaryStep::Value(Value::Boolean(false))
    ));
    assert!(matches!(
        binary_operation(TokenType::BANG_EQUAL, Value::Nil, number(2.0)),
        BinaryStep::Value(Value::Boolean(true))
    ));
}

#[test]
fn logical_operators_give_an_operand_and_may_skip_the_right_one() {
    assert!(matches!(value_of("nil or 2"), Ok(Value::Number(n)) if n == bits(2.0)));
    assert!(matches!(value_of("1 or 2"), Ok(Value::Number(n)) if n == bits(1.0)));
    assert!(matches!(value_of("nil and 2"), Ok(Value::Nil)));
    assert!(matches!(value_of("1 and 2"), Ok(Value::Number(n)) if n == bits(2.0)));
    assert!(matches!(value_of("false and missing"), Ok(Value::Boolean(false))));
    assert!(matches!(value_of("true or missing"), Ok(Value::Boolean(true))));
    assert!(matches!(value_of("true and missing"), Err(m) if m == "undefined variable 'missing'"));
    assert_eq!(output("var x = 1; true or (x = 2); print x;"), vec!["1"]);
}

#[test]
fn variables_and_assignment() {
    assert_eq!(output("var x; print x; x = 2; print x;"), vec!["nil", "2"]);
    assert_eq!(output("var x = 1; var y = x = 5; print x; print y;"), vec!["5", "5"]);
    assert_eq!(output("var x = 1; var x = 2; print x;"), vec!["2"]);
    let (printed, errors) = run("print y;");
    assert!(printed.is_empty());
    assert_eq!(errors, vec!["undefined variable 'y'"]);
    let (_, errors) = run("y = 1;");
    assert_eq!(errors, vec!["can't assign to undefined variable 'y'"]);
    let (_, errors) = run("{ y = 1; }");
    assert_eq!(errors, vec!["can't assign to undefined variable 'y'"]);
}

#[test]
fn assignment_in_a_block_changes_the_outer_variable() {
    assert_eq!(output("var x = 1; { x = 2; } print x;"), vec!["2"]);
    assert_eq!(output("var x = 1; { { x = x + 1; } print x; } print x;"), vec!["2", "2"]);
    assert_eq!(output("var x = 1; { var x = 5; x = 6; print x; } print x;"), vec!["6", "1"]);
}

#[test]
fn a_runtime_error_ends_its_statement_and_the_next_one_runs() {
    let (printed, errors) = run("print 1; print -nil; print 2;");
    assert_eq!(printed, vec!["1", "2"]);
    assert_eq!(errors, vec!["operand must be a number"]);
}

#[test]
fn a_runtime_error_in_a_block_gives_the_scope_back() {
    let (printed, errors) =
        run("var x = 1; { var x = 2; { var x = 3; print x + nil; } print x; } print x;");
    assert_eq!(printed, vec!["1"]);
    assert_eq!(errors, vec!["no valid operator for operand types."]);
    let (printed, errors) = run("var x = 1; while (true) { var x = 2; missing; } print x;");
    assert_eq!(printed, vec!["1"]);
    assert_eq!(errors, vec!["undefined variable 'missing'"]);
}

#[test]
fn the_error_carries_the_token() {
    let mut interp = Interp::new();
    assert!(interp.interpret_stmts(&parse("var a = 1;\nprint a +\n nil;")));
    let (_, errors) = drive(&mut interp);
    assert_eq!(errors.len(), 1);
    assert_eq!(errors[0].token.token_type, TokenType::PLUS);
    assert_eq!(errors[0].token.line, 2);
    assert_eq!(
        runtime_error(&errors[0]),
        "no valid operator for operand types.\n[line 2]"
    );
    assert!(interp.had_runtime_error());
}

#[test]
fn if_and_else() {
    assert_eq!(output("if (1 < 2) print 1; else print 2;"), vec!["1"]);
    assert_eq!(output("if (1 > 2) print 1; else print 2;"), vec!["2"]);
    assert_eq!(output("if (nil) print 1; print 3;"), vec!["3"]);
    assert_eq!(output("if (0) print 1;"), vec!["1"]);
    assert_eq!(output("if (\"\") { print 1; print 2; }"), vec!["1", "2"]);
}

#[test]
fn while_loops() {
    assert_eq!(
        output("var i = 0; while (i < 3) { print i; i = i + 1; } print i;"),
        vec!["0", "1", "2", "3"]
    );
    assert_eq!(output("while (false) print 1; print 2;"), vec!["2"]);
    let (printed, errors) = run("var i = 0; while (i < 3) { i = i + 1; print i + nil; } print i;");
    assert_eq!(printed, vec!["1"]);
    assert_eq!(errors.len(), 1);
    let (printed, errors) = run("while (-nil) print 1; print 2;");
    assert_eq!(printed, vec!["2"]);
    assert_eq!(errors, vec!["operand must be a number"]);
}

#[test]
fn nested_loops_and_a_variable_of_each_turn() {
    assert_eq!(
        output(
            "for (var i = 0; i < 2; i = i + 1) { for (var j = 0; j < 2; j = j + 1) { var k = i * 10 + j; print k; } }"
        ),
        vec!["0", "1", "10", "11"]
    );
}

#[test]
fn functions_run_their_body_and_give_nil() {
    assert_eq!(
        output("fun hi(a, b) { print a + b; } print hi(1, 2); hi(\"x\", \"y\");"),
        vec!["3", "nil", "xy"]
    );
    assert_eq!(output("fun f() {} print f;"), vec!["<fn>"]);
    assert_eq!(output("fun f() { print 1; } var g = f; g();"), vec!["1"]);
}

#[test]
fn arguments_are_evaluated_from_left_to_right() {
    assert_eq!(
        output("var x = 0; fun f(a, b, c) { print a; print b; print c; } f(x = x + 1, x = x + 1, x = x + 1);"),
        vec!["1", "2", "3"]
    );
}

#[test]
fn a_function_sees_the_scope_of_its_declaration() {
    assert_eq!(
        output("var x = \"global\"; fun show() { print x; } { var x = \"local\"; show(); }"),
        vec!["global"]
    );
    assert_eq!(
        output("var x = 1; fun set() { x = 2; } { var x = 5; set(); print x; } print x;"),
        vec!["5", "2"]
    );
    assert_eq!(
        output("fun call(k) { k(); } { var x = 1; fun g() { print x; } call(g); }"),
        vec!["1"]
    );
    assert_eq!(
        output("var f; { var x = 1; fun g() { print x; x = x + 1; } f = g; } { var x = 10; f(); f(); }"),
        vec!["1", "2"]
    );
}

#[test]
fn a_function_can_call_itself() {
    assert_eq!(
        output("fun count(n) { if (n > 0) { print n; count(n - 1); } } count(3);"),
        vec!["3", "2", "1"]
    );
}

#[test]
fn parameters_are_variables_of_the_call() {
    assert_eq!(
        output("var a = 1; fun f(a) { a = a + 1; print a; } f(10); print a;"),
        vec!["11", "1"]
    );
    let (printed, errors) = run("fun f(a) { print a; } f(1); print a;");
    assert_eq!(printed, vec!["1"]);
    assert_eq!(errors, vec!["undefined variable 'a'"]);
}

#[test]
fn a_call_with_the_wrong_number_of_arguments() {
    let (printed, errors) = run("fun f(a, b) { print a; } f(1); print 2;");
    assert_eq!(printed, vec!["2"]);
    assert_eq!(errors, vec!["Arity mismatch: func wants: 2, # args given: 1"]);
    let (_, errors) = run("fun f() {} f(1, 2, 3);");
    assert_eq!(errors, vec!["Arity mismatch: func wants: 0, # args given: 3"]);
    let (_, errors) = run("clock(1);");
    assert_eq!(errors, vec!["Arity mismatch: func wants: 0, # args given: 1"]);
}

#[test]
fn only_what_is_callable_can_be_called() {
    let (_, errors) = run("var x = 1; x();");
    assert_eq!(errors, vec!["Can only call functions."]);
    let (_, errors) = run("\"text\"(1);");
    assert_eq!(errors, vec!["Can only call functions."]);
    let (_, errors) = run("nil();");
    assert_eq!(errors, vec!["Can only call functions."]);
}

#[test]
fn a_runtime_error_in_a_function_ends_the_statement_of_the_call() {
    let (printed, errors) =
        run("var x = 1; fun f() { var x = 2; print x; print -nil; print 3; } { var x = 4; f(); print x; } print x;");
    assert_eq!(printed, vec!["2", "1"]);
    assert_eq!(errors, vec!["operand must be a number"]);
}

#[test]
fn the_clock_is_asked_of_the_host() {
    assert_eq!(output("print clock();"), vec!["1234.5"]);
    assert_eq!(output("print clock() + 1;"), vec!["1235.5"]);
}

#[test]
fn the_text_of_values() {
    assert_eq!(interpreter::stringify(&Value::Nil, ""), "nil");
    assert_eq!(interpreter::stringify(&Value::Boolean(true), "x"), "true");
    assert_eq!(interpreter::stringify(&Value::Boolean(false), ""), "false");
    assert_eq!(interpreter::stringify(&Value::String("a \"b\"".to_string()), ""), "a \"b\"");
    assert_eq!(interpreter::stringify(&Value::Callable(2), ""), "<fn>");
    assert_eq!(interpreter::stringify(&number(6.0), "6"), "6");
    assert_eq!(interpreter::stringify(&number(6.0), "6.0"), "6");
    assert_eq!(interpreter::stringify(&number(-6.0), "-6.0"), "-6");
    assert_eq!(interpreter::stringify(&number(6.5), "6.5"), "6.5");
    assert_eq!(interpreter::stringify(&number(6.0), "6.00"), "6.00");
    assert_eq!(interpreter::stringify(&number(1e21), "1e21.0"), "1e21.0");
    assert_eq!(interpreter::stringify(&number(0.0), ".0"), ".0");
    assert_eq!(interpreter::stringify(&number(0.0), "-.0"), "-.0");
    assert_eq!(interpreter::stringify(&number(10.0), "10.0"), "10");
    assert_eq!(interpreter::stringify(&number(f64::INFINITY), "inf"), "inf");
}

#[test]
fn printed_numbers() {
    assert_eq!(
        output("print 1.5; print 2.0; print 100; print -0.25; print 1/3;"),
        vec!["1.5", "2", "100", "-0.25", "0.3333333333333333"]
    );
}

#[test]
fn an_expression_is_printed_by_interpret() {
    let mut scanner = Scanner::new("1 + 2".to_string());
    let mut parser = Parser::new(scanner.scan_tokens());
    let expr = parser.parse_expr().unwrap();
    let mut interp = Interp::new();
    assert!(interp.interpret(&expr));
    let (printed, errors) = drive(&mut interp);
    assert_eq!(printed, vec!["3"]);
    assert!(errors.is_empty());
    let mut scanner = Scanner::new("1 + nil".to_string());
    let mut parser = Parser::new(scanner.scan_tokens());
    let expr = parser.parse_expr().unwrap();
    assert!(interp.interpret(&expr));
    let (printed, errors) = drive(&mut interp);
    assert!(printed.is_empty());
    assert_eq!(errors.len(), 1);
    assert!(interp.had_runtime_error());
}

#[test]
fn globals_stay_from_one_program_to_the_next() {
    let mut interp = Interp::new();
    assert!(interp.interpret_stmts(&parse("var x = 1; fun f() { print x; }")));
    drive(&mut interp);
    assert!(interp.interpret_stmts(&parse("x = x + 1; f();")));
    let (printed, _) = drive(&mut interp);
    assert_eq!(printed, vec!["2"]);
}

#[test]
fn a_program_is_not_taken_while_another_runs() {
    let mut interp = Interp::new();
    assert!(interp.is_idle());
    assert!(interp.interpret_stmts(&parse("print 1; print 2;")));
    assert!(!interp.is_idle());
    assert!(!interp.interpret_stmts(&parse("print 3;")));
    assert!(!interp.evaluate(&Expr::Literal(Literal::Nil)));
    let (printed, _) = drive(&mut interp);
    assert_eq!(printed, vec!["1", "2"]);
    assert!(interp.is_idle());
}

#[test]
fn a_new_interpreter_has_nothing_to_run() {
    let mut interp = Interp::new();
    assert!(matches!(interp.step(Reply::Nothing), Request::Finished));
    assert!(matches!(interp.run(Reply::Nothing, 10), Request::Finished));
    assert!(interp.value().is_none());
    assert!(!interp.had_runtime_error());
    let other = Interp::default();
    assert!(other.is_idle());
}

#[test]
fn steps_of_an_addition() {
    let mut scanner = Scanner::new("1 + 2".to_string());
    let mut parser = Parser::new(scanner.scan_tokens());
    let expr = parser.parse_expr().unwrap();
    let mut interp = Interp::new();
    assert!(interp.evaluate(&expr));
    assert!(matches!(interp.step(Reply::Nothing), Request::Continue));
    assert!(matches!(interp.step(Reply::Nothing), Request::Parse(t) if t == "1"));
    assert!(matches!(interp.step(Reply::Number(bits(1.0))), Request::Continue));
    assert!(matches!(interp.step(Reply::Nothing), Request::Continue));
    assert!(matches!(interp.step(Reply::Nothing), Request::Parse(t) if t == "2"));
    assert!(matches!(interp.step(Reply::Number(bits(2.0))), Request::Continue));
    assert!(matches!(
        interp.step(Reply::Nothing),
        Request::Calculate(TokenType::PLUS, a, b) if a == bits(1.0) && b == bits(2.0)
    ));
    assert!(interp.value().is_none());
    assert!(matches!(interp.step(Reply::Number(bits(3.0))), Request::Continue));
    assert!(matches!(interp.value(), Some(Value::Number(n)) if n == bits(3.0)));
    assert!(matches!(interp.step(Reply::Nothing), Request::Finished));
    assert!(matches!(interp.value(), Some(Value::Number(n)) if n == bits(3.0)));
}

#[test]
fn a_reply_of_the_wrong_kind_is_asked_for_again() {
    let mut interp = Interp::new();
    assert!(interp.interpret_stmts(&parse("print 1;")));
    assert!(matches!(interp.run(Reply::Nothing, 100), Request::Parse(t) if t == "1"));
    assert!(matches!(interp.step(Reply::Nothing), Request::Parse(t) if t == "1"));
    assert!(matches!(interp.step(Reply::Text("1".to_string())), Request::Parse(t) if t == "1"));
    assert!(matches!(interp.run(Reply::Number(bits(1.0)), 100), Request::Format(n) if n == bits(1.0)));
    assert!(matches!(interp.step(Reply::Number(5)), Request::Format(n) if n == bits(1.0)));
    assert!(matches!(interp.step(Reply::Nothing), Request::Format(n) if n == bits(1.0)));
    assert!(matches!(interp.step(Reply::Text("1.0".to_string())), Request::Print(line) if line == "1"));
    assert!(matches!(interp.run(Reply::Nothing, 100), Request::Finished));
}

#[test]
fn run_stops_when_its_budget_is_spent() {
    let mut interp = Interp::new();
    assert!(interp.interpret_stmts(&parse("while (true) {}")));
    assert!(matches!(interp.run(Reply::Nothing, 0), Request::Continue));
    assert!(matches!(interp.run(Reply::Nothing, 1000), Request::Continue));
    assert!(!interp.is_idle());
}

#[test]
fn operators_that_the_parser_never_gives() {
    let operator = Token::new(TokenType::COMMA, ",".to_string(), Literal::Nil, 1);
    let expr = Expr::Binary(Binary {
        operator,
        left: Box::new(Expr::Literal(Literal::Number("1".to_string()))),
        right: Box::new(Expr::Literal(Literal::Number("2".to_string()))),
    });
    let mut interp = Interp::new();
    assert!(interp.evaluate(&expr));
    let (_, errors) = drive(&mut interp);
    assert_eq!(errors[0].message, "Unexpected binary operator for numbers");
    assert!(interp.value().is_none());
    let call = Expr::Call(Call {
        callee: Box::new(Expr::Literal(Literal::Nil)),
        paren: Token::new(TokenType::RIGHT_PAREN, ")".to_string(), Literal::Nil, 4),
        arguments: vec![],
    });
    assert!(interp.evaluate(&call));
    let (_, errors) = drive(&mut interp);
    assert_eq!(errors[0].message, "Can only call functions.");
    assert_eq!(errors[0].token.line, 4);
}

#[test]
fn literals_have_their_value() {
    assert!(matches!(Literal::Nil.val(), Some(Value::Nil)));
    assert!(matches!(Literal::Boolean(true).val(), Some(Value::Boolean(true))));
    assert!(matches!(Literal::String("s".to_string()).val(), Some(Value::String(s)) if s == "s"));
    assert!(Literal::Number("1".to_string()).val().is_none());
}

#[test]
fn reports_of_errors() {
    assert_eq!(error(3, "Unterminated string."), "[line 3] Error: Unterminated string.");
    assert_eq!(error(0, ""), "[line 0] Error: ");
    assert_eq!(report(120, " at end", "oops"), "[line 120] Error at end: oops");
    assert_eq!(
        error(usize::MAX, "x"),
        format!("[line {}] Error: x", usize::MAX)
    );
}

#[test]
fn scopes_of_blocks_are_given_up() {
    let mut interp = Interp::new();
    let source = "var i = 0; while (i < 50) { var x = i; { var y = x; } i = i + 1; } print i;";
    assert!(interp.interpret_stmts(&parse(source)));
    let (printed, _) = drive(&mut interp);
    assert_eq!(printed, vec!["50"]);
}

#[test]
fn a_block_started_by_hand_runs_in_its_own_scope() {
    let mut interp = Interp::new();
    assert!(interp.interpret_stmts(&parse("var x = 1;")));
    drive(&mut interp);
    interp.execute_block(parse("var x = 2; print x; x = 3; print x;"), 0);
    let (printed, errors) = drive(&mut interp);
    assert_eq!(printed, vec!["2", "3"]);
    assert!(errors.is_empty());
    assert!(interp.is_idle());
    assert!(interp.interpret_stmts(&parse("print x;")));
    let (printed, _) = drive(&mut interp);
    assert_eq!(printed, vec!["1"]);
}

#[test]
fn the_scopes_of_an_interpreter_can_be_counted() {
    let mut interp = Interp::new();
    assert_eq!(interp.scope(), 0);
    assert_eq!(interp.scopes(), 1);
    assert!(interp.interpret_stmts(&parse("{ fun f() {} }")));
    drive(&mut interp);
    assert_eq!(interp.scope(), 0);
    assert_eq!(interp.scopes(), 2);
    let inside = interp.scopes() - 1;
    interp.execute_block(parse("f(); print 1;"), inside);
    assert_eq!(interp.scope(), 2);
    let (printed, errors) = drive(&mut interp);
    assert_eq!(printed, vec!["1"]);
    assert!(errors.is_empty());
    assert_eq!(interp.scope(), 0);
}

#[test]
fn a_block_that_declares_a_variable_leaves_the_outer_one_as_it_was() {
    assert_eq!(
        output(
            "var x = 1; { print x; var y = x; var x = x + 1; x = x * 10; { x = x + 1; } while (x < 23) x = x + 1; print x; } print x;"
        ),
        vec!["1", "23", "1"]
    );
    let (printed, errors) = run("var x = 1; { var x = 2; x = 3; print -nil; } print x;");
    assert_eq!(printed, vec!["1"]);
    assert_eq!(errors, vec!["operand must be a number"]);
    let (printed, errors) = run("{ var x = 2; print x; } print x;");
    assert_eq!(printed, vec!["2"]);
    assert_eq!(errors, vec!["undefined variable 'x'"]);
}

#[test]
fn an_assignment_before_the_declaration_changes_the_outer_variable() {
    assert_eq!(
        output("var x = 1; { x = 5; var x = 2; print x; } print x;"),
        vec!["2", "5"]
    );
}
