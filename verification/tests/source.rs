use rlox::lox::ast::Stmt;
use rlox::run;

#[test]
fn a_source_without_errors_gives_its_statements_and_no_report() {
    let (statements, reports) = run("var x = 1; print x;".to_string());
    assert_eq!(statements.len(), 2);
    assert!(matches!(&statements[0], Stmt::Var(v) if v.name.lexeme == "x"));
    assert!(matches!(&statements[1], Stmt::Print(_)));
    assert!(reports.is_empty());
}

#[test]
fn errors_of_the_scanner_come_before_those_of_the_parser() {
    let (statements, reports) = run("print ;\nprint 1; @\n\"open".to_string());
    assert_eq!(statements.len(), 1);
    assert_eq!(
        reports,
        vec![
            "[line 2] Error: Unexpected character '@'.".to_string(),
            "[line 3] Error: Unterminated string.".to_string(),
            "ParseError: [line 1] at ';' primary unable to match".to_string(),
        ]
    );
}

#[test]
fn an_error_at_the_end_of_the_source_is_reported_there() {
    let (statements, reports) = run("print 1".to_string());
    assert!(statements.is_empty());
    assert_eq!(
        reports,
        vec!["ParseError: [line 1] at end Expected ';' after value".to_string()]
    );
}

#[test]
fn an_empty_source_gives_nothing() {
    let (statements, reports) = run(String::new());
    assert!(statements.is_empty());
    assert!(reports.is_empty());
}
