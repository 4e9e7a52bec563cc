//! A tree-walking interpreter for a small dynamically typed scripting
//! language: scanner, parser, syntax tree, environments and an interpreter
//! that runs a program step by step.

use vstd::prelude::*;
use vstd::string::*;
use crate::lox::ast::interpreter::{RuntimeError, RuntimeErrorView};
use crate::lox::ast::parser::{program, Parser};
use crate::lox::ast::{stmts_view, Stmt};
use crate::lox::parse_error_text;
use crate::scanner::{errors_from, tokens_from, ScanErrorView, Scanner};
use crate::text::{decimal, decimal_text};

pub mod lox;
pub mod number;
pub mod scanner;
pub mod text;
pub mod token_type;

verus! {

/// The line that reports an error of the scanner: the line of the source,
/// where on it, and what is wrong.
pub open spec fn report_text(line: nat, location: Seq<char>, message: Seq<char>) -> Seq<char> {
    "[line "@ + decimal_text(line) + "] Error"@ + location + ": "@ + message
}

/// The lines that report a runtime error: what is wrong, and below it the
/// line of the source.
pub open spec fn runtime_error_text(err: RuntimeErrorView) -> Seq<char> {
    err.message + "\n[line "@ + decimal_text(err.token.line as nat) + "]"@
}

/// The report of an error on line `line`, with no place on the line.
pub fn error(line: usize, message: &str) -> (r: String)
    ensures
        r@ == report_text(line as nat, Seq::empty(), message@),
{
    let r = report(line, "", message);
    proof {
        reveal_strlit("");
        assert(""@ =~= Seq::<char>::empty());
    }
    r
}

/// The report of an error on line `line`, at `location`.
pub fn report(line: usize, location: &str, message: &str) -> (r: String)
    ensures
        r@ == report_text(line as nat, location@, message@),
{
    let mut s = String::from_str("[line ");
    s.append(decimal(line).as_str());
    s.append("] Error");
    s.append(location);
    s.append(": ");
    s.append(message);
    s
}

/// The report of a runtime error.
pub fn runtime_error(err: &RuntimeError) -> (r: String)
    ensures
        r@ == runtime_error_text(err@),
{
    let mut s = err.message.clone();
    s.append("\n[line ");
    s.append(decimal(err.token.line).as_str());
    s.append("]");
    s
}

/// The reports of the errors of the scanner, in order.
pub open spec fn scan_reports(errors: Seq<ScanErrorView>) -> Seq<Seq<char>> {
    errors.map_values(|e: ScanErrorView| report_text(e.line as nat, Seq::empty(), e.message))
}

/// The reports of the errors of the parser, in order.
pub open spec fn parse_reports(errors: Seq<RuntimeErrorView>) -> Seq<Seq<char>> {
    errors.map_values(|e: RuntimeErrorView| parse_error_text(e.token, e.message))
}

/// What a list of strings holds.
pub open spec fn lines_view(lines: Seq<String>) -> Seq<Seq<char>> {
    lines.map_values(|l: String| l@)
}

/// Scans and parses `source`. Gives the statements that parse, and the
/// reports of what does not: first those of the scanner, then those of the
/// parser.
pub fn run(source: String) -> (r: (Vec<Stmt>, Vec<String>))
    requires
        source@.len() < usize::MAX,
    ensures
        stmts_view(r.0@) == program(tokens_from(source@, 0, 1), 0).statements,
        lines_view(r.1@) == scan_reports(errors_from(source@, 0, 1)) + parse_reports(
            program(tokens_from(source@, 0, 1), 0).errors,
        ),
{
    let ghost src = source@;
    let mut scanner = Scanner::new(source);
    let tokens = scanner.scan_tokens();
    assert(scanner@.tokens =~= tokens_from(src, 0, 1));
    assert(scanner@.errors =~= errors_from(src, 0, 1));
    let mut reports: Vec<String> = Vec::new();
    let scan_errors = scanner.errors();
    let mut i: usize = 0;
    while i < scan_errors.len()
        invariant
            i <= scan_errors.len(),
            lines_view(reports@) == scan_reports(
                crate::scanner::errors_view(scan_errors@).subrange(0, i as int),
            ),
        decreases scan_errors.len() - i,
    {
        let ghost before = lines_view(reports@);
        let ghost all = crate::scanner::errors_view(scan_errors@);
        let line = error(scan_errors[i].line, scan_errors[i].message.as_str());
        reports.push(line);
        assert(lines_view(reports@) =~= before.push(line@));
        assert(all.subrange(0, i + 1) =~= all.subrange(0, i as int).push(all[i as int]));
        assert(lines_view(reports@) =~= scan_reports(
            crate::scanner::errors_view(scan_errors@).subrange(0, i + 1),
        ));
        i += 1;
    }
    assert(crate::scanner::errors_view(scan_errors@).subrange(0, scan_errors.len() as int)
        =~= errors_from(src, 0, 1));
    let mut parser = Parser::new(tokens);
    let statements = parser.parse();
    assert(parser@.errors =~= program(tokens_from(src, 0, 1), 0).errors);
    let parse_errors = parser.errors();
    let ghost scanned = lines_view(reports@);
    let mut j: usize = 0;
    while j < parse_errors.len()
        invariant
            j <= parse_errors.len(),
            lines_view(reports@) == scanned + parse_reports(
                crate::lox::ast::parser::errors_view(parse_errors@).subrange(0, j as int),
            ),
        decreases parse_errors.len() - j,
    {
        let ghost before = lines_view(reports@);
        let ghost all = crate::lox::ast::parser::errors_view(parse_errors@);
        let line = crate::lox::error(&parse_errors[j].token, parse_errors[j].message.as_str());
        reports.push(line);
        assert(lines_view(reports@) =~= before.push(line@));
        assert(all.subrange(0, j + 1) =~= all.subrange(0, j as int).push(all[j as int]));
        assert(parse_reports(all.subrange(0, j + 1)) =~= parse_reports(
            all.subrange(0, j as int),
        ).push(line@));
        assert(lines_view(reports@) =~= scanned + parse_reports(
            crate::lox::ast::parser::errors_view(parse_errors@).subrange(0, j + 1),
        ));
        j += 1;
    }
    assert(crate::lox::ast::parser::errors_view(parse_errors@).subrange(
        0,
        parse_errors.len() as int,
    ) =~= program(tokens_from(src, 0, 1), 0).errors);
    (statements, reports)
}

} // verus!
