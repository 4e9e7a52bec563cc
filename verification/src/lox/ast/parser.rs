//! The parser: recursive descent from a list of tokens to a list of
//! statements. A statement that breaks the grammar is reported and left out,
//! and parsing goes on at the next likely start of a statement.
//!
//! The grammar, from the loosest binding to the tightest:
//!
//! ```text
//! program     -> declaration* EOF
//! declaration -> varDecl | funDecl | statement
//! varDecl     -> "var" IDENTIFIER ("=" expression)? ";"
//! funDecl     -> "fun" IDENTIFIER "(" parameters ")" block
//! statement   -> exprStmt | printStmt | block | ifStmt | whileStmt | forStmt
//! block       -> "{" declaration* "}"
//! ifStmt      -> "if" "(" expression ")" statement ("else" statement)?
//! whileStmt   -> "while" "(" expression ")" statement
//! forStmt     -> "for" "(" (varDecl | exprStmt | ";") expression? ";" expression? ")" statement
//! expression  -> assignment
//! assignment  -> IDENTIFIER "=" assignment | logic_or
//! logic_or    -> logic_and ("or" logic_and)*
//! logic_and   -> equality ("and" equality)*
//! equality    -> comparison (("==" | "!=") comparison)*
//! comparison  -> term ((">" | ">=" | "<" | "<=") term)*
//! term        -> factor (("+" | "-") factor)*
//! factor      -> unary (("*" | "/") unary)*
//! unary       -> ("!" | "-") unary | call
//! call        -> primary ("(" arguments ")")*
//! primary     -> NUMBER | STRING | "true" | "false" | "nil" | IDENTIFIER | "(" expression ")"
//! ```
//!
//! In `arguments` and `parameters` a comma between two entries may be left
//! out, and one may follow the last entry.
//!
//! The grammar is written down as functions from a place among the tokens
//! to a tree or an error and the place to go on at. Where a rule goes on
//! behind a part, its function asks that the part has taken a token
//! (`moved`), which is what makes the definitions well founded; the laws on
//! advancing show that a part that parses always has.

use vstd::prelude::*;
use vstd::string::*;
use crate::token_type::{Literal, LiteralView, Token, TokenType, TokenView, tokens_view};
use crate::lox::ast::interpreter::{RuntimeError, RuntimeErrorView};
use crate::lox::ast::{
    Assign, Binary, Call, Expr, ExprView, FuncStmt, Grouping, IfStmt, Logical, Stmt, StmtView,
    Unary, Variable, WhileStmt, exprs_view, stmts_view,
};

verus! {

/// What parsing from one place gives: a tree or an error, and the place
/// where parsing goes on.
pub struct Parsed<T> {
    pub result: Result<T, RuntimeErrorView>,
    pub pos: int,
}

/// Parsing gave `tree` and goes on at `pos`.
pub open spec fn ok<T>(tree: T, pos: int) -> Parsed<T> {
    Parsed { result: Ok(tree), pos }
}

/// Parsing met the error `message` at `token`, and stopped at `pos`.
pub open spec fn fail<T>(token: TokenView, message: Seq<char>, pos: int) -> Parsed<T> {
    Parsed { result: Err(RuntimeErrorView { token, message }), pos }
}

/// The error of `p`, at the place where it was met.
pub open spec fn failed<T, U>(p: Parsed<T>) -> Parsed<U> {
    Parsed { result: Err(p.result->Err_0), pos: p.pos }
}

/// The most entries that a list of arguments or of parameters may have.
pub const MAX_ARGUMENTS: usize = 255;

/// A list of tokens is fit for parsing if it ends in an end-of-file token.
pub open spec fn well_formed(ts: Seq<TokenView>) -> bool {
    ts.len() > 0 && ts.last().token_type == TokenType::EOF
}

/// Whether nothing is left to parse at `pos`.
pub open spec fn at_end(ts: Seq<TokenView>, pos: int) -> bool {
    !(0 <= pos < ts.len() - 1) || ts[pos].token_type == TokenType::EOF
}

/// How many tokens are left at `pos`.
pub open spec fn remaining(ts: Seq<TokenView>, pos: int) -> nat {
    if 0 <= pos < ts.len() {
        (ts.len() - pos) as nat
    } else {
        0
    }
}

/// Whether parsing has moved on from the token at `from` to a later place.
pub open spec fn moved(ts: Seq<TokenView>, from: int, to: int) -> bool {
    0 <= from < ts.len() && from < to
}

/// Whether the token at `pos` is of kind `kind`.
pub open spec fn check(ts: Seq<TokenView>, pos: int, kind: TokenType) -> bool {
    !at_end(ts, pos) && ts[pos].token_type == kind
}

/// The token at `pos` if it is of kind `kind`; else an error at that token.
pub open spec fn consume(ts: Seq<TokenView>, pos: int, kind: TokenType, message: Seq<char>) -> Parsed<
    TokenView,
> {
    if check(ts, pos, kind) {
        ok(ts[pos], pos + 1)
    } else {
        fail(ts[pos], message, pos)
    }
}

/// The levels of binary operators, from `or`, which binds loosest, to the
/// multiplication and the division.
pub const LEVEL_OR: u8 = 0;

pub const LEVEL_AND: u8 = 1;

pub const LEVEL_EQUALITY: u8 = 2;

pub const LEVEL_COMPARISON: u8 = 3;

pub const LEVEL_TERM: u8 = 4;

pub const LEVEL_FACTOR: u8 = 5;

/// Whether a token of kind `kind` is an operator of level `level`.
pub open spec fn is_operator(level: u8, kind: TokenType) -> bool {
    if level == LEVEL_OR {
        kind == TokenType::OR
    } else if level == LEVEL_AND {
        kind == TokenType::AND
    } else if level == LEVEL_EQUALITY {
        kind == TokenType::BANG_EQUAL || kind == TokenType::EQUAL_EQUAL
    } else if level == LEVEL_COMPARISON {
        kind == TokenType::GREATER || kind == TokenType::GREATER_EQUAL || kind == TokenType::LESS
            || kind == TokenType::LESS_EQUAL
    } else if level == LEVEL_TERM {
        kind == TokenType::MINUS || kind == TokenType::PLUS
    } else {
        kind == TokenType::STAR || kind == TokenType::SLASH
    }
}

/// The node for `left operator right` at level `level`: a logical expression
/// for `or` and `and`, a binary one for the others.
pub open spec fn binary_node(level: u8, operator: TokenView, left: ExprView, right: ExprView) -> ExprView {
    if level <= LEVEL_AND {
        ExprView::Logical { operator, left: Box::new(left), right: Box::new(right) }
    } else {
        ExprView::Binary { operator, left: Box::new(left), right: Box::new(right) }
    }
}

/// `primary -> NUMBER | STRING | "true" | "false" | "nil" | IDENTIFIER |
/// "(" expression ")"`.
pub open spec fn primary(ts: Seq<TokenView>, pos: int) -> Parsed<ExprView>
    decreases remaining(ts, pos), 0nat,
{
    let t = ts[pos];
    if at_end(ts, pos) {
        fail(t, "primary unable to match"@, pos)
    } else if t.token_type == TokenType::FALSE {
        ok(ExprView::Literal(LiteralView::Boolean(false)), pos + 1)
    } else if t.token_type == TokenType::TRUE {
        ok(ExprView::Literal(LiteralView::Boolean(true)), pos + 1)
    } else if t.token_type == TokenType::NIL {
        ok(ExprView::Literal(LiteralView::Nil), pos + 1)
    } else if t.token_type == TokenType::NUMBER || t.token_type == TokenType::STRING {
        ok(ExprView::Literal(t.literal), pos + 1)
    } else if t.token_type == TokenType::LEFT_PAREN {
        let e = expression(ts, pos + 1);
        if e.result is Err {
            failed(e)
        } else {
            let c = consume(ts, e.pos, TokenType::RIGHT_PAREN, "Expect ')' after expression."@);
            if c.result is Err {
                failed(c)
            } else {
                ok(ExprView::Grouping(Box::new(e.result->Ok_0)), c.pos)
            }
        }
    } else if t.token_type == TokenType::IDENTIFIER {
        ok(ExprView::Variable(t), pos + 1)
    } else {
        fail(t, "primary unable to match"@, pos)
    }
}

/// The rest of a list of arguments, after `done`, up to and with the
/// closing parenthesis. `first` is the token that the list begins with.
pub open spec fn arguments(ts: Seq<TokenView>, pos: int, first: TokenView, done: Seq<ExprView>) -> Parsed<
    Seq<ExprView>,
>
    decreases remaining(ts, pos), 18nat,
{
    if check(ts, pos, TokenType::RIGHT_PAREN) {
        ok(done, pos + 1)
    } else if done.len() >= MAX_ARGUMENTS {
        fail(first, "too many arguments"@, pos)
    } else {
        let e = expression(ts, pos);
        if e.result is Err {
            failed(e)
        } else if moved(ts, pos, e.pos) {
            let next = if check(ts, e.pos, TokenType::COMMA) {
                e.pos + 1
            } else {
                e.pos
            };
            arguments(ts, next, first, done.push(e.result->Ok_0))
        } else {
            failed(e)
        }
    }
}

/// The calls that follow `callee`: each pair of parentheses calls what
/// stands before it.
pub open spec fn call_tail(ts: Seq<TokenView>, pos: int, callee: ExprView) -> Parsed<ExprView>
    decreases remaining(ts, pos), 13nat,
{
    if check(ts, pos, TokenType::LEFT_PAREN) {
        let a = arguments(ts, pos + 1, ts[pos + 1], Seq::empty());
        if a.result is Err {
            failed(a)
        } else if moved(ts, pos, a.pos) {
            call_tail(
                ts,
                a.pos,
                ExprView::Call {
                    callee: Box::new(callee),
                    paren: ts[a.pos - 1],
                    arguments: a.result->Ok_0,
                },
            )
        } else {
            failed(a)
        }
    } else {
        ok(callee, pos)
    }
}

/// `call -> primary ("(" arguments ")")*`.
pub open spec fn call(ts: Seq<TokenView>, pos: int) -> Parsed<ExprView>
    decreases remaining(ts, pos), 1nat,
{
    let p = primary(ts, pos);
    if p.result is Err {
        failed(p)
    } else if moved(ts, pos, p.pos) {
        call_tail(ts, p.pos, p.result->Ok_0)
    } else {
        failed(p)
    }
}

/// `unary -> ("!" | "-") unary | call`.
pub open spec fn unary(ts: Seq<TokenView>, pos: int) -> Parsed<ExprView>
    decreases remaining(ts, pos), 2nat,
{
    if check(ts, pos, TokenType::BANG) || check(ts, pos, TokenType::MINUS) {
        let r = unary(ts, pos + 1);
        if r.result is Err {
            failed(r)
        } else {
            ok(ExprView::Unary { operator: ts[pos], right: Box::new(r.result->Ok_0) }, r.pos)
        }
    } else {
        call(ts, pos)
    }
}

/// An operand of the operators of level `level`: an expression of the next
/// level, a unary expression at the last.
pub open spec fn operand(ts: Seq<TokenView>, pos: int, level: u8) -> Parsed<ExprView>
    decreases remaining(ts, pos), 3nat + 2 * (LEVEL_FACTOR - level) as nat,
{
    if level >= LEVEL_FACTOR {
        unary(ts, pos)
    } else {
        binary(ts, pos, (level + 1) as u8)
    }
}

/// The operators of level `level` that follow `left`, each with its right
/// operand: they group to the left.
pub open spec fn binary_tail(ts: Seq<TokenView>, pos: int, level: u8, left: ExprView) -> Parsed<
    ExprView,
>
    decreases remaining(ts, pos), 20nat,
{
    if !at_end(ts, pos) && is_operator(level, ts[pos].token_type) {
        let r = operand(ts, pos + 1, level);
        if r.result is Err {
            failed(r)
        } else if moved(ts, pos, r.pos) {
            binary_tail(ts, r.pos, level, binary_node(level, ts[pos], left, r.result->Ok_0))
        } else {
            failed(r)
        }
    } else {
        ok(left, pos)
    }
}

/// An expression made with the operators of level `level` and those that
/// bind tighter.
pub open spec fn binary(ts: Seq<TokenView>, pos: int, level: u8) -> Parsed<ExprView>
    decreases remaining(ts, pos), 4nat + 2 * (LEVEL_FACTOR - level) as nat,
{
    if level > LEVEL_FACTOR {
        unary(ts, pos)
    } else {
        let l = operand(ts, pos, level);
        if l.result is Err {
            failed(l)
        } else if moved(ts, pos, l.pos) {
            binary_tail(ts, l.pos, level, l.result->Ok_0)
        } else {
            failed(l)
        }
    }
}

/// `assignment -> IDENTIFIER "=" assignment | logic_or`. What stands
/// before the `=` must be a variable.
pub open spec fn assignment(ts: Seq<TokenView>, pos: int) -> Parsed<ExprView>
    decreases remaining(ts, pos), 16nat,
{
    let e = binary(ts, pos, LEVEL_OR);
    if e.result is Err {
        failed(e)
    } else if moved(ts, pos, e.pos) && check(ts, e.pos, TokenType::EQUAL) {
        match e.result->Ok_0 {
            ExprView::Variable(name) => {
                let v = assignment(ts, e.pos + 1);
                if v.result is Err {
                    failed(v)
                } else {
                    ok(ExprView::Assign { name, value: Box::new(v.result->Ok_0) }, v.pos)
                }
            },
            _ => fail(ts[e.pos], "Invalid assignment target."@, e.pos + 1),
        }
    } else {
        e
    }
}

/// `expression -> assignment`.
pub open spec fn expression(ts: Seq<TokenView>, pos: int) -> Parsed<ExprView>
    decreases remaining(ts, pos), 17nat,
{
    assignment(ts, pos)
}


/// `expression ";"`: an expression evaluated for its effect.
pub open spec fn expr_statement(ts: Seq<TokenView>, pos: int) -> Parsed<StmtView> {
    let e = expression(ts, pos);
    if e.result is Err {
        failed(e)
    } else {
        let c = consume(ts, e.pos, TokenType::SEMICOLON, "Expected ';' after expression"@);
        if c.result is Err {
            failed(c)
        } else {
            ok(StmtView::Expression(e.result->Ok_0), c.pos)
        }
    }
}

/// What follows `print`: `expression ";"`.
pub open spec fn print_statement(ts: Seq<TokenView>, pos: int) -> Parsed<StmtView> {
    let e = expression(ts, pos);
    if e.result is Err {
        failed(e)
    } else {
        let c = consume(ts, e.pos, TokenType::SEMICOLON, "Expected ';' after value"@);
        if c.result is Err {
            failed(c)
        } else {
            ok(StmtView::Print(e.result->Ok_0), c.pos)
        }
    }
}

/// What follows `var`: `IDENTIFIER ("=" expression)? ";"`. Without an
/// initializer the variable starts as nil.
pub open spec fn var_declaration(ts: Seq<TokenView>, pos: int) -> Parsed<StmtView> {
    let n = consume(ts, pos, TokenType::IDENTIFIER, "expected IDENTIFIER in var declaration"@);
    if n.result is Err {
        failed(n)
    } else if check(ts, n.pos, TokenType::EQUAL) {
        let e = expression(ts, n.pos + 1);
        if e.result is Err {
            failed(e)
        } else {
            let c = consume(ts, e.pos, TokenType::SEMICOLON, "Expected ';' after value"@);
            if c.result is Err {
                failed(c)
            } else {
                ok(StmtView::Var { name: n.result->Ok_0, initializer: e.result->Ok_0 }, c.pos)
            }
        }
    } else {
        let c = consume(ts, n.pos, TokenType::SEMICOLON, "Expected ';' after value"@);
        if c.result is Err {
            failed(c)
        } else {
            ok(
                StmtView::Var {
                    name: n.result->Ok_0,
                    initializer: ExprView::Literal(LiteralView::Nil),
                },
                c.pos,
            )
        }
    }
}

/// The rest of a list of parameters, after `done`, up to and with the
/// closing parenthesis. `first` is the token that the list begins with.
pub open spec fn parameters(ts: Seq<TokenView>, pos: int, first: TokenView, done: Seq<TokenView>) -> Parsed<
    Seq<TokenView>,
>
    decreases remaining(ts, pos),
{
    if check(ts, pos, TokenType::RIGHT_PAREN) {
        ok(done, pos + 1)
    } else if done.len() >= MAX_ARGUMENTS {
        fail(first, "too many arguments"@, pos)
    } else {
        let p = consume(
            ts,
            pos,
            TokenType::IDENTIFIER,
            "expected IDENTIFIER arg, got something else"@,
        );
        if p.result is Err {
            failed(p)
        } else {
            let next = if check(ts, p.pos, TokenType::COMMA) {
                p.pos + 1
            } else {
                p.pos
            };
            parameters(ts, next, first, done.push(p.result->Ok_0))
        }
    }
}

/// The three clauses between the parentheses of a `for`.
pub struct ForClauses {
    pub initializer: Option<StmtView>,
    pub condition: Option<ExprView>,
    pub increment: Option<ExprView>,
}

/// The first clause of a `for`: `varDecl | exprStmt | ";"`.
pub open spec fn for_initializer(ts: Seq<TokenView>, pos: int) -> Parsed<Option<StmtView>> {
    if check(ts, pos, TokenType::SEMICOLON) {
        ok(None, pos + 1)
    } else if check(ts, pos, TokenType::VAR) {
        let v = var_declaration(ts, pos + 1);
        if v.result is Err {
            failed(v)
        } else {
            ok(Some(v.result->Ok_0), v.pos)
        }
    } else {
        let v = expr_statement(ts, pos);
        if v.result is Err {
            failed(v)
        } else {
            ok(Some(v.result->Ok_0), v.pos)
        }
    }
}

/// An expression, unless the token at `pos` is of kind `closing`.
pub open spec fn optional_expression(ts: Seq<TokenView>, pos: int, closing: TokenType) -> Parsed<
    Option<ExprView>,
> {
    if !check(ts, pos, closing) {
        let e = expression(ts, pos);
        if e.result is Err {
            failed(e)
        } else {
            ok(Some(e.result->Ok_0), e.pos)
        }
    } else {
        ok(None, pos)
    }
}

/// What follows `for`, up to and with the closing parenthesis:
/// `"(" (varDecl | exprStmt | ";") expression? ";" expression? ")"`.
pub open spec fn for_clauses(ts: Seq<TokenView>, pos: int) -> Parsed<ForClauses> {
    let l = consume(ts, pos, TokenType::LEFT_PAREN, "Expect '(' after FOR"@);
    if l.result is Err {
        failed(l)
    } else {
        let i = for_initializer(ts, l.pos);
        if i.result is Err {
            failed(i)
        } else {
            let c = optional_expression(ts, i.pos, TokenType::SEMICOLON);
            if c.result is Err {
                failed(c)
            } else {
                let s = consume(
                    ts,
                    c.pos,
                    TokenType::SEMICOLON,
                    "Expected ';' before increment in FOR"@,
                );
                if s.result is Err {
                    failed(s)
                } else {
                    let n = optional_expression(ts, s.pos, TokenType::RIGHT_PAREN);
                    if n.result is Err {
                        failed(n)
                    } else {
                        let r = consume(
                            ts,
                            n.pos,
                            TokenType::RIGHT_PAREN,
                            "Expected final ')' in FOR"@,
                        );
                        if r.result is Err {
                            failed(r)
                        } else {
                            ok(
                                ForClauses {
                                    initializer: i.result->Ok_0,
                                    condition: c.result->Ok_0,
                                    increment: n.result->Ok_0,
                                },
                                r.pos,
                            )
                        }
                    }
                }
            }
        }
    }
}

/// A `for` loop in terms of `while`: the body, then the increment, run
/// while the condition holds (always, if there is none); all of it in a
/// block behind the initializer, if there is one.
pub open spec fn desugar_for(clauses: ForClauses, body: StmtView) -> StmtView {
    let stepped = match clauses.increment {
        Some(inc) => StmtView::Block(seq![body, StmtView::Expression(inc)]),
        None => body,
    };
    let condition = match clauses.condition {
        Some(c) => c,
        None => ExprView::Literal(LiteralView::Boolean(true)),
    };
    let looped = StmtView::While { condition, body: Box::new(stepped) };
    match clauses.initializer {
        Some(init) => StmtView::Block(seq![init, looped]),
        None => looped,
    }
}

/// What follows `if`: `"(" expression ")" statement ("else" statement)?`.
pub open spec fn if_statement(ts: Seq<TokenView>, pos: int) -> Parsed<StmtView>
    decreases remaining(ts, pos), 0nat,
{
    let l = consume(ts, pos, TokenType::LEFT_PAREN, "Expect '(' after IF"@);
    if l.result is Err {
        failed(l)
    } else {
        let c = expression(ts, l.pos);
        if c.result is Err {
            failed(c)
        } else {
            let r = consume(
                ts,
                c.pos,
                TokenType::RIGHT_PAREN,
                "Expected ')' closing IF condition"@,
            );
            if r.result is Err {
                failed(r)
            } else if moved(ts, pos, r.pos) {
                let t = statement(ts, r.pos);
                if t.result is Err {
                    failed(t)
                } else if moved(ts, pos, t.pos) && check(ts, t.pos, TokenType::ELSE) {
                    let e = statement(ts, t.pos + 1);
                    if e.result is Err {
                        failed(e)
                    } else {
                        ok(
                            StmtView::If {
                                condition: c.result->Ok_0,
                                if_branch: Box::new(t.result->Ok_0),
                                else_branch: Some(Box::new(e.result->Ok_0)),
                            },
                            e.pos,
                        )
                    }
                } else {
                    ok(
                        StmtView::If {
                            condition: c.result->Ok_0,
                            if_branch: Box::new(t.result->Ok_0),
                            else_branch: None,
                        },
                        t.pos,
                    )
                }
            } else {
                failed(r)
            }
        }
    }
}

/// What follows `while`: `"(" expression ")" statement`.
pub open spec fn while_statement(ts: Seq<TokenView>, pos: int) -> Parsed<StmtView>
    decreases remaining(ts, pos), 0nat,
{
    let l = consume(ts, pos, TokenType::LEFT_PAREN, "Expect '(' after WHILE"@);
    if l.result is Err {
        failed(l)
    } else {
        let c = expression(ts, l.pos);
        if c.result is Err {
            failed(c)
        } else {
            let r = consume(
                ts,
                c.pos,
                TokenType::RIGHT_PAREN,
                "Expected ')' closing WHILE condition"@,
            );
            if r.result is Err {
                failed(r)
            } else if moved(ts, pos, r.pos) {
                let b = statement(ts, r.pos);
                if b.result is Err {
                    failed(b)
                } else {
                    ok(
                        StmtView::While {
                            condition: c.result->Ok_0,
                            body: Box::new(b.result->Ok_0),
                        },
                        b.pos,
                    )
                }
            } else {
                failed(r)
            }
        }
    }
}

/// What follows `for`: the clauses and the body, as a `while` loop.
pub open spec fn for_statement(ts: Seq<TokenView>, pos: int) -> Parsed<StmtView>
    decreases remaining(ts, pos), 0nat,
{
    let c = for_clauses(ts, pos);
    if c.result is Err {
        failed(c)
    } else if moved(ts, pos, c.pos) {
        let b = statement(ts, c.pos);
        if b.result is Err {
            failed(b)
        } else {
            ok(desugar_for(c.result->Ok_0, b.result->Ok_0), b.pos)
        }
    } else {
        failed(c)
    }
}

/// The rest of a block, after `done`, up to and with the closing brace.
pub open spec fn block_items(ts: Seq<TokenView>, pos: int, done: Seq<StmtView>) -> Parsed<
    Seq<StmtView>,
>
    decreases remaining(ts, pos), 3nat,
{
    if check(ts, pos, TokenType::RIGHT_BRACE) {
        ok(done, pos + 1)
    } else if at_end(ts, pos) {
        fail(ts[pos], "Expected '}' after block"@, pos)
    } else {
        let d = declaration(ts, pos);
        if d.result is Err {
            failed(d)
        } else if moved(ts, pos, d.pos) {
            block_items(ts, d.pos, done.push(d.result->Ok_0))
        } else {
            failed(d)
        }
    }
}

/// What follows `fun`: `IDENTIFIER "(" parameters ")" "{" declaration* "}"`.
pub open spec fn func_declaration(ts: Seq<TokenView>, pos: int) -> Parsed<StmtView>
    decreases remaining(ts, pos), 0nat,
{
    let n = consume(ts, pos, TokenType::IDENTIFIER, "fun declaration lacking identifier"@);
    if n.result is Err {
        failed(n)
    } else {
        let l = consume(
            ts,
            n.pos,
            TokenType::LEFT_PAREN,
            "expect '(' after func identifier decl"@,
        );
        if l.result is Err {
            failed(l)
        } else {
            let p = parameters(ts, l.pos, ts[l.pos], Seq::empty());
            if p.result is Err {
                failed(p)
            } else {
                let b = consume(
                    ts,
                    p.pos,
                    TokenType::LEFT_BRACE,
                    "Expected opening brace for func body"@,
                );
                if b.result is Err {
                    failed(b)
                } else if moved(ts, pos, b.pos) {
                    let body = block_items(ts, b.pos, Seq::empty());
                    if body.result is Err {
                        failed(body)
                    } else {
                        ok(
                            StmtView::Func {
                                name: n.result->Ok_0,
                                parameters: p.result->Ok_0,
                                body: body.result->Ok_0,
                            },
                            body.pos,
                        )
                    }
                } else {
                    failed(b)
                }
            }
        }
    }
}

/// `statement -> exprStmt | printStmt | block | ifStmt | whileStmt | forStmt`.
pub open spec fn statement(ts: Seq<TokenView>, pos: int) -> Parsed<StmtView>
    decreases remaining(ts, pos), 1nat,
{
    if check(ts, pos, TokenType::PRINT) {
        print_statement(ts, pos + 1)
    } else if check(ts, pos, TokenType::LEFT_BRACE) {
        let b = block_items(ts, pos + 1, Seq::empty());
        if b.result is Err {
            failed(b)
        } else {
            ok(StmtView::Block(b.result->Ok_0), b.pos)
        }
    } else if check(ts, pos, TokenType::IF) {
        if_statement(ts, pos + 1)
    } else if check(ts, pos, TokenType::WHILE) {
        while_statement(ts, pos + 1)
    } else if check(ts, pos, TokenType::FOR) {
        for_statement(ts, pos + 1)
    } else {
        expr_statement(ts, pos)
    }
}

/// `declaration -> varDecl | funDecl | statement`.
pub open spec fn declaration(ts: Seq<TokenView>, pos: int) -> Parsed<StmtView>
    decreases remaining(ts, pos), 2nat,
{
    if check(ts, pos, TokenType::VAR) {
        var_declaration(ts, pos + 1)
    } else if check(ts, pos, TokenType::FUN) {
        func_declaration(ts, pos + 1)
    } else {
        statement(ts, pos)
    }
}

/// Whether a statement is likely to start with a token of kind `kind`.
pub open spec fn starts_statement(kind: TokenType) -> bool {
    kind == TokenType::CLASS || kind == TokenType::FUN || kind == TokenType::VAR || kind
        == TokenType::FOR || kind == TokenType::IF || kind == TokenType::WHILE || kind
        == TokenType::PRINT || kind == TokenType::RETURN
}

/// The first place from `pos` on where a statement is likely to start:
/// behind a semicolon, at a keyword that starts a statement, or at the end.
pub open spec fn boundary(ts: Seq<TokenView>, pos: int) -> int
    decreases remaining(ts, pos),
{
    if at_end(ts, pos) {
        pos
    } else if pos >= 1 && ts[pos - 1].token_type == TokenType::SEMICOLON {
        pos
    } else if starts_statement(ts[pos].token_type) {
        pos
    } else {
        boundary(ts, pos + 1)
    }
}

/// Where parsing goes on after an error at `pos`: the token there is passed
/// over, and so are those that follow, up to the next boundary.
pub open spec fn synchronise(ts: Seq<TokenView>, pos: int) -> int {
    if at_end(ts, pos) {
        pos
    } else {
        boundary(ts, pos + 1)
    }
}

/// The statements of a program and the errors met in it.
pub struct Program {
    pub statements: Seq<StmtView>,
    pub errors: Seq<RuntimeErrorView>,
}

/// The program that the tokens from `pos` on hold. A declaration that fails
/// gives an error and no statement; parsing goes on where `synchronise` says.
#[verifier::opaque]
pub open spec fn program(ts: Seq<TokenView>, pos: int) -> Program
    decreases remaining(ts, pos),
{
    if at_end(ts, pos) {
        Program { statements: Seq::empty(), errors: Seq::empty() }
    } else {
        let d = declaration(ts, pos);
        match d.result {
            Ok(s) => {
                if moved(ts, pos, d.pos) {
                    let rest = program(ts, d.pos);
                    Program { statements: seq![s] + rest.statements, errors: rest.errors }
                } else {
                    Program { statements: seq![s], errors: Seq::empty() }
                }
            },
            Err(e) => {
                let next = synchronise(ts, d.pos);
                if moved(ts, pos, next) {
                    let rest = program(ts, next);
                    Program { statements: rest.statements, errors: seq![e] + rest.errors }
                } else {
                    Program { statements: Seq::empty(), errors: seq![e] }
                }
            },
        }
    }
}


/// Parsing from `pos` has not gone back, and has gone on if it gave a tree.
pub open spec fn advances<T>(p: Parsed<T>, pos: int) -> bool {
    p.pos >= pos && (p.result is Ok ==> p.pos > pos)
}

proof fn lemma_primary_advances(ts: Seq<TokenView>, pos: int)
    ensures
        advances(primary(ts, pos), pos),
    decreases remaining(ts, pos), 0nat,
{
    if !at_end(ts, pos) && ts[pos].token_type == TokenType::LEFT_PAREN {
        lemma_expression_advances(ts, pos + 1);
    }
}

proof fn lemma_arguments_advances(ts: Seq<TokenView>, pos: int, first: TokenView, done: Seq<ExprView>)
    ensures
        advances(arguments(ts, pos, first, done), pos),
    decreases remaining(ts, pos), 18nat,
{
    if !check(ts, pos, TokenType::RIGHT_PAREN) && done.len() < MAX_ARGUMENTS {
        lemma_expression_advances(ts, pos);
        let e = expression(ts, pos);
        if e.result is Ok && moved(ts, pos, e.pos) {
            let next = if check(ts, e.pos, TokenType::COMMA) {
                e.pos + 1
            } else {
                e.pos
            };
            lemma_arguments_advances(ts, next, first, done.push(e.result->Ok_0));
        }
    }
}

proof fn lemma_call_tail_advances(ts: Seq<TokenView>, pos: int, callee: ExprView)
    ensures
        call_tail(ts, pos, callee).pos >= pos,
    decreases remaining(ts, pos), 13nat,
{
    if check(ts, pos, TokenType::LEFT_PAREN) {
        lemma_arguments_advances(ts, pos + 1, ts[pos + 1], Seq::empty());
        let a = arguments(ts, pos + 1, ts[pos + 1], Seq::empty());
        if a.result is Ok && moved(ts, pos, a.pos) {
            lemma_call_tail_advances(
                ts,
                a.pos,
                ExprView::Call {
                    callee: Box::new(callee),
                    paren: ts[a.pos - 1],
                    arguments: a.result->Ok_0,
                },
            );
        }
    }
}

proof fn lemma_call_advances(ts: Seq<TokenView>, pos: int)
    ensures
        advances(call(ts, pos), pos),
    decreases remaining(ts, pos), 1nat,
{
    lemma_primary_advances(ts, pos);
    let p = primary(ts, pos);
    if p.result is Ok && moved(ts, pos, p.pos) {
        lemma_call_tail_advances(ts, p.pos, p.result->Ok_0);
    }
}

proof fn lemma_unary_advances(ts: Seq<TokenView>, pos: int)
    ensures
        advances(unary(ts, pos), pos),
    decreases remaining(ts, pos), 2nat,
{
    if check(ts, pos, TokenType::BANG) || check(ts, pos, TokenType::MINUS) {
        lemma_unary_advances(ts, pos + 1);
    } else {
        lemma_call_advances(ts, pos);
    }
}

proof fn lemma_operand_advances(ts: Seq<TokenView>, pos: int, level: u8)
    ensures
        advances(operand(ts, pos, level), pos),
    decreases remaining(ts, pos), 3nat + 2 * (LEVEL_FACTOR - level) as nat,
{
    if level >= LEVEL_FACTOR {
        lemma_unary_advances(ts, pos);
    } else {
        lemma_binary_advances(ts, pos, (level + 1) as u8);
    }
}

proof fn lemma_binary_tail_advances(ts: Seq<TokenView>, pos: int, level: u8, left: ExprView)
    ensures
        binary_tail(ts, pos, level, left).pos >= pos,
    decreases remaining(ts, pos), 20nat,
{
    if !at_end(ts, pos) && is_operator(level, ts[pos].token_type) {
        lemma_operand_advances(ts, pos + 1, level);
        let r = operand(ts, pos + 1, level);
        if r.result is Ok && moved(ts, pos, r.pos) {
            lemma_binary_tail_advances(
                ts,
                r.pos,
                level,
                binary_node(level, ts[pos], left, r.result->Ok_0),
            );
        }
    }
}

proof fn lemma_binary_advances(ts: Seq<TokenView>, pos: int, level: u8)
    ensures
        advances(binary(ts, pos, level), pos),
    decreases remaining(ts, pos), 4nat + 2 * (LEVEL_FACTOR - level) as nat,
{
    if level > LEVEL_FACTOR {
        lemma_unary_advances(ts, pos);
    } else {
        lemma_operand_advances(ts, pos, level);
        let l = operand(ts, pos, level);
        if l.result is Ok && moved(ts, pos, l.pos) {
            lemma_binary_tail_advances(ts, l.pos, level, l.result->Ok_0);
        }
    }
}

proof fn lemma_assignment_advances(ts: Seq<TokenView>, pos: int)
    ensures
        advances(assignment(ts, pos), pos),
    decreases remaining(ts, pos), 16nat,
{
    lemma_binary_advances(ts, pos, LEVEL_OR);
    let e = binary(ts, pos, LEVEL_OR);
    if e.result is Ok && moved(ts, pos, e.pos) && check(ts, e.pos, TokenType::EQUAL) {
        lemma_assignment_advances(ts, e.pos + 1);
    }
}

/// Every expression that parses takes at least one token, and one that
/// does not parse leaves the parser at or behind the place where it began.
pub proof fn lemma_expression_advances(ts: Seq<TokenView>, pos: int)
    ensures
        advances(expression(ts, pos), pos),
    decreases remaining(ts, pos), 17nat,
{
    lemma_assignment_advances(ts, pos);
}

proof fn lemma_simple_statements_advance(ts: Seq<TokenView>, pos: int)
    ensures
        advances(expr_statement(ts, pos), pos),
        advances(print_statement(ts, pos), pos),
        advances(var_declaration(ts, pos), pos),
        optional_expression(ts, pos, TokenType::RIGHT_PAREN).pos >= pos,
        optional_expression(ts, pos, TokenType::SEMICOLON).pos >= pos,
{
    lemma_expression_advances(ts, pos);
    let n = consume(ts, pos, TokenType::IDENTIFIER, "expected IDENTIFIER in var declaration"@);
    if n.result is Ok {
        lemma_expression_advances(ts, n.pos + 1);
    }
}

proof fn lemma_parameters_advances(ts: Seq<TokenView>, pos: int, first: TokenView, done: Seq<TokenView>)
    ensures
        advances(parameters(ts, pos, first, done), pos),
    decreases remaining(ts, pos),
{
    if !check(ts, pos, TokenType::RIGHT_PAREN) && done.len() < MAX_ARGUMENTS {
        let p = consume(
            ts,
            pos,
            TokenType::IDENTIFIER,
            "expected IDENTIFIER arg, got something else"@,
        );
        if p.result is Ok {
            let next = if check(ts, p.pos, TokenType::COMMA) {
                p.pos + 1
            } else {
                p.pos
            };
            lemma_parameters_advances(ts, next, first, done.push(p.result->Ok_0));
        }
    }
}

proof fn lemma_for_clauses_advances(ts: Seq<TokenView>, pos: int)
    ensures
        advances(for_clauses(ts, pos), pos),
{
    let l = consume(ts, pos, TokenType::LEFT_PAREN, "Expect '(' after FOR"@);
    if l.result is Ok {
        lemma_simple_statements_advance(ts, l.pos);
        lemma_simple_statements_advance(ts, l.pos + 1);
        let i = for_initializer(ts, l.pos);
        if i.result is Ok {
            lemma_simple_statements_advance(ts, i.pos);
            let c = optional_expression(ts, i.pos, TokenType::SEMICOLON);
            if c.result is Ok {
                let s = consume(
                    ts,
                    c.pos,
                    TokenType::SEMICOLON,
                    "Expected ';' before increment in FOR"@,
                );
                if s.result is Ok {
                    lemma_simple_statements_advance(ts, s.pos);
                }
            }
        }
    }
}

proof fn lemma_if_statement_advances(ts: Seq<TokenView>, pos: int)
    ensures
        advances(if_statement(ts, pos), pos),
    decreases remaining(ts, pos), 0nat,
{
    let l = consume(ts, pos, TokenType::LEFT_PAREN, "Expect '(' after IF"@);
    if l.result is Ok {
        lemma_expression_advances(ts, l.pos);
        let c = expression(ts, l.pos);
        if c.result is Ok {
            let r = consume(
                ts,
                c.pos,
                TokenType::RIGHT_PAREN,
                "Expected ')' closing IF condition"@,
            );
            if r.result is Ok && moved(ts, pos, r.pos) {
                lemma_statement_advances(ts, r.pos);
                let t = statement(ts, r.pos);
                if t.result is Ok && moved(ts, pos, t.pos) && check(ts, t.pos, TokenType::ELSE) {
                    lemma_statement_advances(ts, t.pos + 1);
                }
            }
        }
    }
}

proof fn lemma_while_statement_advances(ts: Seq<TokenView>, pos: int)
    ensures
        advances(while_statement(ts, pos), pos),
    decreases remaining(ts, pos), 0nat,
{
    let l = consume(ts, pos, TokenType::LEFT_PAREN, "Expect '(' after WHILE"@);
    if l.result is Ok {
        lemma_expression_advances(ts, l.pos);
        let c = expression(ts, l.pos);
        if c.result is Ok {
            let r = consume(
                ts,
                c.pos,
                TokenType::RIGHT_PAREN,
                "Expected ')' closing WHILE condition"@,
            );
            if r.result is Ok && moved(ts, pos, r.pos) {
                lemma_statement_advances(ts, r.pos);
            }
        }
    }
}

proof fn lemma_for_statement_advances(ts: Seq<TokenView>, pos: int)
    ensures
        advances(for_statement(ts, pos), pos),
    decreases remaining(ts, pos), 0nat,
{
    lemma_for_clauses_advances(ts, pos);
    let c = for_clauses(ts, pos);
    if c.result is Ok && moved(ts, pos, c.pos) {
        lemma_statement_advances(ts, c.pos);
    }
}

proof fn lemma_block_items_advances(ts: Seq<TokenView>, pos: int, done: Seq<StmtView>)
    ensures
        advances(block_items(ts, pos, done), pos),
    decreases remaining(ts, pos), 3nat,
{
    if !check(ts, pos, TokenType::RIGHT_BRACE) && !at_end(ts, pos) {
        lemma_declaration_advances(ts, pos);
        let d = declaration(ts, pos);
        if d.result is Ok && moved(ts, pos, d.pos) {
            lemma_block_items_advances(ts, d.pos, done.push(d.result->Ok_0));
        }
    }
}

proof fn lemma_func_declaration_advances(ts: Seq<TokenView>, pos: int)
    ensures
        advances(func_declaration(ts, pos), pos),
    decreases remaining(ts, pos), 0nat,
{
    let n = consume(ts, pos, TokenType::IDENTIFIER, "fun declaration lacking identifier"@);
    if n.result is Ok {
        let l = consume(
            ts,
            n.pos,
            TokenType::LEFT_PAREN,
            "expect '(' after func identifier decl"@,
        );
        if l.result is Ok {
            lemma_parameters_advances(ts, l.pos, ts[l.pos], Seq::empty());
            let p = parameters(ts, l.pos, ts[l.pos], Seq::empty());
            if p.result is Ok {
                let b = consume(
                    ts,
                    p.pos,
                    TokenType::LEFT_BRACE,
                    "Expected opening brace for func body"@,
                );
                if b.result is Ok && moved(ts, pos, b.pos) {
                    lemma_block_items_advances(ts, b.pos, Seq::empty());
                }
            }
        }
    }
}

proof fn lemma_statement_advances(ts: Seq<TokenView>, pos: int)
    ensures
        advances(statement(ts, pos), pos),
    decreases remaining(ts, pos), 1nat,
{
    if check(ts, pos, TokenType::PRINT) {
        lemma_simple_statements_advance(ts, pos + 1);
    } else if check(ts, pos, TokenType::LEFT_BRACE) {
        lemma_block_items_advances(ts, pos + 1, Seq::empty());
    } else if check(ts, pos, TokenType::IF) {
        lemma_if_statement_advances(ts, pos + 1);
    } else if check(ts, pos, TokenType::WHILE) {
        lemma_while_statement_advances(ts, pos + 1);
    } else if check(ts, pos, TokenType::FOR) {
        lemma_for_statement_advances(ts, pos + 1);
    } else {
        lemma_simple_statements_advance(ts, pos);
    }
}

/// Every declaration that parses takes at least one token, and one that
/// does not parse leaves the parser at or behind the place where it began.
pub proof fn lemma_declaration_advances(ts: Seq<TokenView>, pos: int)
    ensures
        advances(declaration(ts, pos), pos),
    decreases remaining(ts, pos), 2nat,
{
    if check(ts, pos, TokenType::VAR) {
        lemma_simple_statements_advance(ts, pos + 1);
    } else if check(ts, pos, TokenType::FUN) {
        lemma_func_declaration_advances(ts, pos + 1);
    } else {
        lemma_statement_advances(ts, pos);
    }
}

/// The place that `synchronise` finds is not before the error, and behind
/// it unless the tokens end there.
pub proof fn lemma_synchronise_advances(ts: Seq<TokenView>, pos: int)
    ensures
        synchronise(ts, pos) >= pos,
        !at_end(ts, pos) ==> synchronise(ts, pos) > pos,
{
    if !at_end(ts, pos) {
        lemma_boundary_advances(ts, pos + 1);
    }
}

proof fn lemma_boundary_advances(ts: Seq<TokenView>, pos: int)
    ensures
        boundary(ts, pos) >= pos,
    decreases remaining(ts, pos),
{
    if !at_end(ts, pos) && !(pos >= 1 && ts[pos - 1].token_type == TokenType::SEMICOLON)
        && !starts_statement(ts[pos].token_type) {
        lemma_boundary_advances(ts, pos + 1);
    }
}

/// To add `x` to the end of `a` is to put it in front of what follows.
pub proof fn lemma_push_concat<T>(a: Seq<T>, x: T, b: Seq<T>)
    ensures
        a.push(x) + b == a + (seq![x] + b),
{
    assert(a.push(x) + b =~= a + (seq![x] + b));
}

/// One step of `program`: the first declaration gives a statement or an
/// error, and the rest of the program follows it.
pub proof fn lemma_program_step(ts: Seq<TokenView>, pos: int)
    ensures
        at_end(ts, pos) ==> program(ts, pos) == (Program {
            statements: Seq::empty(),
            errors: Seq::empty(),
        }),
        !at_end(ts, pos) ==> ({
            let d = declaration(ts, pos);
            match d.result {
                Ok(s) => moved(ts, pos, d.pos) ==> program(ts, pos) == (Program {
                    statements: seq![s] + program(ts, d.pos).statements,
                    errors: program(ts, d.pos).errors,
                }),
                Err(e) => moved(ts, pos, synchronise(ts, d.pos)) ==> program(ts, pos) == (Program {
                    statements: program(ts, synchronise(ts, d.pos)).statements,
                    errors: seq![e] + program(ts, synchronise(ts, d.pos)).errors,
                }),
            }
        }),
{
    reveal(program);
}

/// Recovery: where the declaration at `pos` breaks the grammar, the
/// declaration at the place that `synchronise` finds behind it parses, and
/// the tokens end there, the program is that one statement, with the one
/// error of the first.
pub proof fn lemma_recovery(ts: Seq<TokenView>, pos: int)
    requires
        !at_end(ts, pos),
        declaration(ts, pos).result is Err,
        !at_end(ts, synchronise(ts, declaration(ts, pos).pos)),
        declaration(ts, synchronise(ts, declaration(ts, pos).pos)).result is Ok,
        at_end(ts, declaration(ts, synchronise(ts, declaration(ts, pos).pos)).pos),
    ensures
        program(ts, pos) == (Program {
            statements: seq![
                declaration(ts, synchronise(ts, declaration(ts, pos).pos)).result->Ok_0,
            ],
            errors: seq![declaration(ts, pos).result->Err_0],
        }),
{
    let first = declaration(ts, pos);
    let next = synchronise(ts, first.pos);
    let second = declaration(ts, next);
    lemma_declaration_advances(ts, pos);
    lemma_synchronise_advances(ts, first.pos);
    lemma_declaration_advances(ts, next);
    lemma_program_step(ts, pos);
    lemma_program_step(ts, next);
    lemma_program_step(ts, second.pos);
    assert(seq![second.result->Ok_0] + Seq::<StmtView>::empty() =~= seq![second.result->Ok_0]);
    assert(seq![first.result->Err_0] + Seq::<RuntimeErrorView>::empty() =~= seq![
        first.result->Err_0,
    ]);
}

/// Parses one list of tokens. `current` is the token to read next; the
/// errors of the statements that `parse` left out gather in `errors`.
pub struct Parser {
    tokens: Vec<Token>,
    current: usize,
    errors: Vec<RuntimeError>,
}

/// The view of a `Parser`.
pub struct ParserView {
    pub tokens: Seq<TokenView>,
    pub current: int,
    pub errors: Seq<RuntimeErrorView>,
}

/// The views of the errors of a list, in order.
pub open spec fn errors_view(errors: Seq<RuntimeError>) -> Seq<RuntimeErrorView> {
    errors.map_values(|e: RuntimeError| e@)
}

impl View for Parser {
    type V = ParserView;

    closed spec fn view(&self) -> ParserView {
        ParserView {
            tokens: tokens_view(self.tokens@),
            current: self.current as int,
            errors: errors_view(self.errors@),
        }
    }
}

impl ParserView {
    /// The tokens end in an end-of-file token, and the parser is at one of
    /// them.
    pub open spec fn wf(self) -> bool {
        well_formed(self.tokens) && 0 <= self.current < self.tokens.len()
    }
}

/// The view of what an option holds.
pub open spec fn option_view<T: View>(o: Option<T>) -> Option<T::V> {
    match o {
        Some(t) => Some(t@),
        None => None,
    }
}

/// What a parsing function returned, with the place where it stopped.
pub open spec fn outcome<T: View>(r: Result<T, RuntimeError>, pos: int) -> Parsed<T::V> {
    Parsed {
        result: match r {
            Ok(t) => Ok(t@),
            Err(e) => Err(e@),
        },
        pos,
    }
}

/// What a function that parses a list of expressions returned.
pub open spec fn exprs_outcome(r: Result<Vec<Expr>, RuntimeError>, pos: int) -> Parsed<Seq<ExprView>> {
    Parsed {
        result: match r {
            Ok(t) => Ok(exprs_view(t@)),
            Err(e) => Err(e@),
        },
        pos,
    }
}

/// What a function that parses a list of statements returned.
pub open spec fn stmts_outcome(r: Result<Vec<Stmt>, RuntimeError>, pos: int) -> Parsed<Seq<StmtView>> {
    Parsed {
        result: match r {
            Ok(t) => Ok(stmts_view(t@)),
            Err(e) => Err(e@),
        },
        pos,
    }
}

/// What a function that parses a list of tokens returned.
pub open spec fn tokens_outcome(r: Result<Vec<Token>, RuntimeError>, pos: int) -> Parsed<Seq<TokenView>> {
    Parsed {
        result: match r {
            Ok(t) => Ok(tokens_view(t@)),
            Err(e) => Err(e@),
        },
        pos,
    }
}

/// What the function that parses the first clause of a `for` returned.
pub open spec fn initializer_outcome(r: Result<Option<Stmt>, RuntimeError>, pos: int) -> Parsed<
    Option<StmtView>,
> {
    Parsed {
        result: match r {
            Ok(t) => Ok(option_view(t)),
            Err(e) => Err(e@),
        },
        pos,
    }
}

/// What the function that parses the clauses of a `for` returned.
pub open spec fn clauses_outcome(
    r: Result<(Option<Stmt>, Option<Expr>, Option<Expr>), RuntimeError>,
    pos: int,
) -> Parsed<ForClauses> {
    Parsed {
        result: match r {
            Ok(t) => Ok(
                ForClauses {
                    initializer: option_view(t.0),
                    condition: option_view(t.1),
                    increment: option_view(t.2),
                },
            ),
            Err(e) => Err(e@),
        },
        pos,
    }
}

/// Writes a `for` loop with `while`.
pub fn desugar(
    initializer: Option<Stmt>,
    condition: Option<Expr>,
    increment: Option<Expr>,
    body: Stmt,
) -> (r: Stmt)
    ensures
        r@ == desugar_for(
            ForClauses {
                initializer: option_view(initializer),
                condition: option_view(condition),
                increment: option_view(increment),
            },
            body@,
        ),
{
    let ghost inner = body@;
    let mut body = body;
    if let Some(inc) = increment {
        let parts = vec![body, Stmt::Expression(inc)];
        proof {
            crate::lox::ast::lemma_block_view(parts);
            assert(stmts_view(parts@) =~= seq![inner, StmtView::Expression(inc@)]);
        }
        body = Stmt::Block(parts);
    }
    let condition = match condition {
        Some(c) => c,
        None => Expr::Literal(Literal::Boolean(true)),
    };
    body = Stmt::While(WhileStmt { condition, body: Box::new(body) });
    if let Some(init) = initializer {
        let ghost looped = body@;
        let parts = vec![init, body];
        proof {
            crate::lox::ast::lemma_block_view(parts);
            assert(stmts_view(parts@) =~= seq![init@, looped]);
        }
        body = Stmt::Block(parts);
    }
    body
}

/// A parsing function took the parser from `pre` to `post` and gave `got`,
/// where the grammar asks for `want`: the two agree, the tokens and the
/// errors are as before, the parser has not gone back, and it has gone
/// forward if it gave a tree.
pub open spec fn parses<T>(pre: ParserView, post: ParserView, got: Parsed<T>, want: Parsed<T>) -> bool {
    &&& post.wf()
    &&& post.tokens == pre.tokens
    &&& post.errors == pre.errors
    &&& got == want
    &&& got.pos == post.current
    &&& pre.current <= post.current
    &&& got.result is Ok ==> pre.current < post.current
}

impl Parser {
    /// A parser at the first of `tokens`, which end in an end-of-file token.
    pub fn new(tokens: Vec<Token>) -> (r: Self)
        requires
            well_formed(tokens_view(tokens@)),
        ensures
            r@ == (ParserView { tokens: tokens_view(tokens@), current: 0, errors: Seq::empty() }),
            r@.wf(),
    {
        let r = Parser { tokens, current: 0, errors: Vec::new() };
        assert(r@.errors =~= Seq::empty());
        r
    }

    /// Parses the rest of the tokens as a program. The statements that
    /// parse are returned in order; each one that does not adds its error to
    /// the parser's errors.
    pub fn parse(&mut self) -> (out: Vec<Stmt>)
        requires
            old(self)@.wf(),
        ensures
            final(self)@.wf(),
            final(self)@.tokens == old(self)@.tokens,
            at_end(final(self)@.tokens, final(self)@.current),
            stmts_view(out@) == program(old(self)@.tokens, old(self)@.current).statements,
            final(self)@.errors == old(self)@.errors + program(
                old(self)@.tokens,
                old(self)@.current,
            ).errors,
    {
        let ghost ts = self@.tokens;
        let ghost start = self@;
        let ghost want = program(ts, self@.current);
        let mut out: Vec<Stmt> = Vec::new();
        assert(stmts_view(out@) + want.statements =~= want.statements);
        assert(self@.errors + want.errors =~= start.errors + want.errors);
        while !self.is_at_end()
            invariant
                self@.wf(),
                self@.tokens == ts,
                stmts_view(out@) + program(ts, self@.current).statements == want.statements,
                self@.errors + program(ts, self@.current).errors == start.errors + want.errors,
            decreases remaining(ts, self@.current),
        {
            let ghost before = self@;
            let ghost done = stmts_view(out@);
            let ghost rest = program(ts, before.current);
            proof {
                lemma_program_step(ts, before.current);
            }
            match self.declaration() {
                Ok(stmt) => {
                    out.push(stmt);
                    let ghost next = program(ts, self@.current);
                    assert(stmts_view(out@) =~= done.push(stmt@));
                    proof {
                        lemma_push_concat(done, stmt@, next.statements);
                    }
                },
                Err(e) => {
                    self.errors.push(e);
                    assert(self@.errors =~= before.errors.push(e@));
                    self.synchronise();
                    let ghost next = program(ts, self@.current);
                    proof {
                        lemma_push_concat(before.errors, e@, next.errors);
                    }
                },
            }
        }
        proof {
            lemma_program_step(ts, self@.current);
        }
        assert(stmts_view(out@) + program(ts, self@.current).statements =~= stmts_view(out@));
        assert(self@.errors + program(ts, self@.current).errors =~= self@.errors);
        out
    }

    /// The errors of the statements that `parse` left out, in order.
    pub fn errors(&self) -> (r: &Vec<RuntimeError>)
        ensures
            errors_view(r@) == self@.errors,
    {
        &self.errors
    }

    /// Passes over the tokens up to the next likely start of a statement.
    fn synchronise(&mut self)
        requires
            old(self)@.wf(),
        ensures
            final(self)@ == (ParserView {
                current: synchronise(old(self)@.tokens, old(self)@.current),
                ..old(self)@
            }),
            final(self)@.wf(),
            old(self)@.current <= final(self)@.current,
            !at_end(old(self)@.tokens, old(self)@.current) ==> old(self)@.current
                < final(self)@.current,
    {
        let ghost before = self@;
        let ghost ts = self@.tokens;
        self.advance();
        let ghost from = self@.current;
        while !self.is_at_end()
            invariant
                self@.wf(),
                self@ == (ParserView { current: self@.current, ..before }),
                before.tokens == ts,
                before == old(self)@,
                before.wf(),
                from <= self@.current,
                from == if at_end(ts, before.current) {
                    before.current
                } else {
                    before.current + 1
                },
                boundary(ts, self@.current) == boundary(ts, from),
            decreases remaining(ts, self@.current),
        {
            if self.previous().token_type == TokenType::SEMICOLON {
                return ;
            }
            match self.peek().token_type {
                TokenType::CLASS
                | TokenType::FUN
                | TokenType::VAR
                | TokenType::FOR
                | TokenType::IF
                | TokenType::WHILE
                | TokenType::PRINT
                | TokenType::RETURN => {
                    return ;
                },
                _ => {
                    self.advance();
                },
            }
        }
    }

    fn declaration(&mut self) -> (r: Result<Stmt, RuntimeError>)
        requires
            old(self)@.wf(),
        ensures
            parses(
                old(self)@,
                final(self)@,
                outcome(r, final(self)@.current),
                declaration(old(self)@.tokens, old(self)@.current),
            ),
        decreases remaining(old(self)@.tokens, old(self)@.current), 2nat,
    {
        if self.match_type(TokenType::VAR) {
            self.var_declaration()
        } else if self.match_type(TokenType::FUN) {
            self.func_declaration()
        } else {
            self.statement()
        }
    }

    /// What follows `var`.
    fn var_declaration(&mut self) -> (r: Result<Stmt, RuntimeError>)
        requires
            old(self)@.wf(),
        ensures
            parses(
                old(self)@,
                final(self)@,
                outcome(r, final(self)@.current),
                var_declaration(old(self)@.tokens, old(self)@.current),
            ),
    {
        let name = self.consume(TokenType::IDENTIFIER, "expected IDENTIFIER in var declaration")?;
        if self.match_type(TokenType::EQUAL) {
            let initializer = self.expression()?;
            self.consume(TokenType::SEMICOLON, "Expected ';' after value")?;
            Ok(Stmt::Var(Variable { name, initializer }))
        } else {
            // A variable that is not initialised starts as nil.
            let initializer = Expr::Literal(Literal::Nil);
            self.consume(TokenType::SEMICOLON, "Expected ';' after value")?;
            Ok(Stmt::Var(Variable { name, initializer }))
        }
    }

    /// What follows `fun`.
    fn func_declaration(&mut self) -> (r: Result<Stmt, RuntimeError>)
        requires
            old(self)@.wf(),
        ensures
            parses(
                old(self)@,
                final(self)@,
                outcome(r, final(self)@.current),
                func_declaration(old(self)@.tokens, old(self)@.current),
            ),
        decreases remaining(old(self)@.tokens, old(self)@.current), 0nat,
    {
        let name = self.consume(TokenType::IDENTIFIER, "fun declaration lacking identifier")?;
        self.consume(TokenType::LEFT_PAREN, "expect '(' after func identifier decl")?;
        let parameters = self.parameters()?;
        self.consume(TokenType::LEFT_BRACE, "Expected opening brace for func body")?;
        let body = self.block_items()?;
        let f = FuncStmt { name, parameters, body };
        proof {
            crate::lox::ast::lemma_func_view(f);
        }
        Ok(Stmt::Func(f))
    }

    /// The parameters of a function, up to and with the closing parenthesis.
    fn parameters(&mut self) -> (r: Result<Vec<Token>, RuntimeError>)
        requires
            old(self)@.wf(),
        ensures
            parses(
                old(self)@,
                final(self)@,
                tokens_outcome(r, final(self)@.current),
                parameters(
                    old(self)@.tokens,
                    old(self)@.current,
                    old(self)@.tokens[old(self)@.current],
                    Seq::empty(),
                ),
            ),
    {
        let ghost before = self@;
        let ghost ts = self@.tokens;
        let current = self.peek().clone();
        let mut names: Vec<Token> = Vec::new();
        assert(tokens_view(names@) =~= Seq::empty());
        while !self.check(TokenType::RIGHT_PAREN)
            invariant
                self@.wf(),
                self@ == (ParserView { current: self@.current, ..before }),
                before.tokens == ts,
                before == old(self)@,
                before.current <= self@.current,
                current@ == ts[before.current],
                parameters(ts, self@.current, current@, tokens_view(names@)) == parameters(
                    ts,
                    before.current,
                    current@,
                    Seq::empty(),
                ),
            decreases remaining(ts, self@.current),
        {
            if names.len() >= MAX_ARGUMENTS {
                return Err(
                    RuntimeError {
                        token: current.clone(),
                        message: String::from_str("too many arguments"),
                    },
                );
            }
            let ghost done = tokens_view(names@);
            let p = self.consume(
                TokenType::IDENTIFIER,
                "expected IDENTIFIER arg, got something else",
            )?;
            names.push(p);
            assert(tokens_view(names@) =~= done.push(p@));
            if self.check(TokenType::COMMA) {
                self.advance();
            }
        }
        self.consume(TokenType::RIGHT_PAREN, "Expected ')' after arguments")?;
        Ok(names)
    }

    fn statement(&mut self) -> (r: Result<Stmt, RuntimeError>)
        requires
            old(self)@.wf(),
        ensures
            parses(
                old(self)@,
                final(self)@,
                outcome(r, final(self)@.current),
                statement(old(self)@.tokens, old(self)@.current),
            ),
        decreases remaining(old(self)@.tokens, old(self)@.current), 1nat,
    {
        if self.match_type(TokenType::PRINT) {
            self.print_statement()
        } else if self.match_type(TokenType::LEFT_BRACE) {
            self.block_statement()
        } else if self.match_type(TokenType::IF) {
            self.if_statement()
        } else if self.match_type(TokenType::WHILE) {
            self.while_statement()
        } else if self.match_type(TokenType::FOR) {
            self.for_statement()
        } else {
            self.expr_statement()
        }
    }

    /// What follows `print`.
    fn print_statement(&mut self) -> (r: Result<Stmt, RuntimeError>)
        requires
            old(self)@.wf(),
        ensures
            parses(
                old(self)@,
                final(self)@,
                outcome(r, final(self)@.current),
                print_statement(old(self)@.tokens, old(self)@.current),
            ),
    {
        let expr = self.expression()?;
        self.consume(TokenType::SEMICOLON, "Expected ';' after value")?;
        Ok(Stmt::Print(expr))
    }

    /// What follows the opening brace of a block, as a block.
    fn block_statement(&mut self) -> (r: Result<Stmt, RuntimeError>)
        requires
            old(self)@.wf(),
        ensures
            parses(
                old(self)@,
                final(self)@,
                outcome(r, final(self)@.current),
                ({
                    let b = block_items(old(self)@.tokens, old(self)@.current, Seq::empty());
                    if b.result is Err {
                        failed(b)
                    } else {
                        ok(StmtView::Block(b.result->Ok_0), b.pos)
                    }
                }),
            ),
        decreases remaining(old(self)@.tokens, old(self)@.current), 4nat,
    {
        let statements = self.block_items()?;
        proof {
            crate::lox::ast::lemma_block_view(statements);
        }
        Ok(Stmt::Block(statements))
    }

    /// The statements of a block, up to and with the closing brace.
    fn block_items(&mut self) -> (r: Result<Vec<Stmt>, RuntimeError>)
        requires
            old(self)@.wf(),
        ensures
            parses(
                old(self)@,
                final(self)@,
                stmts_outcome(r, final(self)@.current),
                block_items(old(self)@.tokens, old(self)@.current, Seq::empty()),
            ),
        decreases remaining(old(self)@.tokens, old(self)@.current), 3nat,
    {
        let ghost before = self@;
        let ghost ts = self@.tokens;
        let mut statements: Vec<Stmt> = Vec::new();
        assert(stmts_view(statements@) =~= Seq::empty());
        while !self.check(TokenType::RIGHT_BRACE) && !self.is_at_end()
            invariant
                self@.wf(),
                self@ == (ParserView { current: self@.current, ..before }),
                before.tokens == ts,
                before == old(self)@,
                before.wf(),
                before.current <= self@.current,
                block_items(ts, self@.current, stmts_view(statements@)) == block_items(
                    ts,
                    before.current,
                    Seq::empty(),
                ),
            decreases remaining(ts, self@.current),
        {
            let ghost done = stmts_view(statements@);
            let d = self.declaration()?;
            statements.push(d);
            assert(stmts_view(statements@) =~= done.push(d@));
        }
        self.consume(TokenType::RIGHT_BRACE, "Expected '}' after block")?;
        Ok(statements)
    }

    /// What follows `if`.
    fn if_statement(&mut self) -> (r: Result<Stmt, RuntimeError>)
        requires
            old(self)@.wf(),
        ensures
            parses(
                old(self)@,
                final(self)@,
                outcome(r, final(self)@.current),
                if_statement(old(self)@.tokens, old(self)@.current),
            ),
        decreases remaining(old(self)@.tokens, old(self)@.current), 0nat,
    {
        self.consume(TokenType::LEFT_PAREN, "Expect '(' after IF")?;
        let condition = self.expression()?;
        self.consume(TokenType::RIGHT_PAREN, "Expected ')' closing IF condition")?;
        let if_branch = Box::new(self.statement()?);
        let else_branch = if self.match_type(TokenType::ELSE) {
            Some(Box::new(self.statement()?))
        } else {
            None
        };
        Ok(Stmt::If(IfStmt { condition, if_branch, else_branch }))
    }

    /// What follows `while`.
    fn while_statement(&mut self) -> (r: Result<Stmt, RuntimeError>)
        requires
            old(self)@.wf(),
        ensures
            parses(
                old(self)@,
                final(self)@,
                outcome(r, final(self)@.current),
                while_statement(old(self)@.tokens, old(self)@.current),
            ),
        decreases remaining(old(self)@.tokens, old(self)@.current), 0nat,
    {
        self.consume(TokenType::LEFT_PAREN, "Expect '(' after WHILE")?;
        let condition = self.expression()?;
        self.consume(TokenType::RIGHT_PAREN, "Expected ')' closing WHILE condition")?;
        let body = Box::new(self.statement()?);
        Ok(Stmt::While(WhileStmt { condition, body }))
    }

    /// What follows `for`: the loop, written with `while`.
    fn for_statement(&mut self) -> (r: Result<Stmt, RuntimeError>)
        requires
            old(self)@.wf(),
        ensures
            parses(
                old(self)@,
                final(self)@,
                outcome(r, final(self)@.current),
                for_statement(old(self)@.tokens, old(self)@.current),
            ),
        decreases remaining(old(self)@.tokens, old(self)@.current), 0nat,
    {
        let clauses = self.for_clauses()?;
        let body = self.statement()?;
        Ok(desugar(clauses.0, clauses.1, clauses.2, body))
    }

    /// The clauses of a `for`, up to and with the closing parenthesis: the
    /// initializer, the condition and the increment, each if it is there.
    fn for_clauses(&mut self) -> (r: Result<(Option<Stmt>, Option<Expr>, Option<Expr>), RuntimeError>)
        requires
            old(self)@.wf(),
        ensures
            parses(
                old(self)@,
                final(self)@,
                clauses_outcome(r, final(self)@.current),
                for_clauses(old(self)@.tokens, old(self)@.current),
            ),
    {
        self.consume(TokenType::LEFT_PAREN, "Expect '(' after FOR")?;
        let initializer = self.for_initializer()?;
        let condition = if !self.check(TokenType::SEMICOLON) {
            Some(self.expression()?)
        } else {
            None
        };
        self.consume(TokenType::SEMICOLON, "Expected ';' before increment in FOR")?;
        let increment = if !self.check(TokenType::RIGHT_PAREN) {
            Some(self.expression()?)
        } else {
            None
        };
        self.consume(TokenType::RIGHT_PAREN, "Expected final ')' in FOR")?;
        Ok((initializer, condition, increment))
    }

    /// The first clause of a `for`: a variable declaration, an expression
    /// statement, or nothing but the semicolon.
    fn for_initializer(&mut self) -> (r: Result<Option<Stmt>, RuntimeError>)
        requires
            old(self)@.wf(),
        ensures
            parses(
                old(self)@,
                final(self)@,
                initializer_outcome(r, final(self)@.current),
                for_initializer(old(self)@.tokens, old(self)@.current),
            ),
    {
        if self.match_type(TokenType::SEMICOLON) {
            Ok(None)
        } else if self.match_type(TokenType::VAR) {
            Ok(Some(self.var_declaration()?))
        } else {
            Ok(Some(self.expr_statement()?))
        }
    }

    fn expr_statement(&mut self) -> (r: Result<Stmt, RuntimeError>)
        requires
            old(self)@.wf(),
        ensures
            parses(
                old(self)@,
                final(self)@,
                outcome(r, final(self)@.current),
                expr_statement(old(self)@.tokens, old(self)@.current),
            ),
    {
        let expr = self.expression()?;
        self.consume(TokenType::SEMICOLON, "Expected ';' after expression")?;
        Ok(Stmt::Expression(expr))
    }

    /// Parses one expression; `None` if the tokens do not start with one.
    pub fn parse_expr(&mut self) -> (r: Option<Expr>)
        requires
            old(self)@.wf(),
        ensures
            final(self)@.wf(),
            final(self)@.tokens == old(self)@.tokens,
            final(self)@.errors == old(self)@.errors,
            final(self)@.current == expression(old(self)@.tokens, old(self)@.current).pos,
            match r {
                Some(e) => expression(old(self)@.tokens, old(self)@.current).result == Ok::<
                    ExprView,
                    RuntimeErrorView,
                >(e@),
                None => expression(old(self)@.tokens, old(self)@.current).result is Err,
            },
    {
        match self.expression() {
            Ok(e) => Some(e),
            Err(_) => None,
        }
    }

    fn expression(&mut self) -> (r: Result<Expr, RuntimeError>)
        requires
            old(self)@.wf(),
        ensures
            parses(
                old(self)@,
                final(self)@,
                outcome(r, final(self)@.current),
                expression(old(self)@.tokens, old(self)@.current),
            ),
        decreases remaining(old(self)@.tokens, old(self)@.current), 22nat,
    {
        self.assignment()
    }

    fn assignment(&mut self) -> (r: Result<Expr, RuntimeError>)
        requires
            old(self)@.wf(),
        ensures
            parses(
                old(self)@,
                final(self)@,
                outcome(r, final(self)@.current),
                assignment(old(self)@.tokens, old(self)@.current),
            ),
        decreases remaining(old(self)@.tokens, old(self)@.current), 21nat,
    {
        let expr = self.or()?;
        if self.match_type(TokenType::EQUAL) {
            let equals_token = self.previous();
            if let Expr::Variable(token) = expr {
                // The value is itself an assignment: `a = b = c` assigns
                // `b = c` to `a`.
                let right = self.assignment()?;
                Ok(Expr::Assign(Assign { name: token, value: Box::new(right) }))
            } else {
                Err(
                    RuntimeError {
                        token: equals_token,
                        message: String::from_str("Invalid assignment target."),
                    },
                )
            }
        } else {
            Ok(expr)
        }
    }

    fn or(&mut self) -> (r: Result<Expr, RuntimeError>)
        requires
            old(self)@.wf(),
        ensures
            parses(
                old(self)@,
                final(self)@,
                outcome(r, final(self)@.current),
                binary(old(self)@.tokens, old(self)@.current, LEVEL_OR),
            ),
        decreases remaining(old(self)@.tokens, old(self)@.current), 20nat,
    {
        self.binary(LEVEL_OR)
    }

    fn and(&mut self) -> (r: Result<Expr, RuntimeError>)
        requires
            old(self)@.wf(),
        ensures
            parses(
                old(self)@,
                final(self)@,
                outcome(r, final(self)@.current),
                binary(old(self)@.tokens, old(self)@.current, LEVEL_AND),
            ),
        decreases remaining(old(self)@.tokens, old(self)@.current), 17nat,
    {
        self.binary(LEVEL_AND)
    }

    fn equality(&mut self) -> (r: Result<Expr, RuntimeError>)
        requires
            old(self)@.wf(),
        ensures
            parses(
                old(self)@,
                final(self)@,
                outcome(r, final(self)@.current),
                binary(old(self)@.tokens, old(self)@.current, LEVEL_EQUALITY),
            ),
        decreases remaining(old(self)@.tokens, old(self)@.current), 14nat,
    {
        self.binary(LEVEL_EQUALITY)
    }

    fn comparison(&mut self) -> (r: Result<Expr, RuntimeError>)
        requires
            old(self)@.wf(),
        ensures
            parses(
                old(self)@,
                final(self)@,
                outcome(r, final(self)@.current),
                binary(old(self)@.tokens, old(self)@.current, LEVEL_COMPARISON),
            ),
        decreases remaining(old(self)@.tokens, old(self)@.current), 11nat,
    {
        self.binary(LEVEL_COMPARISON)
    }

    fn term(&mut self) -> (r: Result<Expr, RuntimeError>)
        requires
            old(self)@.wf(),
        ensures
            parses(
                old(self)@,
                final(self)@,
                outcome(r, final(self)@.current),
                binary(old(self)@.tokens, old(self)@.current, LEVEL_TERM),
            ),
        decreases remaining(old(self)@.tokens, old(self)@.current), 8nat,
    {
        self.binary(LEVEL_TERM)
    }

    fn factor(&mut self) -> (r: Result<Expr, RuntimeError>)
        requires
            old(self)@.wf(),
        ensures
            parses(
                old(self)@,
                final(self)@,
                outcome(r, final(self)@.current),
                binary(old(self)@.tokens, old(self)@.current, LEVEL_FACTOR),
            ),
        decreases remaining(old(self)@.tokens, old(self)@.current), 5nat,
    {
        self.binary(LEVEL_FACTOR)
    }

    /// An operand of the operators of level `level`.
    fn operand(&mut self, level: u8) -> (r: Result<Expr, RuntimeError>)
        requires
            old(self)@.wf(),
            level <= LEVEL_FACTOR,
        ensures
            parses(
                old(self)@,
                final(self)@,
                outcome(r, final(self)@.current),
                operand(old(self)@.tokens, old(self)@.current, level),
            ),
        decreases remaining(old(self)@.tokens, old(self)@.current), 3nat + 3 * (5 - level) as nat,
    {
        if level == LEVEL_OR {
            self.and()
        } else if level == LEVEL_AND {
            self.equality()
        } else if level == LEVEL_EQUALITY {
            self.comparison()
        } else if level == LEVEL_COMPARISON {
            self.term()
        } else if level == LEVEL_TERM {
            self.factor()
        } else {
            self.unary()
        }
    }

    /// Whether the next token is an operator of level `level`.
    fn at_operator(&self, level: u8) -> (r: bool)
        requires
            self@.wf(),
        ensures
            r == (!at_end(self@.tokens, self@.current) && is_operator(
                level,
                self@.tokens[self@.current].token_type,
            )),
    {
        if level == LEVEL_OR {
            self.check(TokenType::OR)
        } else if level == LEVEL_AND {
            self.check(TokenType::AND)
        } else if level == LEVEL_EQUALITY {
            self.check(TokenType::BANG_EQUAL) || self.check(TokenType::EQUAL_EQUAL)
        } else if level == LEVEL_COMPARISON {
            self.check(TokenType::GREATER) || self.check(TokenType::GREATER_EQUAL) || self.check(
                TokenType::LESS,
            ) || self.check(TokenType::LESS_EQUAL)
        } else if level == LEVEL_TERM {
            self.check(TokenType::MINUS) || self.check(TokenType::PLUS)
        } else {
            self.check(TokenType::STAR) || self.check(TokenType::SLASH)
        }
    }

    /// An expression made with the operators of level `level`: operands
    /// with operators between them, grouped to the left.
    fn binary(&mut self, level: u8) -> (r: Result<Expr, RuntimeError>)
        requires
            old(self)@.wf(),
            level <= LEVEL_FACTOR,
        ensures
            parses(
                old(self)@,
                final(self)@,
                outcome(r, final(self)@.current),
                binary(old(self)@.tokens, old(self)@.current, level),
            ),
        decreases remaining(old(self)@.tokens, old(self)@.current), 4nat + 3 * (5 - level) as nat,
    {
        let ghost before = self@;
        let ghost ts = self@.tokens;
        let mut expr = self.operand(level)?;
        while self.at_operator(level)
            invariant
                self@.wf(),
                self@ == (ParserView { current: self@.current, ..before }),
                before.tokens == ts,
                before == old(self)@,
                before.wf(),
                before.current < self@.current,
                level <= LEVEL_FACTOR,
                binary_tail(ts, self@.current, level, expr@) == binary(ts, before.current, level),
            decreases remaining(ts, self@.current),
        {
            let operator = self.advance();
            let right = self.operand(level)?;
            expr = if level <= LEVEL_AND {
                Expr::Logical(Logical { operator, left: Box::new(expr), right: Box::new(right) })
            } else {
                Expr::Binary(Binary { operator, left: Box::new(expr), right: Box::new(right) })
            };
        }
        Ok(expr)
    }

    fn unary(&mut self) -> (r: Result<Expr, RuntimeError>)
        requires
            old(self)@.wf(),
        ensures
            parses(
                old(self)@,
                final(self)@,
                outcome(r, final(self)@.current),
                unary(old(self)@.tokens, old(self)@.current),
            ),
        decreases remaining(old(self)@.tokens, old(self)@.current), 2nat,
    {
        if self.match_types(&[TokenType::BANG, TokenType::MINUS]) {
            let operator = self.previous();
            let right = self.unary()?;
            return Ok(Expr::Unary(Unary { operator, right: Box::new(right) }));
        }
        self.call()
    }

    fn call(&mut self) -> (r: Result<Expr, RuntimeError>)
        requires
            old(self)@.wf(),
        ensures
            parses(
                old(self)@,
                final(self)@,
                outcome(r, final(self)@.current),
                call(old(self)@.tokens, old(self)@.current),
            ),
        decreases remaining(old(self)@.tokens, old(self)@.current), 1nat,
    {
        let ghost before = self@;
        let ghost ts = self@.tokens;
        let mut callee = self.primary()?;
        while self.check(TokenType::LEFT_PAREN)
            invariant
                self@.wf(),
                self@ == (ParserView { current: self@.current, ..before }),
                before.tokens == ts,
                before == old(self)@,
                before.wf(),
                before.current < self@.current,
                call_tail(ts, self@.current, callee@) == call(ts, before.current),
            decreases remaining(ts, self@.current),
        {
            self.advance();
            let args: Vec<Expr> = self.finish_call()?;
            let paren = self.previous();
            let c = Call { callee: Box::new(callee), paren, arguments: args };
            proof {
                crate::lox::ast::lemma_call_view(c);
            }
            callee = Expr::Call(c);
        }
        Ok(callee)
    }

    /// The arguments of a call, up to and with the closing parenthesis.
    fn finish_call(&mut self) -> (r: Result<Vec<Expr>, RuntimeError>)
        requires
            old(self)@.wf(),
        ensures
            parses(
                old(self)@,
                final(self)@,
                exprs_outcome(r, final(self)@.current),
                arguments(
                    old(self)@.tokens,
                    old(self)@.current,
                    old(self)@.tokens[old(self)@.current],
                    Seq::empty(),
                ),
            ),
        decreases remaining(old(self)@.tokens, old(self)@.current), 23nat,
    {
        let ghost before = self@;
        let ghost ts = self@.tokens;
        let current = self.peek().clone();
        let mut args: Vec<Expr> = Vec::new();
        assert(exprs_view(args@) =~= Seq::empty());
        while !self.check(TokenType::RIGHT_PAREN)
            invariant
                self@.wf(),
                self@ == (ParserView { current: self@.current, ..before }),
                before.tokens == ts,
                before == old(self)@,
                before.wf(),
                before.current <= self@.current,
                current@ == ts[before.current],
                arguments(ts, self@.current, current@, exprs_view(args@)) == arguments(
                    ts,
                    before.current,
                    current@,
                    Seq::empty(),
                ),
            decreases remaining(ts, self@.current),
        {
            if args.len() >= MAX_ARGUMENTS {
                return Err(
                    RuntimeError {
                        token: current.clone(),
                        message: String::from_str("too many arguments"),
                    },
                );
            }
            let ghost done = exprs_view(args@);
            let e = self.expression()?;
            args.push(e);
            assert(exprs_view(args@) =~= done.push(e@));
            if self.check(TokenType::COMMA) {
                self.advance();
            }
        }
        self.consume(TokenType::RIGHT_PAREN, "Expected ')' after arguments")?;
        Ok(args)
    }

    fn primary(&mut self) -> (r: Result<Expr, RuntimeError>)
        requires
            old(self)@.wf(),
        ensures
            parses(
                old(self)@,
                final(self)@,
                outcome(r, final(self)@.current),
                primary(old(self)@.tokens, old(self)@.current),
            ),
        decreases remaining(old(self)@.tokens, old(self)@.current), 0nat,
    {
        let current_token = self.peek();
        let out_token = match current_token.token_type {
            TokenType::FALSE => Expr::Literal(Literal::Boolean(false)),
            TokenType::TRUE => Expr::Literal(Literal::Boolean(true)),
            TokenType::NIL => Expr::Literal(Literal::Nil),
            TokenType::NUMBER | TokenType::STRING => Expr::Literal(current_token.literal.clone()),
            TokenType::LEFT_PAREN => {
                self.advance();
                let expr = self.expression()?;
                self.consume(TokenType::RIGHT_PAREN, "Expect ')' after expression.")?;
                return Ok(Expr::Grouping(Grouping(Box::new(expr))));
            },
            TokenType::IDENTIFIER => Expr::Variable(current_token.clone()),
            _ => {
                return Err(
                    RuntimeError {
                        token: current_token.clone(),
                        message: String::from_str("primary unable to match"),
                    },
                );
            },
        };
        self.advance();
        Ok(out_token)
    }

    /// Passes over the next token if it is of kind `token_type`; else gives
    /// an error at that token, with `message`.
    fn consume(&mut self, token_type: TokenType, message: &str) -> (r: Result<Token, RuntimeError>)
        requires
            old(self)@.wf(),
        ensures
            parses(
                old(self)@,
                final(self)@,
                outcome(r, final(self)@.current),
                consume(old(self)@.tokens, old(self)@.current, token_type, message@),
            ),
    {
        if self.check(token_type) {
            return Ok(self.advance());
        }
        let token = self.peek();
        Err(RuntimeError { token: token.clone(), message: String::from_str(message) })
    }

    /// Passes over the next token if it is of kind `token_type`.
    fn match_type(&mut self, token_type: TokenType) -> (r: bool)
        requires
            old(self)@.wf(),
        ensures
            r == check(old(self)@.tokens, old(self)@.current, token_type),
            final(self)@ == (ParserView {
                current: if r {
                    old(self)@.current + 1
                } else {
                    old(self)@.current
                },
                ..old(self)@
            }),
            final(self)@.wf(),
    {
        if self.check(token_type) {
            self.advance();
            return true;
        }
        false
    }

    /// Passes over the next token if its kind is one of `types`.
    fn match_types(&mut self, types: &[TokenType]) -> (r: bool)
        requires
            old(self)@.wf(),
        ensures
            r == (exists|i: int| 0 <= i < types@.len() && check(old(self)@.tokens, old(self)@.current, #[trigger] types@[i])),
            final(self)@ == (ParserView {
                current: if r {
                    old(self)@.current + 1
                } else {
                    old(self)@.current
                },
                ..old(self)@
            }),
            final(self)@.wf(),
    {
        let mut i: usize = 0;
        while i < types.len()
            invariant
                self@ == old(self)@,
                self@.wf(),
                i <= types@.len(),
                forall|j: int| 0 <= j < i ==> !check(self@.tokens, self@.current, #[trigger] types@[j]),
            decreases types.len() - i,
        {
            if self.check(types[i]) {
                self.advance();
                return true;
            }
            i += 1;
        }
        false
    }

    /// Whether the next token is of kind `token_type`.
    fn check(&self, token_type: TokenType) -> (r: bool)
        requires
            self@.wf(),
        ensures
            r == check(self@.tokens, self@.current, token_type),
    {
        if self.is_at_end() {
            return false;
        }
        self.peek().token_type == token_type
    }

    /// Passes over the next token, unless it is the end of the tokens, and
    /// returns it.
    fn advance(&mut self) -> (r: Token)
        requires
            old(self)@.wf(),
        ensures
            r@ == old(self)@.tokens[old(self)@.current],
            final(self)@ == (ParserView {
                current: if at_end(old(self)@.tokens, old(self)@.current) {
                    old(self)@.current
                } else {
                    old(self)@.current + 1
                },
                ..old(self)@
            }),
            final(self)@.wf(),
    {
        let token = self.peek().clone();
        if !self.is_at_end() {
            assert(self.current < self.tokens.len() - 1);
            self.current += 1;
        }
        token
    }

    fn is_at_end(&self) -> (r: bool)
        requires
            self@.wf(),
        ensures
            r == at_end(self@.tokens, self@.current),
    {
        self.peek().token_type == TokenType::EOF
    }

    /// The next token.
    fn peek(&self) -> (r: &Token)
        requires
            self@.wf(),
        ensures
            r@ == self@.tokens[self@.current],
    {
        &self.tokens[self.current]
    }

    /// The token before the next.
    fn previous(&self) -> (r: Token)
        requires
            self@.wf(),
            self@.current >= 1,
        ensures
            r@ == self@.tokens[self@.current - 1],
    {
        self.tokens[self.current - 1].clone()
    }
}

} // verus!
