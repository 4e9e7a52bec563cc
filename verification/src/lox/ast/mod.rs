//! The syntax tree: expressions and statements, with their mathematical
//! views, in which lists are sequences and strings are sequences of
//! characters.

use vstd::prelude::*;
use crate::token_type::{Literal, LiteralView, Token, TokenView, tokens_view};
use crate::scanner::clone_tokens;

pub mod environment;
pub mod interpreter;
pub mod machine;
pub mod parser;
pub mod printer;
pub mod semantics;
pub mod shadowing;

verus! {

broadcast use vstd::std_specs::vec::group_vec_axioms;

#[derive(Debug)]
/// A statement.
pub enum Stmt {
    Expression(Expr),
    Print(Expr),
    Var(Variable),
    Block(Vec<Stmt>),
    If(IfStmt),
    While(WhileStmt),
    Func(FuncStmt),
}

/// A function declaration: `fun name(parameters) { body }`.
#[derive(Debug)]
pub struct FuncStmt {
    pub name: Token,
    pub parameters: Vec<Token>,
    pub body: Vec<Stmt>,
}

#[derive(Debug)]
/// A loop: `while (condition) body`.
pub struct WhileStmt {
    pub condition: Expr,
    pub body: Box<Stmt>,
}

/// A conditional. A branch of several statements is a block.
#[derive(Debug)]
pub struct IfStmt {
    pub condition: Expr,
    pub if_branch: Box<Stmt>,
    pub else_branch: Option<Box<Stmt>>,
}

/// A variable declaration: `var name = initializer;`. Where no initializer
/// was written it is the literal nil.
#[derive(Debug)]
pub struct Variable {
    pub name: Token,
    pub initializer: Expr,
}

#[derive(Debug)]
/// An expression.
pub enum Expr {
    Assign(Assign),
    Logical(Logical),
    Binary(Binary),
    Unary(Unary),
    Call(Call),
    Grouping(Grouping),
    Literal(Literal),
    Variable(Token),
}

/// A call; `paren` is the closing parenthesis, which places an error.
#[derive(Debug)]
pub struct Call {
    pub callee: Box<Expr>,
    pub paren: Token,
    pub arguments: Vec<Expr>,
}

/// An assignment `name = value`, which is an expression with the value
/// assigned.
#[derive(Debug)]
pub struct Assign {
    pub name: Token,
    pub value: Box<Expr>,
}

/// `left and right` or `left or right`.
#[derive(Debug)]
pub struct Logical {
    pub operator: Token,
    pub left: Box<Expr>,
    pub right: Box<Expr>,
}

#[derive(Debug)]
/// A binary operation: `left operator right`.
pub struct Binary {
    pub operator: Token,
    pub left: Box<Expr>,
    pub right: Box<Expr>,
}

#[derive(Debug)]
/// A unary operation: `operator right`.
pub struct Unary {
    pub operator: Token,
    pub right: Box<Expr>,
}

#[derive(Debug)]
/// An expression in parentheses.
pub struct Grouping(pub Box<Expr>);

/// The view of an `Expr`.
pub enum ExprView {
    Assign { name: TokenView, value: Box<ExprView> },
    Logical { operator: TokenView, left: Box<ExprView>, right: Box<ExprView> },
    Binary { operator: TokenView, left: Box<ExprView>, right: Box<ExprView> },
    Unary { operator: TokenView, right: Box<ExprView> },
    Call { callee: Box<ExprView>, paren: TokenView, arguments: Seq<ExprView> },
    Grouping(Box<ExprView>),
    Literal(LiteralView),
    Variable(TokenView),
}

/// The view of a `Stmt`.
#[allow(inconsistent_fields)]
pub enum StmtView {
    Expression(ExprView),
    Print(ExprView),
    Var { name: TokenView, initializer: ExprView },
    Block(Seq<StmtView>),
    If { condition: ExprView, if_branch: Box<StmtView>, else_branch: Option<Box<StmtView>> },
    While { condition: ExprView, body: Box<StmtView> },
    Func { name: TokenView, parameters: Seq<TokenView>, body: Seq<StmtView> },
}

/// The view of an expression.
pub open spec fn expr_view(e: Expr) -> ExprView
    decreases e,
{
    match e {
        Expr::Assign(a) => ExprView::Assign { name: a.name@, value: Box::new(expr_view(*a.value)) },
        Expr::Logical(l) => ExprView::Logical {
            operator: l.operator@,
            left: Box::new(expr_view(*l.left)),
            right: Box::new(expr_view(*l.right)),
        },
        Expr::Binary(b) => ExprView::Binary {
            operator: b.operator@,
            left: Box::new(expr_view(*b.left)),
            right: Box::new(expr_view(*b.right)),
        },
        Expr::Unary(u) => ExprView::Unary { operator: u.operator@, right: Box::new(expr_view(*u.right)) },
        Expr::Call(c) => ExprView::Call {
            callee: Box::new(expr_view(*c.callee)),
            paren: c.paren@,
            arguments: Seq::new(
                c.arguments@.len(),
                |i: int|
                    if 0 <= i < c.arguments@.len() {
                        expr_view(c.arguments@[i])
                    } else {
                        ExprView::Literal(LiteralView::Nil)
                    },
            ),
        },
        Expr::Grouping(g) => ExprView::Grouping(Box::new(expr_view(*g.0))),
        Expr::Literal(l) => ExprView::Literal(l@),
        Expr::Variable(t) => ExprView::Variable(t@),
    }
}

/// The views of the expressions of a list, in order.
pub open spec fn exprs_view(es: Seq<Expr>) -> Seq<ExprView> {
    Seq::new(es.len(), |i: int| expr_view(es[i]))
}

/// The view of a statement.
pub open spec fn stmt_view(s: Stmt) -> StmtView
    decreases s,
{
    match s {
        Stmt::Expression(e) => StmtView::Expression(expr_view(e)),
        Stmt::Print(e) => StmtView::Print(expr_view(e)),
        Stmt::Var(v) => StmtView::Var { name: v.name@, initializer: expr_view(v.initializer) },
        Stmt::Block(b) => StmtView::Block(
            Seq::new(
                b@.len(),
                |i: int|
                    if 0 <= i < b@.len() {
                        stmt_view(b@[i])
                    } else {
                        StmtView::Block(Seq::empty())
                    },
            ),
        ),
        Stmt::If(f) => StmtView::If {
            condition: expr_view(f.condition),
            if_branch: Box::new(stmt_view(*f.if_branch)),
            else_branch: match f.else_branch {
                Some(e) => Some(Box::new(stmt_view(*e))),
                None => None,
            },
        },
        Stmt::While(w) => StmtView::While {
            condition: expr_view(w.condition),
            body: Box::new(stmt_view(*w.body)),
        },
        Stmt::Func(f) => StmtView::Func {
            name: f.name@,
            parameters: tokens_view(f.parameters@),
            body: Seq::new(
                f.body@.len(),
                |i: int|
                    if 0 <= i < f.body@.len() {
                        stmt_view(f.body@[i])
                    } else {
                        StmtView::Block(Seq::empty())
                    },
            ),
        },
    }
}

/// The views of the statements of a list, in order.
pub open spec fn stmts_view(ss: Seq<Stmt>) -> Seq<StmtView> {
    Seq::new(ss.len(), |i: int| stmt_view(ss[i]))
}

impl View for Expr {
    type V = ExprView;

    open spec fn view(&self) -> ExprView {
        expr_view(*self)
    }
}

impl View for Stmt {
    type V = StmtView;

    open spec fn view(&self) -> StmtView {
        stmt_view(*self)
    }
}

/// The arguments of a call are viewed one by one.
pub proof fn lemma_call_view(c: Call)
    ensures
        Expr::Call(c)@ == (ExprView::Call {
            callee: Box::new(c.callee@),
            paren: c.paren@,
            arguments: exprs_view(c.arguments@),
        }),
{
    assert(Expr::Call(c)@->Call_arguments =~= exprs_view(c.arguments@));
}

/// The statements of a block are viewed one by one.
pub proof fn lemma_block_view(b: Vec<Stmt>)
    ensures
        Stmt::Block(b)@ == StmtView::Block(stmts_view(b@)),
{
    assert(Stmt::Block(b)@->Block_0 =~= stmts_view(b@));
}

/// The statements of a function's body are viewed one by one.
pub proof fn lemma_func_view(f: FuncStmt)
    ensures
        Stmt::Func(f)@ == (StmtView::Func {
            name: f.name@,
            parameters: tokens_view(f.parameters@),
            body: stmts_view(f.body@),
        }),
{
    assert(Stmt::Func(f)@->Func_body =~= stmts_view(f.body@));
}

/// A copy of an expression.
pub fn clone_expr(e: &Expr) -> (r: Expr)
    ensures
        r@ == e@,
    decreases e,
{
    match e {
        Expr::Assign(a) => Expr::Assign(
            Assign { name: a.name.clone(), value: Box::new(clone_expr(&a.value)) },
        ),
        Expr::Logical(l) => Expr::Logical(
            Logical {
                operator: l.operator.clone(),
                left: Box::new(clone_expr(&l.left)),
                right: Box::new(clone_expr(&l.right)),
            },
        ),
        Expr::Binary(b) => Expr::Binary(
            Binary {
                operator: b.operator.clone(),
                left: Box::new(clone_expr(&b.left)),
                right: Box::new(clone_expr(&b.right)),
            },
        ),
        Expr::Unary(u) => Expr::Unary(
            Unary { operator: u.operator.clone(), right: Box::new(clone_expr(&u.right)) },
        ),
        Expr::Call(c) => {
            let mut arguments: Vec<Expr> = Vec::new();
            let mut i: usize = 0;
            while i < c.arguments.len()
                invariant
                    i <= c.arguments.len(),
                    arguments@.len() == i,
                    forall|j: int| 0 <= j < i ==> (#[trigger] arguments@[j])@ == c.arguments@[j]@,
                    *e == Expr::Call(*c),
                decreases c.arguments.len() - i,
            {
                assert(decreases_to!(c.arguments => c.arguments[i as int]));
                assert(decreases_to!(*e => e->Call_0));
                assert(decreases_to!(e->Call_0 => e->Call_0.arguments));
                assert(decreases_to!(*e => c.arguments[i as int]));
                arguments.push(clone_expr(&c.arguments[i]));
                i += 1;
            }
            let r = Expr::Call(
                Call { callee: Box::new(clone_expr(&c.callee)), paren: c.paren.clone(), arguments },
            );
            proof {
                lemma_call_view(*c);
                lemma_call_view(r->Call_0);
                assert(exprs_view(arguments@) =~= exprs_view(c.arguments@));
            }
            r
        },
        Expr::Grouping(g) => Expr::Grouping(Grouping(Box::new(clone_expr(&g.0)))),
        Expr::Literal(l) => Expr::Literal(l.clone()),
        Expr::Variable(t) => Expr::Variable(t.clone()),
    }
}

/// A copy of a statement.
pub fn clone_stmt(s: &Stmt) -> (r: Stmt)
    ensures
        r@ == s@,
    decreases s, 1nat,
{
    match s {
        Stmt::Expression(e) => Stmt::Expression(clone_expr(e)),
        Stmt::Print(e) => Stmt::Print(clone_expr(e)),
        Stmt::Var(v) => Stmt::Var(
            Variable { name: v.name.clone(), initializer: clone_expr(&v.initializer) },
        ),
        Stmt::Block(b) => {
            let body = clone_stmts_of(s, b);
            let r = Stmt::Block(body);
            proof {
                lemma_block_view(*b);
                lemma_block_view(body);
            }
            r
        },
        Stmt::If(f) => Stmt::If(
            IfStmt {
                condition: clone_expr(&f.condition),
                if_branch: Box::new(clone_stmt(&f.if_branch)),
                else_branch: match &f.else_branch {
                    Some(e) => Some(Box::new(clone_stmt(e))),
                    None => None,
                },
            },
        ),
        Stmt::While(w) => Stmt::While(
            WhileStmt { condition: clone_expr(&w.condition), body: Box::new(clone_stmt(&w.body)) },
        ),
        Stmt::Func(f) => {
            let body = clone_stmts_of(s, &f.body);
            let r = Stmt::Func(
                FuncStmt { name: f.name.clone(), parameters: clone_tokens(&f.parameters), body },
            );
            proof {
                lemma_func_view(*f);
                lemma_func_view(r->Func_0);
            }
            r
        },
    }
}

/// A copy of the statements `ss`, which are part of `parent`.
fn clone_stmts_of(parent: &Stmt, ss: &Vec<Stmt>) -> (r: Vec<Stmt>)
    requires
        forall|i: int| 0 <= i < ss@.len() ==> decreases_to!(*parent => #[trigger] ss@[i]),
    ensures
        stmts_view(r@) == stmts_view(ss@),
    decreases *parent, 0nat,
{
    let mut out: Vec<Stmt> = Vec::new();
    let mut i: usize = 0;
    while i < ss.len()
        invariant
            i <= ss.len(),
            out@.len() == i,
            forall|j: int| 0 <= j < i ==> (#[trigger] out@[j])@ == ss@[j]@,
            forall|i: int| 0 <= i < ss@.len() ==> decreases_to!(*parent => #[trigger] ss@[i]),
        decreases ss.len() - i,
    {
        out.push(clone_stmt(&ss[i]));
        i += 1;
    }
    assert(stmts_view(out@) =~= stmts_view(ss@));
    out
}

/// A copy of a list of statements.
pub fn clone_stmts(ss: &Vec<Stmt>) -> (r: Vec<Stmt>)
    ensures
        stmts_view(r@) == stmts_view(ss@),
{
    let mut out: Vec<Stmt> = Vec::new();
    let mut i: usize = 0;
    while i < ss.len()
        invariant
            i <= ss.len(),
            out@.len() == i,
            forall|j: int| 0 <= j < i ==> (#[trigger] out@[j])@ == ss@[j]@,
        decreases ss.len() - i,
    {
        out.push(clone_stmt(&ss[i]));
        i += 1;
    }
    assert(stmts_view(out@) =~= stmts_view(ss@));
    out
}

impl Clone for Expr {
    fn clone(&self) -> (r: Self)
        ensures
            r@ == self@,
    {
        clone_expr(self)
    }
}

impl Clone for Stmt {
    fn clone(&self) -> (r: Self)
        ensures
            r@ == self@,
    {
        clone_stmt(self)
    }
}

} // verus!
