//! Prints an expression in prefix form, every operation in parentheses of
//! its own.

use vstd::prelude::*;
use vstd::string::*;
use crate::token_type::{Literal, LiteralView};
use crate::lox::ast::{Expr, ExprView, exprs_view};

verus! {

/// The text of a literal: a string as it is, a number as it was written,
/// `true`, `false` or `nil`.
pub open spec fn literal_text(l: LiteralView) -> Seq<char> {
    match l {
        LiteralView::String(s) => s,
        LiteralView::Number(n) => n,
        LiteralView::Boolean(b) => if b {
            "true"@
        } else {
            "false"@
        },
        LiteralView::Nil => "nil"@,
    }
}

/// The parts in order, a space before each.
pub open spec fn spaced(parts: Seq<Seq<char>>) -> Seq<char>
    decreases parts.len(),
{
    if parts.len() == 0 {
        Seq::empty()
    } else {
        spaced(parts.drop_last()) + " "@ + parts.last()
    }
}

/// `(name part part ...)`.
pub open spec fn parenthesized(name: Seq<char>, parts: Seq<Seq<char>>) -> Seq<char> {
    "("@ + name + spaced(parts) + ")"@
}

/// The printed form of an expression. A call prints its arguments and not
/// what is called.
pub open spec fn printed(e: ExprView) -> Seq<char>
    decreases e,
{
    match e {
        ExprView::Assign { name, value } => parenthesized(
            "assign="@,
            seq!["var:"@ + name.lexeme, printed(*value)],
        ),
        ExprView::Logical { operator, left, right } => parenthesized(
            operator.lexeme,
            seq![printed(*left), printed(*right)],
        ),
        ExprView::Binary { operator, left, right } => parenthesized(
            operator.lexeme,
            seq![printed(*left), printed(*right)],
        ),
        ExprView::Unary { operator, right } => parenthesized(operator.lexeme, seq![printed(*right)]),
        ExprView::Call { callee, paren, arguments } => parenthesized(
            "func_call with args"@,
            printed_all(arguments),
        ),
        ExprView::Grouping(inner) => parenthesized("group"@, seq![printed(*inner)]),
        ExprView::Literal(l) => literal_text(l),
        ExprView::Variable(t) => "var:"@ + t.lexeme,
    }
}

/// The printed forms of the expressions of a list, in order.
pub open spec fn printed_all(es: Seq<ExprView>) -> Seq<Seq<char>>
    decreases es,
{
    Seq::new(
        es.len(),
        |i: int|
            if 0 <= i < es.len() {
                printed(es[i])
            } else {
                Seq::empty()
            },
    )
}

/// The printed forms of the first `n` of `es`.
pub open spec fn printed_prefix(es: Seq<ExprView>, n: int) -> Seq<Seq<char>> {
    Seq::new(n as nat, |i: int| printed(es[i]))
}

proof fn lemma_spaced_one(a: Seq<char>)
    ensures
        spaced(seq![a]) == " "@ + a,
{
    assert(seq![a].drop_last() =~= Seq::<Seq<char>>::empty());
    assert(spaced(Seq::<Seq<char>>::empty()) =~= Seq::<char>::empty());
    assert(spaced(seq![a]) =~= " "@ + a);
}

proof fn lemma_spaced_two(a: Seq<char>, b: Seq<char>)
    ensures
        spaced(seq![a, b]) == " "@ + a + " "@ + b,
{
    assert(seq![a, b].drop_last() =~= seq![a]);
    lemma_spaced_one(a);
}

proof fn lemma_spaced_push(parts: Seq<Seq<char>>, a: Seq<char>)
    ensures
        spaced(parts.push(a)) == spaced(parts) + " "@ + a,
{
    assert(parts.push(a).drop_last() =~= parts);
}

/// Prints expressions.
pub struct Printer;

impl Printer {
/// The printed form of `expr`.
    pub fn print(&mut self, expr: &Expr) -> (r: String)
        ensures
            r@ == printed(expr@),
        decreases expr,
    {
        match expr {
            Expr::Assign(assignment) => {
                let mut s = String::from_str("(");
                s.append("assign=");
                s.append(" ");
                s.append("var:");
                s.append(assignment.name.lexeme.as_str());
                s.append(" ");
                let value = self.print(&assignment.value);
                s.append(value.as_str());
                s.append(")");
                proof {
                    lemma_spaced_two("var:"@ + assignment.name.lexeme@, value@);
                    assert(s@ =~= printed(expr@));
                }
                s
            },
            Expr::Logical(logical) => {
                let mut s = String::from_str("(");
                s.append(logical.operator.lexeme.as_str());
                s.append(" ");
                let left = self.print(&logical.left);
                s.append(left.as_str());
                s.append(" ");
                let right = self.print(&logical.right);
                s.append(right.as_str());
                s.append(")");
                proof {
                    lemma_spaced_two(left@, right@);
                    assert(s@ =~= printed(expr@));
                }
                s
            },
            Expr::Binary(binary) => {
                let mut s = String::from_str("(");
                s.append(binary.operator.lexeme.as_str());
                s.append(" ");
                let left = self.print(&binary.left);
                s.append(left.as_str());
                s.append(" ");
                let right = self.print(&binary.right);
                s.append(right.as_str());
                s.append(")");
                proof {
                    lemma_spaced_two(left@, right@);
                    assert(s@ =~= printed(expr@));
                }
                s
            },
            Expr::Unary(unary) => {
                let mut s = String::from_str("(");
                s.append(unary.operator.lexeme.as_str());
                s.append(" ");
                let right = self.print(&unary.right);
                s.append(right.as_str());
                s.append(")");
                proof {
                    lemma_spaced_one(right@);
                    assert(s@ =~= printed(expr@));
                }
                s
            },
            Expr::Call(call) => {
                let mut s = String::from_str("(");
                s.append("func_call with args");
                let ghost args = exprs_view(call.arguments@);
                proof {
                    crate::lox::ast::lemma_call_view(*call);
                    assert(printed_prefix(args, 0) =~= Seq::empty());
                }
                let mut i: usize = 0;
                while i < call.arguments.len()
                    invariant
                        i <= call.arguments.len(),
                        *expr == Expr::Call(*call),
                        args == exprs_view(call.arguments@),
                        s@ == "("@ + "func_call with args"@ + spaced(
                            printed_prefix(args, i as int),
                        ),
                    decreases call.arguments.len() - i,
                {
                    assert(decreases_to!(*expr => expr->Call_0));
                    assert(decreases_to!(expr->Call_0 => expr->Call_0.arguments));
                    assert(decreases_to!(call.arguments => call.arguments[i as int]));
                    let part = self.print(&call.arguments[i]);
                    s.append(" ");
                    s.append(part.as_str());
                    proof {
                        lemma_spaced_push(printed_prefix(args, i as int), part@);
                        assert(printed_prefix(args, i + 1) =~= printed_prefix(args, i as int).push(
                            part@,
                        ));
                        assert(s@ =~= "("@ + "func_call with args"@ + spaced(
                            printed_prefix(args, i + 1),
                        ));
                    }
                    i += 1;
                }
                s.append(")");
                proof {
                    crate::lox::ast::lemma_call_view(*call);
                    assert(printed_prefix(args, call.arguments.len() as int) =~= printed_all(
                        args,
                    ));
                    assert(s@ =~= printed(expr@));
                }
                s
            },
            Expr::Grouping(grouping) => {
                let mut s = String::from_str("(");
                s.append("group");
                s.append(" ");
                let inner = self.print(&grouping.0);
                s.append(inner.as_str());
                s.append(")");
                proof {
                    lemma_spaced_one(inner@);
                    assert(s@ =~= printed(expr@));
                }
                s
            },
            Expr::Literal(literal) => match literal {
                Literal::String(val) => val.clone(),
                Literal::Number(val) => val.clone(),
                Literal::Nil => String::from_str("nil"),
                Literal::Boolean(val) => if *val {
                    String::from_str("true")
                } else {
                    String::from_str("false")
                },
            },
            Expr::Variable(token) => {
                let mut s = String::from_str("var:");
                s.append(token.lexeme.as_str());
                s
            },
        }
    }
}

} // verus!
