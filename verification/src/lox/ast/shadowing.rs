//! Shadowing: a variable that a block declares hides the variable of that
//! name outside the block, and only inside the block. When the block has
//! ended, the outer variable is there again, with the value it had.
//!
//! This is shown for the blocks whose statements make no calls: a function
//! that was declared outside the block assigns to the outer variable, and
//! so does an assignment that stands before the declaration.

use vstd::prelude::*;
use crate::token_type::{truthy, TokenView, ValueView};
use crate::lox::ast::environment::{
    lemma_changes, lemma_define_in, lemma_position_from, lemma_resolve, lookup_in, position,
    EnvironmentView,
};
use crate::lox::ast::machine::CallableView;
use crate::lox::ast::semantics::{
    eval, exec, exec_all, exec_loop, lemma_eval_keeps_scope, lemma_exec_all_keeps_scope,
    lemma_exec_keeps_scope, lemma_exec_loop_keeps_scope, Host,
};
use crate::lox::ast::{ExprView, StmtView};

verus! {

/// Whether the expression makes no call and, unless `free`, assigns
/// nowhere to the name `x`.
pub open spec fn gentle(e: ExprView, x: Seq<char>, free: bool) -> bool
    decreases e,
{
    match e {
        ExprView::Assign { name, value } => (free || name.lexeme != x) && gentle(*value, x, free),
        ExprView::Logical { operator, left, right } => gentle(*left, x, free) && gentle(
            *right,
            x,
            free,
        ),
        ExprView::Binary { operator, left, right } => gentle(*left, x, free) && gentle(
            *right,
            x,
            free,
        ),
        ExprView::Unary { operator, right } => gentle(*right, x, free),
        ExprView::Call { .. } => false,
        ExprView::Grouping(inner) => gentle(*inner, x, free),
        ExprView::Literal(_) => true,
        ExprView::Variable(_) => true,
    }
}

/// Whether the statement makes no call and, unless `free`, assigns nowhere
/// to the name `x`. The body of a function that is declared does not
/// count: no call runs it.
pub open spec fn gentle_statement(s: StmtView, x: Seq<char>, free: bool) -> bool
    decreases s,
{
    match s {
        StmtView::Expression(e) => gentle(e, x, free),
        StmtView::Print(e) => gentle(e, x, free),
        StmtView::Var { name, initializer } => gentle(initializer, x, free),
        StmtView::Block(statements) => all_gentle(statements, x, free),
        StmtView::If { condition, if_branch, else_branch } => gentle(condition, x, free)
            && gentle_statement(*if_branch, x, free) && match else_branch {
            Some(e) => gentle_statement(*e, x, free),
            None => true,
        },
        StmtView::While { condition, body } => gentle(condition, x, free) && gentle_statement(
            *body,
            x,
            free,
        ),
        StmtView::Func { .. } => true,
    }
}

/// Whether each of the statements is gentle.
pub open spec fn all_gentle(statements: Seq<StmtView>, x: Seq<char>, free: bool) -> bool
    decreases statements,
{
    forall|i: int|
        0 <= i < statements.len() ==> gentle_statement(#[trigger] statements[i], x, free)
}

/// Whether the scope `home` has a variable `x`.
pub open spec fn bound_at(env: EnvironmentView, home: int, x: Seq<char>) -> bool {
    position(env.scopes[home].bindings, x) is Some
}

/// Whether the first `count` scopes of `env`, but for the scope `home`,
/// are to the name `x` what they are in `base`: each is inside the same
/// scope and has the same `x`, or none.
pub open spec fn same_outside(
    base: EnvironmentView,
    env: EnvironmentView,
    x: Seq<char>,
    home: int,
    count: int,
) -> bool {
    forall|i: int|
        0 <= i < count ==> (#[trigger] env.scopes[i]).enclosing == base.scopes[i].enclosing && (i
            != home ==> lookup_in(env.scopes[i].bindings, x) == lookup_in(
            base.scopes[i].bindings,
            x,
        ))
}

/// Whether every scope of `env` from the `count`-th on is inside `home` or
/// inside another of these scopes.
pub open spec fn chained(env: EnvironmentView, home: int, count: int) -> bool {
    forall|i: int|
        count <= i < env.scopes.len() ==> ((#[trigger] env.scopes[i]).enclosing matches Some(p)
            && (p == home || p >= count))
}

/// The program runs in `home` or in a scope that was entered from there,
/// and has left the scopes around `home` as they are in `base`, as far as
/// the name `x` goes.
pub open spec fn kept(
    base: EnvironmentView,
    env: EnvironmentView,
    x: Seq<char>,
    home: int,
    count: int,
) -> bool {
    &&& env.wf()
    &&& 0 <= home < count <= env.scopes.len()
    &&& count <= base.scopes.len()
    &&& env.current == home || env.current >= count
    &&& same_outside(base, env, x, home, count)
    &&& chained(env, home, count)
}

/// Where `home` has a variable `x`, the name `x` is looked up in `home` or
/// in a scope that was entered from there.
proof fn lemma_resolve_shielded(env: EnvironmentView, x: Seq<char>, home: int, count: int, scope: int)
    requires
        env.wf(),
        0 <= home < count <= env.scopes.len(),
        chained(env, home, count),
        bound_at(env, home, x),
        scope == home || count <= scope < env.scopes.len(),
    ensures
        env.resolve(scope, x) matches Some(s) && (s == home || count <= s < env.scopes.len()),
    decreases scope,
{
    if scope != home && position(env.scopes[scope].bindings, x) is None {
        let p = env.scopes[scope].enclosing->Some_0;
        lemma_resolve_shielded(env, x, home, count, p);
    }
}

/// A variable that is set in a scope leaves the variable `x` of the scope
/// there if it was there, and as it was if it is another variable.
proof fn lemma_set_keeps(
    env: EnvironmentView,
    scope: int,
    name: Seq<char>,
    value: ValueView,
    x: Seq<char>,
)
    requires
        0 <= scope < env.scopes.len(),
    ensures
        ({
            let after = env.with_bindings(
                scope,
                crate::lox::ast::environment::define_in(env.scopes[scope].bindings, name, value),
            );
            &&& after.scopes.len() == env.scopes.len()
            &&& after.current == env.current
            &&& forall|i: int|
                0 <= i < env.scopes.len() ==> (#[trigger] after.scopes[i]).enclosing
                    == env.scopes[i].enclosing
            &&& forall|i: int|
                0 <= i < env.scopes.len() && i != scope ==> #[trigger] after.scopes[i]
                    == env.scopes[i]
            &&& name != x ==> lookup_in(after.scopes[scope].bindings, x) == lookup_in(
                env.scopes[scope].bindings,
                x,
            )
            &&& position(env.scopes[scope].bindings, x) is Some ==> position(
                after.scopes[scope].bindings,
                x,
            ) is Some
        }),
{
    lemma_define_in(env.scopes[scope].bindings, name, value, x);
}

/// To define a variable where the program runs keeps the scopes around
/// `home`.
#[verifier::rlimit(40)]
proof fn lemma_define_keeps(
    base: EnvironmentView,
    env: EnvironmentView,
    x: Seq<char>,
    home: int,
    count: int,
    name: Seq<char>,
    value: ValueView,
)
    requires
        kept(base, env, x, home, count),
    ensures
        kept(base, env.define(name, value), x, home, count),
        bound_at(env, home, x) ==> bound_at(env.define(name, value), home, x),
        env.current == home && name == x ==> bound_at(env.define(name, value), home, x),
{
    let after = env.define(name, value);
    lemma_changes(env, name, value, 0);
    lemma_set_keeps(env, env.current, name, value, x);
    lemma_define_in(env.scopes[env.current].bindings, name, value, name);
    assert forall|i: int| 0 <= i < count implies (#[trigger] after.scopes[i]).enclosing
        == base.scopes[i].enclosing && (i != home ==> lookup_in(after.scopes[i].bindings, x)
        == lookup_in(base.scopes[i].bindings, x)) by {
        assert(env.scopes[i].enclosing == base.scopes[i].enclosing);
        if i != env.current {
            assert(after.scopes[i] == env.scopes[i]);
        }
    }
    assert forall|i: int| count <= i < after.scopes.len() implies ((
    #[trigger] after.scopes[i]).enclosing matches Some(p) && (p == home || p >= count)) by {
        assert(env.scopes[i].enclosing matches Some(p) && (p == home || p >= count));
    }
}

/// To assign to a variable keeps the scopes around `home`, if the variable
/// is not `x`, or if `home` has an `x`.
#[verifier::rlimit(40)]
proof fn lemma_assign_keeps(
    base: EnvironmentView,
    env: EnvironmentView,
    x: Seq<char>,
    home: int,
    count: int,
    name: Seq<char>,
    value: ValueView,
)
    requires
        kept(base, env, x, home, count),
        name != x || bound_at(env, home, x),
    ensures
        env.assign(name, value) matches Some(after) ==> kept(base, after, x, home, count) && (
        bound_at(env, home, x) ==> bound_at(after, home, x)),
{
    lemma_changes(env, name, value, 0);
    lemma_resolve(env, env.current, name);
    if env.assign(name, value) is Some {
        let s = env.resolve(env.current, name)->Some_0;
        let after = env.assign(name, value)->Some_0;
        lemma_set_keeps(env, s, name, value, x);
        if name == x {
            lemma_resolve_shielded(env, x, home, count, env.current);
        }
        assert forall|i: int| 0 <= i < count implies (#[trigger] after.scopes[i]).enclosing
            == base.scopes[i].enclosing && (i != home ==> lookup_in(after.scopes[i].bindings, x)
            == lookup_in(base.scopes[i].bindings, x)) by {
            assert(env.scopes[i].enclosing == base.scopes[i].enclosing);
            if i != s {
                assert(after.scopes[i] == env.scopes[i]);
            }
        }
        assert forall|i: int| count <= i < after.scopes.len() implies ((
        #[trigger] after.scopes[i]).enclosing matches Some(p) && (p == home || p >= count)) by {
            assert(env.scopes[i].enclosing matches Some(p) && (p == home || p >= count));
        }
        if s != home {
            assert(after.scopes[home] == env.scopes[home]);
        }
    }
}

/// To enter a scope from where the program runs, to leave it again, and to
/// mark the scope in which the program runs keep the scopes around `home`.
#[verifier::rlimit(40)]
proof fn lemma_scopes_keep(
    base: EnvironmentView,
    env: EnvironmentView,
    x: Seq<char>,
    home: int,
    count: int,
    to: int,
)
    requires
        kept(base, env, x, home, count),
    ensures
        kept(base, env.enter(env.current), x, home, count),
        bound_at(env, home, x) ==> bound_at(env.enter(env.current), home, x),
        kept(base, env.capture(), x, home, count),
        bound_at(env, home, x) ==> bound_at(env.capture(), home, x),
        (to == home || to >= count) ==> kept(base, env.leave(to), x, home, count) && (bound_at(
            env,
            home,
            x,
        ) ==> bound_at(env.leave(to), home, x)),
{
    lemma_changes(env, Seq::empty(), ValueView::Nil, env.current);
    lemma_changes(env, Seq::empty(), ValueView::Nil, to);
    let entered = env.enter(env.current);
    assert forall|i: int| 0 <= i < count implies (#[trigger] entered.scopes[i]).enclosing
        == base.scopes[i].enclosing && (i != home ==> lookup_in(entered.scopes[i].bindings, x)
        == lookup_in(base.scopes[i].bindings, x)) by {
        assert(entered.scopes[i] == env.scopes[i]);
    }
    assert forall|i: int| count <= i < entered.scopes.len() implies ((
    #[trigger] entered.scopes[i]).enclosing matches Some(p) && (p == home || p >= count)) by {
        if i < env.scopes.len() {
            assert(entered.scopes[i] == env.scopes[i]);
        }
    }
    let marked = env.capture();
    assert forall|i: int| 0 <= i < count implies (#[trigger] marked.scopes[i]).enclosing
        == base.scopes[i].enclosing && (i != home ==> lookup_in(marked.scopes[i].bindings, x)
        == lookup_in(base.scopes[i].bindings, x)) by {
        assert(env.scopes[i].enclosing == base.scopes[i].enclosing);
    }
    assert forall|i: int| count <= i < marked.scopes.len() implies ((
    #[trigger] marked.scopes[i]).enclosing matches Some(p) && (p == home || p >= count)) by {
        assert(env.scopes[i].enclosing matches Some(p) && (p == home || p >= count));
    }
    if to == home || to >= count {
        let left = env.leave(to);
        assert forall|i: int| 0 <= i < count implies (#[trigger] left.scopes[i]).enclosing
            == base.scopes[i].enclosing && (i != home ==> lookup_in(left.scopes[i].bindings, x)
            == lookup_in(base.scopes[i].bindings, x)) by {
            assert(left.scopes[i] == env.scopes[i]);
        }
        assert forall|i: int| count <= i < left.scopes.len() implies ((
        #[trigger] left.scopes[i]).enclosing matches Some(p) && (p == home || p >= count)) by {
            assert(left.scopes[i] == env.scopes[i]);
        }
    }
}

/// What holds of an evaluation or an execution that is complete: the
/// scopes around `home` are kept, the program runs where it ran, and
/// `home` still has its `x` if it had one.
pub open spec fn keeps(
    base: EnvironmentView,
    before: EnvironmentView,
    after: EnvironmentView,
    complete: bool,
    x: Seq<char>,
    home: int,
    count: int,
) -> bool {
    complete ==> kept(base, after, x, home, count) && after.current == before.current && (
    bound_at(before, home, x) ==> bound_at(after, home, x))
}

/// A gentle expression keeps the scopes around `home`.
#[verifier::rlimit(40)]
pub proof fn lemma_eval_keeps(
    e: ExprView,
    base: EnvironmentView,
    env: EnvironmentView,
    callables: Seq<CallableView>,
    h: Host,
    turns: nat,
    x: Seq<char>,
    home: int,
    count: int,
)
    requires
        kept(base, env, x, home, count),
        gentle(e, x, bound_at(env, home, x)),
    ensures
        keeps(
            base,
            env,
            eval(e, env, callables, h, turns).environment,
            eval(e, env, callables, h, turns).complete,
            x,
            home,
            count,
        ),
        eval(e, env, callables, h, turns).callables == callables,
    decreases e,
{
    lemma_eval_keeps_scope(e, env, callables, h, turns);
    match e {
        ExprView::Literal(_) => {},
        ExprView::Variable(_) => {},
        ExprView::Call { .. } => {},
        ExprView::Grouping(inner) => {
            lemma_eval_keeps(*inner, base, env, callables, h, turns, x, home, count);
        },
        ExprView::Unary { operator, right } => {
            lemma_eval_keeps(*right, base, env, callables, h, turns, x, home, count);
        },
        ExprView::Assign { name, value } => {
            lemma_eval_keeps(*value, base, env, callables, h, turns, x, home, count);
            let v = eval(*value, env, callables, h, turns);
            if v.complete && v.result is Ok {
                lemma_changes(v.environment, name.lexeme, v.result->Ok_0, 0);
                lemma_assign_keeps(
                    base,
                    v.environment,
                    x,
                    home,
                    count,
                    name.lexeme,
                    v.result->Ok_0,
                );
            }
        },
        ExprView::Logical { operator, left, right } => {
            lemma_eval_keeps(*left, base, env, callables, h, turns, x, home, count);
            let l = eval(*left, env, callables, h, turns);
            if l.complete && l.result is Ok {
                lemma_gentle_free(*right, x, bound_at(env, home, x), bound_at(
                    l.environment,
                    home,
                    x,
                ));
                lemma_eval_keeps(*right, base, l.environment, callables, h, turns, x, home, count);
                lemma_eval_keeps_scope(*right, l.environment, callables, h, turns);
            }
        },
        ExprView::Binary { operator, left, right } => {
            lemma_eval_keeps(*left, base, env, callables, h, turns, x, home, count);
            let l = eval(*left, env, callables, h, turns);
            if l.complete && l.result is Ok {
                lemma_gentle_free(*right, x, bound_at(env, home, x), bound_at(
                    l.environment,
                    home,
                    x,
                ));
                lemma_eval_keeps(*right, base, l.environment, callables, h, turns, x, home, count);
                lemma_eval_keeps_scope(*right, l.environment, callables, h, turns);
            }
        },
    }
}

/// An expression that is gentle where it must not assign to `x` is gentle
/// where it may.
pub proof fn lemma_gentle_free(e: ExprView, x: Seq<char>, free: bool, freer: bool)
    requires
        gentle(e, x, free),
        free ==> freer,
    ensures
        gentle(e, x, freer),
    decreases e,
{
    match e {
        ExprView::Assign { name, value } => {
            lemma_gentle_free(*value, x, free, freer);
        },
        ExprView::Logical { operator, left, right } => {
            lemma_gentle_free(*left, x, free, freer);
            lemma_gentle_free(*right, x, free, freer);
        },
        ExprView::Binary { operator, left, right } => {
            lemma_gentle_free(*left, x, free, freer);
            lemma_gentle_free(*right, x, free, freer);
        },
        ExprView::Unary { operator, right } => {
            lemma_gentle_free(*right, x, free, freer);
        },
        ExprView::Grouping(inner) => {
            lemma_gentle_free(*inner, x, free, freer);
        },
        _ => {},
    }
}

/// A statement that is gentle where it must not assign to `x` is gentle
/// where it may.
pub proof fn lemma_gentle_statement_free(s: StmtView, x: Seq<char>, free: bool, freer: bool)
    requires
        gentle_statement(s, x, free),
        free ==> freer,
    ensures
        gentle_statement(s, x, freer),
    decreases s,
{
    match s {
        StmtView::Expression(e) => {
            lemma_gentle_free(e, x, free, freer);
        },
        StmtView::Print(e) => {
            lemma_gentle_free(e, x, free, freer);
        },
        StmtView::Var { name, initializer } => {
            lemma_gentle_free(initializer, x, free, freer);
        },
        StmtView::Block(statements) => {
            assert(all_gentle(statements, x, free));
            assert forall|i: int| 0 <= i < statements.len() implies gentle_statement(
                #[trigger] statements[i],
                x,
                freer,
            ) by {
                assert(gentle_statement(statements[i], x, free));
                lemma_gentle_statement_free(statements[i], x, free, freer);
            }
            assert(all_gentle(statements, x, freer));
        },
        StmtView::If { condition, if_branch, else_branch } => {
            lemma_gentle_free(condition, x, free, freer);
            lemma_gentle_statement_free(*if_branch, x, free, freer);
            match else_branch {
                Some(e) => {
                    lemma_gentle_statement_free(*e, x, free, freer);
                },
                None => {},
            }
        },
        StmtView::While { condition, body } => {
            lemma_gentle_free(condition, x, free, freer);
            lemma_gentle_statement_free(*body, x, free, freer);
        },
        StmtView::Func { .. } => {},
    }
}


/// A gentle statement keeps the scopes around `home`: what it defines, it
/// defines where the program runs; what it assigns to is not the outer
/// `x`; and the blocks it enters, it leaves again.
#[verifier::rlimit(40)]
pub proof fn lemma_exec_keeps(
    s: StmtView,
    base: EnvironmentView,
    env: EnvironmentView,
    callables: Seq<CallableView>,
    h: Host,
    turns: nat,
    x: Seq<char>,
    home: int,
    count: int,
    free: bool,
)
    requires
        kept(base, env, x, home, count),
        gentle_statement(s, x, free),
        free ==> bound_at(env, home, x),
    ensures
        keeps(
            base,
            env,
            exec(s, env, callables, h, turns).environment,
            exec(s, env, callables, h, turns).complete,
            x,
            home,
            count,
        ),
    decreases turns, s, 2nat,
{
    let bound = bound_at(env, home, x);
    lemma_exec_keeps_scope(s, env, callables, h, turns);
    match s {
        StmtView::Expression(e) => {
            lemma_gentle_free(e, x, free, bound);
            lemma_eval_keeps(e, base, env, callables, h, turns, x, home, count);
        },
        StmtView::Print(e) => {
            lemma_gentle_free(e, x, free, bound);
            lemma_eval_keeps(e, base, env, callables, h, turns, x, home, count);
        },
        StmtView::Var { name, initializer } => {
            lemma_gentle_free(initializer, x, free, bound);
            lemma_eval_keeps(initializer, base, env, callables, h, turns, x, home, count);
            let v = eval(initializer, env, callables, h, turns);
            if v.complete && v.result is Ok {
                lemma_define_keeps(
                    base,
                    v.environment,
                    x,
                    home,
                    count,
                    name.lexeme,
                    v.result->Ok_0,
                );
                lemma_changes(v.environment, name.lexeme, v.result->Ok_0, 0);
            }
        },
        StmtView::Block(statements) => {
            let entered = env.enter(env.current);
            lemma_scopes_keep(base, env, x, home, count, env.current);
            lemma_changes(env, Seq::empty(), ValueView::Nil, env.current);
            lemma_exec_all_keeps(
                statements,
                0,
                base,
                entered,
                callables,
                h,
                turns,
                x,
                home,
                count,
                free,
            );
            lemma_exec_all_keeps_scope(statements, 0, entered, callables, h, turns);
            let inner = exec_all(statements, 0, entered, callables, h, turns);
            if inner.complete {
                lemma_scopes_keep(base, inner.environment, x, home, count, env.current);
                lemma_changes(inner.environment, Seq::empty(), ValueView::Nil, env.current);
            }
        },
        StmtView::If { condition, if_branch, else_branch } => {
            lemma_gentle_free(condition, x, free, bound);
            lemma_eval_keeps(condition, base, env, callables, h, turns, x, home, count);
            let c = eval(condition, env, callables, h, turns);
            if c.complete && c.result is Ok {
                if truthy(c.result->Ok_0) {
                    lemma_exec_keeps(
                        *if_branch,
                        base,
                        c.environment,
                        c.callables,
                        h,
                        turns,
                        x,
                        home,
                        count,
                        free,
                    );
                } else {
                    match else_branch {
                        Some(e) => {
                            lemma_exec_keeps(
                                *e,
                                base,
                                c.environment,
                                c.callables,
                                h,
                                turns,
                                x,
                                home,
                                count,
                                free,
                            );
                        },
                        None => {},
                    }
                }
            }
        },
        StmtView::While { condition, body } => {
            lemma_exec_loop_keeps(s, base, env, callables, h, turns, x, home, count, free);
        },
        StmtView::Func { name, parameters, body } => {
            lemma_scopes_keep(base, env, x, home, count, env.current);
            lemma_changes(env, name.lexeme, ValueView::Nil, 0);
            lemma_define_keeps(
                base,
                env.capture(),
                x,
                home,
                count,
                name.lexeme,
                ValueView::Callable(callables.len() as int),
            );
        },
    }
}

/// A list of gentle statements keeps the scopes around `home`.
pub proof fn lemma_exec_all_keeps(
    statements: Seq<StmtView>,
    i: int,
    base: EnvironmentView,
    env: EnvironmentView,
    callables: Seq<CallableView>,
    h: Host,
    turns: nat,
    x: Seq<char>,
    home: int,
    count: int,
    free: bool,
)
    requires
        kept(base, env, x, home, count),
        all_gentle(statements, x, free),
        free ==> bound_at(env, home, x),
    ensures
        keeps(
            base,
            env,
            exec_all(statements, i, env, callables, h, turns).environment,
            exec_all(statements, i, env, callables, h, turns).complete,
            x,
            home,
            count,
        ),
    decreases turns, statements, statements.len() - i,
{
    if 0 <= i < statements.len() {
        lemma_exec_keeps(statements[i], base, env, callables, h, turns, x, home, count, free);
        let first = exec(statements[i], env, callables, h, turns);
        if first.complete && first.result is Ok {
            lemma_exec_all_keeps(
                statements,
                i + 1,
                base,
                first.environment,
                first.callables,
                h,
                turns,
                x,
                home,
                count,
                free,
            );
        }
    }
}

/// A gentle loop keeps the scopes around `home`.
pub proof fn lemma_exec_loop_keeps(
    s: StmtView,
    base: EnvironmentView,
    env: EnvironmentView,
    callables: Seq<CallableView>,
    h: Host,
    turns: nat,
    x: Seq<char>,
    home: int,
    count: int,
    free: bool,
)
    requires
        kept(base, env, x, home, count),
        gentle_statement(s, x, free),
        free ==> bound_at(env, home, x),
    ensures
        keeps(
            base,
            env,
            exec_loop(s, env, callables, h, turns).environment,
            exec_loop(s, env, callables, h, turns).complete,
            x,
            home,
            count,
        ),
    decreases turns, s, 1nat,
{
    match s {
        StmtView::While { condition, body } => {
            lemma_gentle_free(condition, x, free, bound_at(env, home, x));
            lemma_eval_keeps(condition, base, env, callables, h, turns, x, home, count);
            let c = eval(condition, env, callables, h, turns);
            if c.complete && c.result is Ok && truthy(c.result->Ok_0) {
                lemma_exec_keeps(
                    *body,
                    base,
                    c.environment,
                    c.callables,
                    h,
                    turns,
                    x,
                    home,
                    count,
                    free,
                );
                let b = exec(*body, c.environment, c.callables, h, turns);
                if b.complete && b.result is Ok && turns > 0 {
                    lemma_exec_loop_keeps(
                        s,
                        base,
                        b.environment,
                        b.callables,
                        h,
                        (turns - 1) as nat,
                        x,
                        home,
                        count,
                        free,
                    );
                }
            }
        },
        _ => {},
    }
}

/// Whether the statement declares the variable `x`, with an initializer
/// that makes no call and does not assign to `x`.
pub open spec fn declares(s: StmtView, x: Seq<char>) -> bool {
    s matches StmtView::Var { name, initializer } && name.lexeme == x && gentle(
        initializer,
        x,
        false,
    )
}

/// Whether the statements of a block shadow `x` from the `d`-th on: that
/// one declares `x`; none of them makes a call; and those before it do not
/// assign to `x`. Those after it may: they assign to the `x` of the block.
pub open spec fn shadows(statements: Seq<StmtView>, d: int, x: Seq<char>) -> bool {
    &&& 0 <= d < statements.len()
    &&& declares(statements[d], x)
    &&& forall|j: int| 0 <= j < d ==> gentle_statement(#[trigger] statements[j], x, false)
    &&& forall|j: int|
        d < j < statements.len() ==> gentle_statement(#[trigger] statements[j], x, true)
}

/// The statements of a block that shadows `x`, from the `i`-th on, keep
/// the scopes around the block.
proof fn lemma_statements_shadow(
    statements: Seq<StmtView>,
    i: int,
    d: int,
    base: EnvironmentView,
    env: EnvironmentView,
    callables: Seq<CallableView>,
    h: Host,
    turns: nat,
    x: Seq<char>,
    home: int,
    count: int,
)
    requires
        shadows(statements, d, x),
        0 <= i <= statements.len(),
        kept(base, env, x, home, count),
        env.current == home,
        i > d ==> bound_at(env, home, x),
    ensures
        keeps(
            base,
            env,
            exec_all(statements, i, env, callables, h, turns).environment,
            exec_all(statements, i, env, callables, h, turns).complete,
            x,
            home,
            count,
        ),
    decreases statements.len() - i,
{
    if i < statements.len() {
        let first = exec(statements[i], env, callables, h, turns);
        lemma_exec_keeps_scope(statements[i], env, callables, h, turns);
        if i < d {
            lemma_exec_keeps(statements[i], base, env, callables, h, turns, x, home, count, false);
        } else if i == d {
            let name = statements[i]->Var_name;
            let initializer = statements[i]->Var_initializer;
            lemma_gentle_free(initializer, x, false, bound_at(env, home, x));
            lemma_eval_keeps(initializer, base, env, callables, h, turns, x, home, count);
            let v = eval(initializer, env, callables, h, turns);
            if v.complete && v.result is Ok {
                lemma_define_keeps(
                    base,
                    v.environment,
                    x,
                    home,
                    count,
                    name.lexeme,
                    v.result->Ok_0,
                );
                lemma_changes(v.environment, name.lexeme, v.result->Ok_0, 0);
            }
        } else {
            lemma_exec_keeps(statements[i], base, env, callables, h, turns, x, home, count, true);
        }
        if first.complete && first.result is Ok {
            lemma_statements_shadow(
                statements,
                i + 1,
                d,
                base,
                first.environment,
                first.callables,
                h,
                turns,
                x,
                home,
                count,
            );
        }
    }
}

/// Two environments in which the scopes up to `scope` are inside the same
/// scopes and have the same `x` look `x` up alike from `scope`.
proof fn lemma_resolve_alike(a: EnvironmentView, b: EnvironmentView, scope: int, x: Seq<char>)
    requires
        a.wf(),
        0 <= scope < a.scopes.len(),
        scope < b.scopes.len(),
        forall|i: int|
            0 <= i <= scope ==> (#[trigger] b.scopes[i]).enclosing == a.scopes[i].enclosing
                && lookup_in(b.scopes[i].bindings, x) == lookup_in(a.scopes[i].bindings, x),
    ensures
        a.resolve(scope, x) == b.resolve(scope, x),
        a.resolve(scope, x) matches Some(s) ==> 0 <= s <= scope && lookup_in(
            a.scopes[s].bindings,
            x,
        ) == lookup_in(b.scopes[s].bindings, x),
    decreases scope,
{
    assert(b.scopes[scope].enclosing == a.scopes[scope].enclosing);
    if position(a.scopes[scope].bindings, x) is None {
        match a.scopes[scope].enclosing {
            Some(p) => {
                lemma_resolve_alike(a, b, p, x);
            },
            None => {},
        }
    }
}

/// Shadowing: a block that declares a variable `x`, makes no call and does
/// not assign to `x` before the declaration leaves the `x` of outside the
/// block as it is. When the block has ended, by its last statement or by a
/// runtime error, the program is in the scope of before, and `x` is there
/// what it was before the block: the same value, or as little defined.
#[verifier::rlimit(40)]
pub proof fn lemma_block_shadows(
    statements: Seq<StmtView>,
    d: int,
    x: Seq<char>,
    env: EnvironmentView,
    callables: Seq<CallableView>,
    h: Host,
    turns: nat,
)
    requires
        env.wf(),
        shadows(statements, d, x),
    ensures
        ({
            let r = exec(StmtView::Block(statements), env, callables, h, turns);
            r.complete ==> r.environment.wf() && r.environment.current == env.current
                && r.environment.get(x) == env.get(x)
        }),
{
    let entered = env.enter(env.current);
    let home = env.scopes.len() as int;
    let count = home + 1;
    lemma_changes(env, Seq::empty(), ValueView::Nil, env.current);
    lemma_exec_keeps_scope(StmtView::Block(statements), env, callables, h, turns);
    lemma_statements_shadow(
        statements,
        0,
        d,
        entered,
        entered,
        callables,
        h,
        turns,
        x,
        home,
        count,
    );
    let inner = exec_all(statements, 0, entered, callables, h, turns);
    let r = exec(StmtView::Block(statements), env, callables, h, turns);
    if r.complete {
        assert forall|i: int| 0 <= i <= env.current implies (#[trigger] r.environment.scopes[i]).enclosing
            == env.scopes[i].enclosing && lookup_in(r.environment.scopes[i].bindings, x)
            == lookup_in(env.scopes[i].bindings, x) by {
            assert(inner.environment.scopes[i].enclosing == entered.scopes[i].enclosing);
            assert(entered.scopes[i] == env.scopes[i]);
            assert(r.environment.scopes[i] == inner.environment.scopes[i]);
        }
        lemma_resolve_alike(env, r.environment, env.current, x);
    }
}

/// A variable that was declared has the value of its initializer: the
/// statements that follow the declaration read that value.
pub proof fn lemma_declared(
    name: TokenView,
    initializer: ExprView,
    env: EnvironmentView,
    callables: Seq<CallableView>,
    h: Host,
    turns: nat,
)
    requires
        env.wf(),
    ensures
        ({
            let v = eval(initializer, env, callables, h, turns);
            let r = exec(StmtView::Var { name, initializer }, env, callables, h, turns);
            r.complete && r.result is Ok ==> v.result is Ok && r.environment.get(name.lexeme)
                == Some(v.result->Ok_0)
        }),
{
    let v = eval(initializer, env, callables, h, turns);
    lemma_eval_keeps_scope(initializer, env, callables, h, turns);
    if v.complete && v.result is Ok {
        let value = v.result->Ok_0;
        lemma_changes(v.environment, name.lexeme, value, 0);
        lemma_define_in(
            v.environment.scopes[v.environment.current].bindings,
            name.lexeme,
            value,
            name.lexeme,
        );
        let after = v.environment.define(name.lexeme, value);
        lemma_position_from(after.scopes[after.current].bindings, name.lexeme, 0);
    }
}

} // verus!
