//! What a program means, and that the interpreter computes it.
//!
//! The meaning of expressions, statements and programs is defined here at
//! once, by their structure, for a host that answers every request as a
//! function of what is asked. The theorems say that the steps of the
//! interpreter come to that meaning: to the same value or error, the same
//! environment, and the same lines printed and errors reported.
//!
//! A program may run forever. The meaning is therefore defined for a number
//! of turns: every call of a function and every turn of a loop but the
//! first takes one, and where they run out the meaning is not complete,
//! and the theorems say nothing. The clock is not a function of what is
//! asked: the meaning of a program that calls it is not complete either.

use vstd::prelude::*;
use crate::token_type::{literal_value, truthy, LiteralView, TokenType, TokenView, ValueView};
use crate::lox::ast::environment::{
    known, lemma_changes, unassignable_variable, undefined_variable, EnvironmentView,
};
use crate::lox::ast::interpreter::{
    apply_binary, apply_unary, rendered, BinaryView, RuntimeErrorView,
};
use crate::lox::ast::machine::{
    arity_mismatch, arity_of, bind, closures_kept, lemma_bind, CallableView, ControlView,
    FrameView, InterpView, ReplyView, RequestView,
};
use crate::lox::ast::{ExprView, StmtView};

verus! {

/// A host that answers by what is asked alone: the number of a numeral,
/// the result of an operation on two numbers, the text of a number.
pub struct Host {
    pub parse: spec_fn(Seq<char>) -> u64,
    pub calculate: spec_fn(TokenType, u64, u64) -> u64,
    pub format: spec_fn(u64) -> Seq<char>,
}

/// The host's reply to a request.
pub open spec fn answer(h: Host, request: RequestView) -> ReplyView {
    match request {
        RequestView::Parse(text) => ReplyView::Number((h.parse)(text)),
        RequestView::Calculate(o, a, b) => ReplyView::Number((h.calculate)(o, a, b)),
        RequestView::Format(n) => ReplyView::Text((h.format)(n)),
        _ => ReplyView::Nothing,
    }
}

/// An interpreter that runs with a host: the state, the host's reply to
/// the request of the last step, and what the host was asked to print and
/// to report so far.
pub struct Running {
    pub state: InterpView,
    pub reply: ReplyView,
    pub printed: Seq<Seq<char>>,
    pub reported: Seq<RuntimeErrorView>,
}

/// The interpreter after one more step, the host answering its request.
#[verifier::opaque]
pub open spec fn after(r: Running, h: Host) -> Running {
    let stepped = r.state.step(r.reply);
    Running {
        state: stepped.state,
        reply: answer(h, stepped.request),
        printed: match stepped.request {
            RequestView::Print(line) => r.printed.push(line),
            _ => r.printed,
        },
        reported: match stepped.request {
            RequestView::Report(e) => r.reported.push(e),
            _ => r.reported,
        },
    }
}

/// The interpreter after `n` more steps.
pub open spec fn proceed(r: Running, h: Host, n: nat) -> Running
    decreases n,
{
    if n == 0 {
        r
    } else {
        proceed(after(r, h), h, (n - 1) as nat)
    }
}

/// Steps add up.
pub proof fn lemma_proceed_sum(r: Running, h: Host, a: nat, b: nat)
    ensures
        proceed(r, h, a + b) == proceed(proceed(r, h, a), h, b),
    decreases a,
{
    if a > 0 {
        lemma_proceed_sum(after(r, h), h, (a - 1) as nat, b);
    }
}

/// One step, then `n` steps, then one step more.
pub proof fn lemma_last_step(start: Running, mid: Running, h: Host, n: nat)
    requires
        proceed(after(start, h), h, n) == mid,
    ensures
        proceed(start, h, n + 1) == mid,
        proceed(start, h, n + 2) == after(mid, h),
{
    let last = after(mid, h);
    assert(proceed(start, h, n + 1) == proceed(after(start, h), h, n));
    assert(proceed(last, h, 0) == last);
    assert(proceed(mid, h, 1) == last);
    lemma_proceed_sum(start, h, n + 1, 1);
}

/// `n` steps, then one step more.
pub proof fn lemma_one_more(start: Running, mid: Running, h: Host, n: nat)
    requires
        proceed(start, h, n) == mid,
    ensures
        proceed(start, h, n + 1) == after(mid, h),
{
    let last = after(mid, h);
    assert(proceed(last, h, 0) == last);
    assert(proceed(mid, h, 1) == last);
    lemma_proceed_sum(start, h, n, 1);
}

/// What an evaluation or an execution gives: a result or a runtime error,
/// the environment and the functions after it, the lines it printed, and
/// how many steps the interpreter takes for it; or that it is not complete.
pub struct Outcome<T> {
    pub result: Result<T, RuntimeErrorView>,
    pub environment: EnvironmentView,
    pub callables: Seq<CallableView>,
    pub printed: Seq<Seq<char>>,
    pub steps: nat,
    pub complete: bool,
}

/// An outcome that is not complete.
pub open spec fn stuck<T>(env: EnvironmentView, callables: Seq<CallableView>) -> Outcome<T> {
    Outcome {
        result: Err(arbitrary()),
        environment: env,
        callables,
        printed: Seq::empty(),
        steps: 0,
        complete: false,
    }
}

/// The outcome with the result `result`, after `steps` steps in which
/// nothing was printed.
pub open spec fn quiet<T>(
    result: Result<T, RuntimeErrorView>,
    env: EnvironmentView,
    callables: Seq<CallableView>,
    steps: nat,
) -> Outcome<T> {
    Outcome { result, environment: env, callables, printed: Seq::empty(), steps, complete: true }
}

/// The outcome `x`, which is an error or is not complete, as the outcome of
/// what it is part of, `extra` steps later.
pub open spec fn passed<T, U>(x: Outcome<T>, extra: nat) -> Outcome<U> {
    Outcome {
        result: Err(x.result->Err_0),
        environment: x.environment,
        callables: x.callables,
        printed: x.printed,
        steps: x.steps + extra,
        complete: x.complete,
    }
}

/// The outcome `x` with the error `error` in place of its result.
pub open spec fn failed<T, U>(x: Outcome<T>, error: RuntimeErrorView) -> Outcome<U> {
    Outcome {
        result: Err(error),
        environment: x.environment,
        callables: x.callables,
        printed: x.printed,
        steps: x.steps,
        complete: x.complete,
    }
}

/// The outcome `x` with `result` in place of its result, `extra` steps
/// later.
pub open spec fn finished<T, U>(x: Outcome<T>, result: U, extra: nat) -> Outcome<U> {
    Outcome {
        result: Ok(result),
        environment: x.environment,
        callables: x.callables,
        printed: x.printed,
        steps: x.steps + extra,
        complete: x.complete,
    }
}

/// The outcome `second`, which followed `first`, with `extra` steps
/// between and around them.
pub open spec fn sequel<T, U>(first: Outcome<T>, second: Outcome<U>, extra: nat) -> Outcome<U> {
    Outcome {
        printed: first.printed + second.printed,
        steps: first.steps + second.steps + extra,
        ..second
    }
}

/// What a call comes to when what is called and the arguments are there.
pub enum Entry {
    /// A runtime error: what is called is no function, or takes another
    /// number of arguments.
    Refused(Seq<char>),
    /// The clock, which the host reads.
    Clock,
    /// A function, with its parameters, its body and the scope of its
    /// declaration.
    Function(Seq<TokenView>, Seq<StmtView>, int),
}

/// What the call of `callee` with `count` arguments comes to.
pub open spec fn entry(
    callables: Seq<CallableView>,
    env: EnvironmentView,
    callee: ValueView,
    count: nat,
) -> Entry {
    match callee {
        ValueView::Callable(id) => {
            if 0 <= id < callables.len() {
                let c = callables[id];
                if arity_of(c) != count {
                    Entry::Refused(arity_mismatch(arity_of(c), count))
                } else {
                    match c {
                        CallableView::Clock => Entry::Clock,
                        CallableView::Function { name, parameters, body, closure } => {
                            if 0 <= closure < env.scopes.len() {
                                Entry::Function(parameters, body, closure)
                            } else {
                                Entry::Refused("Can only call functions."@)
                            }
                        },
                    }
                }
            } else {
                Entry::Refused("Can only call functions."@)
            }
        },
        _ => Entry::Refused("Can only call functions."@),
    }
}

/// The result of a binary operator on two values, the arithmetic done by
/// the host, and the steps it takes.
pub open spec fn binary_result(operator: TokenView, l: ValueView, r: ValueView, h: Host) -> (
    Result<ValueView, RuntimeErrorView>,
    nat,
) {
    match apply_binary(operator.token_type, l, r) {
        BinaryView::Value(x) => (Ok(x), 1),
        BinaryView::Calculate(o, a, b) => (Ok(ValueView::Number((h.calculate)(o, a, b))), 2),
        BinaryView::Error(m) => (Err(RuntimeErrorView { token: operator, message: m }), 1),
    }
}

/// The line that `print` writes for a value; the text of a number is the
/// host's.
pub open spec fn line_of(v: ValueView, h: Host) -> Seq<char> {
    match v {
        ValueView::Number(bits) => rendered(v, (h.format)(bits)),
        _ => rendered(v, Seq::empty()),
    }
}

/// The evaluation of an expression in the environment `env`, with the
/// functions `callables` declared so far:
///
/// - a literal is its value, a numeral the number that the host gives;
/// - a grouping is what it holds;
/// - a variable is its value in the nearest scope that has it;
/// - an assignment is the value assigned, set in the nearest scope that
///   has the variable;
/// - `or` is its left operand if that is truthy, `and` if that is falsy,
///   and the right operand if not;
/// - a binary operator takes the left operand, then the right one;
/// - a call takes what is called, then the arguments from left to right;
///   the body of the function runs in a new scope inside the scope of the
///   declaration, with the parameters defined as the arguments; the scope
///   of before the call is the current one again when the body has ended,
///   and the call is nil;
/// - an error ends the evaluation where it comes up.
pub open spec fn eval(
    e: ExprView,
    env: EnvironmentView,
    callables: Seq<CallableView>,
    h: Host,
    turns: nat,
) -> Outcome<ValueView>
    decreases turns, 0nat, e, 0nat,
{
    match e {
        ExprView::Literal(l) => match l {
            LiteralView::Number(text) => quiet(
                Ok(ValueView::Number((h.parse)(text))),
                env,
                callables,
                2,
            ),
            _ => quiet(Ok(literal_value(l)->Some_0), env, callables, 1),
        },
        ExprView::Grouping(inner) => {
            let i = eval(*inner, env, callables, h, turns);
            Outcome { steps: i.steps + 1, ..i }
        },
        ExprView::Variable(t) => match env.get(t.lexeme) {
            Some(v) => quiet(Ok(v), env, callables, 1),
            None => quiet(
                Err(RuntimeErrorView { token: t, message: undefined_variable(t.lexeme) }),
                env,
                callables,
                1,
            ),
        },
        ExprView::Assign { name, value } => {
            let v = eval(*value, env, callables, h, turns);
            if v.complete && v.result is Ok {
                match v.environment.assign(name.lexeme, v.result->Ok_0) {
                    Some(changed) => Outcome { environment: changed, steps: v.steps + 2, ..v },
                    None => Outcome {
                        result: Err(
                            RuntimeErrorView {
                                token: name,
                                message: unassignable_variable(name.lexeme),
                            },
                        ),
                        steps: v.steps + 2,
                        ..v
                    },
                }
            } else {
                passed(v, 2)
            }
        },
        ExprView::Logical { operator, left, right } => {
            let l = eval(*left, env, callables, h, turns);
            if l.complete && l.result is Ok {
                if (operator.token_type == TokenType::OR) == truthy(l.result->Ok_0) {
                    Outcome { steps: l.steps + 2, ..l }
                } else {
                    sequel(l, eval(*right, l.environment, l.callables, h, turns), 2)
                }
            } else {
                passed(l, 2)
            }
        },
        ExprView::Binary { operator, left, right } => {
            let l = eval(*left, env, callables, h, turns);
            if l.complete && l.result is Ok {
                let r = eval(*right, l.environment, l.callables, h, turns);
                if r.complete && r.result is Ok {
                    let b = binary_result(operator, l.result->Ok_0, r.result->Ok_0, h);
                    sequel(l, Outcome { result: b.0, ..r }, 2 + b.1)
                } else {
                    sequel(l, passed(r, 0), 3)
                }
            } else {
                passed(l, 2)
            }
        },
        ExprView::Unary { operator, right } => {
            let r = eval(*right, env, callables, h, turns);
            if r.complete && r.result is Ok {
                Outcome {
                    result: match apply_unary(operator.token_type, r.result->Ok_0) {
                        Ok(y) => Ok(y),
                        Err(m) => Err(RuntimeErrorView { token: operator, message: m }),
                    },
                    steps: r.steps + 2,
                    ..r
                }
            } else {
                passed(r, 2)
            }
        },
        ExprView::Call { callee, paren, arguments } => {
            let c = eval(*callee, env, callables, h, turns);
            if c.complete && c.result is Ok {
                let a = eval_all(
                    arguments,
                    0,
                    Seq::empty(),
                    c.environment,
                    c.callables,
                    h,
                    turns,
                );
                if a.complete && a.result is Ok {
                    let values = a.result->Ok_0;
                    match entry(a.callables, a.environment, c.result->Ok_0, values.len()) {
                        Entry::Refused(message) => sequel(
                            c,
                            failed(a, RuntimeErrorView { token: paren, message }),
                            2,
                        ),
                        Entry::Clock => stuck(env, callables),
                        Entry::Function(parameters, body, closure) => {
                            if turns == 0 {
                                stuck(env, callables)
                            } else {
                                let b = exec_all(
                                    body,
                                    0,
                                    bind(a.environment.enter(closure), parameters, values, 0),
                                    a.callables,
                                    h,
                                    (turns - 1) as nat,
                                );
                                let called: Outcome<ValueView> = Outcome {
                                    result: match b.result {
                                        Ok(_) => Ok(ValueView::Nil),
                                        Err(x) => Err(x),
                                    },
                                    environment: b.environment.leave(a.environment.current),
                                    callables: b.callables,
                                    printed: b.printed,
                                    steps: b.steps + 2,
                                    complete: b.complete,
                                };
                                sequel(c, sequel(a, called, 0), 2)
                            }
                        },
                    }
                } else {
                    sequel(c, passed(a, 0), 2)
                }
            } else {
                passed(c, 2)
            }
        },
    }
}

/// The evaluation of the arguments of a call from the `i`-th on, from left
/// to right, up to the first that ends in an error; `done` are the values
/// of the arguments before.
pub open spec fn eval_all(
    arguments: Seq<ExprView>,
    i: int,
    done: Seq<ValueView>,
    env: EnvironmentView,
    callables: Seq<CallableView>,
    h: Host,
    turns: nat,
) -> Outcome<Seq<ValueView>>
    decreases turns, 0nat, arguments, arguments.len() - i,
{
    if 0 <= i < arguments.len() {
        let first = eval(arguments[i], env, callables, h, turns);
        if first.complete && first.result is Ok {
            sequel(
                first,
                eval_all(
                    arguments,
                    i + 1,
                    done.push(first.result->Ok_0),
                    first.environment,
                    first.callables,
                    h,
                    turns,
                ),
                1,
            )
        } else {
            passed(first, 1)
        }
    } else {
        quiet(Ok(done), env, callables, 0)
    }
}

/// The execution of a statement in the environment `env`, with the
/// functions `callables` declared so far:
///
/// - an expression statement evaluates its expression;
/// - `print` evaluates its expression and prints the value;
/// - `var` evaluates the initializer and defines the variable in the
///   current scope;
/// - a block runs its statements in a new scope inside the current one,
///   which is left when the block ends, by its last statement or by an
///   error;
/// - `if` evaluates the condition and runs the branch that it chooses;
/// - `while` evaluates the condition and runs the body as long as the
///   condition is truthy;
/// - `fun` adds the function to the functions declared, with the current
///   scope, and defines its name;
/// - an error ends the execution where it comes up.
pub open spec fn exec(
    s: StmtView,
    env: EnvironmentView,
    callables: Seq<CallableView>,
    h: Host,
    turns: nat,
) -> Outcome<()>
    decreases turns, 1nat, s, 2nat,
{
    match s {
        StmtView::Expression(e) => {
            let v = eval(e, env, callables, h, turns);
            if v.complete && v.result is Ok {
                finished(v, (), 2)
            } else {
                passed(v, 2)
            }
        },
        StmtView::Print(e) => {
            let v = eval(e, env, callables, h, turns);
            if v.complete && v.result is Ok {
                Outcome {
                    printed: v.printed.push(line_of(v.result->Ok_0, h)),
                    ..finished(
                        v,
                        (),
                        if v.result->Ok_0 is Number {
                            3nat
                        } else {
                            2nat
                        },
                    )
                }
            } else {
                passed(v, 2)
            }
        },
        StmtView::Var { name, initializer } => {
            let v = eval(initializer, env, callables, h, turns);
            if v.complete && v.result is Ok {
                Outcome {
                    environment: v.environment.define(name.lexeme, v.result->Ok_0),
                    ..finished(v, (), 2)
                }
            } else {
                passed(v, 2)
            }
        },
        StmtView::Block(statements) => {
            let inner = exec_all(statements, 0, env.enter(env.current), callables, h, turns);
            Outcome {
                environment: inner.environment.leave(env.current),
                steps: inner.steps + 2,
                ..inner
            }
        },
        StmtView::If { condition, if_branch, else_branch } => {
            let c = eval(condition, env, callables, h, turns);
            if c.complete && c.result is Ok {
                if truthy(c.result->Ok_0) {
                    sequel(c, exec(*if_branch, c.environment, c.callables, h, turns), 2)
                } else {
                    match else_branch {
                        Some(e) => sequel(c, exec(*e, c.environment, c.callables, h, turns), 2),
                        None => finished(c, (), 2),
                    }
                }
            } else {
                passed(c, 2)
            }
        },
        StmtView::While { condition, body } => {
            let l = exec_loop(s, env, callables, h, turns);
            Outcome { steps: l.steps + 1, ..l }
        },
        StmtView::Func { name, parameters, body } => quiet(
            Ok(()),
            env.capture().define(name.lexeme, ValueView::Callable(callables.len() as int)),
            callables.push(
                CallableView::Function { name, parameters, body, closure: env.current },
            ),
            1,
        ),
    }
}

/// The execution of the statements from the `i`-th on, one after the
/// other, up to the first that ends in an error.
pub open spec fn exec_all(
    statements: Seq<StmtView>,
    i: int,
    env: EnvironmentView,
    callables: Seq<CallableView>,
    h: Host,
    turns: nat,
) -> Outcome<()>
    decreases turns, 1nat, statements, statements.len() - i,
{
    if 0 <= i < statements.len() {
        let first = exec(statements[i], env, callables, h, turns);
        if first.complete && first.result is Ok {
            sequel(
                first,
                exec_all(statements, i + 1, first.environment, first.callables, h, turns),
                1,
            )
        } else {
            passed(first, 2)
        }
    } else {
        quiet(Ok(()), env, callables, 1)
    }
}

/// The execution of the loop `s`, from the evaluation of its condition on.
pub open spec fn exec_loop(
    s: StmtView,
    env: EnvironmentView,
    callables: Seq<CallableView>,
    h: Host,
    turns: nat,
) -> Outcome<()>
    decreases turns, 1nat, s, 1nat,
{
    match s {
        StmtView::While { condition, body } => {
            let c = eval(condition, env, callables, h, turns);
            if c.complete && c.result is Ok {
                if truthy(c.result->Ok_0) {
                    let b = exec(*body, c.environment, c.callables, h, turns);
                    if b.complete && b.result is Ok {
                        if turns == 0 {
                            stuck(env, callables)
                        } else {
                            sequel(
                                c,
                                sequel(
                                    b,
                                    exec_loop(
                                        s,
                                        b.environment,
                                        b.callables,
                                        h,
                                        (turns - 1) as nat,
                                    ),
                                    0,
                                ),
                                2,
                            )
                        }
                    } else {
                        sequel(c, passed(b, 0), 2)
                    }
                } else {
                    finished(c, (), 1)
                }
            } else {
                passed(c, 1)
            }
        },
        _ => stuck(env, callables),
    }
}

/// What the run of a program gives: the environment and the functions
/// after it, the lines printed and the errors reported, and how many steps
/// the interpreter takes for it; or that it is not complete.
pub struct Ran {
    pub environment: EnvironmentView,
    pub callables: Seq<CallableView>,
    pub printed: Seq<Seq<char>>,
    pub reported: Seq<RuntimeErrorView>,
    pub steps: nat,
    pub complete: bool,
}

/// The run of the statements of a program from the `i`-th on: each is
/// executed in its turn; a runtime error ends the statement it comes up
/// in, is reported, and the next statement follows.
pub open spec fn run_program(
    statements: Seq<StmtView>,
    i: int,
    env: EnvironmentView,
    callables: Seq<CallableView>,
    h: Host,
    turns: nat,
) -> Ran
    decreases statements.len() - i,
{
    if 0 <= i < statements.len() {
        let first = exec(statements[i], env, callables, h, turns);
        let rest = run_program(statements, i + 1, first.environment, first.callables, h, turns);
        Ran {
            printed: first.printed + rest.printed,
            reported: match first.result {
                Ok(_) => rest.reported,
                Err(e) => seq![e] + rest.reported,
            },
            steps: first.steps + rest.steps + match first.result {
                Ok(_) => 1nat,
                Err(_) => 2nat,
            },
            complete: first.complete && rest.complete,
            ..rest
        }
    } else {
        Ran {
            environment: env,
            callables,
            printed: Seq::empty(),
            reported: Seq::empty(),
            steps: 2,
            complete: true,
        }
    }
}

/// What the interpreter has to do next when an evaluation has ended.
pub open spec fn outcome(result: Result<ValueView, RuntimeErrorView>) -> ControlView {
    match result {
        Ok(v) => ControlView::Value(v),
        Err(e) => ControlView::Error(e),
    }
}

/// What the interpreter has to do next when an execution has ended.
pub open spec fn conclusion(result: Result<(), RuntimeErrorView>) -> ControlView {
    match result {
        Ok(_) => ControlView::Done,
        Err(e) => ControlView::Error(e),
    }
}

/// The interpreter that began in `r` and has come to the outcome `x`: the
/// environment, the functions and the lines printed are those of `x`; it
/// has `control` to do next, and `stack` is its stack.
pub open spec fn arrived<T>(r: Running, x: Outcome<T>, control: ControlView, stack: Seq<FrameView>) -> Running {
    Running {
        state: InterpView {
            control,
            environment: x.environment,
            callables: x.callables,
            stack,
            ..r.state
        },
        reply: ReplyView::Nothing,
        printed: r.printed + x.printed,
        reported: r.reported,
    }
}

/// The interpreter at the end of the evaluation `x`, begun in `r`.
pub open spec fn evaluated(r: Running, x: Outcome<ValueView>) -> Running {
    arrived(r, x, outcome(x.result), r.state.stack)
}

/// The interpreter at the end of the execution `x`, begun in `r`, with
/// `stack` left of the stack.
pub open spec fn executed(r: Running, x: Outcome<()>, stack: Seq<FrameView>) -> Running {
    arrived(r, x, conclusion(x.result), stack)
}

/// Whether the steps from `start` come to the end of the evaluation of `e`
/// as `eval` describes it, provided that it is complete.
pub open spec fn evaluates(e: ExprView, start: Running, h: Host, turns: nat) -> bool {
    let x = eval(e, start.state.environment, start.state.callables, h, turns);
    x.complete ==> proceed(start, h, x.steps) == evaluated(start, x)
}

/// Whether the steps from `start` come to the end of the execution of `s`
/// as `exec` describes it, provided that it is complete.
pub open spec fn executes(s: StmtView, start: Running, h: Host, turns: nat) -> bool {
    let x = exec(s, start.state.environment, start.state.callables, h, turns);
    x.complete ==> proceed(start, h, x.steps) == executed(start, x, start.state.stack)
}

/// The first step of an expression that waits for the value of a part: the
/// frame is on the stack, and the part is to be evaluated.
pub open spec fn begun(start: Running, frame: FrameView, part: ExprView) -> Running {
    Running {
        state: InterpView {
            control: ControlView::Expression(part),
            stack: start.state.stack.push(frame),
            ..start.state
        },
        reply: ReplyView::Nothing,
        ..start
    }
}

/// Lines printed one after the other add up.
pub proof fn lemma_printed(a: Seq<Seq<char>>, b: Seq<Seq<char>>, c: Seq<Seq<char>>)
    ensures
        a + Seq::<Seq<char>>::empty() == a,
        (a + b) + c == a + (b + c),
{
    assert(a + Seq::<Seq<char>>::empty() =~= a);
    assert((a + b) + c =~= a + (b + c));
}

/// A line printed after others is the last of them.
pub proof fn lemma_printed_line(a: Seq<Seq<char>>, b: Seq<Seq<char>>, line: Seq<char>)
    ensures
        a + b.push(line) == (a + b).push(line),
{
    assert(a + b.push(line) =~= (a + b).push(line));
}


/// A runtime error takes a frame off the stack, unless the frame is a
/// block or the program.
proof fn lemma_unwinds(mid: Running, h: Host)
    requires
        mid.state.control is Error,
        mid.state.stack.len() > 0,
        !(mid.state.stack.last() is Leave),
        !(mid.state.stack.last() is Program),
    ensures
        after(mid, h) == (Running {
            state: InterpView { stack: mid.state.stack.drop_last(), ..mid.state },
            reply: ReplyView::Nothing,
            ..mid
        }),
{
    reveal(after);
}

/// The interpreter computes the value of a literal and of a variable.
proof fn lemma_evaluation_atom(e: ExprView, start: Running, h: Host, turns: nat)
    requires
        e is Literal || e is Variable,
        start.state.control == ControlView::Expression(e),
    ensures
        evaluates(e, start, h, turns),
{
    reveal(after);
    let r1 = after(start, h);
    lemma_printed(start.printed, Seq::empty(), Seq::empty());
    match e {
        ExprView::Literal(LiteralView::Number(text)) => {
            let r2 = after(r1, h);
            assert(proceed(r2, h, 0) == r2);
            assert(proceed(r1, h, 1) == r2);
            assert(proceed(start, h, 2) == r2);
        },
        _ => {
            assert(proceed(r1, h, 0) == r1);
            assert(proceed(start, h, 1) == r1);
        },
    }
}

/// The first step of an expression with parts puts the work that waits
/// for the first part on the stack and turns to that part.
#[verifier::rlimit(40)]
proof fn lemma_begins(e: ExprView, start: Running, h: Host)
    requires
        start.state.control == ControlView::Expression(e),
    ensures
        match e {
            ExprView::Grouping(inner) => after(start, h) == (Running {
                state: InterpView { control: ControlView::Expression(*inner), ..start.state },
                reply: ReplyView::Nothing,
                ..start
            }),
            ExprView::Assign { name, value } => after(start, h) == begun(
                start,
                FrameView::Assign(name),
                *value,
            ),
            ExprView::Logical { operator, left, right } => after(start, h) == begun(
                start,
                FrameView::Logical(operator, *right),
                *left,
            ),
            ExprView::Binary { operator, left, right } => after(start, h) == begun(
                start,
                FrameView::BinaryRight(operator, *right),
                *left,
            ),
            ExprView::Unary { operator, right } => after(start, h) == begun(
                start,
                FrameView::Unary(operator),
                *right,
            ),
            ExprView::Call { callee, paren, arguments } => after(start, h) == begun(
                start,
                FrameView::Callee(paren, arguments),
                *callee,
            ),
            _ => true,
        },
{
    reveal(after);
}

/// The interpreter computes the value of a grouping.
proof fn lemma_evaluation_grouping(e: ExprView, start: Running, h: Host, turns: nat)
    requires
        e is Grouping,
        start.state.control == ControlView::Expression(e),
    ensures
        evaluates(e, start, h, turns),
    decreases turns, 1nat, e, 2nat,
{
    let inner = *e->Grouping_0;
    let r1 = after(start, h);
    let i = eval(inner, start.state.environment, start.state.callables, h, turns);
    lemma_begins(e, start, h);
    lemma_evaluation(inner, r1, h, turns);
    if i.complete {
        assert(proceed(start, h, (i.steps + 1) as nat) == proceed(r1, h, i.steps));
    }
}

/// The value of the part has come to the frame of an assignment or of a
/// unary operator.
#[verifier::rlimit(40)]
proof fn lemma_delivers(mid: Running, h: Host)
    requires
        mid.state.control is Value,
        mid.state.stack.len() > 0,
    ensures
        ({
            let v = mid.state.control->Value_0;
            let base = InterpView { stack: mid.state.stack.drop_last(), ..mid.state };
            match mid.state.stack.last() {
                FrameView::Assign(name) => after(mid, h) == (Running {
                    state: match mid.state.environment.assign(name.lexeme, v) {
                        Some(changed) => InterpView { environment: changed, ..base },
                        None => InterpView {
                            control: ControlView::Error(
                                RuntimeErrorView {
                                    token: name,
                                    message: unassignable_variable(name.lexeme),
                                },
                            ),
                            ..base
                        },
                    },
                    reply: ReplyView::Nothing,
                    ..mid
                }),
                FrameView::Unary(operator) => after(mid, h) == (Running {
                    state: InterpView {
                        control: match apply_unary(operator.token_type, v) {
                            Ok(y) => ControlView::Value(y),
                            Err(m) => ControlView::Error(
                                RuntimeErrorView { token: operator, message: m },
                            ),
                        },
                        ..base
                    },
                    reply: ReplyView::Nothing,
                    ..mid
                }),
                FrameView::Logical(operator, right) => after(mid, h) == (Running {
                    state: InterpView {
                        control: if (operator.token_type == TokenType::OR) == truthy(v) {
                            ControlView::Value(v)
                        } else {
                            ControlView::Expression(right)
                        },
                        ..base
                    },
                    reply: ReplyView::Nothing,
                    ..mid
                }),
                FrameView::BinaryRight(operator, right) => after(mid, h) == (Running {
                    state: InterpView {
                        control: ControlView::Expression(right),
                        stack: base.stack.push(FrameView::BinaryApply(operator, v)),
                        ..base
                    },
                    reply: ReplyView::Nothing,
                    ..mid
                }),
                FrameView::BinaryApply(operator, left) => proceed(
                    mid,
                    h,
                    binary_result(operator, left, v, h).1,
                ) == (Running {
                    state: InterpView {
                        control: outcome(binary_result(operator, left, v, h).0),
                        ..base
                    },
                    reply: ReplyView::Nothing,
                    ..mid
                }),
                FrameView::Discard => after(mid, h) == (Running {
                    state: InterpView { control: ControlView::Done, ..base },
                    reply: ReplyView::Nothing,
                    ..mid
                }),
                FrameView::Define(name) => after(mid, h) == (Running {
                    state: InterpView {
                        control: ControlView::Done,
                        environment: mid.state.environment.define(name.lexeme, v),
                        ..base
                    },
                    reply: ReplyView::Nothing,
                    ..mid
                }),
                FrameView::Print => proceed(
                    mid,
                    h,
                    if v is Number {
                        2nat
                    } else {
                        1nat
                    },
                ) == (Running {
                    state: InterpView { control: ControlView::Done, ..base },
                    reply: ReplyView::Nothing,
                    printed: mid.printed.push(line_of(v, h)),
                    ..mid
                }),
                FrameView::Branch(then_branch, else_branch) => after(mid, h) == (Running {
                    state: InterpView {
                        control: if truthy(v) {
                            ControlView::Statement(then_branch)
                        } else {
                            match else_branch {
                                Some(e) => ControlView::Statement(e),
                                None => ControlView::Done,
                            }
                        },
                        ..base
                    },
                    reply: ReplyView::Nothing,
                    ..mid
                }),
                FrameView::LoopTest(condition, body) => after(mid, h) == (Running {
                    state: if truthy(v) {
                        InterpView {
                            control: ControlView::Statement(body),
                            stack: base.stack.push(FrameView::LoopBody(condition, body)),
                            ..base
                        }
                    } else {
                        InterpView { control: ControlView::Done, ..base }
                    },
                    reply: ReplyView::Nothing,
                    ..mid
                }),
                _ => true,
            }
        }),
{
    reveal(after);
    let r1 = after(mid, h);
    let r2 = after(r1, h);
    assert(proceed(r1, h, 0) == r1);
    assert(proceed(mid, h, 1) == r1);
    assert(proceed(r2, h, 0) == r2);
    assert(proceed(r1, h, 1) == r2);
    assert(proceed(mid, h, 2) == r2);
}

/// The interpreter computes the value of an expression with one part: an
/// assignment or a unary operator.
proof fn lemma_evaluation_single(e: ExprView, start: Running, h: Host, turns: nat)
    requires
        e is Assign || e is Unary,
        start.state.control == ControlView::Expression(e),
    ensures
        evaluates(e, start, h, turns),
    decreases turns, 1nat, e, 2nat,
{
    let part = match e {
        ExprView::Assign { name, value } => *value,
        ExprView::Unary { operator, right } => *right,
        _ => e,
    };
    let r1 = after(start, h);
    let v = eval(part, start.state.environment, start.state.callables, h, turns);
    lemma_begins(e, start, h);
    lemma_evaluation(part, r1, h, turns);
    if v.complete {
        let mid = evaluated(r1, v);
        lemma_last_step(start, mid, h, v.steps);
        assert(mid.state.stack.drop_last() =~= start.state.stack);
        if v.result is Ok {
            lemma_delivers(mid, h);
        } else {
            lemma_unwinds(mid, h);
        }
    }
}

/// The interpreter computes the value of `and` and of `or`.
proof fn lemma_evaluation_logical(e: ExprView, start: Running, h: Host, turns: nat)
    requires
        e is Logical,
        start.state.control == ControlView::Expression(e),
    ensures
        evaluates(e, start, h, turns),
    decreases turns, 1nat, e, 2nat,
{
    let left = *e->Logical_left;
    let right = *e->Logical_right;
    let r1 = after(start, h);
    let l = eval(left, start.state.environment, start.state.callables, h, turns);
    lemma_begins(e, start, h);
    lemma_evaluation(left, r1, h, turns);
    if l.complete {
        let mid = evaluated(r1, l);
        lemma_last_step(start, mid, h, l.steps);
        assert(mid.state.stack.drop_last() =~= start.state.stack);
        if l.result is Ok {
            lemma_delivers(mid, h);
            if (e->Logical_operator.token_type == TokenType::OR) != truthy(l.result->Ok_0) {
                let r2 = after(mid, h);
                let r = eval(right, l.environment, l.callables, h, turns);
                lemma_evaluation(right, r2, h, turns);
                if r.complete {
                    lemma_proceed_sum(start, h, l.steps + 2, r.steps);
                    lemma_printed(start.printed, l.printed, r.printed);
                }
            }
        } else {
            lemma_unwinds(mid, h);
        }
    }
}

/// The interpreter computes the value of a binary operator.
#[verifier::rlimit(40)]
proof fn lemma_evaluation_binary(e: ExprView, start: Running, h: Host, turns: nat)
    requires
        e is Binary,
        start.state.control == ControlView::Expression(e),
    ensures
        evaluates(e, start, h, turns),
    decreases turns, 1nat, e, 2nat,
{
    let left = *e->Binary_left;
    let right = *e->Binary_right;
    let operator = e->Binary_operator;
    let r1 = after(start, h);
    let l = eval(left, start.state.environment, start.state.callables, h, turns);
    lemma_begins(e, start, h);
    lemma_evaluation(left, r1, h, turns);
    if l.complete {
        let mid = evaluated(r1, l);
        lemma_last_step(start, mid, h, l.steps);
        assert(mid.state.stack.drop_last() =~= start.state.stack);
        if l.result is Ok {
            lemma_delivers(mid, h);
            let r2 = after(mid, h);
            let r = eval(right, l.environment, l.callables, h, turns);
            lemma_evaluation(right, r2, h, turns);
            if r.complete {
                let mid2 = evaluated(r2, r);
                lemma_proceed_sum(start, h, l.steps + 2, r.steps);
                lemma_printed(start.printed, l.printed, r.printed);
                assert(mid2.state.stack.drop_last() =~= start.state.stack);
                if r.result is Ok {
                    lemma_delivers(mid2, h);
                    lemma_proceed_sum(
                        start,
                        h,
                        l.steps + 2 + r.steps,
                        binary_result(operator, l.result->Ok_0, r.result->Ok_0, h).1,
                    );
                } else {
                    lemma_unwinds(mid2, h);
                    lemma_one_more(start, mid2, h, l.steps + 2 + r.steps);
                }
            }
        } else {
            lemma_unwinds(mid, h);
        }
    }
}

/// The interpreter after the step that made the call of `callee` with the
/// arguments `values`, from the state `base`.
pub open spec fn invoked(base: Running, paren: TokenView, callee: ValueView, values: Seq<ValueView>, h: Host) -> Running {
    Running {
        state: base.state.invoke(paren, callee, values).state,
        reply: answer(h, base.state.invoke(paren, callee, values).request),
        ..base
    }
}

/// What the step of a call comes to: a runtime error, or the start of the
/// body of the function in a new scope inside the scope of the
/// declaration, with the parameters bound, above the scope to go back to
/// and the frame that makes the call nil.
#[verifier::rlimit(40)]
proof fn lemma_invoked(base: Running, paren: TokenView, callee: ValueView, values: Seq<ValueView>, h: Host)
    ensures
        match entry(base.state.callables, base.state.environment, callee, values.len()) {
            Entry::Refused(message) => invoked(base, paren, callee, values, h) == (Running {
                state: InterpView {
                    control: ControlView::Error(RuntimeErrorView { token: paren, message }),
                    ..base.state
                },
                reply: ReplyView::Nothing,
                ..base
            }),
            Entry::Clock => true,
            Entry::Function(parameters, body, closure) => invoked(base, paren, callee, values, h)
                == (Running {
                state: InterpView {
                    control: ControlView::Done,
                    stack: base.state.stack.push(FrameView::Nil).push(
                        FrameView::Leave(base.state.environment.current),
                    ).push(FrameView::Sequence(body, 0)),
                    environment: bind(
                        base.state.environment.enter(closure),
                        parameters,
                        values,
                        0,
                    ),
                    ..base.state
                },
                reply: ReplyView::Nothing,
                ..base
            }),
        },
{
}

/// The value of what is called, or of an argument, has come to the frame
/// of the call: the next argument is to be evaluated, or the call is made.
#[verifier::rlimit(40)]
proof fn lemma_delivers_to_call(mid: Running, h: Host)
    requires
        mid.state.control is Value,
        mid.state.stack.len() > 0,
    ensures
        ({
            let v = mid.state.control->Value_0;
            let base = Running {
                state: InterpView {
                    control: ControlView::Idle,
                    stack: mid.state.stack.drop_last(),
                    ..mid.state
                },
                ..mid
            };
            match mid.state.stack.last() {
                FrameView::Callee(paren, arguments) => after(mid, h) == if arguments.len() == 0 {
                    invoked(base, paren, v, Seq::empty(), h)
                } else {
                    Running {
                        state: InterpView {
                            control: ControlView::Expression(arguments[0]),
                            stack: base.state.stack.push(
                                FrameView::Arguments(paren, v, Seq::empty(), arguments),
                            ),
                            ..mid.state
                        },
                        reply: ReplyView::Nothing,
                        ..mid
                    }
                },
                FrameView::Arguments(paren, callee, done, all) => after(mid, h) == if done.len()
                    + 1 < all.len() {
                    Running {
                        state: InterpView {
                            control: ControlView::Expression(all[done.len() as int + 1]),
                            stack: base.state.stack.push(
                                FrameView::Arguments(paren, callee, done.push(v), all),
                            ),
                            ..mid.state
                        },
                        reply: ReplyView::Nothing,
                        ..mid
                    }
                } else {
                    invoked(base, paren, callee, done.push(v), h)
                },
                _ => true,
            }
        }),
{
    reveal(after);
}

/// Where the evaluation of arguments has come to: after an error, the
/// error with the frame of the call taken off; else, the call made.
pub open spec fn supplied(start: Running, x: Outcome<Seq<ValueView>>, paren: TokenView, callee: ValueView, h: Host) -> Running {
    match x.result {
        Ok(values) => invoked(
            arrived(start, x, ControlView::Idle, start.state.stack.drop_last()),
            paren,
            callee,
            values,
            h,
        ),
        Err(e) => arrived(start, x, ControlView::Error(e), start.state.stack.drop_last()),
    }
}

/// The interpreter computes the arguments of a call: from a state in which
/// the `i`-th argument is to be evaluated, the steps that `eval_all`
/// counts lead to the call with the values of all arguments, or to the
/// first error.
#[verifier::rlimit(40)]
proof fn lemma_arguments(
    arguments: Seq<ExprView>,
    i: int,
    done: Seq<ValueView>,
    paren: TokenView,
    callee: ValueView,
    start: Running,
    h: Host,
    turns: nat,
)
    requires
        0 <= i < arguments.len(),
        done.len() == i,
        start.state.control == ControlView::Expression(arguments[i]),
        start.state.stack.len() > 0,
        start.state.stack.last() == FrameView::Arguments(paren, callee, done, arguments),
    ensures
        ({
            let x = eval_all(
                arguments,
                i,
                done,
                start.state.environment,
                start.state.callables,
                h,
                turns,
            );
            x.complete ==> proceed(start, h, x.steps) == supplied(start, x, paren, callee, h)
        }),
    decreases turns, 1nat, arguments, arguments.len() - i,
{
    let st = start.state;
    let base = st.stack.drop_last();
    let first = eval(arguments[i], st.environment, st.callables, h, turns);
    lemma_evaluation(arguments[i], start, h, turns);
    if first.complete {
        let mid = evaluated(start, first);
        lemma_one_more(start, mid, h, first.steps);
        if first.result is Ok {
            let v = first.result->Ok_0;
            lemma_delivers_to_call(mid, h);
            let r2 = after(mid, h);
            let rest = eval_all(
                arguments,
                i + 1,
                done.push(v),
                first.environment,
                first.callables,
                h,
                turns,
            );
            if i + 1 < arguments.len() {
                assert(r2.state.stack.drop_last() =~= base);
                lemma_arguments(arguments, i + 1, done.push(v), paren, callee, r2, h, turns);
                if rest.complete {
                    lemma_proceed_sum(start, h, first.steps + 1, rest.steps);
                    lemma_printed(start.printed, first.printed, rest.printed);
                }
            } else {
                lemma_printed(start.printed, first.printed, Seq::empty());
            }
        } else {
            lemma_unwinds(mid, h);
        }
    }
}

/// The body of a function that was called has run: the scope of before
/// the call is the current one again, and the call is nil, or the error of
/// the body.
proof fn lemma_returns(mid: Running, to: int, h: Host)
    requires
        mid.state.control is Done || mid.state.control is Error,
        mid.state.stack.len() > 1,
        mid.state.stack.last() == FrameView::Leave(to),
        mid.state.stack[mid.state.stack.len() - 2] == FrameView::Nil,
    ensures
        proceed(mid, h, 2) == (Running {
            state: InterpView {
                control: match mid.state.control {
                    ControlView::Error(e) => ControlView::Error(e),
                    _ => ControlView::Value(ValueView::Nil),
                },
                environment: mid.state.environment.leave(to),
                stack: mid.state.stack.drop_last().drop_last(),
                ..mid.state
            },
            reply: ReplyView::Nothing,
            ..mid
        }),
{
    reveal(after);
    let r1 = after(mid, h);
    let r2 = after(r1, h);
    assert(r1.state.stack =~= mid.state.stack.drop_last());
    assert(r1.state.stack.last() == FrameView::Nil);
    assert(proceed(r2, h, 0) == r2);
    assert(proceed(r1, h, 1) == r2);
    assert(proceed(mid, h, 2) == r2);
}

/// The interpreter computes a call that was made: from the state after
/// the step of the call, the steps of the body and two more lead to the
/// outcome of the call.
#[verifier::rlimit(40)]
proof fn lemma_call_runs(
    base: Running,
    paren: TokenView,
    callee: ValueView,
    values: Seq<ValueView>,
    h: Host,
    turns: nat,
)
    requires
        entry(base.state.callables, base.state.environment, callee, values.len()) is Function,
        turns > 0,
    ensures
        ({
            let target = entry(
                base.state.callables,
                base.state.environment,
                callee,
                values.len(),
            );
            let b = exec_all(
                target->Function_1,
                0,
                bind(
                    base.state.environment.enter(target->Function_2),
                    target->Function_0,
                    values,
                    0,
                ),
                base.state.callables,
                h,
                (turns - 1) as nat,
            );
            b.complete ==> proceed(invoked(base, paren, callee, values, h), h, b.steps + 2)
                == (Running {
                state: InterpView {
                    control: match b.result {
                        Ok(_) => ControlView::Value(ValueView::Nil),
                        Err(x) => ControlView::Error(x),
                    },
                    environment: b.environment.leave(base.state.environment.current),
                    callables: b.callables,
                    ..base.state
                },
                reply: ReplyView::Nothing,
                printed: base.printed + b.printed,
                reported: base.reported,
            })
        }),
    decreases turns, 0nat, values, 0nat,
{
    let target = entry(base.state.callables, base.state.environment, callee, values.len());
    let body = target->Function_1;
    let inner = invoked(base, paren, callee, values, h);
    lemma_invoked(base, paren, callee, values, h);
    let b = exec_all(body, 0, inner.state.environment, base.state.callables, h, (turns - 1) as nat);
    lemma_sequence(body, 0, inner, h, (turns - 1) as nat);
    if b.complete {
        let left = base.state.stack.push(FrameView::Nil).push(
            FrameView::Leave(base.state.environment.current),
        );
        assert(inner.state.stack.drop_last() =~= left);
        let mid = executed(inner, b, left);
        assert(left.drop_last() =~= base.state.stack.push(FrameView::Nil));
        assert(left.drop_last().drop_last() =~= base.state.stack);
        assert(left[left.len() - 2] == FrameView::Nil);
        lemma_returns(mid, base.state.environment.current, h);
        lemma_proceed_sum(inner, h, b.steps, 2);
    }
}

/// The interpreter computes the value of a call.
#[verifier::rlimit(40)]
proof fn lemma_evaluation_call(e: ExprView, start: Running, h: Host, turns: nat)
    requires
        e is Call,
        start.state.control == ControlView::Expression(e),
    ensures
        evaluates(e, start, h, turns),
    decreases turns, 1nat, e, 2nat,
{
    let callee = *e->Call_callee;
    let paren = e->Call_paren;
    let arguments = e->Call_arguments;
    let st = start.state;
    let r1 = after(start, h);
    let c = eval(callee, st.environment, st.callables, h, turns);
    let x = eval(e, st.environment, st.callables, h, turns);
    lemma_begins(e, start, h);
    lemma_evaluation(callee, r1, h, turns);
    if c.complete {
        let mid = evaluated(r1, c);
        lemma_last_step(start, mid, h, c.steps);
        assert(mid.state.stack.drop_last() =~= st.stack);
        if c.result is Ok {
            let f = c.result->Ok_0;
            lemma_delivers_to_call(mid, h);
            let r2 = after(mid, h);
            let a = eval_all(arguments, 0, Seq::empty(), c.environment, c.callables, h, turns);
            if arguments.len() > 0 {
                assert(r2.state.stack.drop_last() =~= st.stack);
                lemma_arguments(arguments, 0, Seq::empty(), paren, f, r2, h, turns);
            }
            if a.complete {
                let there = proceed(start, h, c.steps + 2 + a.steps);
                lemma_proceed_sum(start, h, c.steps + 2, a.steps);
                lemma_printed(start.printed, c.printed, a.printed);
                if arguments.len() == 0 {
                    assert(proceed(r2, h, 0) == r2);
                    lemma_printed(start.printed + c.printed, Seq::empty(), Seq::empty());
                }
                if a.result is Ok {
                    let values = a.result->Ok_0;
                    let base = Running {
                        state: InterpView {
                            control: ControlView::Idle,
                            environment: a.environment,
                            callables: a.callables,
                            stack: st.stack,
                            ..st
                        },
                        reply: if arguments.len() == 0 {
                            mid.reply
                        } else {
                            ReplyView::Nothing
                        },
                        printed: start.printed + (c.printed + a.printed),
                        reported: start.reported,
                    };
                    assert(there == invoked(base, paren, f, values, h));
                    lemma_invoked(base, paren, f, values, h);
                    match entry(a.callables, a.environment, f, values.len()) {
                        Entry::Function(parameters, body, closure) => {
                            if turns > 0 {
                                let b = exec_all(
                                    body,
                                    0,
                                    bind(a.environment.enter(closure), parameters, values, 0),
                                    a.callables,
                                    h,
                                    (turns - 1) as nat,
                                );
                                lemma_call_runs(base, paren, f, values, h, turns);
                                if b.complete {
                                    lemma_proceed_sum(start, h, c.steps + 2 + a.steps, b.steps + 2);
                                    lemma_printed(start.printed, c.printed, a.printed + b.printed);
                                    lemma_printed(c.printed, a.printed, b.printed);
                                    lemma_printed(
                                        start.printed,
                                        c.printed + a.printed,
                                        b.printed,
                                    );
                                }
                            }
                        },
                        _ => {},
                    }
                }
            }
        } else {
            lemma_unwinds(mid, h);
        }
    }
}

/// The interpreter computes the meaning of expressions: from a state in
/// which the expression `e` is to be evaluated, the steps that `eval`
/// counts lead to the state that `eval` describes: the value or the error
/// is what there is to go on with, the environment, the functions and the
/// lines printed are those of after the evaluation, and the stack is as it
/// was, whatever was on it, and whatever the host said last.
pub proof fn lemma_evaluation(e: ExprView, start: Running, h: Host, turns: nat)
    requires
        start.state.control == ControlView::Expression(e),
    ensures
        evaluates(e, start, h, turns),
    decreases turns, 1nat, e, 3nat,
{
    match e {
        ExprView::Literal(_) => {
            lemma_evaluation_atom(e, start, h, turns);
        },
        ExprView::Variable(_) => {
            lemma_evaluation_atom(e, start, h, turns);
        },
        ExprView::Grouping(_) => {
            lemma_evaluation_grouping(e, start, h, turns);
        },
        ExprView::Assign { .. } => {
            lemma_evaluation_single(e, start, h, turns);
        },
        ExprView::Unary { .. } => {
            lemma_evaluation_single(e, start, h, turns);
        },
        ExprView::Logical { .. } => {
            lemma_evaluation_logical(e, start, h, turns);
        },
        ExprView::Binary { .. } => {
            lemma_evaluation_binary(e, start, h, turns);
        },
        ExprView::Call { .. } => {
            lemma_evaluation_call(e, start, h, turns);
        },
    }
}

/// The first step of a statement puts the work that waits for its
/// expression on the stack and turns to that expression; the first step of
/// a block enters a new scope and puts the statements on the stack, above
/// the scope to go back to; a function is declared in one step.
#[verifier::rlimit(40)]
proof fn lemma_statement_begins(s: StmtView, start: Running, h: Host)
    requires
        start.state.control == ControlView::Statement(s),
    ensures
        match s {
            StmtView::Expression(e) => after(start, h) == begun(start, FrameView::Discard, e),
            StmtView::Print(e) => after(start, h) == begun(start, FrameView::Print, e),
            StmtView::Var { name, initializer } => after(start, h) == begun(
                start,
                FrameView::Define(name),
                initializer,
            ),
            StmtView::If { condition, if_branch, else_branch } => after(start, h) == begun(
                start,
                FrameView::Branch(
                    *if_branch,
                    match else_branch {
                        Some(e) => Some(*e),
                        None => None,
                    },
                ),
                condition,
            ),
            StmtView::While { condition, body } => after(start, h) == begun(
                start,
                FrameView::LoopTest(condition, *body),
                condition,
            ),
            StmtView::Block(statements) => after(start, h) == (Running {
                state: InterpView {
                    control: ControlView::Done,
                    environment: start.state.environment.enter(start.state.environment.current),
                    stack: start.state.stack.push(
                        FrameView::Leave(start.state.environment.current),
                    ).push(FrameView::Sequence(statements, 0)),
                    ..start.state
                },
                reply: ReplyView::Nothing,
                ..start
            }),
            StmtView::Func { name, parameters, body } => after(start, h) == (Running {
                state: InterpView {
                    control: ControlView::Done,
                    environment: start.state.environment.capture().define(
                        name.lexeme,
                        ValueView::Callable(start.state.callables.len() as int),
                    ),
                    callables: start.state.callables.push(
                        CallableView::Function {
                            name,
                            parameters,
                            body,
                            closure: start.state.environment.current,
                        },
                    ),
                    ..start.state
                },
                reply: ReplyView::Nothing,
                ..start
            }),
        },
{
    reveal(after);
}

/// The step that follows the end of a statement: the next statement of the
/// list is taken, or the list is taken off the stack; a block gives its
/// scope back; a loop turns to its condition again.
#[verifier::rlimit(40)]
proof fn lemma_goes_on(mid: Running, h: Host)
    requires
        mid.state.control is Done || mid.state.control is Error,
        mid.state.stack.len() > 0,
    ensures
        ({
            let base = InterpView { stack: mid.state.stack.drop_last(), ..mid.state };
            match mid.state.stack.last() {
                FrameView::Sequence(statements, i) => mid.state.control is Done ==> after(mid, h)
                    == (Running {
                    state: if 0 <= i < statements.len() {
                        InterpView {
                            control: ControlView::Statement(statements[i]),
                            stack: base.stack.push(FrameView::Sequence(statements, i + 1)),
                            ..base
                        }
                    } else {
                        base
                    },
                    reply: ReplyView::Nothing,
                    ..mid
                }),
                FrameView::Leave(to) => after(mid, h) == (Running {
                    state: InterpView { environment: mid.state.environment.leave(to), ..base },
                    reply: ReplyView::Nothing,
                    ..mid
                }),
                FrameView::LoopBody(condition, body) => mid.state.control is Done ==> after(mid, h)
                    == (Running {
                    state: InterpView {
                        control: ControlView::Expression(condition),
                        stack: base.stack.push(FrameView::LoopTest(condition, body)),
                        ..base
                    },
                    reply: ReplyView::Nothing,
                    ..mid
                }),
                _ => true,
            }
        }),
{
    reveal(after);
}

/// The interpreter computes the meaning of a statement that is made of one
/// expression: an expression statement, `print` and `var`.
proof fn lemma_execution_simple(s: StmtView, start: Running, h: Host, turns: nat)
    requires
        s is Expression || s is Print || s is Var,
        start.state.control == ControlView::Statement(s),
    ensures
        executes(s, start, h, turns),
    decreases turns, 2nat, s, 1nat,
{
    let e = match s {
        StmtView::Expression(e) => e,
        StmtView::Print(e) => e,
        StmtView::Var { name, initializer } => initializer,
        _ => arbitrary(),
    };
    let st = start.state;
    let r1 = after(start, h);
    let v = eval(e, st.environment, st.callables, h, turns);
    lemma_statement_begins(s, start, h);
    lemma_evaluation(e, r1, h, turns);
    if v.complete {
        let mid = evaluated(r1, v);
        lemma_last_step(start, mid, h, v.steps);
        assert(mid.state.stack.drop_last() =~= st.stack);
        if v.result is Ok {
            lemma_delivers(mid, h);
            if s is Print {
                lemma_proceed_sum(
                    start,
                    h,
                    v.steps + 1,
                    if v.result->Ok_0 is Number {
                        2nat
                    } else {
                        1nat
                    },
                );
                lemma_printed_line(start.printed, v.printed, line_of(v.result->Ok_0, h));
            }
        } else {
            lemma_unwinds(mid, h);
        }
    }
}

/// The interpreter computes the meaning of a function declaration.
proof fn lemma_execution_func(s: StmtView, start: Running, h: Host, turns: nat)
    requires
        s is Func,
        start.state.control == ControlView::Statement(s),
    ensures
        executes(s, start, h, turns),
{
    let r1 = after(start, h);
    lemma_statement_begins(s, start, h);
    assert(proceed(r1, h, 0) == r1);
    assert(proceed(start, h, 1) == r1);
    lemma_printed(start.printed, Seq::empty(), Seq::empty());
}

/// The interpreter computes the meaning of a block.
proof fn lemma_execution_block(s: StmtView, start: Running, h: Host, turns: nat)
    requires
        s is Block,
        start.state.control == ControlView::Statement(s),
    ensures
        executes(s, start, h, turns),
    decreases turns, 2nat, s, 1nat,
{
    let st = start.state;
    let env = st.environment;
    let statements = s->Block_0;
    let r1 = after(start, h);
    let inner = exec_all(statements, 0, env.enter(env.current), st.callables, h, turns);
    lemma_statement_begins(s, start, h);
    let left = st.stack.push(FrameView::Leave(env.current));
    assert(r1.state.stack.drop_last() =~= left);
    lemma_sequence(statements, 0, r1, h, turns);
    if inner.complete {
        let mid = executed(r1, inner, left);
        lemma_last_step(start, mid, h, inner.steps);
        lemma_goes_on(mid, h);
        assert(left.drop_last() =~= st.stack);
    }
}

/// The interpreter computes the meaning of `if`.
proof fn lemma_execution_if(s: StmtView, start: Running, h: Host, turns: nat)
    requires
        s is If,
        start.state.control == ControlView::Statement(s),
    ensures
        executes(s, start, h, turns),
    decreases turns, 2nat, s, 1nat,
{
    let st = start.state;
    let condition = s->If_condition;
    let r1 = after(start, h);
    let c = eval(condition, st.environment, st.callables, h, turns);
    lemma_statement_begins(s, start, h);
    lemma_evaluation(condition, r1, h, turns);
    if c.complete {
        let mid = evaluated(r1, c);
        lemma_last_step(start, mid, h, c.steps);
        assert(mid.state.stack.drop_last() =~= st.stack);
        if c.result is Ok {
            lemma_delivers(mid, h);
            let r2 = after(mid, h);
            if truthy(c.result->Ok_0) {
                let b = exec(*s->If_if_branch, c.environment, c.callables, h, turns);
                lemma_execution(*s->If_if_branch, r2, h, turns);
                if b.complete {
                    lemma_proceed_sum(start, h, c.steps + 2, b.steps);
                    lemma_printed(start.printed, c.printed, b.printed);
                }
            } else {
                match s->If_else_branch {
                    Some(e) => {
                        let b = exec(*e, c.environment, c.callables, h, turns);
                        lemma_execution(*e, r2, h, turns);
                        if b.complete {
                            lemma_proceed_sum(start, h, c.steps + 2, b.steps);
                            lemma_printed(start.printed, c.printed, b.printed);
                        }
                    },
                    None => {},
                }
            }
        } else {
            lemma_unwinds(mid, h);
        }
    }
}

/// The interpreter computes the meaning of `while`.
proof fn lemma_execution_while(s: StmtView, start: Running, h: Host, turns: nat)
    requires
        s is While,
        start.state.control == ControlView::Statement(s),
    ensures
        executes(s, start, h, turns),
    decreases turns, 2nat, s, 2nat,
{
    let st = start.state;
    let r1 = after(start, h);
    let l = exec_loop(s, st.environment, st.callables, h, turns);
    lemma_statement_begins(s, start, h);
    assert(r1.state.stack.drop_last() =~= st.stack);
    lemma_loop(s, r1, h, turns);
    if l.complete {
        assert(proceed(start, h, (l.steps + 1) as nat) == proceed(r1, h, l.steps));
    }
}

/// The interpreter computes the meaning of statements: from a state in
/// which the statement `s` is to be executed, the steps that `exec` counts
/// lead to the state that `exec` describes, with the stack as it was.
pub proof fn lemma_execution(s: StmtView, start: Running, h: Host, turns: nat)
    requires
        start.state.control == ControlView::Statement(s),
    ensures
        executes(s, start, h, turns),
    decreases turns, 2nat, s, 3nat,
{
    match s {
        StmtView::Expression(_) => {
            lemma_execution_simple(s, start, h, turns);
        },
        StmtView::Print(_) => {
            lemma_execution_simple(s, start, h, turns);
        },
        StmtView::Var { .. } => {
            lemma_execution_simple(s, start, h, turns);
        },
        StmtView::Block(_) => {
            lemma_execution_block(s, start, h, turns);
        },
        StmtView::If { .. } => {
            lemma_execution_if(s, start, h, turns);
        },
        StmtView::While { .. } => {
            lemma_execution_while(s, start, h, turns);
        },
        StmtView::Func { .. } => {
            lemma_execution_func(s, start, h, turns);
        },
    }
}

/// The interpreter computes the meaning of a list of statements: from a
/// state in which the `i`-th of them is the next, the steps that
/// `exec_all` counts lead to the state that it describes, with the list
/// taken off the stack.
pub proof fn lemma_sequence(statements: Seq<StmtView>, i: int, start: Running, h: Host, turns: nat)
    requires
        0 <= i <= statements.len(),
        start.state.control == ControlView::Done,
        start.state.stack.len() > 0,
        start.state.stack.last() == FrameView::Sequence(statements, i),
    ensures
        ({
            let x = exec_all(
                statements,
                i,
                start.state.environment,
                start.state.callables,
                h,
                turns,
            );
            x.complete ==> proceed(start, h, x.steps) == executed(
                start,
                x,
                start.state.stack.drop_last(),
            )
        }),
    decreases turns, 2nat, statements, statements.len() - i,
{
    let st = start.state;
    let base = st.stack.drop_last();
    let r1 = after(start, h);
    lemma_goes_on(start, h);
    if i < statements.len() {
        let first = exec(statements[i], st.environment, st.callables, h, turns);
        lemma_execution(statements[i], r1, h, turns);
        if first.complete {
            let mid = executed(r1, first, r1.state.stack);
            lemma_last_step(start, mid, h, first.steps);
            assert(r1.state.stack.drop_last() =~= base);
            if first.result is Ok {
                let rest = exec_all(
                    statements,
                    i + 1,
                    first.environment,
                    first.callables,
                    h,
                    turns,
                );
                lemma_sequence(statements, i + 1, mid, h, turns);
                if rest.complete {
                    lemma_proceed_sum(start, h, first.steps + 1, rest.steps);
                    lemma_printed(start.printed, first.printed, rest.printed);
                }
            } else {
                lemma_unwinds(mid, h);
            }
        }
    } else {
        assert(proceed(r1, h, 0) == r1);
        assert(proceed(start, h, 1) == r1);
        lemma_printed(start.printed, Seq::empty(), Seq::empty());
    }
}

/// The interpreter computes the meaning of a loop: from a state in which
/// the condition of the loop `s` is to be evaluated, the steps that
/// `exec_loop` counts lead to the state that it describes, with the loop
/// taken off the stack.
#[verifier::rlimit(40)]
pub proof fn lemma_loop(s: StmtView, start: Running, h: Host, turns: nat)
    requires
        s is While,
        start.state.control == ControlView::Expression(s->While_condition),
        start.state.stack.len() > 0,
        start.state.stack.last() == FrameView::LoopTest(s->While_condition, *s->While_body),
    ensures
        ({
            let x = exec_loop(s, start.state.environment, start.state.callables, h, turns);
            x.complete ==> proceed(start, h, x.steps) == executed(
                start,
                x,
                start.state.stack.drop_last(),
            )
        }),
    decreases turns, 2nat, s, 1nat,
{
    let st = start.state;
    let base = st.stack.drop_last();
    let condition = s->While_condition;
    let body = *s->While_body;
    let c = eval(condition, st.environment, st.callables, h, turns);
    lemma_evaluation(condition, start, h, turns);
    if c.complete {
        let mid = evaluated(start, c);
        lemma_one_more(start, mid, h, c.steps);
        let r2 = after(mid, h);
        if c.result is Ok {
            lemma_delivers(mid, h);
            if truthy(c.result->Ok_0) {
                let b = exec(body, c.environment, c.callables, h, turns);
                lemma_execution(body, r2, h, turns);
                if b.complete {
                    let mid2 = executed(r2, b, r2.state.stack);
                    lemma_proceed_sum(start, h, c.steps + 1, b.steps);
                    lemma_printed(start.printed, c.printed, b.printed);
                    assert(r2.state.stack.drop_last() =~= base);
                    lemma_one_more(start, mid2, h, c.steps + 1 + b.steps);
                    let r3 = after(mid2, h);
                    if b.result is Ok {
                        lemma_goes_on(mid2, h);
                        if turns > 0 {
                            let next = exec_loop(
                                s,
                                b.environment,
                                b.callables,
                                h,
                                (turns - 1) as nat,
                            );
                            assert(r3.state.stack.drop_last() =~= base);
                            lemma_loop(s, r3, h, (turns - 1) as nat);
                            if next.complete {
                                lemma_proceed_sum(start, h, c.steps + b.steps + 2, next.steps);
                                lemma_printed(
                                    start.printed,
                                    c.printed + b.printed,
                                    next.printed,
                                );
                                lemma_printed(c.printed, b.printed, next.printed);
                            }
                        }
                    } else {
                        lemma_unwinds(mid2, h);
                    }
                }
            }
        } else {
            lemma_unwinds(mid, h);
        }
    }
}

/// What the interpreter is at the end of the run `x`, begun in `r`: idle,
/// with an empty stack.
pub open spec fn ran(r: Running, x: Ran) -> Running {
    Running {
        state: InterpView {
            control: ControlView::Idle,
            environment: x.environment,
            callables: x.callables,
            stack: Seq::empty(),
            had_runtime_error: r.state.had_runtime_error || x.reported.len() > 0,
        },
        reply: ReplyView::Nothing,
        printed: r.printed + x.printed,
        reported: r.reported + x.reported,
    }
}

/// The step that takes the next statement of a program, and the two steps
/// that end it.
proof fn lemma_program_next(statements: Seq<StmtView>, i: int, start: Running, h: Host)
    requires
        start.state.control == ControlView::Done,
        start.state.stack == seq![FrameView::Program(statements, i)],
    ensures
        0 <= i < statements.len() ==> after(start, h) == (Running {
            state: InterpView {
                control: ControlView::Statement(statements[i]),
                stack: seq![FrameView::Program(statements, i + 1)],
                ..start.state
            },
            reply: ReplyView::Nothing,
            ..start
        }),
        !(0 <= i < statements.len()) ==> proceed(start, h, 2) == (Running {
            state: InterpView {
                control: ControlView::Idle,
                stack: Seq::empty(),
                ..start.state
            },
            reply: ReplyView::Nothing,
            ..start
        }),
{
    reveal(after);
    let r1 = after(start, h);
    if 0 <= i < statements.len() {
        assert(r1.state.stack =~= seq![FrameView::Program(statements, i + 1)]);
    } else {
        assert(r1.state.stack =~= Seq::empty());
        let r2 = after(r1, h);
        assert(proceed(r2, h, 0) == r2);
        assert(proceed(r1, h, 1) == r2);
        assert(proceed(start, h, 2) == r2);
    }
}

/// The step that reports the error of a statement of a program.
proof fn lemma_program_report(mid: Running, h: Host)
    requires
        mid.state.control is Error,
        mid.state.stack.len() == 1,
        mid.state.stack[0] is Program,
    ensures
        after(mid, h) == (Running {
            state: InterpView {
                control: ControlView::Done,
                had_runtime_error: true,
                ..mid.state
            },
            reply: ReplyView::Nothing,
            reported: mid.reported.push(mid.state.control->Error_0),
            ..mid
        }),
{
    reveal(after);
}

/// The interpreter computes the meaning of a program: from the state in
/// which `interpret_stmts` leaves an idle interpreter, the steps that
/// `run_program` counts lead to an idle interpreter again, and the host
/// was asked to print and to report what `run_program` says.
pub proof fn lemma_program(statements: Seq<StmtView>, i: int, start: Running, h: Host, turns: nat)
    requires
        0 <= i <= statements.len(),
        start.state.control == ControlView::Done,
        start.state.stack == seq![FrameView::Program(statements, i)],
    ensures
        ({
            let x = run_program(
                statements,
                i,
                start.state.environment,
                start.state.callables,
                h,
                turns,
            );
            x.complete ==> proceed(start, h, x.steps) == ran(start, x)
        }),
    decreases statements.len() - i,
{
    let st = start.state;
    let x = run_program(statements, i, st.environment, st.callables, h, turns);
    lemma_program_next(statements, i, start, h);
    if i < statements.len() {
        let r1 = after(start, h);
        let first = exec(statements[i], st.environment, st.callables, h, turns);
        let rest = run_program(statements, i + 1, first.environment, first.callables, h, turns);
        lemma_execution(statements[i], r1, h, turns);
        if x.complete {
            let mid = executed(r1, first, r1.state.stack);
            lemma_last_step(start, mid, h, first.steps);
            lemma_printed(start.printed, first.printed, rest.printed);
            match first.result {
                Ok(_) => {
                    lemma_program(statements, i + 1, mid, h, turns);
                    lemma_proceed_sum(start, h, first.steps + 1, rest.steps);
                },
                Err(e) => {
                    lemma_program_report(mid, h);
                    let r2 = after(mid, h);
                    lemma_program(statements, i + 1, r2, h, turns);
                    lemma_proceed_sum(start, h, first.steps + 2, rest.steps);
                    assert(start.reported.push(e) + rest.reported =~= start.reported + (seq![e]
                        + rest.reported));
                },
            }
        }
    } else {
        lemma_printed(start.printed, Seq::empty(), Seq::empty());
        assert(start.reported + Seq::<RuntimeErrorView>::empty() =~= start.reported);
    }
}


/// Whether the outcome `x`, if it is complete, leaves the program in the
/// scope in which it was in `env`, and the environment well formed.
pub open spec fn keeps_scope<T>(env: EnvironmentView, x: Outcome<T>) -> bool {
    x.complete ==> x.environment.wf() && x.environment.current == env.current
}

/// An expression gives the scope back: whatever it calls, and whether it
/// ends in a value or in an error, the current scope after it is the
/// current scope of before.
#[verifier::rlimit(40)]
pub proof fn lemma_eval_keeps_scope(
    e: ExprView,
    env: EnvironmentView,
    callables: Seq<CallableView>,
    h: Host,
    turns: nat,
)
    requires
        env.wf(),
    ensures
        keeps_scope(env, eval(e, env, callables, h, turns)),
    decreases turns, 0nat, e, 0nat,
{
    match e {
        ExprView::Literal(_) => {},
        ExprView::Variable(_) => {},
        ExprView::Grouping(inner) => {
            lemma_eval_keeps_scope(*inner, env, callables, h, turns);
        },
        ExprView::Assign { name, value } => {
            lemma_eval_keeps_scope(*value, env, callables, h, turns);
            let v = eval(*value, env, callables, h, turns);
            if v.complete && v.result is Ok {
                lemma_changes(v.environment, name.lexeme, v.result->Ok_0, 0);
            }
        },
        ExprView::Unary { operator, right } => {
            lemma_eval_keeps_scope(*right, env, callables, h, turns);
        },
        ExprView::Logical { operator, left, right } => {
            lemma_eval_keeps_scope(*left, env, callables, h, turns);
            let l = eval(*left, env, callables, h, turns);
            if l.complete && l.result is Ok {
                lemma_eval_keeps_scope(*right, l.environment, l.callables, h, turns);
            }
        },
        ExprView::Binary { operator, left, right } => {
            lemma_eval_keeps_scope(*left, env, callables, h, turns);
            let l = eval(*left, env, callables, h, turns);
            if l.complete && l.result is Ok {
                lemma_eval_keeps_scope(*right, l.environment, l.callables, h, turns);
            }
        },
        ExprView::Call { callee, paren, arguments } => {
            lemma_eval_keeps_scope(*callee, env, callables, h, turns);
            let c = eval(*callee, env, callables, h, turns);
            if c.complete && c.result is Ok {
                lemma_eval_all_keeps_scope(
                    arguments,
                    0,
                    Seq::empty(),
                    c.environment,
                    c.callables,
                    h,
                    turns,
                );
                let a = eval_all(
                    arguments,
                    0,
                    Seq::empty(),
                    c.environment,
                    c.callables,
                    h,
                    turns,
                );
                if a.complete && a.result is Ok {
                    let values = a.result->Ok_0;
                    match entry(a.callables, a.environment, c.result->Ok_0, values.len()) {
                        Entry::Function(parameters, body, closure) => {
                            if turns > 0 {
                                let entered = a.environment.enter(closure);
                                lemma_changes(a.environment, Seq::empty(), ValueView::Nil, closure);
                                lemma_bind(entered, parameters, values, 0);
                                let bound = bind(entered, parameters, values, 0);
                                lemma_exec_all_keeps_scope(
                                    body,
                                    0,
                                    bound,
                                    a.callables,
                                    h,
                                    (turns - 1) as nat,
                                );
                                let b = exec_all(
                                    body,
                                    0,
                                    bound,
                                    a.callables,
                                    h,
                                    (turns - 1) as nat,
                                );
                                if b.complete {
                                    lemma_changes(
                                        b.environment,
                                        Seq::empty(),
                                        ValueView::Nil,
                                        a.environment.current,
                                    );
                                }
                            }
                        },
                        _ => {},
                    }
                }
            }
        },
    }
}

/// The arguments of a call give the scope back.
pub proof fn lemma_eval_all_keeps_scope(
    arguments: Seq<ExprView>,
    i: int,
    done: Seq<ValueView>,
    env: EnvironmentView,
    callables: Seq<CallableView>,
    h: Host,
    turns: nat,
)
    requires
        env.wf(),
    ensures
        keeps_scope(env, eval_all(arguments, i, done, env, callables, h, turns)),
    decreases turns, 0nat, arguments, arguments.len() - i,
{
    if 0 <= i < arguments.len() {
        lemma_eval_keeps_scope(arguments[i], env, callables, h, turns);
        let first = eval(arguments[i], env, callables, h, turns);
        if first.complete && first.result is Ok {
            lemma_eval_all_keeps_scope(
                arguments,
                i + 1,
                done.push(first.result->Ok_0),
                first.environment,
                first.callables,
                h,
                turns,
            );
        }
    }
}

/// A statement gives the scope back: when it has ended, by its last step
/// or by a runtime error, from however deep in blocks and calls, the
/// current scope is the current scope of before.
pub proof fn lemma_exec_keeps_scope(
    s: StmtView,
    env: EnvironmentView,
    callables: Seq<CallableView>,
    h: Host,
    turns: nat,
)
    requires
        env.wf(),
    ensures
        keeps_scope(env, exec(s, env, callables, h, turns)),
    decreases turns, 1nat, s, 2nat,
{
    match s {
        StmtView::Expression(e) => {
            lemma_eval_keeps_scope(e, env, callables, h, turns);
        },
        StmtView::Print(e) => {
            lemma_eval_keeps_scope(e, env, callables, h, turns);
        },
        StmtView::Var { name, initializer } => {
            lemma_eval_keeps_scope(initializer, env, callables, h, turns);
            let v = eval(initializer, env, callables, h, turns);
            if v.complete && v.result is Ok {
                lemma_changes(v.environment, name.lexeme, v.result->Ok_0, 0);
            }
        },
        StmtView::Block(statements) => {
            let entered = env.enter(env.current);
            lemma_changes(env, Seq::empty(), ValueView::Nil, env.current);
            lemma_exec_all_keeps_scope(statements, 0, entered, callables, h, turns);
            let inner = exec_all(statements, 0, entered, callables, h, turns);
            if inner.complete {
                lemma_changes(inner.environment, Seq::empty(), ValueView::Nil, env.current);
            }
        },
        StmtView::If { condition, if_branch, else_branch } => {
            lemma_eval_keeps_scope(condition, env, callables, h, turns);
            let c = eval(condition, env, callables, h, turns);
            if c.complete && c.result is Ok {
                if truthy(c.result->Ok_0) {
                    lemma_exec_keeps_scope(*if_branch, c.environment, c.callables, h, turns);
                } else {
                    match else_branch {
                        Some(e) => {
                            lemma_exec_keeps_scope(*e, c.environment, c.callables, h, turns);
                        },
                        None => {},
                    }
                }
            }
        },
        StmtView::While { condition, body } => {
            lemma_exec_loop_keeps_scope(s, env, callables, h, turns);
        },
        StmtView::Func { name, parameters, body } => {
            lemma_changes(env, name.lexeme, ValueView::Nil, 0);
            lemma_changes(
                env.capture(),
                name.lexeme,
                ValueView::Callable(callables.len() as int),
                0,
            );
        },
    }
}

/// A list of statements gives the scope back.
pub proof fn lemma_exec_all_keeps_scope(
    statements: Seq<StmtView>,
    i: int,
    env: EnvironmentView,
    callables: Seq<CallableView>,
    h: Host,
    turns: nat,
)
    requires
        env.wf(),
    ensures
        keeps_scope(env, exec_all(statements, i, env, callables, h, turns)),
    decreases turns, 1nat, statements, statements.len() - i,
{
    if 0 <= i < statements.len() {
        lemma_exec_keeps_scope(statements[i], env, callables, h, turns);
        let first = exec(statements[i], env, callables, h, turns);
        if first.complete && first.result is Ok {
            lemma_exec_all_keeps_scope(
                statements,
                i + 1,
                first.environment,
                first.callables,
                h,
                turns,
            );
        }
    }
}

/// A loop gives the scope back.
pub proof fn lemma_exec_loop_keeps_scope(
    s: StmtView,
    env: EnvironmentView,
    callables: Seq<CallableView>,
    h: Host,
    turns: nat,
)
    requires
        env.wf(),
    ensures
        keeps_scope(env, exec_loop(s, env, callables, h, turns)),
    decreases turns, 1nat, s, 1nat,
{
    match s {
        StmtView::While { condition, body } => {
            lemma_eval_keeps_scope(condition, env, callables, h, turns);
            let c = eval(condition, env, callables, h, turns);
            if c.complete && c.result is Ok && truthy(c.result->Ok_0) {
                lemma_exec_keeps_scope(*body, c.environment, c.callables, h, turns);
                let b = exec(*body, c.environment, c.callables, h, turns);
                if b.complete && b.result is Ok && turns > 0 {
                    lemma_exec_loop_keeps_scope(
                        s,
                        b.environment,
                        b.callables,
                        h,
                        (turns - 1) as nat,
                    );
                }
            }
        },
        _ => {},
    }
}

/// To assign to a name that no scope from the current one outwards has
/// is a runtime error, and changes nothing; to assign to a name that one
/// of them has gives the value assigned, which is then the value of the
/// name.
pub proof fn lemma_assignment_means(
    name: TokenView,
    value: ExprView,
    env: EnvironmentView,
    callables: Seq<CallableView>,
    h: Host,
    turns: nat,
)
    requires
        env.wf(),
        eval(value, env, callables, h, turns).complete,
        eval(value, env, callables, h, turns).result is Ok,
    ensures
        ({
            let v = eval(value, env, callables, h, turns);
            let x = eval(
                ExprView::Assign { name, value: Box::new(value) },
                env,
                callables,
                h,
                turns,
            );
            &&& x.complete
            &&& v.environment.get(name.lexeme) is None ==> x.environment == v.environment
                && x.result == Err::<ValueView, RuntimeErrorView>(
                RuntimeErrorView { token: name, message: unassignable_variable(name.lexeme) },
            )
            &&& v.environment.get(name.lexeme) is Some ==> x.result == v.result
                && x.environment.get(name.lexeme) == Some(v.result->Ok_0)
        }),
{
    let v = eval(value, env, callables, h, turns);
    lemma_eval_keeps_scope(value, env, callables, h, turns);
    crate::lox::ast::environment::lemma_assignment(v.environment, name.lexeme, v.result->Ok_0);
    crate::lox::ast::environment::lemma_assigned(v.environment, name.lexeme, v.result->Ok_0);
}


/// A call is refused for two reasons only: what is called is no function,
/// or it takes another number of arguments. This holds where the scopes of
/// the functions are kept and what is called is known, as in every state
/// of an interpreter that started new.
pub proof fn lemma_entry(
    callables: Seq<CallableView>,
    env: EnvironmentView,
    callee: ValueView,
    count: nat,
)
    requires
        closures_kept(callables, env),
        known(callee, callables.len() as int),
    ensures
        match callee {
            ValueView::Callable(id) => entry(callables, env, callee, count) == if arity_of(
                callables[id],
            ) != count {
                Entry::Refused(arity_mismatch(arity_of(callables[id]), count))
            } else {
                match callables[id] {
                    CallableView::Clock => Entry::Clock,
                    CallableView::Function { name, parameters, body, closure } => Entry::Function(
                        parameters,
                        body,
                        closure,
                    ),
                }
            },
            _ => entry(callables, env, callee, count) == Entry::Refused(
                "Can only call functions."@,
            ),
        },
{
}

} // verus!
