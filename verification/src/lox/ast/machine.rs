//! The states of the interpreter and the steps between them.
//!
//! A state is what there is to do next (the control), the work that waits
//! for its result (a stack of frames), the environment, and the functions
//! declared so far. `step` says what one step makes of a state and of the
//! host's reply to the request before: the next state and the next request.

use vstd::prelude::*;
use crate::text::decimal_text;
use crate::token_type::{
    literal_value, truthy, LiteralView, Token, TokenType, TokenView, Value, ValueView, tokens_view,
};
use crate::lox::ast::environment::{
    all_known, known, lemma_changes, lemma_known, unassignable_variable, undefined_variable,
    EnvironmentView,
};
use crate::lox::ast::interpreter::{
    apply_binary, apply_unary, rendered, BinaryView, RuntimeError, RuntimeErrorView,
};
use crate::lox::ast::{exprs_view, stmts_view, Expr, ExprView, FuncStmt, Stmt, StmtView};

verus! {

/// Something that can be called: a function that a program declared, with
/// the scope of its declaration, or the clock.
pub enum Callable {
    Function(LoxFunction),
    Clock(Clock),
}

/// A declared function and the scope it was declared in, which is the scope
/// around its body whenever it is called.
pub struct LoxFunction {
    pub declaration: FuncStmt,
    pub closure: usize,
}

/// The native function `clock`: it takes no arguments and gives the
/// seconds since the start of 1970.
pub struct Clock;

/// The view of a `Callable`.
pub enum CallableView {
    Function { name: TokenView, parameters: Seq<TokenView>, body: Seq<StmtView>, closure: int },
    Clock,
}

impl View for Callable {
    type V = CallableView;

    open spec fn view(&self) -> CallableView {
        match self {
            Callable::Function(f) => CallableView::Function {
                name: f.declaration.name@,
                parameters: tokens_view(f.declaration.parameters@),
                body: stmts_view(f.declaration.body@),
                closure: f.closure as int,
            },
            Callable::Clock(_) => CallableView::Clock,
        }
    }
}

/// How many arguments a callable takes.
pub open spec fn arity_of(c: CallableView) -> nat {
    match c {
        CallableView::Function { parameters, .. } => parameters.len(),
        CallableView::Clock => 0,
    }
}

/// What can be called has a fixed number of parameters.
pub trait LoxCallable {
    spec fn parameters(&self) -> nat;

    fn arity(&self) -> (n: usize)
        ensures
            n == self.parameters(),
    ;
}

impl LoxCallable for LoxFunction {
    open spec fn parameters(&self) -> nat {
        self.declaration.parameters@.len()
    }

    fn arity(&self) -> (n: usize) {
        self.declaration.parameters.len()
    }
}

impl LoxCallable for Clock {
    open spec fn parameters(&self) -> nat {
        0
    }

    fn arity(&self) -> (n: usize) {
        0
    }
}

impl LoxCallable for Callable {
    open spec fn parameters(&self) -> nat {
        arity_of(self@)
    }

    fn arity(&self) -> (n: usize) {
        match self {
            Callable::Function(f) => f.arity(),
            Callable::Clock(c) => c.arity(),
        }
    }
}

/// What the interpreter is waiting for from its host.
pub enum Pending {
    /// The double nearest to a numeral.
    Parse(String),
    /// The result of `-`, `/`, `*` or `+` on two doubles.
    Calculate(TokenType, u64, u64),
    /// The decimal text of a double.
    Format(u64),
    /// The time.
    Clock,
}

/// The view of a `Pending`.
pub enum PendingView {
    Parse(Seq<char>),
    Calculate(TokenType, u64, u64),
    Format(u64),
    Clock,
}

impl View for Pending {
    type V = PendingView;

    open spec fn view(&self) -> PendingView {
        match self {
            Pending::Parse(s) => PendingView::Parse(s@),
            Pending::Calculate(o, a, b) => PendingView::Calculate(*o, *a, *b),
            Pending::Format(n) => PendingView::Format(*n),
            Pending::Clock => PendingView::Clock,
        }
    }
}

/// What a step asks of the host.
#[derive(Debug)]
pub enum Request {
    /// Nothing: the next step can follow.
    Continue,
    /// The double nearest to this numeral; the reply is a number.
    Parse(String),
    /// The result of the operator, one of `-`, `/`, `*` and `+`, on the
    /// two doubles; the reply is a number.
    Calculate(TokenType, u64, u64),
    /// The decimal text of this double; the reply is a text.
    Format(u64),
    /// The seconds since the start of 1970; the reply is a number.
    Clock,
    /// This line is to be written to the output.
    Print(String),
    /// This runtime error is to be reported.
    Report(RuntimeError),
    /// There is nothing left to run.
    Finished,
}

/// The view of a `Request`.
pub enum RequestView {
    Continue,
    Parse(Seq<char>),
    Calculate(TokenType, u64, u64),
    Format(u64),
    Clock,
    Print(Seq<char>),
    Report(RuntimeErrorView),
    Finished,
}

impl View for Request {
    type V = RequestView;

    open spec fn view(&self) -> RequestView {
        match self {
            Request::Continue => RequestView::Continue,
            Request::Parse(s) => RequestView::Parse(s@),
            Request::Calculate(o, a, b) => RequestView::Calculate(*o, *a, *b),
            Request::Format(n) => RequestView::Format(*n),
            Request::Clock => RequestView::Clock,
            Request::Print(s) => RequestView::Print(s@),
            Request::Report(e) => RequestView::Report(e@),
            Request::Finished => RequestView::Finished,
        }
    }
}

/// The host's reply to the request of the step before.
#[derive(Debug)]
pub enum Reply {
    /// Nothing was asked, or nothing is to be said.
    Nothing,
    /// A double, as its bits.
    Number(u64),
    /// A text.
    Text(String),
}

/// The view of a `Reply`.
pub enum ReplyView {
    Nothing,
    Number(u64),
    Text(Seq<char>),
}

impl View for Reply {
    type V = ReplyView;

    open spec fn view(&self) -> ReplyView {
        match self {
            Reply::Nothing => ReplyView::Nothing,
            Reply::Number(n) => ReplyView::Number(*n),
            Reply::Text(s) => ReplyView::Text(s@),
        }
    }
}

/// Work that waits for the value of an expression or for the end of a
/// statement.
pub enum Frame {
    /// Assign the value to this variable.
    Assign(Token),
    /// The value is the left operand of `and` or `or`; this is the right.
    Logical(Token, Expr),
    /// The value is the left operand; the right one is still to evaluate.
    BinaryRight(Token, Expr),
    /// The value is the right operand; this is the left one's value.
    BinaryApply(Token, Value),
    /// The value is the operand.
    Unary(Token),
    /// The value is what is called; these are the arguments.
    Callee(Token, Vec<Expr>),
    /// The value is the next argument of the call of this value; these
    /// are the values of the arguments before, and all arguments.
    Arguments(Token, Value, Vec<Value>, Vec<Expr>),
    /// The value is that of an expression statement.
    Discard,
    /// The value is to be printed.
    Print,
    /// The value is that of this new variable.
    Define(Token),
    /// The value decides between these branches.
    Branch(Stmt, Option<Stmt>),
    /// The value is that of this condition, of the loop with this body.
    LoopTest(Expr, Stmt),
    /// The body of the loop runs; this is its condition, and the body.
    LoopBody(Expr, Stmt),
    /// One of these statements runs; this is the place of the next.
    Sequence(Vec<Stmt>, usize),
    /// A block runs; this is the scope to go back to.
    Leave(usize),
    /// The body of a function runs; the call gives nil.
    Nil,
    /// One of the statements of the program runs; this is the place of
    /// the next. A runtime error ends the statement and stops here.
    Program(Vec<Stmt>, usize),
}

/// The view of a `Frame`.
pub enum FrameView {
    Assign(TokenView),
    Logical(TokenView, ExprView),
    BinaryRight(TokenView, ExprView),
    BinaryApply(TokenView, ValueView),
    Unary(TokenView),
    Callee(TokenView, Seq<ExprView>),
    Arguments(TokenView, ValueView, Seq<ValueView>, Seq<ExprView>),
    Discard,
    Print,
    Define(TokenView),
    Branch(StmtView, Option<StmtView>),
    LoopTest(ExprView, StmtView),
    LoopBody(ExprView, StmtView),
    Sequence(Seq<StmtView>, int),
    Leave(int),
    Nil,
    Program(Seq<StmtView>, int),
}

/// The views of the values of a list, in order.
pub open spec fn values_view(vs: Seq<Value>) -> Seq<ValueView> {
    vs.map_values(|v: Value| v@)
}

impl View for Frame {
    type V = FrameView;

    open spec fn view(&self) -> FrameView {
        match self {
            Frame::Assign(t) => FrameView::Assign(t@),
            Frame::Logical(t, e) => FrameView::Logical(t@, e@),
            Frame::BinaryRight(t, e) => FrameView::BinaryRight(t@, e@),
            Frame::BinaryApply(t, v) => FrameView::BinaryApply(t@, v@),
            Frame::Unary(t) => FrameView::Unary(t@),
            Frame::Callee(t, a) => FrameView::Callee(t@, exprs_view(a@)),
            Frame::Arguments(t, c, d, a) => FrameView::Arguments(
                t@,
                c@,
                values_view(d@),
                exprs_view(a@),
            ),
            Frame::Discard => FrameView::Discard,
            Frame::Print => FrameView::Print,
            Frame::Define(t) => FrameView::Define(t@),
            Frame::Branch(t, e) => FrameView::Branch(
                t@,
                match e {
                    Some(s) => Some(s@),
                    None => None,
                },
            ),
            Frame::LoopTest(c, b) => FrameView::LoopTest(c@, b@),
            Frame::LoopBody(c, b) => FrameView::LoopBody(c@, b@),
            Frame::Sequence(s, i) => FrameView::Sequence(stmts_view(s@), *i as int),
            Frame::Leave(to) => FrameView::Leave(*to as int),
            Frame::Nil => FrameView::Nil,
            Frame::Program(s, i) => FrameView::Program(stmts_view(s@), *i as int),
        }
    }
}

/// What there is to do next.
pub enum Control {
    /// Nothing.
    Idle,
    /// Evaluate this expression.
    Expression(Expr),
    /// Execute this statement.
    Statement(Stmt),
    /// An expression has given this value.
    Value(Value),
    /// A statement has been executed.
    Done,
    /// This runtime error ends the statement that runs.
    Error(RuntimeError),
    /// Take the host's reply.
    Waiting(Pending),
}

/// The view of a `Control`.
pub enum ControlView {
    Idle,
    Expression(ExprView),
    Statement(StmtView),
    Value(ValueView),
    Done,
    Error(RuntimeErrorView),
    Waiting(PendingView),
}

impl View for Control {
    type V = ControlView;

    open spec fn view(&self) -> ControlView {
        match self {
            Control::Idle => ControlView::Idle,
            Control::Expression(e) => ControlView::Expression(e@),
            Control::Statement(s) => ControlView::Statement(s@),
            Control::Value(v) => ControlView::Value(v@),
            Control::Done => ControlView::Done,
            Control::Error(e) => ControlView::Error(e@),
            Control::Waiting(p) => ControlView::Waiting(p@),
        }
    }
}

/// A state of the interpreter.
pub struct InterpView {
    pub environment: EnvironmentView,
    pub callables: Seq<CallableView>,
    pub stack: Seq<FrameView>,
    pub control: ControlView,
    pub had_runtime_error: bool,
}

/// What a step gives: the state after it, and the request to the host.
pub struct Stepped {
    pub state: InterpView,
    pub request: RequestView,
}

/// The message for a call with the wrong number of arguments.
pub open spec fn arity_mismatch(wanted: nat, given: nat) -> Seq<char> {
    "Arity mismatch: func wants: "@ + decimal_text(wanted) + ", # args given: "@ + decimal_text(
        given,
    )
}

/// The request that asks for what the interpreter is waiting for.
pub open spec fn request_for(p: PendingView) -> RequestView {
    match p {
        PendingView::Parse(s) => RequestView::Parse(s),
        PendingView::Calculate(o, a, b) => RequestView::Calculate(o, a, b),
        PendingView::Format(n) => RequestView::Format(n),
        PendingView::Clock => RequestView::Clock,
    }
}

/// The environment with each of the parameters from the `i`-th on defined
/// in the current scope, with the argument at its place.
pub open spec fn bind(env: EnvironmentView, parameters: Seq<TokenView>, arguments: Seq<ValueView>, i: int) -> EnvironmentView
    decreases parameters.len() - i,
{
    if 0 <= i < parameters.len() && i < arguments.len() {
        bind(env.define(parameters[i].lexeme, arguments[i]), parameters, arguments, i + 1)
    } else {
        env
    }
}

impl InterpView {
    /// The environment is well formed.
    pub open spec fn wf(self) -> bool {
        self.environment.wf()
    }

    /// With `control` to do next, and nothing asked of the host.
    pub open spec fn go(self, control: ControlView) -> Stepped {
        Stepped { state: InterpView { control, ..self }, request: RequestView::Continue }
    }

    /// With `control` to do next, and `request` asked of the host.
    pub open spec fn ask(self, control: ControlView, request: RequestView) -> Stepped {
        Stepped { state: InterpView { control, ..self }, request }
    }

    /// With a runtime error at `token`.
    pub open spec fn raise(self, token: TokenView, message: Seq<char>) -> Stepped {
        self.go(ControlView::Error(RuntimeErrorView { token, message }))
    }

    /// With `frame` on top of the stack.
    pub open spec fn push(self, frame: FrameView) -> InterpView {
        InterpView { stack: self.stack.push(frame), ..self }
    }

    /// Without the top of the stack.
    pub open spec fn pop(self) -> InterpView {
        InterpView { stack: self.stack.drop_last(), ..self }
    }

    /// At the start of the block `statements`, in a new scope inside the
    /// scope `enclosing`. When the block has run, or a runtime error has
    /// ended it, the scope of before is the current one again.
    pub open spec fn begin_block(self, statements: Seq<StmtView>, enclosing: int) -> InterpView {
        InterpView {
            stack: self.stack.push(FrameView::Leave(self.environment.current)).push(
                FrameView::Sequence(statements, 0),
            ),
            environment: self.environment.enter(enclosing),
            control: ControlView::Done,
            ..self
        }
    }

    /// The call of `callee` with `arguments`. What is called must be
    /// callable, with as many parameters as there are arguments. The clock
    /// is left to the host. The body of a function runs in a new scope
    /// inside the scope of its declaration, in which the parameters are
    /// defined as the arguments; the call gives nil.
    pub open spec fn invoke(self, paren: TokenView, callee: ValueView, arguments: Seq<ValueView>) -> Stepped {
        match callee {
            ValueView::Callable(id) => {
                if 0 <= id < self.callables.len() {
                    let c = self.callables[id];
                    if arity_of(c) != arguments.len() {
                        self.raise(paren, arity_mismatch(arity_of(c), arguments.len()))
                    } else {
                        match c {
                            CallableView::Clock => self.ask(
                                ControlView::Waiting(PendingView::Clock),
                                RequestView::Clock,
                            ),
                            CallableView::Function { name, parameters, body, closure } => {
                                if 0 <= closure < self.environment.scopes.len() {
                                    let started = self.push(FrameView::Nil).begin_block(
                                        body,
                                        closure,
                                    );
                                    Stepped {
                                        state: InterpView {
                                            environment: bind(
                                                started.environment,
                                                parameters,
                                                arguments,
                                                0,
                                            ),
                                            ..started
                                        },
                                        request: RequestView::Continue,
                                    }
                                } else {
                                    self.raise(paren, "Can only call functions."@)
                                }
                            },
                        }
                    }
                } else {
                    self.raise(paren, "Can only call functions."@)
                }
            },
            _ => self.raise(paren, "Can only call functions."@),
        }
    }

    /// The step that starts the evaluation of `e`.
    pub open spec fn step_expression(self, e: ExprView) -> Stepped {
        match e {
            ExprView::Literal(l) => match l {
                LiteralView::Number(text) => self.ask(
                    ControlView::Waiting(PendingView::Parse(text)),
                    RequestView::Parse(text),
                ),
                _ => self.go(ControlView::Value(literal_value(l)->Some_0)),
            },
            ExprView::Grouping(inner) => self.go(ControlView::Expression(*inner)),
            ExprView::Variable(t) => match self.environment.get(t.lexeme) {
                Some(v) => self.go(ControlView::Value(v)),
                None => self.raise(t, undefined_variable(t.lexeme)),
            },
            ExprView::Assign { name, value } => self.push(FrameView::Assign(name)).go(
                ControlView::Expression(*value),
            ),
            ExprView::Logical { operator, left, right } => self.push(
                FrameView::Logical(operator, *right),
            ).go(ControlView::Expression(*left)),
            ExprView::Binary { operator, left, right } => self.push(
                FrameView::BinaryRight(operator, *right),
            ).go(ControlView::Expression(*left)),
            ExprView::Unary { operator, right } => self.push(FrameView::Unary(operator)).go(
                ControlView::Expression(*right),
            ),
            ExprView::Call { callee, paren, arguments } => self.push(
                FrameView::Callee(paren, arguments),
            ).go(ControlView::Expression(*callee)),
        }
    }

    /// The step that starts the execution of `s`.
    pub open spec fn step_statement(self, s: StmtView) -> Stepped {
        match s {
            StmtView::Expression(e) => self.push(FrameView::Discard).go(ControlView::Expression(e)),
            StmtView::Print(e) => self.push(FrameView::Print).go(ControlView::Expression(e)),
            StmtView::Var { name, initializer } => self.push(FrameView::Define(name)).go(
                ControlView::Expression(initializer),
            ),
            StmtView::Block(statements) => Stepped {
                state: self.begin_block(statements, self.environment.current),
                request: RequestView::Continue,
            },
            StmtView::If { condition, if_branch, else_branch } => self.push(
                FrameView::Branch(
                    *if_branch,
                    match else_branch {
                        Some(e) => Some(*e),
                        None => None,
                    },
                ),
            ).go(ControlView::Expression(condition)),
            StmtView::While { condition, body } => self.push(
                FrameView::LoopTest(condition, *body),
            ).go(ControlView::Expression(condition)),
            StmtView::Func { name, parameters, body } => (InterpView {
                callables: self.callables.push(
                    CallableView::Function {
                        name,
                        parameters,
                        body,
                        closure: self.environment.current,
                    },
                ),
                environment: self.environment.capture().define(
                    name.lexeme,
                    ValueView::Callable(self.callables.len() as int),
                ),
                ..self
            }).go(ControlView::Done),
        }
    }

    /// The step that hands the value `v` of an expression to the work that
    /// waits for it.
    pub open spec fn step_value(self, v: ValueView) -> Stepped {
        if self.stack.len() == 0 {
            self.ask(ControlView::Value(v), RequestView::Finished)
        } else {
            let rest = self.pop();
            match self.stack.last() {
                FrameView::Assign(name) => match rest.environment.assign(name.lexeme, v) {
                    Some(env) => (InterpView { environment: env, ..rest }).go(ControlView::Value(v)),
                    None => rest.raise(name, unassignable_variable(name.lexeme)),
                },
                FrameView::Logical(operator, right) => {
                    if (operator.token_type == TokenType::OR) == truthy(v) {
                        rest.go(ControlView::Value(v))
                    } else {
                        rest.go(ControlView::Expression(right))
                    }
                },
                FrameView::BinaryRight(operator, right) => rest.push(
                    FrameView::BinaryApply(operator, v),
                ).go(ControlView::Expression(right)),
                FrameView::BinaryApply(operator, left) => match apply_binary(
                    operator.token_type,
                    left,
                    v,
                ) {
                    BinaryView::Value(x) => rest.go(ControlView::Value(x)),
                    BinaryView::Calculate(o, a, b) => rest.ask(
                        ControlView::Waiting(PendingView::Calculate(o, a, b)),
                        RequestView::Calculate(o, a, b),
                    ),
                    BinaryView::Error(m) => rest.raise(operator, m),
                },
                FrameView::Unary(operator) => match apply_unary(operator.token_type, v) {
                    Ok(x) => rest.go(ControlView::Value(x)),
                    Err(m) => rest.raise(operator, m),
                },
                FrameView::Callee(paren, arguments) => {
                    if arguments.len() == 0 {
                        rest.invoke(paren, v, Seq::empty())
                    } else {
                        rest.push(FrameView::Arguments(paren, v, Seq::empty(), arguments)).go(
                            ControlView::Expression(arguments[0]),
                        )
                    }
                },
                FrameView::Arguments(paren, callee, done, all) => {
                    let values = done.push(v);
                    if values.len() < all.len() {
                        rest.push(FrameView::Arguments(paren, callee, values, all)).go(
                            ControlView::Expression(all[values.len() as int]),
                        )
                    } else {
                        rest.invoke(paren, callee, values)
                    }
                },
                FrameView::Discard => rest.go(ControlView::Done),
                FrameView::Print => match v {
                    ValueView::Number(bits) => rest.ask(
                        ControlView::Waiting(PendingView::Format(bits)),
                        RequestView::Format(bits),
                    ),
                    _ => rest.ask(ControlView::Done, RequestView::Print(rendered(v, Seq::empty()))),
                },
                FrameView::Define(name) => (InterpView {
                    environment: rest.environment.define(name.lexeme, v),
                    ..rest
                }).go(ControlView::Done),
                FrameView::Branch(then_branch, else_branch) => {
                    if truthy(v) {
                        rest.go(ControlView::Statement(then_branch))
                    } else {
                        match else_branch {
                            Some(e) => rest.go(ControlView::Statement(e)),
                            None => rest.go(ControlView::Done),
                        }
                    }
                },
                FrameView::LoopTest(condition, body) => {
                    if truthy(v) {
                        rest.push(FrameView::LoopBody(condition, body)).go(
                            ControlView::Statement(body),
                        )
                    } else {
                        rest.go(ControlView::Done)
                    }
                },
                // Work that waits for the end of a statement takes the
                // value as that end.
                _ => self.go(ControlView::Done),
            }
        }
    }

    /// The step that follows the end of a statement.
    pub open spec fn step_done(self) -> Stepped {
        if self.stack.len() == 0 {
            self.ask(ControlView::Idle, RequestView::Finished)
        } else {
            let rest = self.pop();
            match self.stack.last() {
                FrameView::Sequence(statements, i) => {
                    if 0 <= i < statements.len() {
                        rest.push(FrameView::Sequence(statements, i + 1)).go(
                            ControlView::Statement(statements[i]),
                        )
                    } else {
                        rest.go(ControlView::Done)
                    }
                },
                FrameView::Program(statements, i) => {
                    if 0 <= i < statements.len() {
                        rest.push(FrameView::Program(statements, i + 1)).go(
                            ControlView::Statement(statements[i]),
                        )
                    } else {
                        rest.go(ControlView::Done)
                    }
                },
                FrameView::Leave(to) => (InterpView {
                    environment: rest.environment.leave(to),
                    ..rest
                }).go(ControlView::Done),
                FrameView::Nil => rest.go(ControlView::Value(ValueView::Nil)),
                FrameView::LoopBody(condition, body) => rest.push(
                    FrameView::LoopTest(condition, body),
                ).go(ControlView::Expression(condition)),
                // Work that waits for a value takes nil.
                _ => self.go(ControlView::Value(ValueView::Nil)),
            }
        }
    }

    /// The step that unwinds the stack by one frame after the runtime
    /// error `e`. A block that is left gives the scope back; the statement
    /// of the program in which the error came up ends, and the error is
    /// reported.
    pub open spec fn step_error(self, e: RuntimeErrorView) -> Stepped {
        if self.stack.len() == 0 {
            (InterpView { had_runtime_error: true, ..self }).ask(
                ControlView::Idle,
                RequestView::Report(e),
            )
        } else {
            let rest = self.pop();
            match self.stack.last() {
                FrameView::Program(_, _) => (InterpView { had_runtime_error: true, ..self }).ask(
                    ControlView::Done,
                    RequestView::Report(e),
                ),
                FrameView::Leave(to) => (InterpView {
                    environment: rest.environment.leave(to),
                    ..rest
                }).go(ControlView::Error(e)),
                _ => rest.go(ControlView::Error(e)),
            }
        }
    }

    /// The step that takes the host's reply. A reply of the wrong kind is
    /// not taken: the request is made again.
    pub open spec fn step_waiting(self, p: PendingView, reply: ReplyView) -> Stepped {
        match reply {
            ReplyView::Number(n) => match p {
                PendingView::Format(_) => self.ask(ControlView::Waiting(p), request_for(p)),
                _ => self.go(ControlView::Value(ValueView::Number(n))),
            },
            ReplyView::Text(raw) => match p {
                PendingView::Format(bits) => self.ask(
                    ControlView::Done,
                    RequestView::Print(rendered(ValueView::Number(bits), raw)),
                ),
                _ => self.ask(ControlView::Waiting(p), request_for(p)),
            },
            ReplyView::Nothing => self.ask(ControlView::Waiting(p), request_for(p)),
        }
    }

    /// Steps up to the first that asks something of the host, and no more
    /// than `budget` of them.
    pub open spec fn run(self, reply: ReplyView, budget: nat) -> Stepped
        decreases budget,
    {
        if budget == 0 {
            Stepped { state: self, request: RequestView::Continue }
        } else {
            let s = self.step(reply);
            if s.request is Continue {
                s.state.run(ReplyView::Nothing, (budget - 1) as nat)
            } else {
                s
            }
        }
    }

    /// With nothing to do and nothing waiting.
    pub open spec fn idle(self) -> bool {
        self.control is Idle && self.stack.len() == 0
    }

    /// One step: what the state and the host's reply to the request before
    /// give.
    pub open spec fn step(self, reply: ReplyView) -> Stepped {
        let taken = InterpView { control: ControlView::Idle, ..self };
        match self.control {
            ControlView::Idle => taken.ask(ControlView::Idle, RequestView::Finished),
            ControlView::Expression(e) => taken.step_expression(e),
            ControlView::Statement(s) => taken.step_statement(s),
            ControlView::Value(v) => taken.step_value(v),
            ControlView::Done => taken.step_done(),
            ControlView::Error(e) => taken.step_error(e),
            ControlView::Waiting(p) => taken.step_waiting(p, reply),
        }
    }
}

/// Whether the scopes that the blocks on the stack go back to lie before
/// one another: the one of the topmost block before `current`, the one of
/// the block below before that, and so on.
pub open spec fn nested(stack: Seq<FrameView>, current: int) -> bool
    decreases stack.len(),
{
    if stack.len() == 0 {
        true
    } else {
        match stack.last() {
            FrameView::Leave(to) => 0 <= to < current && nested(stack.drop_last(), to),
            _ => nested(stack.drop_last(), current),
        }
    }
}

/// A frame that is no block on top of a stack does not change whether the
/// blocks are nested.
pub proof fn lemma_nested_push(stack: Seq<FrameView>, frame: FrameView, current: int)
    requires
        !(frame is Leave),
    ensures
        nested(stack.push(frame), current) == nested(stack, current),
{
    assert(stack.push(frame).drop_last() =~= stack);
}

/// To bind parameters keeps the scopes in their places, and the current
/// scope.
pub proof fn lemma_bind(env: EnvironmentView, parameters: Seq<TokenView>, arguments: Seq<ValueView>, i: int)
    requires
        env.wf(),
    ensures
        bind(env, parameters, arguments, i).wf(),
        bind(env, parameters, arguments, i).current == env.current,
        bind(env, parameters, arguments, i).scopes.len() == env.scopes.len(),
    decreases parameters.len() - i,
{
    if 0 <= i < parameters.len() && i < arguments.len() {
        lemma_changes(env, parameters[i].lexeme, arguments[i], 0);
        lemma_bind(env.define(parameters[i].lexeme, arguments[i]), parameters, arguments, i + 1);
    }
}

impl InterpView {
    /// The state is well formed, and the blocks that run are nested in the
    /// order in which they were entered.
    pub open spec fn orderly(self) -> bool {
        self.wf() && nested(self.stack, self.environment.current)
    }
}

/// To start a block keeps the blocks nested.
pub proof fn lemma_begin_block(s: InterpView, statements: Seq<StmtView>, enclosing: int)
    requires
        s.orderly(),
        0 <= enclosing < s.environment.scopes.len(),
    ensures
        s.begin_block(statements, enclosing).orderly(),
        s.begin_block(statements, enclosing).environment.current == s.environment.scopes.len(),
{
    let after = s.begin_block(statements, enclosing);
    let left = s.stack.push(FrameView::Leave(s.environment.current));
    lemma_changes(s.environment, Seq::empty(), ValueView::Nil, enclosing);
    lemma_nested_push(left, FrameView::Sequence(statements, 0), after.environment.current);
    assert(left.drop_last() =~= s.stack);
}

/// A call keeps the blocks nested.
pub proof fn lemma_invoke(s: InterpView, paren: TokenView, callee: ValueView, arguments: Seq<ValueView>)
    requires
        s.orderly(),
    ensures
        s.invoke(paren, callee, arguments).state.orderly(),
{
    match callee {
        ValueView::Callable(id) => {
            if 0 <= id < s.callables.len() {
                match s.callables[id] {
                    CallableView::Function { name, parameters, body, closure } => {
                        if 0 <= closure < s.environment.scopes.len() && parameters.len()
                            == arguments.len() {
                            let pushed = s.push(FrameView::Nil);
                            lemma_nested_push(s.stack, FrameView::Nil, s.environment.current);
                            lemma_begin_block(pushed, body, closure);
                            let started = pushed.begin_block(body, closure);
                            lemma_bind(started.environment, parameters, arguments, 0);
                        }
                    },
                    _ => {},
                }
            }
        },
        _ => {},
    }
}

/// Every step keeps the blocks nested: while a program runs, the scope
/// that a block goes back to is always one that came before the current
/// one, so that a block that ends, by its last statement or by a runtime
/// error, always gives the scope of before back.
#[verifier::rlimit(40)]
pub proof fn lemma_step_keeps_order(s: InterpView, reply: ReplyView)
    requires
        s.orderly(),
    ensures
        s.step(reply).state.orderly(),
        s.stack.len() > 0 && s.stack.last() is Leave && (s.control is Done || s.control is Error)
            ==> s.step(reply).state.environment.current == s.stack.last()->Leave_0,
{
    let taken = InterpView { control: ControlView::Idle, ..s };
    let env = s.environment;
    let rest = taken.pop();
    if s.stack.len() > 0 {
        assert(nested(rest.stack, env.current) || s.stack.last() is Leave);
    }
    match s.control {
        ControlView::Idle => {},
        ControlView::Expression(e) => {
            match e {
                ExprView::Assign { name, value } => {
                    lemma_nested_push(s.stack, FrameView::Assign(name), env.current);
                },
                ExprView::Logical { operator, left, right } => {
                    lemma_nested_push(s.stack, FrameView::Logical(operator, *right), env.current);
                },
                ExprView::Binary { operator, left, right } => {
                    lemma_nested_push(
                        s.stack,
                        FrameView::BinaryRight(operator, *right),
                        env.current,
                    );
                },
                ExprView::Unary { operator, right } => {
                    lemma_nested_push(s.stack, FrameView::Unary(operator), env.current);
                },
                ExprView::Call { callee, paren, arguments } => {
                    lemma_nested_push(s.stack, FrameView::Callee(paren, arguments), env.current);
                },
                _ => {},
            }
        },
        ControlView::Statement(stmt) => {
            match stmt {
                StmtView::Expression(e) => {
                    lemma_nested_push(s.stack, FrameView::Discard, env.current);
                },
                StmtView::Print(e) => {
                    lemma_nested_push(s.stack, FrameView::Print, env.current);
                },
                StmtView::Var { name, initializer } => {
                    lemma_nested_push(s.stack, FrameView::Define(name), env.current);
                },
                StmtView::Block(statements) => {
                    lemma_begin_block(taken, statements, env.current);
                },
                StmtView::If { condition, if_branch, else_branch } => {
                    lemma_nested_push(
                        s.stack,
                        FrameView::Branch(
                            *if_branch,
                            match else_branch {
                                Some(e) => Some(*e),
                                None => None,
                            },
                        ),
                        env.current,
                    );
                },
                StmtView::While { condition, body } => {
                    lemma_nested_push(s.stack, FrameView::LoopTest(condition, *body), env.current);
                },
                StmtView::Func { name, parameters, body } => {
                    lemma_changes(env, name.lexeme, ValueView::Nil, 0);
                    lemma_changes(
                        env.capture(),
                        name.lexeme,
                        ValueView::Callable(s.callables.len() as int),
                        0,
                    );
                },
            }
        },
        ControlView::Value(v) => {
            if s.stack.len() > 0 {
                match s.stack.last() {
                    FrameView::Assign(name) => {
                        lemma_changes(env, name.lexeme, v, 0);
                    },
                    FrameView::BinaryRight(operator, right) => {
                        lemma_nested_push(
                            rest.stack,
                            FrameView::BinaryApply(operator, v),
                            env.current,
                        );
                    },
                    FrameView::Callee(paren, arguments) => {
                        lemma_invoke(rest, paren, v, Seq::empty());
                        lemma_nested_push(
                            rest.stack,
                            FrameView::Arguments(paren, v, Seq::empty(), arguments),
                            env.current,
                        );
                    },
                    FrameView::Arguments(paren, callee, done, all) => {
                        lemma_invoke(rest, paren, callee, done.push(v));
                        lemma_nested_push(
                            rest.stack,
                            FrameView::Arguments(paren, callee, done.push(v), all),
                            env.current,
                        );
                    },
                    FrameView::Define(name) => {
                        lemma_changes(env, name.lexeme, v, 0);
                    },
                    FrameView::LoopTest(condition, body) => {
                        lemma_nested_push(
                            rest.stack,
                            FrameView::LoopBody(condition, body),
                            env.current,
                        );
                    },
                    _ => {},
                }
            }
        },
        ControlView::Done => {
            if s.stack.len() > 0 {
                match s.stack.last() {
                    FrameView::Sequence(statements, i) => {
                        lemma_nested_push(
                            rest.stack,
                            FrameView::Sequence(statements, i + 1),
                            env.current,
                        );
                    },
                    FrameView::Program(statements, i) => {
                        lemma_nested_push(
                            rest.stack,
                            FrameView::Program(statements, i + 1),
                            env.current,
                        );
                    },
                    FrameView::Leave(to) => {
                        lemma_changes(env, Seq::empty(), ValueView::Nil, to);
                    },
                    FrameView::LoopBody(condition, body) => {
                        lemma_nested_push(
                            rest.stack,
                            FrameView::LoopTest(condition, body),
                            env.current,
                        );
                    },
                    _ => {},
                }
            }
        },
        ControlView::Error(e) => {
            if s.stack.len() > 0 {
                match s.stack.last() {
                    FrameView::Leave(to) => {
                        lemma_changes(env, Seq::empty(), ValueView::Nil, to);
                    },
                    _ => {},
                }
            }
        },
        ControlView::Waiting(p) => {},
    }
}


/// Whether the scope of the declaration of every function is there, and
/// marked as one that is kept.
pub open spec fn closures_kept(callables: Seq<CallableView>, env: EnvironmentView) -> bool {
    forall|i: int|
        0 <= i < callables.len() ==> (#[trigger] callables[i] matches CallableView::Function {
            closure,
            ..
        } ==> 0 <= closure < env.scopes.len() && env.scopes[closure].captured)
}

/// The changes of an environment keep the scopes of the functions.
pub proof fn lemma_closures_kept(
    callables: Seq<CallableView>,
    env: EnvironmentView,
    name: Seq<char>,
    value: ValueView,
    scope: int,
)
    requires
        env.wf(),
        closures_kept(callables, env),
    ensures
        closures_kept(callables, env.define(name, value)),
        env.assign(name, value) matches Some(after) ==> closures_kept(callables, after),
        closures_kept(callables, env.capture()),
        closures_kept(callables, env.enter(scope)),
        closures_kept(callables, env.leave(scope)),
{
    lemma_changes(env, name, value, scope);
    crate::lox::ast::environment::lemma_resolve(env, env.current, name);
    assert forall|i: int| 0 <= i < callables.len() implies (#[trigger] callables[i]
        matches CallableView::Function { closure, .. } ==> 0 <= closure < env.leave(
        scope,
    ).scopes.len() && env.leave(scope).scopes[closure].captured) by {}
}

/// To bind parameters keeps the scopes of the functions.
pub proof fn lemma_bind_keeps_closures(
    callables: Seq<CallableView>,
    env: EnvironmentView,
    parameters: Seq<TokenView>,
    arguments: Seq<ValueView>,
    i: int,
)
    requires
        env.wf(),
        closures_kept(callables, env),
    ensures
        closures_kept(callables, bind(env, parameters, arguments, i)),
    decreases parameters.len() - i,
{
    if 0 <= i < parameters.len() && i < arguments.len() {
        lemma_changes(env, parameters[i].lexeme, arguments[i], 0);
        lemma_closures_kept(callables, env, parameters[i].lexeme, arguments[i], 0);
        lemma_bind_keeps_closures(
            callables,
            env.define(parameters[i].lexeme, arguments[i]),
            parameters,
            arguments,
            i + 1,
        );
    }
}

/// Whether every function among the values that a frame holds is one of
/// the first `count` functions.
pub open spec fn frame_known(frame: FrameView, count: int) -> bool {
    match frame {
        FrameView::BinaryApply(_, left) => known(left, count),
        FrameView::Arguments(_, callee, done, _) => known(callee, count) && forall|k: int|
            0 <= k < done.len() ==> known(#[trigger] done[k], count),
        _ => true,
    }
}

/// Whether every function among the values of the state is one of the
/// functions declared: the values of variables, the values that wait on
/// the stack, and the value that an expression has just given.
pub open spec fn values_known(s: InterpView) -> bool {
    &&& all_known(s.environment, s.callables.len() as int)
    &&& forall|i: int|
        0 <= i < s.stack.len() ==> frame_known(#[trigger] s.stack[i], s.callables.len() as int)
    &&& s.control matches ControlView::Value(v) ==> known(v, s.callables.len() as int)
}

impl InterpView {
    /// The state is orderly, the scope of the declaration of every function
    /// is kept, and every value that is a function is one of the functions
    /// declared. Every state of an interpreter that started new is sound.
    pub open spec fn sound(self) -> bool {
        self.orderly() && closures_kept(self.callables, self.environment) && values_known(self)
    }
}

/// What operators give is never a function.
pub proof fn lemma_operators_known(operator: TokenType, a: ValueView, b: ValueView, count: int)
    ensures
        apply_unary(operator, a) matches Ok(v) ==> known(v, count),
        apply_binary(operator, a, b) matches BinaryView::Value(v) ==> known(v, count),
{
}

/// To bind parameters to known values leaves the functions known.
pub proof fn lemma_bind_known(
    env: EnvironmentView,
    count: int,
    parameters: Seq<TokenView>,
    arguments: Seq<ValueView>,
    i: int,
)
    requires
        env.wf(),
        all_known(env, count),
        forall|k: int| 0 <= k < arguments.len() ==> known(#[trigger] arguments[k], count),
    ensures
        all_known(bind(env, parameters, arguments, i), count),
    decreases parameters.len() - i,
{
    if 0 <= i < parameters.len() && i < arguments.len() {
        lemma_changes(env, parameters[i].lexeme, arguments[i], 0);
        lemma_known(env, count, parameters[i].lexeme, arguments[i], 0);
        lemma_bind_known(
            env.define(parameters[i].lexeme, arguments[i]),
            count,
            parameters,
            arguments,
            i + 1,
        );
    }
}

/// A call of known values leaves the functions known.
pub proof fn lemma_invoke_known(
    s: InterpView,
    paren: TokenView,
    callee: ValueView,
    arguments: Seq<ValueView>,
)
    requires
        s.wf(),
        all_known(s.environment, s.callables.len() as int),
        forall|i: int|
            0 <= i < s.stack.len() ==> frame_known(#[trigger] s.stack[i], s.callables.len() as int),
        forall|k: int|
            0 <= k < arguments.len() ==> known(#[trigger] arguments[k], s.callables.len() as int),
    ensures
        values_known(s.invoke(paren, callee, arguments).state),
{
    let count = s.callables.len() as int;
    let after = s.invoke(paren, callee, arguments).state;
    match callee {
        ValueView::Callable(id) => {
            if 0 <= id < s.callables.len() {
                match s.callables[id] {
                    CallableView::Function { name, parameters, body, closure } => {
                        if 0 <= closure < s.environment.scopes.len() && parameters.len()
                            == arguments.len() {
                            lemma_changes(s.environment, Seq::empty(), ValueView::Nil, closure);
                            lemma_known(
                                s.environment,
                                count,
                                Seq::empty(),
                                ValueView::Nil,
                                closure,
                            );
                            lemma_bind_known(
                                s.environment.enter(closure),
                                count,
                                parameters,
                                arguments,
                                0,
                            );
                            assert forall|i: int| 0 <= i < after.stack.len() implies frame_known(
                                #[trigger] after.stack[i],
                                count,
                            ) by {
                                if i < s.stack.len() {
                                    assert(after.stack[i] == s.stack[i]);
                                }
                            }
                        }
                    },
                    _ => {},
                }
            }
        },
        _ => {},
    }
}

/// Every step keeps the functions known: a value that is a function is
/// always one of the functions declared.
#[verifier::rlimit(40)]
pub proof fn lemma_step_keeps_known(s: InterpView, reply: ReplyView)
    requires
        s.wf(),
        values_known(s),
    ensures
        values_known(s.step(reply).state),
{
    let count = s.callables.len() as int;
    let env = s.environment;
    let after = s.step(reply).state;
    let taken = InterpView { control: ControlView::Idle, ..s };
    let rest = taken.pop();
    if s.stack.len() > 0 {
        assert forall|i: int| 0 <= i < rest.stack.len() implies frame_known(
            #[trigger] rest.stack[i],
            count,
        ) by {
            assert(rest.stack[i] == s.stack[i]);
        }
        assert(frame_known(s.stack[s.stack.len() - 1], count));
    }
    match s.control {
        ControlView::Idle => {},
        ControlView::Expression(e) => {
            match e {
                ExprView::Variable(t) => {
                    lemma_known(env, count, t.lexeme, ValueView::Nil, 0);
                },
                ExprView::Literal(_) => {},
                ExprView::Grouping(_) => {},
                _ => {
                    lemma_pushed_known(s.stack, after.stack, count);
                },
            }
        },
        ControlView::Statement(stmt) => {
            match stmt {
                StmtView::Block(statements) => {
                    lemma_known(env, count, Seq::empty(), ValueView::Nil, env.current);
                    let left = s.stack.push(FrameView::Leave(env.current));
                    lemma_pushed_known(s.stack, left, count);
                    lemma_pushed_known(left, after.stack, count);
                },
                StmtView::Func { name, parameters, body } => {
                    let id = ValueView::Callable(count);
                    lemma_changes(env, name.lexeme, id, 0);
                    lemma_known(env, count, name.lexeme, id, 0);
                    lemma_known(env.capture(), count + 1, name.lexeme, id, 0);
                    lemma_known(env.capture(), count, name.lexeme, id, 0);
                    assert forall|i: int| 0 <= i < after.stack.len() implies frame_known(
                        #[trigger] after.stack[i],
                        count + 1,
                    ) by {
                        assert(frame_known(s.stack[i], count));
                    }
                },
                _ => {
                    lemma_pushed_known(s.stack, after.stack, count);
                },
            }
        },
        ControlView::Value(v) => {
            if s.stack.len() > 0 {
                match s.stack.last() {
                    FrameView::Assign(name) => {
                        lemma_known(env, count, name.lexeme, v, 0);
                    },
                    FrameView::BinaryRight(operator, right) => {
                        lemma_pushed_known(rest.stack, after.stack, count);
                    },
                    FrameView::BinaryApply(operator, left) => {
                        lemma_operators_known(operator.token_type, left, v, count);
                    },
                    FrameView::Unary(operator) => {
                        lemma_operators_known(operator.token_type, v, v, count);
                    },
                    FrameView::Callee(paren, arguments) => {
                        lemma_invoke_known(rest, paren, v, Seq::empty());
                        if arguments.len() > 0 {
                            lemma_pushed_known(rest.stack, after.stack, count);
                        }
                    },
                    FrameView::Arguments(paren, callee, done, all) => {
                        let values = done.push(v);
                        assert forall|k: int| 0 <= k < values.len() implies known(
                            #[trigger] values[k],
                            count,
                        ) by {
                            if k < done.len() {
                                assert(known(done[k], count));
                            }
                        }
                        lemma_invoke_known(rest, paren, callee, values);
                        if values.len() < all.len() {
                            lemma_pushed_known(rest.stack, after.stack, count);
                        }
                    },
                    FrameView::Define(name) => {
                        lemma_known(env, count, name.lexeme, v, 0);
                    },
                    FrameView::LoopTest(condition, body) => {
                        if crate::token_type::truthy(v) {
                            lemma_pushed_known(rest.stack, after.stack, count);
                        }
                    },
                    _ => {},
                }
            }
        },
        ControlView::Done => {
            if s.stack.len() > 0 {
                match s.stack.last() {
                    FrameView::Sequence(statements, i) => {
                        if 0 <= i < statements.len() {
                            lemma_pushed_known(rest.stack, after.stack, count);
                        }
                    },
                    FrameView::Program(statements, i) => {
                        if 0 <= i < statements.len() {
                            lemma_pushed_known(rest.stack, after.stack, count);
                        }
                    },
                    FrameView::Leave(to) => {
                        lemma_known(env, count, Seq::empty(), ValueView::Nil, to);
                    },
                    FrameView::LoopBody(condition, body) => {
                        lemma_pushed_known(rest.stack, after.stack, count);
                    },
                    _ => {},
                }
            }
        },
        ControlView::Error(e) => {
            if s.stack.len() > 0 {
                match s.stack.last() {
                    FrameView::Leave(to) => {
                        lemma_known(env, count, Seq::empty(), ValueView::Nil, to);
                    },
                    _ => {},
                }
            }
        },
        ControlView::Waiting(p) => {},
    }
}

/// A frame whose values are known, put on a stack whose values are known,
/// gives a stack whose values are known.
pub proof fn lemma_pushed_known(stack: Seq<FrameView>, pushed: Seq<FrameView>, count: int)
    requires
        forall|i: int| 0 <= i < stack.len() ==> frame_known(#[trigger] stack[i], count),
        pushed.len() == stack.len() + 1,
        forall|i: int| 0 <= i < stack.len() ==> pushed[i] == stack[i],
        frame_known(pushed[pushed.len() - 1], count),
    ensures
        forall|i: int| 0 <= i < pushed.len() ==> frame_known(#[trigger] pushed[i], count),
{
    assert forall|i: int| 0 <= i < pushed.len() implies frame_known(
        #[trigger] pushed[i],
        count,
    ) by {
        if i < stack.len() {
            assert(frame_known(stack[i], count));
        }
    }
}

/// Every step keeps the scopes of the functions: a function that was
/// declared can always be called in the scope of its declaration.
#[verifier::rlimit(40)]
pub proof fn lemma_step_keeps_closures(s: InterpView, reply: ReplyView)
    requires
        s.orderly(),
        closures_kept(s.callables, s.environment),
    ensures
        closures_kept(s.step(reply).state.callables, s.step(reply).state.environment),
{
    let env = s.environment;
    let cs = s.callables;
    let taken = InterpView { control: ControlView::Idle, ..s };
    match s.control {
        ControlView::Statement(stmt) => {
            match stmt {
                StmtView::Block(statements) => {
                    lemma_closures_kept(cs, env, Seq::empty(), ValueView::Nil, env.current);
                },
                StmtView::Func { name, parameters, body } => {
                    let id = ValueView::Callable(cs.len() as int);
                    lemma_changes(env, name.lexeme, id, 0);
                    lemma_closures_kept(cs, env, name.lexeme, id, 0);
                    lemma_closures_kept(cs, env.capture(), name.lexeme, id, 0);
                    lemma_changes(env.capture(), name.lexeme, id, 0);
                    let after = s.step(reply).state;
                    crate::lox::ast::environment::lemma_capture_define(env, name.lexeme, id);
                    assert forall|i: int| 0 <= i < after.callables.len() implies (
                    #[trigger] after.callables[i] matches CallableView::Function { closure, .. }
                        ==> 0 <= closure < after.environment.scopes.len()
                        && after.environment.scopes[closure].captured) by {
                        if i < cs.len() {
                            assert(after.callables[i] == cs[i]);
                        }
                    }
                },
                _ => {},
            }
        },
        ControlView::Value(v) => {
            if s.stack.len() > 0 {
                match s.stack.last() {
                    FrameView::Assign(name) => {
                        lemma_closures_kept(cs, env, name.lexeme, v, 0);
                    },
                    FrameView::Define(name) => {
                        lemma_closures_kept(cs, env, name.lexeme, v, 0);
                    },
                    FrameView::Callee(paren, arguments) => {
                        lemma_invoke_keeps_closures(taken.pop(), paren, v, Seq::empty());
                    },
                    FrameView::Arguments(paren, callee, done, all) => {
                        lemma_invoke_keeps_closures(taken.pop(), paren, callee, done.push(v));
                    },
                    _ => {},
                }
            }
        },
        ControlView::Done => {
            if s.stack.len() > 0 {
                match s.stack.last() {
                    FrameView::Leave(to) => {
                        lemma_closures_kept(cs, env, Seq::empty(), ValueView::Nil, to);
                    },
                    _ => {},
                }
            }
        },
        ControlView::Error(e) => {
            if s.stack.len() > 0 {
                match s.stack.last() {
                    FrameView::Leave(to) => {
                        lemma_closures_kept(cs, env, Seq::empty(), ValueView::Nil, to);
                    },
                    _ => {},
                }
            }
        },
        _ => {},
    }
}

/// A call keeps the scopes of the functions.
pub proof fn lemma_invoke_keeps_closures(
    s: InterpView,
    paren: TokenView,
    callee: ValueView,
    arguments: Seq<ValueView>,
)
    requires
        s.wf(),
        closures_kept(s.callables, s.environment),
    ensures
        closures_kept(
            s.invoke(paren, callee, arguments).state.callables,
            s.invoke(paren, callee, arguments).state.environment,
        ),
{
    match callee {
        ValueView::Callable(id) => {
            if 0 <= id < s.callables.len() {
                match s.callables[id] {
                    CallableView::Function { name, parameters, body, closure } => {
                        if 0 <= closure < s.environment.scopes.len() && parameters.len()
                            == arguments.len() {
                            lemma_changes(s.environment, Seq::empty(), ValueView::Nil, closure);
                            lemma_closures_kept(
                                s.callables,
                                s.environment,
                                Seq::empty(),
                                ValueView::Nil,
                                closure,
                            );
                            lemma_bind_keeps_closures(
                                s.callables,
                                s.environment.enter(closure),
                                parameters,
                                arguments,
                                0,
                            );
                        }
                    },
                    _ => {},
                }
            }
        },
        _ => {},
    }
}

} // verus!
