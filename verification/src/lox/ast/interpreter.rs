//! The interpreter: a machine that runs a program step by step.
//!
//! Numbers are doubles, which the machine holds as bit patterns and does
//! not compute with. Where a program needs arithmetic on them, their value
//! from a numeral, their text, or the time, a step ends with a request to
//! the host, and the next step takes the host's reply. Printing and the
//! report of a runtime error are requests too. A host runs the machine by
//! calling `step` until the request is `Finished`.

use vstd::prelude::*;
use vstd::string::*;
use crate::number::{less, less_equal, negate, number_le, number_lt, number_neg};
use crate::scanner::{clone_tokens, is_digit_char};
use crate::text::{chars_of, decimal, string_of};
use crate::token_type::{
    is_equal, is_truthy, truthy, values_equal, Literal, Token, TokenType, TokenView, Value,
    ValueView, tokens_view,
};
use crate::lox::ast::environment::{Environment, EnvironmentView, ScopeView};
use crate::lox::ast::machine::{
    bind, closures_kept, lemma_begin_block, lemma_closures_kept, lemma_pushed_known,
    lemma_step_keeps_closures, lemma_step_keeps_known, lemma_step_keeps_order, request_for,
    values_view, Callable, CallableView, Clock, Control,
    ControlView, Frame, FrameView, InterpView, LoxCallable, LoxFunction, Pending, Reply, Request,
    Stepped,
};
use crate::lox::ast::{
    clone_expr, clone_stmt, clone_stmts, lemma_block_view, lemma_call_view, lemma_func_view,
    stmts_view, Expr, Stmt, StmtView,
};

verus! {

/// An error with the token that places it. The parser reports grammar
/// violations with it, the interpreter what goes wrong while a program runs.
#[derive(Debug)]
pub struct RuntimeError {
    pub token: Token,
    pub message: String,
}

/// The view of a `RuntimeError`.
pub struct RuntimeErrorView {
    pub token: TokenView,
    pub message: Seq<char>,
}

impl View for RuntimeError {
    type V = RuntimeErrorView;

    open spec fn view(&self) -> RuntimeErrorView {
        RuntimeErrorView { token: self.token@, message: self.message@ }
    }
}

impl Clone for RuntimeError {
    fn clone(&self) -> (r: Self)
        ensures
            r == *self,
    {
        RuntimeError { token: self.token.clone(), message: self.message.clone() }
    }
}

impl RuntimeError {
/// An error at `token`.
    pub fn new(token: Token, message: String) -> (r: Self)
        ensures
            r == (RuntimeError { token, message }),
    {
        Self { token, message }
    }
}

/// Whether `text` is one digit or more, and nothing else.
pub open spec fn all_digits(text: Seq<char>) -> bool {
    text.len() > 0 && forall|i: int| 0 <= i < text.len() ==> is_digit_char(#[trigger] text[i])
}

/// Whether `text` is an integer written in digits, with or without a minus
/// sign before them.
pub open spec fn is_plain_integer(text: Seq<char>) -> bool {
    if text.len() > 0 && text[0] == '-' {
        all_digits(text.subrange(1, text.len() as int))
    } else {
        all_digits(text)
    }
}

/// The text of a number, given its decimal text `raw`: an integer that is
/// written with a fraction of zero loses the `.0`. Any other text stays as
/// it is.
pub open spec fn number_text(raw: Seq<char>) -> Seq<char> {
    let n = raw.len() as int;
    if n >= 3 && raw[n - 2] == '.' && raw[n - 1] == '0' && is_plain_integer(raw.subrange(0, n - 2)) {
        raw.subrange(0, n - 2)
    } else {
        raw
    }
}

/// The text that `print` writes for a value; `raw` is the decimal text of
/// the number, where the value is one. A string is written as it is.
pub open spec fn rendered(v: ValueView, raw: Seq<char>) -> Seq<char> {
    match v {
        ValueView::Number(_) => number_text(raw),
        ValueView::String(s) => s,
        ValueView::Boolean(b) => if b {
            "true"@
        } else {
            "false"@
        },
        ValueView::Nil => "nil"@,
        ValueView::Callable(_) => "<fn>"@,
    }
}

fn plain_integer(text: &Vec<char>, to: usize) -> (r: bool)
    requires
        to <= text@.len(),
    ensures
        r == is_plain_integer(text@.subrange(0, to as int)),
{
    let ghost t = text@.subrange(0, to as int);
    let from: usize = if to > 0 && text[0] == '-' {
        1
    } else {
        0
    };
    let ghost digits = text@.subrange(from as int, to as int);
    assert(digits =~= if t.len() > 0 && t[0] == '-' {
        t.subrange(1, t.len() as int)
    } else {
        t
    });
    let mut i: usize = from;
    while i < to
        invariant
            from <= i <= to <= text@.len(),
            digits == text@.subrange(from as int, to as int),
            is_plain_integer(text@.subrange(0, to as int)) == all_digits(digits),
            forall|j: int| 0 <= j < i - from ==> is_digit_char(#[trigger] digits[j]),
        decreases to - i,
    {
        let c = text[i];
        if !(c >= '0' && c <= '9') {
            assert(!is_digit_char(digits[i - from]));
            assert(!all_digits(digits));
            return false;
        }
        i += 1;
    }
    from < to
}

/// The text that `print` writes for `val`. For a number, `raw` is its
/// decimal text, which the host gives; for any other value `raw` is not
/// read.
pub fn stringify(val: &Value, raw: &str) -> (r: String)
    ensures
        r@ == rendered(val@, raw@),
{
    match val {
        Value::Number(_) => {
            let text = chars_of(raw);
            let n = text.len();
            if n >= 3 && text[n - 2] == '.' && text[n - 1] == '0' && plain_integer(&text, n - 2) {
                string_of(&text, 0, n - 2)
            } else {
                String::from_str(raw)
            }
        },
        Value::String(s) => s.clone(),
        Value::Boolean(b) => if *b {
            String::from_str("true")
        } else {
            String::from_str("false")
        },
        Value::Nil => String::from_str("nil"),
        Value::Callable(_) => String::from_str("<fn>"),
    }
}

/// What a unary operator makes of its operand: `-` negates a number, `!`
/// gives whether the operand is falsy.
pub open spec fn apply_unary(operator: TokenType, v: ValueView) -> Result<ValueView, Seq<char>> {
    if operator == TokenType::MINUS {
        match v {
            ValueView::Number(n) => Ok(ValueView::Number(number_neg(n))),
            _ => Err("operand must be a number"@),
        }
    } else if operator == TokenType::BANG {
        Ok(ValueView::Boolean(!truthy(v)))
    } else {
        Err("Unexpected unary operator"@)
    }
}

/// What a binary operator makes of its operands: a value, arithmetic on
/// two numbers that is left to the host, or an error.
pub enum BinaryView {
    Value(ValueView),
    Calculate(TokenType, u64, u64),
    Error(Seq<char>),
}

/// Whether `operator` is one of `-`, `/`, `*` and `+`.
pub open spec fn is_arithmetic(operator: TokenType) -> bool {
    operator == TokenType::MINUS || operator == TokenType::SLASH || operator == TokenType::STAR
        || operator == TokenType::PLUS
}

/// `==` and `!=` compare any two values. The comparisons and the
/// arithmetic take two numbers; `+` also joins two strings. Nothing else
/// is accepted: a number and a string are never converted to each other.
pub open spec fn apply_binary(operator: TokenType, l: ValueView, r: ValueView) -> BinaryView {
    if operator == TokenType::EQUAL_EQUAL {
        BinaryView::Value(ValueView::Boolean(values_equal(l, r)))
    } else if operator == TokenType::BANG_EQUAL {
        BinaryView::Value(ValueView::Boolean(!values_equal(l, r)))
    } else {
        match (l, r) {
            (ValueView::Number(a), ValueView::Number(b)) => {
                if operator == TokenType::GREATER {
                    BinaryView::Value(ValueView::Boolean(number_lt(b, a)))
                } else if operator == TokenType::GREATER_EQUAL {
                    BinaryView::Value(ValueView::Boolean(number_le(b, a)))
                } else if operator == TokenType::LESS {
                    BinaryView::Value(ValueView::Boolean(number_lt(a, b)))
                } else if operator == TokenType::LESS_EQUAL {
                    BinaryView::Value(ValueView::Boolean(number_le(a, b)))
                } else if is_arithmetic(operator) {
                    BinaryView::Calculate(operator, a, b)
                } else {
                    BinaryView::Error("Unexpected binary operator for numbers"@)
                }
            },
            (ValueView::String(a), ValueView::String(b)) => {
                if operator == TokenType::PLUS {
                    BinaryView::Value(ValueView::String(a + b))
                } else {
                    BinaryView::Error("Unexpected binary operator for strings"@)
                }
            },
            _ => BinaryView::Error("no valid operator for operand types."@),
        }
    }
}

/// Arithmetic on two numbers is never an error: whatever the numbers, a
/// zero divisor included, `-`, `/`, `*` and `+` are left to the host with
/// the two numbers as they are.
pub proof fn lemma_arithmetic(operator: TokenType, a: u64, b: u64)
    requires
        is_arithmetic(operator),
    ensures
        apply_binary(operator, ValueView::Number(a), ValueView::Number(b))
            == BinaryView::Calculate(operator, a, b),
{
}

/// What a binary operator makes of its operands.
pub enum BinaryStep {
    Value(Value),
    Calculate(TokenType, u64, u64),
    Error(String),
}

impl View for BinaryStep {
    type V = BinaryView;

    open spec fn view(&self) -> BinaryView {
        match self {
            BinaryStep::Value(v) => BinaryView::Value(v@),
            BinaryStep::Calculate(o, a, b) => BinaryView::Calculate(*o, *a, *b),
            BinaryStep::Error(m) => BinaryView::Error(m@),
        }
    }
}

/// Applies a unary operator to the value of its operand.
pub fn unary_operation(operator: TokenType, value: &Value) -> (r: Result<Value, String>)
    ensures
        match r {
            Ok(v) => apply_unary(operator, value@) == Ok::<ValueView, Seq<char>>(v@),
            Err(m) => apply_unary(operator, value@) == Err::<ValueView, Seq<char>>(m@),
        },
{
    match operator {
        TokenType::MINUS => {
            if let Value::Number(num) = value {
                Ok(Value::Number(negate(*num)))
            } else {
                Err(String::from_str("operand must be a number"))
            }
        },
        TokenType::BANG => Ok(Value::Boolean(!is_truthy(value))),
        _ => Err(String::from_str("Unexpected unary operator")),
    }
}

/// Applies a binary operator to the values of its operands.
pub fn binary_operation(operator: TokenType, l: Value, r: Value) -> (out: BinaryStep)
    ensures
        out@ == apply_binary(operator, l@, r@),
{
    match operator {
        TokenType::EQUAL_EQUAL => BinaryStep::Value(Value::Boolean(is_equal(&l, &r))),
        TokenType::BANG_EQUAL => BinaryStep::Value(Value::Boolean(!is_equal(&l, &r))),
        _ => {
            match (l, r) {
                (Value::Number(a), Value::Number(b)) => {
                    match operator {
                        TokenType::GREATER => BinaryStep::Value(Value::Boolean(less(b, a))),
                        TokenType::GREATER_EQUAL => BinaryStep::Value(
                            Value::Boolean(less_equal(b, a)),
                        ),
                        TokenType::LESS => BinaryStep::Value(Value::Boolean(less(a, b))),
                        TokenType::LESS_EQUAL => BinaryStep::Value(Value::Boolean(less_equal(a, b))),
                        TokenType::MINUS | TokenType::SLASH | TokenType::STAR | TokenType::PLUS => {
                            BinaryStep::Calculate(operator, a, b)
                        },
                        _ => BinaryStep::Error(
                            String::from_str("Unexpected binary operator for numbers"),
                        ),
                    }
                },
                (Value::String(a), Value::String(b)) => {
                    if let TokenType::PLUS = operator {
                        BinaryStep::Value(Value::String(a.concat(b.as_str())))
                    } else {
                        BinaryStep::Error(String::from_str("Unexpected binary operator for strings"))
                    }
                },
                _ => BinaryStep::Error(String::from_str("no valid operator for operand types.")),
            }
        },
    }
}

/// The interpreter: the state of a program that runs.
pub struct Interp {
    environment: Environment,
    callables: Vec<Callable>,
    stack: Vec<Frame>,
    control: Control,
    had_runtime_error: bool,
}

impl View for Interp {
    type V = InterpView;

    closed spec fn view(&self) -> InterpView {
        InterpView {
            environment: self.environment@,
            callables: self.callables@.map_values(|c: Callable| c@),
            stack: self.stack@.map_values(|f: Frame| f@),
            control: self.control@,
            had_runtime_error: self.had_runtime_error,
        }
    }
}

/// The state of an interpreter that has run nothing yet: one scope, the
/// global one, in which `clock` is the native clock.
pub open spec fn initial() -> InterpView {
    InterpView {
        environment: (EnvironmentView {
            scopes: seq![ScopeView { bindings: Seq::empty(), enclosing: None, captured: false }],
            current: 0,
        }).define("clock"@, ValueView::Callable(0)),
        callables: seq![CallableView::Clock],
        stack: Seq::empty(),
        control: ControlView::Idle,
        had_runtime_error: false,
    }
}

/// The request that asks for what the interpreter is waiting for.
fn request_of(p: &Pending) -> (r: Request)
    ensures
        r@ == request_for(p@),
{
    match p {
        Pending::Parse(s) => Request::Parse(s.clone()),
        Pending::Calculate(o, a, b) => Request::Calculate(*o, *a, *b),
        Pending::Format(n) => Request::Format(*n),
        Pending::Clock => Request::Clock,
    }
}

impl Interp {
/// An interpreter that has run nothing yet.
    pub fn new() -> (r: Self)
        ensures
            r@ == initial(),
            r@.wf(),
            r@.sound(),
    {
        let mut environment = Environment::new();
        environment.define(&String::from_str("clock"), &Value::Callable(0));
        let mut callables: Vec<Callable> = Vec::new();
        callables.push(Callable::Clock(Clock));
        let r = Interp {
            environment,
            callables,
            stack: Vec::new(),
            control: Control::Idle,
            had_runtime_error: false,
        };
        assert(r@.callables =~= seq![CallableView::Clock]);
        assert(r@.stack =~= Seq::empty());
        assert(r@.sound());
        r
    }

    /// Whether a runtime error was reported since the interpreter was made.
    pub fn had_runtime_error(&self) -> (r: bool)
        ensures
            r == self@.had_runtime_error,
    {
        self.had_runtime_error
    }

    /// The scope in which the program runs.
    pub fn scope(&self) -> (r: usize)
        ensures
            r == self@.environment.current,
    {
        self.environment.current()
    }

    /// How many scopes there are: the scopes are numbered from 0, the
    /// global scope, up to one less than this.
    pub fn scopes(&self) -> (r: usize)
        ensures
            r == self@.environment.scopes.len(),
    {
        self.environment.len()
    }

    /// Whether there is nothing to do and nothing waiting.
    pub fn is_idle(&self) -> (r: bool)
        ensures
            r == self@.idle(),
    {
        self.stack.len() == 0 && matches!(self.control, Control::Idle)
    }

    /// The value that the expression given to `evaluate` had, once the
    /// steps have come to it.
    pub fn value(&self) -> (r: Option<Value>)
        ensures
            match r {
                Some(v) => self@.stack.len() == 0 && self@.control == ControlView::Value(v@),
                None => !(self@.stack.len() == 0 && self@.control is Value),
            },
    {
        if self.stack.len() == 0 {
            match &self.control {
                Control::Value(v) => Some(v.clone()),
                _ => None,
            }
        } else {
            None
        }
    }

    /// Makes `expr` the next thing to evaluate, if the interpreter is idle
    /// or has come to the value of the expression before; says whether it
    /// did. The steps that follow end with the value, or with the report
    /// of a runtime error.
    pub fn evaluate(&mut self, expr: &Expr) -> (r: bool)
        ensures
            r == (old(self)@.stack.len() == 0 && (old(self)@.control is Idle || old(self)@.control is Value)),
            r ==> final(self)@ == (InterpView {
                control: ControlView::Expression(expr@),
                ..old(self)@
            }),
            !r ==> final(self)@ == old(self)@,
            old(self)@.wf() ==> final(self)@.wf(),
            old(self)@.sound() ==> final(self)@.sound(),
    {
        if self.stack.len() == 0 && (matches!(self.control, Control::Idle) || matches!(
            self.control,
            Control::Value(_)
        )) {
            self.control = Control::Expression(clone_expr(expr));
            true
        } else {
            false
        }
    }

    /// Makes the next thing to do to evaluate `expr` and print its value,
    /// as the statement `print expr;` does, if the interpreter is idle;
    /// says whether it did.
    pub fn interpret(&mut self, expr: &Expr) -> (r: bool)
        ensures
            r == old(self)@.idle(),
            r ==> final(self)@ == (InterpView {
                stack: seq![FrameView::Program(seq![StmtView::Print(expr@)], 0)],
                control: ControlView::Done,
                ..old(self)@
            }),
            !r ==> final(self)@ == old(self)@,
            old(self)@.wf() ==> final(self)@.wf(),
            old(self)@.sound() ==> final(self)@.sound(),
    {
        let mut stmts: Vec<Stmt> = Vec::new();
        stmts.push(Stmt::Print(clone_expr(expr)));
        assert(stmts_view(stmts@) =~= seq![StmtView::Print(expr@)]);
        self.interpret_stmts(&stmts)
    }

    /// Makes `stmts` the program to run, if the interpreter is idle; says
    /// whether it did. The statements run in order; a runtime error ends
    /// the statement it comes up in, is reported, and the next statement
    /// follows.
    pub fn interpret_stmts(&mut self, stmts: &Vec<Stmt>) -> (r: bool)
        ensures
            r == old(self)@.idle(),
            r ==> final(self)@ == (InterpView {
                stack: seq![FrameView::Program(stmts_view(stmts@), 0)],
                control: ControlView::Done,
                ..old(self)@
            }),
            !r ==> final(self)@ == old(self)@,
            old(self)@.wf() ==> final(self)@.wf(),
            old(self)@.sound() ==> final(self)@.sound(),
    {
        if !self.is_idle() {
            return false;
        }
        self.stack.push(Frame::Program(clone_stmts(stmts), 0));
        self.control = Control::Done;
        assert(self@.stack =~= seq![FrameView::Program(stmts_view(stmts@), 0)]);
        proof {
            let stack = seq![FrameView::Program(stmts_view(stmts@), 0)];
            assert(stack.drop_last() =~= Seq::empty());
            assert(crate::lox::ast::machine::nested(
                stack.drop_last(),
                self@.environment.current,
            ));
        }
        true
    }

    /// Starts the block `statements` in a new scope inside the scope
    /// `enclosing`, which is one of the scopes there are (see `scopes`; the
    /// current one is `scope`). When the block has run, or a runtime error
    /// has ended it, the scope of before is the current one again.
    pub fn execute_block(&mut self, statements: Vec<Stmt>, enclosing: usize)
        requires
            old(self)@.wf(),
            enclosing < old(self)@.environment.scopes.len(),
        ensures
            final(self)@ == old(self)@.begin_block(stmts_view(statements@), enclosing as int),
            final(self)@.wf(),
            old(self)@.sound() ==> final(self)@.sound(),
    {
        let ghost before = self@;
        proof {
            if before.sound() {
                lemma_begin_block(before, stmts_view(statements@), enclosing as int);
                lemma_closures_kept(
                    before.callables,
                    before.environment,
                    Seq::empty(),
                    ValueView::Nil,
                    enclosing as int,
                );
            }
        }
        let saved = self.environment.current();
        self.stack.push(Frame::Leave(saved));
        self.stack.push(Frame::Sequence(statements, 0));
        self.environment.enter(enclosing);
        self.control = Control::Done;
        assert(self@.stack =~= before.begin_block(
            stmts_view(statements@),
            enclosing as int,
        ).stack);
    }

    fn push(&mut self, frame: Frame)
        ensures
            final(self)@ == old(self)@.push(frame@),
    {
        let ghost before = self@;
        self.stack.push(frame);
        assert(self@.stack =~= before.stack.push(frame@));
    }

    fn pop(&mut self) -> (r: Option<Frame>)
        ensures
            match r {
                Some(f) => old(self)@.stack.len() > 0 && f@ == old(self)@.stack.last() && final(self)@ == old(self)@.pop(),
                None => old(self)@.stack.len() == 0 && final(self)@ == old(self)@,
            },
    {
        let ghost before = self@;
        let r = self.stack.pop();
        assert(r is Some ==> self@.stack =~= before.stack.drop_last());
        r
    }

    fn go(&mut self, control: Control) -> (r: Request)
        ensures
            old(self)@.go(control@) == (Stepped { state: final(self)@, request: r@ }),
    {
        self.control = control;
        Request::Continue
    }

    fn ask(&mut self, control: Control, request: Request) -> (r: Request)
        ensures
            old(self)@.ask(control@, request@) == (Stepped { state: final(self)@, request: r@ }),
    {
        self.control = control;
        request
    }

    fn raise(&mut self, token: Token, message: String) -> (r: Request)
        ensures
            old(self)@.raise(token@, message@) == (Stepped { state: final(self)@, request: r@ }),
    {
        self.control = Control::Error(RuntimeError { token, message });
        Request::Continue
    }

    /// Defines the parameters as the arguments, in the current scope.
    fn bind(&mut self, parameters: &Vec<Token>, arguments: &Vec<Value>)
        requires
            old(self)@.wf(),
        ensures
            final(self)@ == (InterpView {
                environment: bind(
                    old(self)@.environment,
                    tokens_view(parameters@),
                    values_view(arguments@),
                    0,
                ),
                ..old(self)@
            }),
            final(self)@.wf(),
    {
        let ghost before = self@;
        let ghost ps = tokens_view(parameters@);
        let ghost vs = values_view(arguments@);
        let mut i: usize = 0;
        while i < parameters.len() && i < arguments.len()
            invariant
                self@.wf(),
                ps == tokens_view(parameters@),
                vs == values_view(arguments@),
                self@ == (InterpView { environment: self@.environment, ..before }),
                bind(self@.environment, ps, vs, i as int) == bind(before.environment, ps, vs, 0),
            decreases parameters.len() - i,
        {
            self.environment.define(&parameters[i].lexeme, &arguments[i]);
            i += 1;
        }
    }

    /// Calls `callee` with `arguments`.
    #[verifier::rlimit(40)]
    fn invoke(&mut self, paren: Token, callee: Value, arguments: Vec<Value>) -> (r: Request)
        requires
            old(self)@.wf(),
        ensures
            old(self)@.invoke(paren@, callee@, values_view(arguments@)) == (Stepped {
                state: final(self)@,
                request: r@,
            }),
            final(self)@.wf(),
    {
        let ghost before = self@;
        match callee {
            Value::Callable(id) => {
                if id < self.callables.len() {
                    let wanted = self.callables[id].arity();
                    if wanted != arguments.len() {
                        let mut message = String::from_str("Arity mismatch: func wants: ");
                        message.append(decimal(wanted).as_str());
                        message.append(", # args given: ");
                        message.append(decimal(arguments.len()).as_str());
                        return self.raise(paren, message);
                    }
                    match &self.callables[id] {
                        Callable::Clock(_) => self.ask(
                            Control::Waiting(Pending::Clock),
                            Request::Clock,
                        ),
                        Callable::Function(f) => {
                            let closure = f.closure;
                            if closure < self.environment.len() {
                                let body = clone_stmts(&f.declaration.body);
                                let parameters = clone_tokens(&f.declaration.parameters);
                                self.push(Frame::Nil);
                                self.execute_block(body, closure);
                                self.bind(&parameters, &arguments);
                                Request::Continue
                            } else {
                                self.raise(paren, String::from_str("Can only call functions."))
                            }
                        },
                    }
                } else {
                    self.raise(paren, String::from_str("Can only call functions."))
                }
            },
            _ => self.raise(paren, String::from_str("Can only call functions.")),
        }
    }

    /// Starts the evaluation of `e`.
    #[verifier::rlimit(40)]
    fn step_expression(&mut self, e: Expr) -> (r: Request)
        requires
            old(self)@.wf(),
        ensures
            old(self)@.step_expression(e@) == (Stepped { state: final(self)@, request: r@ }),
            final(self)@.wf(),
    {
        match e {
            Expr::Literal(literal) => match literal {
                Literal::Number(text) => {
                    let request = Request::Parse(text.clone());
                    self.ask(Control::Waiting(Pending::Parse(text)), request)
                },
                Literal::String(s) => self.go(Control::Value(Value::String(s))),
                Literal::Boolean(b) => self.go(Control::Value(Value::Boolean(b))),
                Literal::Nil => self.go(Control::Value(Value::Nil)),
            },
            Expr::Grouping(grouping) => self.go(Control::Expression(*grouping.0)),
            Expr::Variable(token) => match self.environment.get(&token) {
                Ok(v) => self.go(Control::Value(v)),
                Err(e) => self.go(Control::Error(e)),
            },
            Expr::Assign(assignment) => {
                self.push(Frame::Assign(assignment.name));
                self.go(Control::Expression(*assignment.value))
            },
            Expr::Logical(logical) => {
                self.push(Frame::Logical(logical.operator, *logical.right));
                self.go(Control::Expression(*logical.left))
            },
            Expr::Binary(binary) => {
                self.push(Frame::BinaryRight(binary.operator, *binary.right));
                self.go(Control::Expression(*binary.left))
            },
            Expr::Unary(unary) => {
                self.push(Frame::Unary(unary.operator));
                self.go(Control::Expression(*unary.right))
            },
            Expr::Call(call) => {
                proof {
                    lemma_call_view(call);
                }
                self.push(Frame::Callee(call.paren, call.arguments));
                self.go(Control::Expression(*call.callee))
            },
        }
    }

    /// Starts the execution of `s`.
    #[verifier::rlimit(40)]
    fn step_statement(&mut self, s: Stmt) -> (r: Request)
        requires
            old(self)@.wf(),
        ensures
            old(self)@.step_statement(s@) == (Stepped { state: final(self)@, request: r@ }),
            final(self)@.wf(),
    {
        let ghost before = self@;
        match s {
            Stmt::Expression(e) => {
                self.push(Frame::Discard);
                self.go(Control::Expression(e))
            },
            Stmt::Print(e) => {
                self.push(Frame::Print);
                self.go(Control::Expression(e))
            },
            Stmt::Var(var) => {
                self.push(Frame::Define(var.name));
                self.go(Control::Expression(var.initializer))
            },
            Stmt::Block(statements) => {
                proof {
                    lemma_block_view(statements);
                }
                let current = self.environment.current();
                self.execute_block(statements, current);
                Request::Continue
            },
            Stmt::If(if_stmt) => {
                let else_branch = match if_stmt.else_branch {
                    Some(e) => Some(*e),
                    None => None,
                };
                self.push(Frame::Branch(*if_stmt.if_branch, else_branch));
                self.go(Control::Expression(if_stmt.condition))
            },
            Stmt::While(while_stmt) => {
                let condition = clone_expr(&while_stmt.condition);
                self.push(Frame::LoopTest(while_stmt.condition, *while_stmt.body));
                self.go(Control::Expression(condition))
            },
            Stmt::Func(func_stmt) => {
                proof {
                    lemma_func_view(func_stmt);
                }
                let id = self.callables.len();
                let name = func_stmt.name.lexeme.clone();
                let closure = self.environment.current();
                self.callables.push(
                    Callable::Function(LoxFunction { declaration: func_stmt, closure }),
                );
                self.environment.capture();
                self.environment.define(&name, &Value::Callable(id));
                assert(self@.callables =~= before.step_statement(s@).state.callables);
                self.go(Control::Done)
            },
        }
    }

    /// Hands the value `v` of an expression to the work that waits for it.
    #[verifier::rlimit(50)]
    fn step_value(&mut self, v: Value) -> (r: Request)
        requires
            old(self)@.wf(),
        ensures
            old(self)@.step_value(v@) == (Stepped { state: final(self)@, request: r@ }),
            final(self)@.wf(),
    {
        let ghost before = self@;
        match self.pop() {
            None => self.ask(Control::Value(v), Request::Finished),
            Some(frame) => match frame {
                Frame::Assign(name) => match self.environment.assign(&name, &v) {
                    Ok(_) => self.go(Control::Value(v)),
                    Err(e) => self.go(Control::Error(e)),
                },
                Frame::Logical(operator, right) => {
                    if (operator.token_type == TokenType::OR) == is_truthy(&v) {
                        self.go(Control::Value(v))
                    } else {
                        self.go(Control::Expression(right))
                    }
                },
                Frame::BinaryRight(operator, right) => {
                    self.push(Frame::BinaryApply(operator, v));
                    self.go(Control::Expression(right))
                },
                Frame::BinaryApply(operator, left) => match binary_operation(
                    operator.token_type,
                    left,
                    v,
                ) {
                    BinaryStep::Value(x) => self.go(Control::Value(x)),
                    BinaryStep::Calculate(o, a, b) => self.ask(
                        Control::Waiting(Pending::Calculate(o, a, b)),
                        Request::Calculate(o, a, b),
                    ),
                    BinaryStep::Error(m) => self.raise(operator, m),
                },
                Frame::Unary(operator) => match unary_operation(operator.token_type, &v) {
                    Ok(x) => self.go(Control::Value(x)),
                    Err(m) => self.raise(operator, m),
                },
                Frame::Callee(paren, arguments) => {
                    if arguments.len() == 0 {
                        let none: Vec<Value> = Vec::new();
                        assert(values_view(none@) =~= Seq::empty());
                        self.invoke(paren, v, none)
                    } else {
                        let first = clone_expr(&arguments[0]);
                        let none: Vec<Value> = Vec::new();
                        assert(values_view(none@) =~= Seq::empty());
                        self.push(Frame::Arguments(paren, v, none, arguments));
                        self.go(Control::Expression(first))
                    }
                },
                Frame::Arguments(paren, callee, done, all) => {
                    let ghost before_values = values_view(done@);
                    let mut values = done;
                    values.push(v);
                    assert(values_view(values@) =~= before_values.push(v@));
                    if values.len() < all.len() {
                        let next = clone_expr(&all[values.len()]);
                        self.push(Frame::Arguments(paren, callee, values, all));
                        self.go(Control::Expression(next))
                    } else {
                        self.invoke(paren, callee, values)
                    }
                },
                Frame::Discard => self.go(Control::Done),
                Frame::Print => match v {
                    Value::Number(bits) => self.ask(
                        Control::Waiting(Pending::Format(bits)),
                        Request::Format(bits),
                    ),
                    other => {
                        let line = stringify(&other, "");
                        self.ask(Control::Done, Request::Print(line))
                    },
                },
                Frame::Define(name) => {
                    self.environment.define(&name.lexeme, &v);
                    self.go(Control::Done)
                },
                Frame::Branch(then_branch, else_branch) => {
                    if is_truthy(&v) {
                        self.go(Control::Statement(then_branch))
                    } else {
                        match else_branch {
                            Some(e) => self.go(Control::Statement(e)),
                            None => self.go(Control::Done),
                        }
                    }
                },
                Frame::LoopTest(condition, body) => {
                    if is_truthy(&v) {
                        let run = clone_stmt(&body);
                        self.push(Frame::LoopBody(condition, body));
                        self.go(Control::Statement(run))
                    } else {
                        self.go(Control::Done)
                    }
                },
                other => {
                    self.push(other);
                    assert(self@.stack =~= before.stack);
                    self.go(Control::Done)
                },
            },
        }
    }

    /// Goes on after the end of a statement.
    #[verifier::rlimit(50)]
    fn step_done(&mut self) -> (r: Request)
        requires
            old(self)@.wf(),
        ensures
            old(self)@.step_done() == (Stepped { state: final(self)@, request: r@ }),
            final(self)@.wf(),
    {
        let ghost before = self@;
        match self.pop() {
            None => self.ask(Control::Idle, Request::Finished),
            Some(frame) => match frame {
                Frame::Sequence(statements, i) => {
                    if i < statements.len() {
                        let next = clone_stmt(&statements[i]);
                        self.push(Frame::Sequence(statements, i + 1));
                        self.go(Control::Statement(next))
                    } else {
                        self.go(Control::Done)
                    }
                },
                Frame::Program(statements, i) => {
                    if i < statements.len() {
                        let next = clone_stmt(&statements[i]);
                        self.push(Frame::Program(statements, i + 1));
                        self.go(Control::Statement(next))
                    } else {
                        self.go(Control::Done)
                    }
                },
                Frame::Leave(to) => {
                    self.environment.leave(to);
                    self.go(Control::Done)
                },
                Frame::Nil => self.go(Control::Value(Value::Nil)),
                Frame::LoopBody(condition, body) => {
                    let test = clone_expr(&condition);
                    self.push(Frame::LoopTest(condition, body));
                    self.go(Control::Expression(test))
                },
                other => {
                    self.push(other);
                    assert(self@.stack =~= before.stack);
                    self.go(Control::Value(Value::Nil))
                },
            },
        }
    }

    /// Unwinds the stack by one frame after the runtime error `e`.
    fn step_error(&mut self, e: RuntimeError) -> (r: Request)
        requires
            old(self)@.wf(),
        ensures
            old(self)@.step_error(e@) == (Stepped { state: final(self)@, request: r@ }),
            final(self)@.wf(),
    {
        let ghost before = self@;
        match self.pop() {
            None => {
                self.had_runtime_error = true;
                self.ask(Control::Idle, Request::Report(e))
            },
            Some(frame) => match frame {
                Frame::Program(statements, i) => {
                    self.push(Frame::Program(statements, i));
                    assert(self@.stack =~= before.stack);
                    self.had_runtime_error = true;
                    self.ask(Control::Done, Request::Report(e))
                },
                Frame::Leave(to) => {
                    self.environment.leave(to);
                    self.go(Control::Error(e))
                },
                _ => self.go(Control::Error(e)),
            },
        }
    }

    /// Takes the host's reply.
    fn step_waiting(&mut self, p: Pending, reply: Reply) -> (r: Request)
        requires
            old(self)@.wf(),
        ensures
            old(self)@.step_waiting(p@, reply@) == (Stepped { state: final(self)@, request: r@ }),
            final(self)@.wf(),
    {
        match reply {
            Reply::Number(n) => match p {
                Pending::Format(bits) => self.ask(
                    Control::Waiting(Pending::Format(bits)),
                    Request::Format(bits),
                ),
                _ => self.go(Control::Value(Value::Number(n))),
            },
            Reply::Text(raw) => match p {
                Pending::Format(bits) => {
                    let line = stringify(&Value::Number(bits), raw.as_str());
                    self.ask(Control::Done, Request::Print(line))
                },
                other => {
                    let request = request_of(&other);
                    self.ask(Control::Waiting(other), request)
                },
            },
            Reply::Nothing => {
                let request = request_of(&p);
                self.ask(Control::Waiting(p), request)
            },
        }
    }

    /// One step of the program. `reply` answers the request that the step
    /// before returned; where that asked for nothing, it is not read.
    pub fn step(&mut self, reply: Reply) -> (r: Request)
        requires
            old(self)@.wf(),
        ensures
            old(self)@.step(reply@) == (Stepped { state: final(self)@, request: r@ }),
            final(self)@.wf(),
            old(self)@.sound() ==> final(self)@.sound(),
    {
        proof {
            if self@.sound() {
                lemma_step_keeps_order(self@, reply@);
                lemma_step_keeps_closures(self@, reply@);
                lemma_step_keeps_known(self@, reply@);
            }
        }
        let mut control = Control::Idle;
        std::mem::swap(&mut self.control, &mut control);
        match control {
            Control::Idle => self.ask(Control::Idle, Request::Finished),
            Control::Expression(e) => self.step_expression(e),
            Control::Statement(s) => self.step_statement(s),
            Control::Value(v) => self.step_value(v),
            Control::Done => self.step_done(),
            Control::Error(e) => self.step_error(e),
            Control::Waiting(p) => self.step_waiting(p, reply),
        }
    }

    /// Steps until a step asks something of the host, and no more than
    /// `budget` times; the request is `Continue` where the budget ran out
    /// first.
    pub fn run(&mut self, reply: Reply, budget: usize) -> (r: Request)
        requires
            old(self)@.wf(),
        ensures
            old(self)@.run(reply@, budget as nat) == (Stepped { state: final(self)@, request: r@ }),
            final(self)@.wf(),
            old(self)@.sound() ==> final(self)@.sound(),
        decreases budget,
    {
        if budget == 0 {
            return Request::Continue;
        }
        let request = self.step(reply);
        match request {
            Request::Continue => self.run(Reply::Nothing, budget - 1),
            other => other,
        }
    }
}

impl Default for Interp {
    fn default() -> (r: Self)
        ensures
            r@ == initial(),
    {
        Interp::new()
    }
}

} // verus!
