//! Environments: scopes of variables, each chained to the scope that
//! encloses it.
//!
//! The scopes of a program live in one list, a scope's enclosing scope
//! always before it. A scope is discarded when it is left, unless a function
//! was declared in it: a function keeps the scope of its declaration.

use vstd::prelude::*;
use vstd::string::*;
use crate::token_type::{same_text, Token, Value, ValueView};
use crate::lox::ast::interpreter::{RuntimeError, RuntimeErrorView};

verus! {

/// A variable of a scope.
pub struct Binding {
    pub name: String,
    pub value: Value,
}

/// The view of a `Binding`.
pub struct BindingView {
    pub name: Seq<char>,
    pub value: ValueView,
}

impl View for Binding {
    type V = BindingView;

    open spec fn view(&self) -> BindingView {
        BindingView { name: self.name@, value: self.value@ }
    }
}

/// One scope: its variables, the scope around it (none around the global
/// scope), and whether a function was declared in it.
pub struct Scope {
    pub bindings: Vec<Binding>,
    pub enclosing: Option<usize>,
    pub captured: bool,
}

/// The view of a `Scope`.
pub struct ScopeView {
    pub bindings: Seq<BindingView>,
    pub enclosing: Option<int>,
    pub captured: bool,
}

impl View for Scope {
    type V = ScopeView;

    open spec fn view(&self) -> ScopeView {
        ScopeView {
            bindings: self.bindings@.map_values(|b: Binding| b@),
            enclosing: match self.enclosing {
                Some(p) => Some(p as int),
                None => None,
            },
            captured: self.captured,
        }
    }
}

/// The place of the variable `name` among `bindings`, from `from` on.
pub open spec fn position_from(bindings: Seq<BindingView>, name: Seq<char>, from: int) -> Option<int>
    decreases bindings.len() - from,
{
    if from < 0 || from >= bindings.len() {
        None
    } else if bindings[from].name == name {
        Some(from)
    } else {
        position_from(bindings, name, from + 1)
    }
}

/// The place of the variable `name` among `bindings`.
pub open spec fn position(bindings: Seq<BindingView>, name: Seq<char>) -> Option<int> {
    position_from(bindings, name, 0)
}

/// The value of the variable `name` among `bindings`.
pub open spec fn lookup_in(bindings: Seq<BindingView>, name: Seq<char>) -> Option<ValueView> {
    match position(bindings, name) {
        Some(i) => Some(bindings[i].value),
        None => None,
    }
}

/// `bindings` with the variable `name` set to `value`: overwritten where it
/// is there, added where it is not.
pub open spec fn define_in(bindings: Seq<BindingView>, name: Seq<char>, value: ValueView) -> Seq<
    BindingView,
> {
    match position(bindings, name) {
        Some(i) => bindings.update(i, BindingView { name, value }),
        None => bindings.push(BindingView { name, value }),
    }
}

/// `position_from` finds the first variable of that name from `from` on.
pub proof fn lemma_position_from(bindings: Seq<BindingView>, name: Seq<char>, from: int)
    requires
        0 <= from,
    ensures
        match position_from(bindings, name, from) {
            Some(i) => from <= i < bindings.len() && bindings[i].name == name && forall|j: int|
                from <= j < i ==> (#[trigger] bindings[j]).name != name,
            None => forall|j: int| from <= j < bindings.len() ==> (#[trigger] bindings[j]).name != name,
        },
    decreases bindings.len() - from,
{
    if from < bindings.len() && bindings[from].name != name {
        lemma_position_from(bindings, name, from + 1);
    }
}

/// Whatever the first variable of a name is found by is what `position`
/// gives.
pub proof fn lemma_position_unique(bindings: Seq<BindingView>, name: Seq<char>, i: int)
    requires
        0 <= i < bindings.len(),
        bindings[i].name == name,
        forall|j: int| 0 <= j < i ==> (#[trigger] bindings[j]).name != name,
    ensures
        position(bindings, name) == Some(i),
{
    lemma_position_from(bindings, name, 0);
}

/// A scope is a map from names to values: a variable that was defined has
/// the value it was defined with, and the other variables are as before.
pub proof fn lemma_define_in(bindings: Seq<BindingView>, name: Seq<char>, value: ValueView, other: Seq<char>)
    ensures
        lookup_in(define_in(bindings, name, value), name) == Some(value),
        other != name ==> lookup_in(define_in(bindings, name, value), other) == lookup_in(
            bindings,
            other,
        ),
{
    let after = define_in(bindings, name, value);
    lemma_position_from(bindings, name, 0);
    lemma_position_from(bindings, other, 0);
    lemma_position_from(after, name, 0);
    lemma_position_from(after, other, 0);
    match position(bindings, name) {
        Some(i) => {
            lemma_position_unique(after, name, i);
            if other != name {
                match position(bindings, other) {
                    Some(k) => {
                        lemma_position_unique(after, other, k);
                    },
                    None => {
                        assert(position(after, other) is None) by {
                            if position(after, other) is Some {
                                let k = position(after, other)->Some_0;
                                assert(bindings[k].name == other);
                            }
                        }
                    },
                }
            }
        },
        None => {
            lemma_position_unique(after, name, bindings.len() as int);
            if other != name {
                match position(bindings, other) {
                    Some(k) => {
                        lemma_position_unique(after, other, k);
                    },
                    None => {
                        assert(position(after, other) is None) by {
                            if position(after, other) is Some {
                                let k = position(after, other)->Some_0;
                                assert(bindings[k].name == other);
                            }
                        }
                    },
                }
            }
        },
    }
}

/// The scopes of a program and the scope in which it runs.
pub struct Environment {
    scopes: Vec<Scope>,
    current: usize,
}

/// The view of an `Environment`: its scopes in the order in which they
/// were entered, and the place of the current one.
pub struct EnvironmentView {
    pub scopes: Seq<ScopeView>,
    pub current: int,
}

impl View for Environment {
    type V = EnvironmentView;

    closed spec fn view(&self) -> EnvironmentView {
        EnvironmentView {
            scopes: self.scopes@.map_values(|s: Scope| s@),
            current: self.current as int,
        }
    }
}

/// The message for a variable that is read and was never defined.
pub open spec fn undefined_variable(name: Seq<char>) -> Seq<char> {
    "undefined variable '"@ + name + "'"@
}

/// The message for a variable that is assigned to and was never defined.
pub open spec fn unassignable_variable(name: Seq<char>) -> Seq<char> {
    "can't assign to undefined variable '"@ + name + "'"@
}

impl EnvironmentView {
    /// The current scope is one of the scopes, and every scope comes after
    /// the scope that encloses it.
    pub open spec fn wf(self) -> bool {
        &&& 0 <= self.current < self.scopes.len()
        &&& forall|i: int|
            0 <= i < self.scopes.len() ==> ((#[trigger] self.scopes[i]).enclosing matches Some(p)
                ==> 0 <= p < i)
    }

    /// The nearest scope, from `scope` outwards, that has a variable `name`.
    pub open spec fn resolve(self, scope: int, name: Seq<char>) -> Option<int>
        decreases scope,
    {
        if scope < 0 || scope >= self.scopes.len() {
            None
        } else if position(self.scopes[scope].bindings, name) is Some {
            Some(scope)
        } else {
            match self.scopes[scope].enclosing {
                Some(p) => if 0 <= p < scope {
                    self.resolve(p, name)
                } else {
                    None
                },
                None => None,
            }
        }
    }

    /// The value of `name` as the current scope sees it.
    pub open spec fn get(self, name: Seq<char>) -> Option<ValueView> {
        match self.resolve(self.current, name) {
            Some(s) => lookup_in(self.scopes[s].bindings, name),
            None => None,
        }
    }

    /// The environment with the bindings of scope `scope` replaced.
    pub open spec fn with_bindings(self, scope: int, bindings: Seq<BindingView>) -> EnvironmentView {
        EnvironmentView {
            scopes: self.scopes.update(scope, ScopeView { bindings, ..self.scopes[scope] }),
            ..self
        }
    }

    /// `name` set to `value` in the current scope, whether it was there or
    /// not.
    pub open spec fn define(self, name: Seq<char>, value: ValueView) -> EnvironmentView {
        self.with_bindings(
            self.current,
            define_in(self.scopes[self.current].bindings, name, value),
        )
    }

    /// `name` set to `value` in the nearest scope that has it; `None` if no
    /// scope from the current one outwards has it.
    pub open spec fn assign(self, name: Seq<char>, value: ValueView) -> Option<EnvironmentView> {
        match self.resolve(self.current, name) {
            Some(s) => Some(self.with_bindings(s, define_in(self.scopes[s].bindings, name, value))),
            None => None,
        }
    }

    /// A new, empty scope inside the scope `enclosing`, made the current
    /// one.
    pub open spec fn enter(self, enclosing: int) -> EnvironmentView {
        EnvironmentView {
            scopes: self.scopes.push(
                ScopeView {
                    bindings: Seq::empty(),
                    enclosing: Some(enclosing),
                    captured: false,
                },
            ),
            current: self.scopes.len() as int,
        }
    }

    /// The current scope marked as one that a function was declared in.
    pub open spec fn capture(self) -> EnvironmentView {
        EnvironmentView {
            scopes: self.scopes.update(
                self.current,
                ScopeView { captured: true, ..self.scopes[self.current] },
            ),
            ..self
        }
    }

    /// Back in the scope `to`, which came before the current one; nothing
    /// changes if it did not. The scope that is left is discarded if it is
    /// the last one and no function was declared in it.
    pub open spec fn leave(self, to: int) -> EnvironmentView {
        if 0 <= to < self.current {
            EnvironmentView {
                scopes: if self.current == self.scopes.len() - 1
                    && !self.scopes[self.current].captured {
                    self.scopes.drop_last()
                } else {
                    self.scopes
                },
                current: to,
            }
        } else {
            self
        }
    }
}

/// Shadowing: a variable defined in a new scope has its new value there,
/// whatever an outer scope holds under that name; and when the scope is
/// left, the environment is what it was before the scope was entered.
pub proof fn lemma_shadowing(env: EnvironmentView, name: Seq<char>, value: ValueView)
    requires
        env.wf(),
    ensures
        env.enter(env.current).define(name, value).wf(),
        env.enter(env.current).define(name, value).get(name) == Some(value),
        env.enter(env.current).define(name, value).leave(env.current) == env,
{
    let inner = env.enter(env.current);
    let defined = inner.define(name, value);
    lemma_define_in(Seq::empty(), name, value, name);
    lemma_position_from(defined.scopes[defined.current].bindings, name, 0);
    assert(defined.leave(env.current).scopes =~= env.scopes);
}

/// The chain of scopes from `scope` outwards does not see what changes in a
/// scope that comes after `scope`.
pub proof fn lemma_resolve_frame(env: EnvironmentView, other: EnvironmentView, scope: int, name: Seq<char>)
    requires
        env.wf(),
        0 <= scope < env.scopes.len(),
        scope < other.scopes.len(),
        forall|i: int| 0 <= i <= scope ==> env.scopes[i] == other.scopes[i],
    ensures
        env.resolve(scope, name) == other.resolve(scope, name),
    decreases scope,
{
    if position(env.scopes[scope].bindings, name) is None {
        match env.scopes[scope].enclosing {
            Some(p) => {
                lemma_resolve_frame(env, other, p, name);
            },
            None => {},
        }
    }
}

/// What `resolve` finds is a scope of the chain that has the variable.
pub proof fn lemma_resolve(env: EnvironmentView, scope: int, name: Seq<char>)
    requires
        env.wf(),
        0 <= scope < env.scopes.len(),
    ensures
        env.resolve(scope, name) matches Some(s) ==> 0 <= s <= scope && position(
            env.scopes[s].bindings,
            name,
        ) is Some,
    decreases scope,
{
    if position(env.scopes[scope].bindings, name) is None {
        match env.scopes[scope].enclosing {
            Some(p) => {
                lemma_resolve(env, p, name);
            },
            None => {},
        }
    }
}

/// To set a variable in the scope that `resolve` finds for it does not
/// change which scope any name resolves to.
pub proof fn lemma_resolve_after_define(
    env: EnvironmentView,
    target: int,
    name: Seq<char>,
    value: ValueView,
    scope: int,
    other: Seq<char>,
)
    requires
        env.wf(),
        0 <= scope < env.scopes.len(),
        0 <= target < env.scopes.len(),
        position(env.scopes[target].bindings, name) is Some,
    ensures
        env.with_bindings(target, define_in(env.scopes[target].bindings, name, value)).resolve(
            scope,
            other,
        ) == env.resolve(scope, other),
    decreases scope,
{
    let after = env.with_bindings(target, define_in(env.scopes[target].bindings, name, value));
    lemma_define_in(env.scopes[target].bindings, name, value, other);
    lemma_position_from(env.scopes[target].bindings, other, 0);
    lemma_position_from(after.scopes[target].bindings, other, 0);
    if position(env.scopes[scope].bindings, other) is None {
        match env.scopes[scope].enclosing {
            Some(p) => {
                lemma_resolve_after_define(env, target, name, value, p, other);
            },
            None => {},
        }
    }
}

/// Assignment: to assign to a name that no scope of the chain has fails;
/// to assign to one that an enclosing scope has, from a new scope inside,
/// changes that scope's variable, adds none to the new scope, and the new
/// value is what the name has after the new scope is left.
pub proof fn lemma_assignment(env: EnvironmentView, name: Seq<char>, value: ValueView)
    requires
        env.wf(),
    ensures
        env.get(name) is None <==> env.assign(name, value) is None,
        env.get(name) is Some ==> {
            let inner = env.enter(env.current);
            &&& inner.assign(name, value) is Some
            &&& inner.assign(name, value)->Some_0.get(name) == Some(value)
            &&& inner.assign(name, value)->Some_0.scopes[inner.current].bindings
                == Seq::<BindingView>::empty()
            &&& inner.assign(name, value)->Some_0.leave(env.current).get(name) == Some(value)
            &&& inner.assign(name, value)->Some_0.leave(env.current) == env.assign(
                name,
                value,
            )->Some_0
        },
{
    lemma_resolve(env, env.current, name);
    if env.resolve(env.current, name) is Some {
        let s = env.resolve(env.current, name)->Some_0;
        lemma_position_from(env.scopes[s].bindings, name, 0);
    }
    if env.get(name) is Some {
        let s = env.resolve(env.current, name)->Some_0;
        let inner = env.enter(env.current);
        assert(position(inner.scopes[inner.current].bindings, name) is None);
        lemma_resolve_frame(env, inner, env.current, name);
        assert(inner.resolve(inner.current, name) == Some(s));
        let assigned = inner.assign(name, value)->Some_0;
        let direct = env.assign(name, value)->Some_0;
        lemma_define_in(env.scopes[s].bindings, name, value, name);
        lemma_resolve_after_define(inner, s, name, value, inner.current, name);
        lemma_resolve_after_define(env, s, name, value, env.current, name);
        assert(assigned.leave(env.current).scopes =~= direct.scopes);
    }
}

/// Where the variable `name` is among `bindings`.
fn find(bindings: &Vec<Binding>, name: &str) -> (r: Option<usize>)
    ensures
        match r {
            Some(i) => i < bindings@.len() && position(
                bindings@.map_values(|b: Binding| b@),
                name@,
            ) == Some(i as int),
            None => position(bindings@.map_values(|b: Binding| b@), name@) is None,
        },
{
    let ghost view = bindings@.map_values(|b: Binding| b@);
    let mut i: usize = 0;
    while i < bindings.len()
        invariant
            i <= bindings.len(),
            view == bindings@.map_values(|b: Binding| b@),
            position_from(view, name@, i as int) == position(view, name@),
        decreases bindings.len() - i,
    {
        if same_text(bindings[i].name.as_str(), name) {
            return Some(i);
        }
        i += 1;
    }
    None
}

impl Environment {
    /// An environment of one scope, the global one, with no variables.
    pub fn new() -> (r: Self)
        ensures
            r@ == (EnvironmentView {
                scopes: seq![
                    ScopeView { bindings: Seq::empty(), enclosing: None, captured: false },
                ],
                current: 0,
            }),
            r@.wf(),
    {
        let mut scopes: Vec<Scope> = Vec::new();
        scopes.push(Scope { bindings: Vec::new(), enclosing: None, captured: false });
        let r = Environment { scopes, current: 0 };
        assert(r@.scopes =~= seq![
            ScopeView { bindings: Seq::empty(), enclosing: None, captured: false },
        ]) by {
            assert(r.scopes@[0]@.bindings =~= Seq::empty());
        }
        r
    }

    /// The scope in which the program runs.
    pub fn current(&self) -> (r: usize)
        ensures
            r == self@.current,
    {
        self.current
    }

    /// How many scopes there are.
    pub fn len(&self) -> (r: usize)
        ensures
            r == self@.scopes.len(),
    {
        self.scopes.len()
    }

    /// The nearest scope, from the current one outwards, that has `name`,
    /// and the place of `name` in it.
    fn resolve(&self, name: &str) -> (r: Option<(usize, usize)>)
        requires
            self@.wf(),
        ensures
            match r {
                Some((s, i)) => self@.resolve(self@.current, name@) == Some(s as int) && s
                    < self@.scopes.len() && i < self@.scopes[s as int].bindings.len() && position(
                    self@.scopes[s as int].bindings,
                    name@,
                ) == Some(i as int),
                None => self@.resolve(self@.current, name@) is None,
            },
    {
        let mut scope = self.current;
        loop
            invariant
                self@.wf(),
                scope < self.scopes.len(),
                self@.resolve(scope as int, name@) == self@.resolve(self@.current, name@),
            decreases scope,
        {
            if let Some(i) = find(&self.scopes[scope].bindings, name) {
                return Some((scope, i));
            }
            match self.scopes[scope].enclosing {
                Some(p) => {
                    if p < scope {
                        scope = p;
                    } else {
                        return None;
                    }
                },
                None => {
                    return None;
                },
            }
        }
    }

    /// Sets the variable `name` of the scope `scope` to `value`.
    fn set(&mut self, scope: usize, name: &String, value: &Value)
        requires
            old(self)@.wf(),
            scope < old(self)@.scopes.len(),
        ensures
            final(self)@ == old(self)@.with_bindings(
                scope as int,
                define_in(old(self)@.scopes[scope as int].bindings, name@, value@),
            ),
            final(self)@.wf(),
    {
        let ghost before = self@;
        let found = find(&self.scopes[scope].bindings, name.as_str());
        match found {
            Some(i) => {
                self.scopes[scope].bindings[i].value = value.clone();
            },
            None => {
                self.scopes[scope].bindings.push(Binding { name: name.clone(), value: value.clone() });
            },
        }
        proof {
            let want = before.with_bindings(
                scope as int,
                define_in(before.scopes[scope as int].bindings, name@, value@),
            );
            lemma_position_from(before.scopes[scope as int].bindings, name@, 0);
            assert(self@.scopes[scope as int].bindings =~= want.scopes[scope as int].bindings);
            assert(self@.scopes =~= want.scopes);
        }
    }

    /// Defines `name` in the current scope, with `value`. A variable of
    /// that name in the current scope is overwritten; one in an enclosing
    /// scope is hidden.
    pub fn define(&mut self, name: &String, value: &Value)
        requires
            old(self)@.wf(),
        ensures
            final(self)@ == old(self)@.define(name@, value@),
            final(self)@.wf(),
    {
        self.set(self.current, name, value);
    }

    /// Sets the variable `name` of the nearest scope that has one to
    /// `value`; fails if there is none, and then changes nothing.
    pub fn assign(&mut self, name: &Token, value: &Value) -> (r: Result<bool, RuntimeError>)
        requires
            old(self)@.wf(),
        ensures
            final(self)@.wf(),
            match r {
                Ok(done) => done && old(self)@.assign(name@.lexeme, value@) == Some(final(self)@),
                Err(e) => old(self)@.assign(name@.lexeme, value@) is None && final(self)@ == old(self)@ && e@ == (RuntimeErrorView {
                    token: name@,
                    message: unassignable_variable(name@.lexeme),
                }),
            },
    {
        match self.resolve(name.lexeme.as_str()) {
            Some((scope, _)) => {
                self.set(scope, &name.lexeme, value);
                Ok(true)
            },
            None => {
                let mut message = String::from_str("can't assign to undefined variable '");
                message.append(name.lexeme.as_str());
                message.append("'");
                Err(RuntimeError { token: name.clone(), message })
            },
        }
    }

    /// The value of the variable `name` of the nearest scope that has one;
    /// fails if there is none.
    pub fn get(&self, name: &Token) -> (r: Result<Value, RuntimeError>)
        requires
            self@.wf(),
        ensures
            match r {
                Ok(v) => self@.get(name@.lexeme) == Some(v@),
                Err(e) => self@.get(name@.lexeme) is None && e@ == (RuntimeErrorView {
                    token: name@,
                    message: undefined_variable(name@.lexeme),
                }),
            },
    {
        match self.resolve(name.lexeme.as_str()) {
            Some((scope, i)) => Ok(self.scopes[scope].bindings[i].value.clone()),
            None => {
                let mut message = String::from_str("undefined variable '");
                message.append(name.lexeme.as_str());
                message.append("'");
                Err(RuntimeError { token: name.clone(), message })
            },
        }
    }

    /// Enters a new, empty scope inside the scope `enclosing`.
    pub fn enter(&mut self, enclosing: usize)
        requires
            old(self)@.wf(),
            enclosing < old(self)@.scopes.len(),
        ensures
            final(self)@ == old(self)@.enter(enclosing as int),
            final(self)@.wf(),
    {
        let ghost before = self@;
        self.scopes.push(Scope { bindings: Vec::new(), enclosing: Some(enclosing), captured: false });
        self.current = self.scopes.len() - 1;
        proof {
            assert(self.scopes@.last()@.bindings =~= Seq::empty());
            assert(self@.scopes =~= before.enter(enclosing as int).scopes);
        }
    }

    /// Marks the current scope as one that a function was declared in, so
    /// that it is kept when it is left.
    pub fn capture(&mut self)
        requires
            old(self)@.wf(),
        ensures
            final(self)@ == old(self)@.capture(),
            final(self)@.wf(),
    {
        let ghost before = self@;
        self.scopes[self.current].captured = true;
        proof {
            assert(self@.scopes =~= before.capture().scopes);
        }
    }

    /// Leaves the current scope for the scope `to`, which came before it;
    /// does nothing if it did not.
    pub fn leave(&mut self, to: usize)
        requires
            old(self)@.wf(),
        ensures
            final(self)@ == old(self)@.leave(to as int),
            final(self)@.wf(),
    {
        let ghost before = self@;
        if to < self.current {
            if self.current == self.scopes.len() - 1 && !self.scopes[self.current].captured {
                self.scopes.pop();
            }
            self.current = to;
        }
        proof {
            assert(self@.scopes =~= before.leave(to as int).scopes);
        }
    }
}

/// What the changes of an environment keep: each keeps it well formed; to
/// define, to assign and to mark keep the scopes in their places and the
/// current scope; to enter a scope makes the new, last scope the current
/// one; to leave for an earlier scope makes that one the current one.
pub proof fn lemma_changes(env: EnvironmentView, name: Seq<char>, value: ValueView, scope: int)
    requires
        env.wf(),
    ensures
        env.define(name, value).wf(),
        env.define(name, value).current == env.current,
        env.define(name, value).scopes.len() == env.scopes.len(),
        env.assign(name, value) matches Some(after) ==> after.wf() && after.current == env.current
            && after.scopes.len() == env.scopes.len(),
        env.capture().wf(),
        env.capture().current == env.current,
        env.capture().scopes.len() == env.scopes.len(),
        0 <= scope < env.scopes.len() ==> env.enter(scope).wf(),
        env.enter(scope).current == env.scopes.len(),
        env.enter(scope).scopes.len() == env.scopes.len() + 1,
        env.leave(scope).wf(),
        0 <= scope < env.current ==> env.leave(scope).current == scope,
        env.leave(scope).scopes.len() <= env.scopes.len(),
{
    lemma_resolve(env, env.current, name);
}


/// A variable that was assigned to has the value assigned.
pub proof fn lemma_assigned(env: EnvironmentView, name: Seq<char>, value: ValueView)
    requires
        env.wf(),
    ensures
        env.assign(name, value) matches Some(after) ==> after.get(name) == Some(value),
{
    lemma_resolve(env, env.current, name);
    if env.resolve(env.current, name) is Some {
        let s = env.resolve(env.current, name)->Some_0;
        lemma_define_in(env.scopes[s].bindings, name, value, name);
        lemma_resolve_after_define(env, s, name, value, env.current, name);
    }
}


/// A scope that was marked and in which a name was then defined is still
/// marked, and so is every scope that was marked before.
pub proof fn lemma_capture_define(env: EnvironmentView, name: Seq<char>, value: ValueView)
    requires
        env.wf(),
    ensures
        env.capture().define(name, value).scopes[env.current].captured,
        env.capture().define(name, value).scopes.len() == env.scopes.len(),
        forall|i: int|
            0 <= i < env.scopes.len() && (#[trigger] env.scopes[i]).captured
                ==> env.capture().define(name, value).scopes[i].captured,
{
}


/// Whether every function among the values of the variables of the scope
/// is one of the first `count` functions.
pub open spec fn scope_known(scope: ScopeView, count: int) -> bool {
    forall|j: int|
        0 <= j < scope.bindings.len() ==> known((#[trigger] scope.bindings[j]).value, count)
}

/// Whether a value, if it is a function, is one of the first `count`
/// functions.
pub open spec fn known(v: ValueView, count: int) -> bool {
    v matches ValueView::Callable(id) ==> 0 <= id < count
}

/// Whether every function among the values of the variables of the
/// environment is one of the first `count` functions.
pub open spec fn all_known(env: EnvironmentView, count: int) -> bool {
    forall|i: int| 0 <= i < env.scopes.len() ==> scope_known(#[trigger] env.scopes[i], count)
}

/// The functions among the values of variables stay known when variables
/// are read, defined and assigned to with known values, when scopes are
/// entered and left, and when more functions are declared.
pub proof fn lemma_known(env: EnvironmentView, count: int, name: Seq<char>, value: ValueView, scope: int)
    requires
        env.wf(),
        all_known(env, count),
    ensures
        env.get(name) matches Some(v) ==> known(v, count),
        known(value, count) ==> all_known(env.define(name, value), count),
        known(value, count) ==> (env.assign(name, value) matches Some(after) ==> all_known(
            after,
            count,
        )),
        all_known(env.capture(), count),
        all_known(env.enter(scope), count),
        all_known(env.leave(scope), count),
        all_known(env, count + 1),
{
    lemma_resolve(env, env.current, name);
    if env.resolve(env.current, name) is Some {
        let s = env.resolve(env.current, name)->Some_0;
        lemma_position_from(env.scopes[s].bindings, name, 0);
        assert(scope_known(env.scopes[s], count));
        if known(value, count) {
            lemma_set_known(env, count, s, name, value);
        }
    }
    if known(value, count) {
        lemma_set_known(env, count, env.current, name, value);
    }
    assert forall|i: int| 0 <= i < env.capture().scopes.len() implies scope_known(
        #[trigger] env.capture().scopes[i],
        count,
    ) by {
        assert(scope_known(env.scopes[i], count));
    }
    assert forall|i: int| 0 <= i < env.enter(scope).scopes.len() implies scope_known(
        #[trigger] env.enter(scope).scopes[i],
        count,
    ) by {
        if i < env.scopes.len() {
            assert(scope_known(env.scopes[i], count));
        }
    }
    assert forall|i: int| 0 <= i < env.leave(scope).scopes.len() implies scope_known(
        #[trigger] env.leave(scope).scopes[i],
        count,
    ) by {
        assert(scope_known(env.scopes[i], count));
    }
    assert forall|i: int| 0 <= i < env.scopes.len() implies scope_known(
        #[trigger] env.scopes[i],
        count + 1,
    ) by {
        assert(scope_known(env.scopes[i], count));
    }
}

/// A known value set in a scope leaves the functions known.
pub proof fn lemma_set_known(env: EnvironmentView, count: int, scope: int, name: Seq<char>, value: ValueView)
    requires
        0 <= scope < env.scopes.len(),
        all_known(env, count),
        known(value, count),
    ensures
        all_known(
            env.with_bindings(scope, define_in(env.scopes[scope].bindings, name, value)),
            count,
        ),
{
    let bindings = env.scopes[scope].bindings;
    let after = env.with_bindings(scope, define_in(bindings, name, value));
    lemma_position_from(bindings, name, 0);
    assert(scope_known(env.scopes[scope], count));
    assert forall|i: int| 0 <= i < after.scopes.len() implies scope_known(
        #[trigger] after.scopes[i],
        count,
    ) by {
        if i == scope {
            assert forall|j: int| 0 <= j < after.scopes[i].bindings.len() implies known(
                (#[trigger] after.scopes[i].bindings[j]).value,
                count,
            ) by {
                if j < bindings.len() {
                    assert(known(bindings[j].value, count));
                }
            }
        } else {
            assert(scope_known(env.scopes[i], count));
        }
    }
}

} // verus!
