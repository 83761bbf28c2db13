use vstd::prelude::*;

use crate::builtins::DefaultFunction;

verus! {

/// A variable reference in the De Bruijn phase: the index names the
/// enclosing binder (1 is the innermost); the text is the surface name
/// kept around for display and is ignored by the codec.
#[derive(Debug, PartialEq, Eq)]
pub struct NamedDeBruijn {
    pub text: String,
    pub index: usize,
}

/// Mathematical model of a variable reference.
pub struct NamedDeBruijnS {
    pub text: Seq<char>,
    pub index: nat,
}

impl View for NamedDeBruijn {
    type V = NamedDeBruijnS;

    open spec fn view(&self) -> NamedDeBruijnS {
        NamedDeBruijnS { text: self.text@, index: self.index as nat }
    }
}

impl Clone for NamedDeBruijn {
    fn clone(&self) -> (r: Self)
        ensures
            r@ == self@,
    {
        NamedDeBruijn { text: self.text.clone(), index: self.index }
    }
}

/// A constant of the language. The character variant is an internal
/// convenience with no tag in the wire format.
#[derive(Debug, PartialEq, Eq)]
pub enum Constant {
    Integer(isize),
    ByteString(Vec<u8>),
    String(String),
    Char(char),
    Unit,
    Bool(bool),
}

/// Mathematical model of a constant.
pub enum ConstantS {
    Integer(int),
    ByteString(Seq<u8>),
    Str(Seq<char>),
    Char(char),
    Unit,
    Bool(bool),
}

impl View for Constant {
    type V = ConstantS;

    open spec fn view(&self) -> ConstantS {
        match self {
            Constant::Integer(i) => ConstantS::Integer(*i as int),
            Constant::ByteString(b) => ConstantS::ByteString(b@),
            Constant::String(s) => ConstantS::Str(s@),
            Constant::Char(c) => ConstantS::Char(*c),
            Constant::Unit => ConstantS::Unit,
            Constant::Bool(b) => ConstantS::Bool(*b),
        }
    }
}

impl Clone for Constant {
    fn clone(&self) -> (r: Self)
        ensures
            r@ == self@,
    {
        match self {
            Constant::Integer(i) => Constant::Integer(*i),
            Constant::ByteString(b) => {
                let c = b.clone();
                proof {
                    assert(c@ =~= b@);
                }
                Constant::ByteString(c)
            }
            Constant::String(s) => Constant::String(s.clone()),
            Constant::Char(c) => Constant::Char(*c),
            Constant::Unit => Constant::Unit,
            Constant::Bool(b) => Constant::Bool(*b),
        }
    }
}

/// A term of the language in the De Bruijn phase, with the eight
/// constructors of the wire format.
#[derive(Debug, PartialEq, Eq)]
pub enum Term {
    Var(NamedDeBruijn),
    Delay(Box<Term>),
    Lambda { parameter_name: NamedDeBruijn, body: Box<Term> },
    Apply { function: Box<Term>, argument: Box<Term> },
    Constant(Constant),
    Force(Box<Term>),
    Error,
    Builtin(DefaultFunction),
}

/// Mathematical model of a term.
pub enum TermS {
    Var(NamedDeBruijnS),
    Delay(Box<TermS>),
    Lambda { parameter_name: NamedDeBruijnS, body: Box<TermS> },
    Apply { function: Box<TermS>, argument: Box<TermS> },
    Constant(ConstantS),
    Force(Box<TermS>),
    Error,
    Builtin(DefaultFunction),
}

/// The model of a term, structurally.
pub open spec fn term_view(t: Term) -> TermS
    decreases t,
{
    match t {
        Term::Var(n) => TermS::Var(n@),
        Term::Delay(b) => TermS::Delay(Box::new(term_view(*b))),
        Term::Lambda { parameter_name, body } => TermS::Lambda {
            parameter_name: parameter_name@,
            body: Box::new(term_view(*body)),
        },
        Term::Apply { function, argument } => TermS::Apply {
            function: Box::new(term_view(*function)),
            argument: Box::new(term_view(*argument)),
        },
        Term::Constant(c) => TermS::Constant(c@),
        Term::Force(b) => TermS::Force(Box::new(term_view(*b))),
        Term::Error => TermS::Error,
        Term::Builtin(f) => TermS::Builtin(f),
    }
}

impl View for Term {
    type V = TermS;

    open spec fn view(&self) -> TermS {
        term_view(*self)
    }
}

impl Clone for Term {
    fn clone(&self) -> (r: Self)
        ensures
            r@ == self@,
        decreases *self,
    {
        match self {
            Term::Var(n) => Term::Var(n.clone()),
            Term::Delay(b) => Term::Delay(Box::new((**b).clone())),
            Term::Lambda { parameter_name, body } => Term::Lambda {
                parameter_name: parameter_name.clone(),
                body: Box::new((**body).clone()),
            },
            Term::Apply { function, argument } => Term::Apply {
                function: Box::new((**function).clone()),
                argument: Box::new((**argument).clone()),
            },
            Term::Constant(c) => Term::Constant(c.clone()),
            Term::Force(b) => Term::Force(Box::new((**b).clone())),
            Term::Error => Term::Error,
            Term::Builtin(f) => Term::Builtin(*f),
        }
    }
}

/// A program: a three-component version and a root term.
#[derive(Debug, PartialEq, Eq)]
pub struct Program {
    pub version: (usize, usize, usize),
    pub term: Term,
}

/// Mathematical model of a program.
pub struct ProgramS {
    pub major: nat,
    pub minor: nat,
    pub patch: nat,
    pub term: TermS,
}

impl View for Program {
    type V = ProgramS;

    open spec fn view(&self) -> ProgramS {
        ProgramS {
            major: self.version.0 as nat,
            minor: self.version.1 as nat,
            patch: self.version.2 as nat,
            term: self.term@,
        }
    }
}

/// An environment captured by a closure: the values of the enclosing
/// binders, the innermost binding last.
pub type Env = Vec<Value>;

/// The models of the first `n` values of an environment, in order.
pub open spec fn env_view_to(e: Seq<Value>, n: int) -> Seq<ValueS>
    decreases e, n,
{
    if n <= 0 || n > e.len() {
        Seq::empty()
    } else {
        env_view_to(e, n - 1).push(value_view(e[n - 1]))
    }
}

/// The model of an environment: the models of its values, in order.
pub open spec fn env_view(e: Seq<Value>) -> Seq<ValueS> {
    env_view_to(e, e.len() as int)
}

/// The model of an environment is the sequence of the models of its
/// values.
pub proof fn lemma_env_view(e: Seq<Value>)
    ensures
        env_view(e).len() == e.len(),
        forall|j: int| 0 <= j < e.len() ==> env_view(e)[j] == #[trigger] e[j]@,
{
    lemma_env_view_to(e, e.len() as int);
}

proof fn lemma_env_view_to(e: Seq<Value>, n: int)
    requires
        n <= e.len(),
    ensures
        env_view_to(e, n).len() == if n <= 0 { 0int } else { n },
        forall|j: int| 0 <= j < n ==> env_view_to(e, n)[j] == #[trigger] e[j]@,
    decreases n,
{
    if n > 0 {
        lemma_env_view_to(e, n - 1);
    }
}

/// The bookkeeping of a partially applied built-in: how many forces are
/// still pending and which arguments were already applied.
#[derive(Debug, PartialEq, Eq)]
pub struct BuiltinRuntime {
    pub forces: usize,
    pub args: Vec<Value>,
}

/// A runtime value as produced by an environment machine.
#[derive(Debug, PartialEq, Eq)]
pub enum Value {
    Con(Constant),
    Delay(Box<Term>, Env),
    Lambda { parameter_name: NamedDeBruijn, body: Box<Term>, env: Env },
    Builtin { fun: DefaultFunction, runtime: BuiltinRuntime },
}

/// Mathematical model of a runtime value.
pub enum ValueS {
    Con(ConstantS),
    Delay(Box<TermS>, Seq<ValueS>),
    Lambda { parameter_name: NamedDeBruijnS, body: Box<TermS>, env: Seq<ValueS> },
    Builtin { fun: DefaultFunction, forces: nat, args: Seq<ValueS> },
}

/// The model of a value, structurally.
pub open spec fn value_view(v: Value) -> ValueS
    decreases v,
{
    match v {
        Value::Con(c) => ValueS::Con(c@),
        Value::Delay(b, e) => ValueS::Delay(
            Box::new(term_view(*b)),
            env_view_to(e@, e@.len() as int),
        ),
        Value::Lambda { parameter_name, body, env } => ValueS::Lambda {
            parameter_name: parameter_name@,
            body: Box::new(term_view(*body)),
            env: env_view_to(env@, env@.len() as int),
        },
        Value::Builtin { fun, runtime } => ValueS::Builtin {
            fun,
            forces: runtime.forces as nat,
            args: env_view_to(runtime.args@, runtime.args@.len() as int),
        },
    }
}

impl View for Value {
    type V = ValueS;

    open spec fn view(&self) -> ValueS {
        value_view(*self)
    }
}

impl Clone for Value {
    fn clone(&self) -> (r: Self)
        ensures
            r@ == self@,
        decreases *self,
    {
        match self {
            Value::Con(c) => Value::Con(c.clone()),
            Value::Delay(b, e) => Value::Delay(Box::new((**b).clone()), clone_env(e)),
            Value::Lambda { parameter_name, body, env } => Value::Lambda {
                parameter_name: parameter_name.clone(),
                body: Box::new((**body).clone()),
                env: clone_env(env),
            },
            Value::Builtin { fun, runtime } => Value::Builtin {
                fun: *fun,
                runtime: BuiltinRuntime { forces: runtime.forces, args: clone_env(&runtime.args) },
            },
        }
    }
}

/// Clones an environment value for value; the model is unchanged.
pub fn clone_env(e: &Env) -> (r: Env)
    ensures
        env_view(r@) == env_view(e@),
    decreases e@,
{
    let mut r: Vec<Value> = Vec::new();
    let mut i: usize = 0;
    while i < e.len()
        invariant
            i <= e.len(),
            r@.len() == i as nat,
            forall|j: int| 0 <= j < i ==> r@[j]@ == #[trigger] e@[j]@,
        decreases e@.len() - i,
    {
        assert(decreases_to!(e@ => e@[i as int]));
        let v = (&e[i]).clone();
        r.push(v);
        i = i + 1;
    }
    proof {
        lemma_env_view(r@);
        lemma_env_view(e@);
        assert forall|j: int| 0 <= j < e@.len() implies env_view(r@)[j] == env_view(
            e@,
        )[j] by {
            assert(r@[j]@ == e@[j]@);
        }
        assert(env_view(r@) =~= env_view(e@));
    }
    r
}

} // verus!
