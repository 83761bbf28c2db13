use uplc::ast::{BuiltinRuntime, Constant, NamedDeBruijn, Term, Value};
use uplc::builtins::DefaultFunction;
use uplc::discharge::value_as_term;

fn nd(index: usize) -> NamedDeBruijn {
    NamedDeBruijn { text: String::from("i"), index }
}

#[test]
fn discharge_constant() {
    let got = value_as_term(Value::Con(Constant::Integer(7)));
    assert_eq!(got, Term::Constant(Constant::Integer(7)));
}

#[test]
fn discharge_delay_empty_env() {
    let got = value_as_term(Value::Delay(Box::new(Term::Error), vec![]));
    assert_eq!(got, Term::Delay(Box::new(Term::Error)));
}

#[test]
fn discharge_lambda_empty_env() {
    let got = value_as_term(Value::Lambda {
        parameter_name: nd(0),
        body: Box::new(Term::Var(nd(1))),
        env: vec![],
    });
    assert_eq!(
        got,
        Term::Lambda { parameter_name: nd(0), body: Box::new(Term::Var(nd(1))) }
    );
}

#[test]
fn discharge_closure_substitutes() {
    let got = value_as_term(Value::Lambda {
        parameter_name: nd(0),
        body: Box::new(Term::Var(nd(2))),
        env: vec![Value::Con(Constant::Integer(7))],
    });
    assert_eq!(
        got,
        Term::Lambda {
            parameter_name: nd(0),
            body: Box::new(Term::Constant(Constant::Integer(7))),
        }
    );
}

#[test]
fn discharge_builtin_forces_and_args() {
    let got = value_as_term(Value::Builtin {
        fun: DefaultFunction::AddInteger,
        runtime: BuiltinRuntime {
            forces: 2,
            args: vec![
                Value::Con(Constant::Integer(1)),
                Value::Con(Constant::Integer(2)),
            ],
        },
    });
    let base = Term::Force(Box::new(Term::Force(Box::new(Term::Builtin(
        DefaultFunction::AddInteger,
    )))));
    let expected = Term::Apply {
        function: Box::new(Term::Apply {
            function: Box::new(base),
            argument: Box::new(Term::Constant(Constant::Integer(1))),
        }),
        argument: Box::new(Term::Constant(Constant::Integer(2))),
    };
    assert_eq!(got, expected);
}

#[test]
fn discharge_free_variable_kept() {
    let got = value_as_term(Value::Delay(Box::new(Term::Var(nd(5))), vec![]));
    assert_eq!(got, Term::Delay(Box::new(Term::Var(nd(5)))));
}

#[test]
fn discharge_deep_term_bounded_stack() {
    let depth = 10_000;
    let mut t = Term::Error;
    for _ in 0..depth {
        t = Term::Delay(Box::new(t));
    }
    let mut expected = Term::Error;
    for _ in 0..depth {
        expected = Term::Delay(Box::new(expected));
    }
    let got = value_as_term(Value::Delay(Box::new(t), vec![]));
    assert_eq!(got, Term::Delay(Box::new(expected)));
}

#[test]
fn discharge_apply_under_env() {
    // an application inside a suspended body, both sides drawing on the
    // same captured value
    let body = Term::Apply {
        function: Box::new(Term::Var(nd(1))),
        argument: Box::new(Term::Var(nd(1))),
    };
    let got = value_as_term(Value::Delay(
        Box::new(body),
        vec![Value::Con(Constant::Bool(true))],
    ));
    let c = Term::Constant(Constant::Bool(true));
    assert_eq!(
        got,
        Term::Delay(Box::new(Term::Apply {
            function: Box::new(c.clone()),
            argument: Box::new(c),
        }))
    );
}
