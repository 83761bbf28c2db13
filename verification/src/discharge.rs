use vstd::prelude::*;

use crate::ast::{
    clone_env, env_view, lemma_env_view, BuiltinRuntime, Env, NamedDeBruijn, NamedDeBruijnS, Term,
    TermS, Value, ValueS,
};

verus! {

// ---------------------------------------------------------------------
// Termination measures
// ---------------------------------------------------------------------
/// Size of a term model: one per node.
pub open spec fn tsize(t: TermS) -> nat
    decreases t,
{
    match t {
        TermS::Var(_) => 1,
        TermS::Delay(b) => 1 + tsize(*b),
        TermS::Lambda { parameter_name, body } => 1 + tsize(*body),
        TermS::Apply { function, argument } => 1 + tsize(*function) + tsize(*argument),
        TermS::Constant(_) => 1,
        TermS::Force(b) => 1 + tsize(*b),
        TermS::Error => 1,
        TermS::Builtin(_) => 1,
    }
}

/// Size of a value model. A closure is charged the full substitution
/// work its term can cause under its environment, so that discharging
/// always moves to something smaller.
pub open spec fn vsize(v: ValueS) -> nat
    decreases v, 0int,
{
    match v {
        ValueS::Con(_) => 1,
        ValueS::Delay(b, e) => 1 + (1 + tsize(*b)) * (2 + esize_to(e, e.len() as int)),
        ValueS::Lambda { parameter_name, body, env } => 1 + (1 + tsize(*body)) * (2 + esize_to(
            env,
            env.len() as int,
        )),
        ValueS::Builtin { fun, forces, args } => 1 + args.len() + esize_to(args, args.len() as int),
    }
}

/// Sum of the sizes of the first `n` values of an environment.
pub open spec fn esize_to(e: Seq<ValueS>, n: int) -> nat
    decreases e, n,
{
    if n <= 0 || n > e.len() {
        0
    } else {
        esize_to(e, n - 1) + vsize(e[n - 1])
    }
}

/// Sum of the sizes of the values of an environment.
pub open spec fn esize(e: Seq<ValueS>) -> nat {
    esize_to(e, e.len() as int)
}

proof fn lemma_esize_to_agree(s1: Seq<ValueS>, s2: Seq<ValueS>, n: int)
    requires
        n <= s1.len(),
        n <= s2.len(),
        forall|j: int| 0 <= j < n ==> s1[j] == s2[j],
    ensures
        esize_to(s1, n) == esize_to(s2, n),
    decreases n,
{
    if n > 0 {
        lemma_esize_to_agree(s1, s2, n - 1);
    }
}

proof fn lemma_esize_elem(e: Seq<ValueS>, j: int, n: int)
    requires
        0 <= j < n <= e.len(),
    ensures
        vsize(e[j]) <= esize_to(e, n),
    decreases n,
{
    if j < n - 1 {
        lemma_esize_elem(e, j, n - 1);
    }
}

proof fn lemma_esize_drop_last(e: Seq<ValueS>)
    requires
        e.len() > 0,
    ensures
        esize(e) == esize(e.drop_last()) + vsize(e.last()),
{
    lemma_esize_to_agree(e.drop_last(), e, e.len() - 1);
}

proof fn lemma_mul_one_more(a: nat, c: nat)
    ensures
        (1 + a) * c == c + a * c,
{
    assert((1 + a) * c == c + a * c) by (nonlinear_arith);
}

proof fn lemma_mul_two_more(a: nat, b: nat, c: nat)
    ensures
        (1 + a + b) * c == c + a * c + b * c,
{
    assert((1 + a + b) * c == c + a * c + b * c) by (nonlinear_arith);
}

// ---------------------------------------------------------------------
// The discharge function, mathematically
// ---------------------------------------------------------------------
/// `k` force wrappers around a term.
pub open spec fn force_n(t: TermS, k: nat) -> TermS
    decreases k,
{
    if k == 0 {
        t
    } else {
        TermS::Force(Box::new(force_n(t, (k - 1) as nat)))
    }
}

/// Discharge of a runtime value into a term: constants come back as
/// constant terms, a partially applied built-in is rebuilt as forces and
/// applications, and a closure substitutes its captured environment into
/// its body.
pub open spec fn discharge_value(v: ValueS) -> TermS
    decreases vsize(v), 0int,
    via discharge_value_dec
{
    match v {
        ValueS::Con(c) => TermS::Constant(c),
        ValueS::Delay(b, e) => discharge_env(0, e, TermS::Delay(b)),
        ValueS::Lambda { parameter_name, body, env } => discharge_env(
            0,
            env,
            TermS::Lambda { parameter_name, body },
        ),
        ValueS::Builtin { fun, forces, args } => discharge_args(
            force_n(TermS::Builtin(fun), forces),
            args,
        ),
    }
}

/// Discharge of a term under an environment, having crossed `depth`
/// binders on the way in. A variable bound within the term is kept; one
/// that reaches into the environment is replaced by the discharge of the
/// captured value; one that reaches past the environment is free and is
/// kept as well.
pub open spec fn discharge_env(depth: nat, env: Seq<ValueS>, t: TermS) -> TermS
    decreases tsize(t) * (2 + esize(env)), 0int,
    via discharge_env_dec
{
    match t {
        TermS::Var(name) => {
            if depth >= name.index {
                TermS::Var(name)
            } else if name.index - depth > env.len() {
                TermS::Var(name)
            } else {
                discharge_value(env[env.len() - (name.index - depth)])
            }
        },
        TermS::Lambda { parameter_name, body } => TermS::Lambda {
            parameter_name,
            body: Box::new(discharge_env(depth + 1, env, *body)),
        },
        TermS::Apply { function, argument } => TermS::Apply {
            function: Box::new(discharge_env(depth, env, *function)),
            argument: Box::new(discharge_env(depth, env, *argument)),
        },
        TermS::Delay(b) => TermS::Delay(Box::new(discharge_env(depth, env, *b))),
        TermS::Force(b) => TermS::Force(Box::new(discharge_env(depth, env, *b))),
        TermS::Constant(c) => TermS::Constant(c),
        TermS::Error => TermS::Error,
        TermS::Builtin(f) => TermS::Builtin(f),
    }
}

/// Left-to-right application of the discharges of pending built-in
/// arguments to an accumulated term.
pub open spec fn discharge_args(acc: TermS, args: Seq<ValueS>) -> TermS
    decreases args.len() + esize(args), 0int,
    via discharge_args_dec
{
    if args.len() == 0 {
        acc
    } else {
        TermS::Apply {
            function: Box::new(discharge_args(acc, args.drop_last())),
            argument: Box::new(discharge_value(args.last())),
        }
    }
}

#[via_fn]
proof fn discharge_value_dec(v: ValueS) {
    match v {
        ValueS::Con(_) => {},
        ValueS::Delay(b, e) => {},
        ValueS::Lambda { parameter_name, body, env } => {},
        ValueS::Builtin { fun, forces, args } => {},
    }
}

#[via_fn]
proof fn discharge_env_dec(depth: nat, env: Seq<ValueS>, t: TermS) {
    match t {
        TermS::Var(name) => {
            if depth < name.index && name.index - depth <= env.len() {
                let j = env.len() - (name.index - depth);
                lemma_esize_elem(env, j as int, env.len() as int);
                assert(tsize(t) == 1);
                lemma_mul_one_more(0, 2 + esize(env));
                assert(tsize(t) * (2 + esize(env)) == 2 + esize(env)) by (nonlinear_arith)
                    requires
                        tsize(t) == 1,
                ;
            }
        },
        TermS::Lambda { parameter_name, body } => {
            lemma_mul_one_more(tsize(*body), 2 + esize(env));
        },
        TermS::Apply { function, argument } => {
            lemma_mul_two_more(tsize(*function), tsize(*argument), 2 + esize(env));
        },
        TermS::Delay(b) => {
            lemma_mul_one_more(tsize(*b), 2 + esize(env));
        },
        TermS::Force(b) => {
            lemma_mul_one_more(tsize(*b), 2 + esize(env));
        },
        _ => {},
    }
}

#[via_fn]
proof fn discharge_args_dec(acc: TermS, args: Seq<ValueS>) {
    if args.len() > 0 {
        lemma_esize_drop_last(args);
        lemma_esize_elem(args, args.len() - 1, args.len() as int);
    }
}

// ---------------------------------------------------------------------
// The work-stack machine, mathematically
// ---------------------------------------------------------------------
/// A pending reassembly frame: which constructor to rebuild from the top
/// of the argument stack.
#[derive(Debug)]
pub enum PartialTerm {
    Delay,
    Lambda(NamedDeBruijn),
    Apply,
    Force,
}

/// Model of a reassembly frame.
pub enum FrameS {
    Delay,
    Lambda(NamedDeBruijnS),
    Apply,
    Force,
}

impl View for PartialTerm {
    type V = FrameS;

    open spec fn view(&self) -> FrameS {
        match self {
            PartialTerm::Delay => FrameS::Delay,
            PartialTerm::Lambda(n) => FrameS::Lambda(n@),
            PartialTerm::Apply => FrameS::Apply,
            PartialTerm::Force => FrameS::Force,
        }
    }
}

/// A step of the discharge machine.
#[derive(Debug)]
pub enum DischargeStep {
    DischargeValue(Value),
    DischargeValueEnv(usize, Env, Term),
    PopArgStack(PartialTerm),
}

/// Model of a machine step.
pub enum StepS {
    Value(ValueS),
    ValueEnv(nat, Seq<ValueS>, TermS),
    Pop(FrameS),
}

impl View for DischargeStep {
    type V = StepS;

    open spec fn view(&self) -> StepS {
        match self {
            DischargeStep::DischargeValue(v) => StepS::Value(v@),
            DischargeStep::DischargeValueEnv(d, e, t) => StepS::ValueEnv(
                *d as nat,
                env_view(e@),
                t@,
            ),
            DischargeStep::PopArgStack(p) => StepS::Pop(p@),
        }
    }
}

/// The models of a work stack.
pub open spec fn sv(s: Seq<DischargeStep>) -> Seq<StepS> {
    s.map_values(|x: DischargeStep| x@)
}

/// The models of an argument stack.
pub open spec fn tv(s: Seq<Term>) -> Seq<TermS> {
    s.map_values(|x: Term| x@)
}

proof fn lemma_sv_push(s: Seq<DischargeStep>, x: DischargeStep)
    ensures
        sv(s.push(x)) == sv(s).push(x@),
{
    assert(sv(s.push(x)) =~= sv(s).push(x@));
}

proof fn lemma_sv_drop_last(s: Seq<DischargeStep>)
    requires
        s.len() > 0,
    ensures
        sv(s.drop_last()) == sv(s).drop_last(),
{
    assert(sv(s.drop_last()) =~= sv(s).drop_last());
}

proof fn lemma_tv_push(s: Seq<Term>, x: Term)
    ensures
        tv(s.push(x)) == tv(s).push(x@),
{
    assert(tv(s.push(x)) =~= tv(s).push(x@));
}

proof fn lemma_tv_drop_last(s: Seq<Term>)
    requires
        s.len() > 0,
    ensures
        tv(s.drop_last()) == tv(s).drop_last(),
{
    assert(tv(s.drop_last()) =~= tv(s).drop_last());
}

/// Cost of one step: what the machine may still have to do for it.
pub open spec fn wm_step(s: StepS) -> nat {
    match s {
        StepS::Value(v) => vsize(v),
        StepS::ValueEnv(depth, env, t) => tsize(t) * (2 + esize(env)),
        StepS::Pop(_) => 1,
    }
}

/// Cost of the first `n` steps of a work stack.
pub open spec fn wm_to(s: Seq<StepS>, n: int) -> nat
    decreases n,
{
    if n <= 0 || n > s.len() {
        0
    } else {
        wm_to(s, n - 1) + wm_step(s[n - 1])
    }
}

/// Cost of a work stack.
pub open spec fn wm(s: Seq<StepS>) -> nat {
    wm_to(s, s.len() as int)
}

proof fn lemma_wm_to_agree(s1: Seq<StepS>, s2: Seq<StepS>, n: int)
    requires
        n <= s1.len(),
        n <= s2.len(),
        forall|j: int| 0 <= j < n ==> s1[j] == s2[j],
    ensures
        wm_to(s1, n) == wm_to(s2, n),
    decreases n,
{
    if n > 0 {
        lemma_wm_to_agree(s1, s2, n - 1);
    }
}

proof fn lemma_wm_push(s: Seq<StepS>, x: StepS)
    ensures
        wm(s.push(x)) == wm(s) + wm_step(x),
{
    lemma_wm_to_agree(s.push(x), s, s.len() as int);
}

proof fn lemma_wm_drop_last(s: Seq<StepS>)
    requires
        s.len() > 0,
    ensures
        wm(s) == wm(s.drop_last()) + wm_step(s.last()),
{
    lemma_wm_to_agree(s.drop_last(), s, s.len() - 1);
}

proof fn lemma_wm_concat(s1: Seq<StepS>, s2: Seq<StepS>)
    ensures
        wm(s1 + s2) == wm(s1) + wm(s2),
    decreases s2.len(),
{
    if s2.len() == 0 {
        assert(s1 + s2 =~= s1);
    } else {
        lemma_wm_concat(s1, s2.drop_last());
        assert(s1 + s2.drop_last() =~= (s1 + s2).drop_last());
        lemma_wm_drop_last(s1 + s2);
        lemma_wm_drop_last(s2);
    }
}

/// The work pushed for the pending arguments of a built-in: seen from
/// the top, discharge the first argument, apply it, discharge the
/// second, apply it, and so on.
pub open spec fn builtin_steps(args: Seq<ValueS>) -> Seq<StepS>
    decreases args.len(),
{
    if args.len() == 0 {
        Seq::empty()
    } else {
        seq![StepS::Pop(FrameS::Apply), StepS::Value(args.last())] + builtin_steps(
            args.drop_last(),
        )
    }
}

proof fn lemma_builtin_steps_wm(args: Seq<ValueS>)
    ensures
        wm(builtin_steps(args)) == args.len() + esize(args),
    decreases args.len(),
{
    if args.len() == 0 {
    } else {
        lemma_builtin_steps_wm(args.drop_last());
        lemma_esize_drop_last(args);
        let pair = seq![StepS::Pop(FrameS::Apply), StepS::Value(args.last())];
        lemma_wm_concat(pair, builtin_steps(args.drop_last()));
        assert(wm(pair) == 1 + vsize(args.last())) by {
            assert(pair.drop_last() =~= seq![StepS::Pop(FrameS::Apply)]);
            lemma_wm_drop_last(pair);
            assert(seq![StepS::Pop(FrameS::Apply)].drop_last() =~= Seq::<StepS>::empty());
            lemma_wm_drop_last(seq![StepS::Pop(FrameS::Apply)]);
        }
    }
}

/// Peeling the top of the work pushed for built-in arguments: the top is
/// the discharge of the first pending argument, above its apply frame.
proof fn lemma_builtin_steps_unsnoc(args: Seq<ValueS>)
    requires
        args.len() > 0,
    ensures
        builtin_steps(args) == builtin_steps(args.drop_first()).push(
            StepS::Pop(FrameS::Apply),
        ).push(StepS::Value(args.first())),
    decreases args.len(),
{
    reveal_with_fuel(builtin_steps, 3);
    if args.len() == 1 {
        assert(args.drop_last() =~= Seq::<ValueS>::empty());
        assert(args.drop_first() =~= Seq::<ValueS>::empty());
        assert(builtin_steps(args) =~= builtin_steps(args.drop_first()).push(
            StepS::Pop(FrameS::Apply),
        ).push(StepS::Value(args.first())));
    } else {
        lemma_builtin_steps_unsnoc(args.drop_last());
        assert(args.drop_last().drop_first() =~= args.drop_first().drop_last());
        assert(args.drop_last().first() == args.first());
        assert(builtin_steps(args) =~= builtin_steps(args.drop_first()).push(
            StepS::Pop(FrameS::Apply),
        ).push(StepS::Value(args.first())));
    }
}

/// One run of the machine to completion: `None` means an argument stack
/// underflow, which reachable states never exhibit.
pub open spec fn run(stack: Seq<StepS>, args: Seq<TermS>) -> Option<Seq<TermS>>
    decreases wm(stack),
    via run_dec
{
    if stack.len() == 0 {
        Some(args)
    } else {
        let rest = stack.drop_last();
        match stack.last() {
            StepS::Value(v) => match v {
                ValueS::Con(c) => run(rest, args.push(TermS::Constant(c))),
                ValueS::Delay(b, e) => run(
                    rest.push(StepS::ValueEnv(0, e, TermS::Delay(b))),
                    args,
                ),
                ValueS::Lambda { parameter_name, body, env } => run(
                    rest.push(StepS::ValueEnv(0, env, TermS::Lambda { parameter_name, body })),
                    args,
                ),
                ValueS::Builtin { fun, forces, args: bargs } => run(
                    rest + builtin_steps(bargs),
                    args.push(force_n(TermS::Builtin(fun), forces)),
                ),
            },
            StepS::ValueEnv(depth, env, t) => match t {
                TermS::Var(name) => {
                    if depth >= name.index {
                        run(rest, args.push(TermS::Var(name)))
                    } else if name.index - depth > env.len() {
                        run(rest, args.push(TermS::Var(name)))
                    } else {
                        run(
                            rest.push(StepS::Value(env[env.len() - (name.index - depth)])),
                            args,
                        )
                    }
                },
                TermS::Lambda { parameter_name, body } => run(
                    rest.push(StepS::Pop(FrameS::Lambda(parameter_name))).push(
                        StepS::ValueEnv(depth + 1, env, *body),
                    ),
                    args,
                ),
                TermS::Apply { function, argument } => run(
                    rest.push(StepS::Pop(FrameS::Apply)).push(
                        StepS::ValueEnv(depth, env, *argument),
                    ).push(StepS::ValueEnv(depth, env, *function)),
                    args,
                ),
                TermS::Delay(b) => run(
                    rest.push(StepS::Pop(FrameS::Delay)).push(StepS::ValueEnv(depth, env, *b)),
                    args,
                ),
                TermS::Force(b) => run(
                    rest.push(StepS::Pop(FrameS::Force)).push(StepS::ValueEnv(depth, env, *b)),
                    args,
                ),
                _ => run(rest, args.push(t)),
            },
            StepS::Pop(frame) => {
                if args.len() == 0 {
                    None
                } else {
                    match frame {
                        FrameS::Delay => run(
                            rest,
                            args.drop_last().push(TermS::Delay(Box::new(args.last()))),
                        ),
                        FrameS::Lambda(pn) => run(
                            rest,
                            args.drop_last().push(
                                TermS::Lambda { parameter_name: pn, body: Box::new(args.last()) },
                            ),
                        ),
                        FrameS::Apply => {
                            if args.len() < 2 {
                                None
                            } else {
                                run(
                                    rest,
                                    args.drop_last().drop_last().push(
                                        TermS::Apply {
                                            function: Box::new(args[args.len() - 2]),
                                            argument: Box::new(args.last()),
                                        },
                                    ),
                                )
                            }
                        },
                        FrameS::Force => run(
                            rest,
                            args.drop_last().push(TermS::Force(Box::new(args.last()))),
                        ),
                    }
                }
            },
        }
    }
}

#[via_fn]
proof fn run_dec(stack: Seq<StepS>, args: Seq<TermS>) {
    if stack.len() > 0 {
        let rest = stack.drop_last();
        lemma_wm_drop_last(stack);
        lemma_wm_step_pos(stack.last());
        match stack.last() {
            StepS::Value(v) => match v {
                ValueS::Con(_) => {},
                ValueS::Delay(b, e) => {
                    lemma_wm_push(rest, StepS::ValueEnv(0, e, TermS::Delay(b)));
                },
                ValueS::Lambda { parameter_name, body, env } => {
                    lemma_wm_push(
                        rest,
                        StepS::ValueEnv(0, env, TermS::Lambda { parameter_name, body }),
                    );
                },
                ValueS::Builtin { fun, forces, args: bargs } => {
                    lemma_wm_concat(rest, builtin_steps(bargs));
                    lemma_builtin_steps_wm(bargs);
                },
            },
            StepS::ValueEnv(depth, env, t) => match t {
                TermS::Var(name) => {
                    if depth < name.index && name.index - depth <= env.len() {
                        let j = env.len() - (name.index - depth);
                        lemma_esize_elem(env, j as int, env.len() as int);
                        lemma_wm_push(rest, StepS::Value(env[j as int]));
                        assert(tsize(t) * (2 + esize(env)) == 2 + esize(env)) by (nonlinear_arith)
                            requires
                                tsize(t) == 1,
                        ;
                    }
                },
                TermS::Lambda { parameter_name, body } => {
                    let r1 = rest.push(StepS::Pop(FrameS::Lambda(parameter_name)));
                    lemma_wm_push(rest, StepS::Pop(FrameS::Lambda(parameter_name)));
                    lemma_wm_push(r1, StepS::ValueEnv(depth + 1, env, *body));
                    lemma_mul_one_more(tsize(*body), 2 + esize(env));
                },
                TermS::Apply { function, argument } => {
                    let r1 = rest.push(StepS::Pop(FrameS::Apply));
                    let r2 = r1.push(StepS::ValueEnv(depth, env, *argument));
                    lemma_wm_push(rest, StepS::Pop(FrameS::Apply));
                    lemma_wm_push(r1, StepS::ValueEnv(depth, env, *argument));
                    lemma_wm_push(r2, StepS::ValueEnv(depth, env, *function));
                    lemma_mul_two_more(tsize(*function), tsize(*argument), 2 + esize(env));
                },
                TermS::Delay(b) => {
                    let r1 = rest.push(StepS::Pop(FrameS::Delay));
                    lemma_wm_push(rest, StepS::Pop(FrameS::Delay));
                    lemma_wm_push(r1, StepS::ValueEnv(depth, env, *b));
                    lemma_mul_one_more(tsize(*b), 2 + esize(env));
                },
                TermS::Force(b) => {
                    let r1 = rest.push(StepS::Pop(FrameS::Force));
                    lemma_wm_push(rest, StepS::Pop(FrameS::Force));
                    lemma_wm_push(r1, StepS::ValueEnv(depth, env, *b));
                    lemma_mul_one_more(tsize(*b), 2 + esize(env));
                },
                _ => {
                    lemma_tsize_pos(t);
                    assert(tsize(t) * (2 + esize(env)) >= 1) by (nonlinear_arith)
                        requires
                            tsize(t) >= 1,
                    ;
                },
            },
            StepS::Pop(_) => {},
        }
    }
}

// ---------------------------------------------------------------------
// The machine computes the discharge
// ---------------------------------------------------------------------
/// Processing a value step on top of the work stack pushes exactly its
/// discharge onto the argument stack.
proof fn lemma_run_value(stack: Seq<StepS>, args: Seq<TermS>, v: ValueS)
    ensures
        run(stack.push(StepS::Value(v)), args) == run(stack, args.push(discharge_value(v))),
    decreases vsize(v), 0int,
{
    let s2 = stack.push(StepS::Value(v));
    assert(s2.drop_last() =~= stack);
    match v {
        ValueS::Con(c) => {},
        ValueS::Delay(b, e) => {
            lemma_run_env(stack, args, 0, e, TermS::Delay(b));
        },
        ValueS::Lambda { parameter_name, body, env } => {
            lemma_run_env(stack, args, 0, env, TermS::Lambda { parameter_name, body });
        },
        ValueS::Builtin { fun, forces, args: bargs } => {
            lemma_run_args(stack, args, force_n(TermS::Builtin(fun), forces), bargs);
        },
    }
}

/// Processing a term-under-environment step pushes exactly the discharge
/// of the term under that environment.
proof fn lemma_run_env(stack: Seq<StepS>, args: Seq<TermS>, depth: nat, env: Seq<ValueS>, t: TermS)
    ensures
        run(stack.push(StepS::ValueEnv(depth, env, t)), args) == run(
            stack,
            args.push(discharge_env(depth, env, t)),
        ),
    decreases tsize(t) * (2 + esize(env)), 1int,
{
    let s2 = stack.push(StepS::ValueEnv(depth, env, t));
    assert(s2.drop_last() =~= stack);
    match t {
        TermS::Var(name) => {
            if depth < name.index && name.index - depth <= env.len() {
                let j = env.len() - (name.index - depth);
                lemma_esize_elem(env, j as int, env.len() as int);
                lemma_mul_one_more(0, 2 + esize(env));
                lemma_run_value(stack, args, env[j as int]);
            }
        },
        TermS::Lambda { parameter_name, body } => {
            lemma_mul_one_more(tsize(*body), 2 + esize(env));
            let s1 = stack.push(StepS::Pop(FrameS::Lambda(parameter_name)));
            lemma_run_env(s1, args, depth + 1, env, *body);
            let a2 = args.push(discharge_env(depth + 1, env, *body));
            assert(s1.drop_last() =~= stack);
            assert(a2.drop_last() =~= args);
            assert(a2.drop_last().push(
                TermS::Lambda { parameter_name, body: Box::new(a2.last()) },
            ) =~= args.push(discharge_env(depth, env, t)));
        },
        TermS::Apply { function, argument } => {
            lemma_mul_two_more(tsize(*function), tsize(*argument), 2 + esize(env));
            let s1 = stack.push(StepS::Pop(FrameS::Apply));
            let s2x = s1.push(StepS::ValueEnv(depth, env, *argument));
            lemma_run_env(s2x, args, depth, env, *function);
            let a1 = args.push(discharge_env(depth, env, *function));
            lemma_run_env(s1, a1, depth, env, *argument);
            let a2 = a1.push(discharge_env(depth, env, *argument));
            assert(s1.drop_last() =~= stack);
            assert(a2.len() >= 2);
            assert(a2.drop_last().drop_last() =~= args);
            assert(a2[a2.len() - 2] == discharge_env(depth, env, *function));
            assert(a2.drop_last().drop_last().push(
                TermS::Apply {
                    function: Box::new(a2[a2.len() - 2]),
                    argument: Box::new(a2.last()),
                },
            ) =~= args.push(discharge_env(depth, env, t)));
        },
        TermS::Delay(b) => {
            lemma_mul_one_more(tsize(*b), 2 + esize(env));
            let s1 = stack.push(StepS::Pop(FrameS::Delay));
            lemma_run_env(s1, args, depth, env, *b);
            let a2 = args.push(discharge_env(depth, env, *b));
            assert(s1.drop_last() =~= stack);
            assert(a2.drop_last() =~= args);
            assert(a2.drop_last().push(TermS::Delay(Box::new(a2.last()))) =~= args.push(
                discharge_env(depth, env, t),
            ));
        },
        TermS::Force(b) => {
            lemma_mul_one_more(tsize(*b), 2 + esize(env));
            let s1 = stack.push(StepS::Pop(FrameS::Force));
            lemma_run_env(s1, args, depth, env, *b);
            let a2 = args.push(discharge_env(depth, env, *b));
            assert(s1.drop_last() =~= stack);
            assert(a2.drop_last() =~= args);
            assert(a2.drop_last().push(TermS::Force(Box::new(a2.last()))) =~= args.push(
                discharge_env(depth, env, t),
            ));
        },
        _ => {},
    }
}

/// Working off the pushed steps for the pending arguments of a built-in
/// applies their discharges, left to right, to the accumulated term.
proof fn lemma_run_args(stack: Seq<StepS>, args: Seq<TermS>, acc: TermS, bargs: Seq<ValueS>)
    ensures
        run(stack + builtin_steps(bargs), args.push(acc)) == run(
            stack,
            args.push(discharge_args(acc, bargs)),
        ),
    decreases bargs.len() + esize(bargs), 2int,
{
    if bargs.len() == 0 {
        assert(stack + builtin_steps(bargs) =~= stack);
    } else {
        lemma_builtin_steps_unsnoc(bargs);
        let first = bargs.first();
        let tail = bargs.drop_first();
        let s_mid = stack + builtin_steps(tail);
        let s_pop = s_mid.push(StepS::Pop(FrameS::Apply));
        assert(stack + builtin_steps(bargs) =~= s_pop.push(StepS::Value(first)));
        // measures
        lemma_esize_elem(bargs, 0, bargs.len() as int);
        lemma_esize_shift(bargs);
        lemma_run_value(s_pop, args.push(acc), first);
        let a1 = args.push(acc).push(discharge_value(first));
        // the apply frame joins the accumulated term and the discharged
        // first argument
        assert(s_pop.drop_last() =~= s_mid);
        let acc2 = TermS::Apply {
            function: Box::new(acc),
            argument: Box::new(discharge_value(first)),
        };
        assert(a1[a1.len() - 2] == acc);
        assert(a1.drop_last().drop_last().push(acc2) =~= args.push(acc2));
        assert(run(s_pop, a1) == run(s_mid, args.push(acc2)));
        lemma_run_args(stack, args, acc2, tail);
        lemma_discharge_args_first(acc, bargs);
    }
}

/// Splitting the fold over pending arguments at the first argument.
proof fn lemma_discharge_args_first(acc: TermS, args: Seq<ValueS>)
    requires
        args.len() > 0,
    ensures
        discharge_args(acc, args) == discharge_args(
            TermS::Apply {
                function: Box::new(acc),
                argument: Box::new(discharge_value(args.first())),
            },
            args.drop_first(),
        ),
    decreases args.len(),
{
    reveal_with_fuel(discharge_args, 3);
    if args.len() == 1 {
        assert(args.drop_first() =~= Seq::<ValueS>::empty());
        assert(args.drop_last() =~= Seq::<ValueS>::empty());
    } else {
        lemma_discharge_args_first(acc, args.drop_last());
        assert(args.drop_last().first() == args.first());
        assert(args.drop_last().drop_first() =~= args.drop_first().drop_last());
        assert(args.drop_first().last() == args.last());
        assert(args.drop_first().len() > 0);
    }
}

/// The sum of sizes is the same measured from either end.
proof fn lemma_esize_shift(e: Seq<ValueS>)
    requires
        e.len() > 0,
    ensures
        esize(e) == vsize(e.first()) + esize(e.drop_first()),
    decreases e.len(),
{
    if e.len() == 1 {
        assert(e.drop_first() =~= Seq::<ValueS>::empty());
        assert(e.drop_last() =~= Seq::<ValueS>::empty());
        lemma_esize_drop_last(e);
    } else {
        lemma_esize_drop_last(e);
        lemma_esize_shift(e.drop_last());
        assert(e.drop_last().first() == e.first());
        assert(e.drop_last().drop_first() =~= e.drop_first().drop_last());
        lemma_esize_drop_last(e.drop_first());
        assert(e.drop_first().last() == e.last());
    }
}

/// The machine, started on a single value with an empty argument stack,
/// finishes with exactly the discharge of that value.
pub proof fn lemma_run_discharges(v: ValueS)
    ensures
        run(seq![StepS::Value(v)], Seq::empty()) == Some(seq![discharge_value(v)]),
{
    assert(seq![StepS::Value(v)] =~= Seq::<StepS>::empty().push(StepS::Value(v)));
    lemma_run_value(Seq::empty(), Seq::empty(), v);
    assert(Seq::<TermS>::empty().push(discharge_value(v)) =~= seq![discharge_value(v)]);
}

proof fn lemma_tsize_pos(t: TermS)
    ensures
        tsize(t) >= 1,
{
    match t {
        TermS::Var(_) => {},
        TermS::Delay(b) => {},
        TermS::Lambda { parameter_name, body } => {},
        TermS::Apply { function, argument } => {},
        TermS::Constant(_) => {},
        TermS::Force(b) => {},
        TermS::Error => {},
        TermS::Builtin(_) => {},
    }
}

proof fn lemma_vsize_pos(v: ValueS)
    ensures
        vsize(v) >= 1,
{
    match v {
        ValueS::Con(_) => {},
        ValueS::Delay(b, e) => {},
        ValueS::Lambda { parameter_name, body, env } => {},
        ValueS::Builtin { fun, forces, args } => {},
    }
}

proof fn lemma_wm_step_pos(s: StepS)
    ensures
        wm_step(s) >= 1,
{
    match s {
        StepS::Value(v) => {
            lemma_vsize_pos(v);
        },
        StepS::ValueEnv(depth, env, t) => {
            lemma_tsize_pos(t);
            assert(tsize(t) * (2 + esize(env)) >= 1) by (nonlinear_arith)
                requires
                    tsize(t) >= 1,
            ;
        },
        StepS::Pop(_) => {},
    }
}

// ---------------------------------------------------------------------
// The executable machine
// ---------------------------------------------------------------------
/// Whether the values of the first `n` slots of an environment all have
/// closure bodies whose size fits the machine word.
pub open spec fn env_fits(e: Seq<ValueS>, n: int) -> bool
    decreases e, n,
{
    if n <= 0 || n > e.len() {
        true
    } else {
        env_fits(e, n - 1) && bodies_fit(e[n - 1])
    }
}

/// Whether every closure body inside a value is small enough for a
/// binder count to fit the machine word. Every value that exists in
/// memory satisfies this; it only rules out terms of near-address-space
/// size.
pub open spec fn bodies_fit(v: ValueS) -> bool
    decreases v, 0int,
{
    match v {
        ValueS::Con(_) => true,
        ValueS::Delay(b, e) => 1 + tsize(*b) <= usize::MAX && env_fits(e, e.len() as int),
        ValueS::Lambda { parameter_name, body, env } => 1 + tsize(*body) <= usize::MAX && env_fits(
            env,
            env.len() as int,
        ),
        ValueS::Builtin { fun, forces, args } => env_fits(args, args.len() as int),
    }
}

proof fn lemma_env_fits_elem(e: Seq<ValueS>, j: int, n: int)
    requires
        0 <= j < n <= e.len(),
        env_fits(e, n),
    ensures
        bodies_fit(e[j]),
    decreases n,
{
    if j < n - 1 {
        lemma_env_fits_elem(e, j, n - 1);
    }
}

proof fn lemma_env_fits_drop_last(e: Seq<ValueS>)
    requires
        e.len() > 0,
        env_fits(e, e.len() as int),
    ensures
        env_fits(e.drop_last(), e.len() - 1),
{
    lemma_env_fits_agree(e, e.drop_last(), e.len() - 1);
}

proof fn lemma_env_fits_agree(s1: Seq<ValueS>, s2: Seq<ValueS>, n: int)
    requires
        n <= s1.len(),
        n <= s2.len(),
        forall|j: int| 0 <= j < n ==> s1[j] == s2[j],
    ensures
        env_fits(s1, n) == env_fits(s2, n),
    decreases n,
{
    if n > 0 {
        lemma_env_fits_agree(s1, s2, n - 1);
    }
}

/// Whether one machine step can be worked off without the binder count
/// overflowing.
pub open spec fn step_fits(s: StepS) -> bool {
    match s {
        StepS::Value(v) => bodies_fit(v),
        StepS::ValueEnv(depth, env, t) => depth + tsize(t) <= usize::MAX && env_fits(
            env,
            env.len() as int,
        ),
        StepS::Pop(_) => true,
    }
}

/// Whether every step of a work stack can be worked off safely.
pub open spec fn stack_fits(s: Seq<StepS>) -> bool {
    forall|j: int| 0 <= j < s.len() ==> step_fits(#[trigger] s[j])
}

/// Converts a runtime value back into the syntactic term it stands for.
/// The traversal runs on explicit work stacks, so native stack use does
/// not grow with the depth of the value.
pub fn value_as_term(value: Value) -> (t: Term)
    requires
        bodies_fit(value@),
    ensures
        t@ == discharge_value(value@),
{
    let ghost v0 = value@;
    let mut stack: Vec<DischargeStep> = Vec::new();
    stack.push(DischargeStep::DischargeValue(value));
    let mut arg_stack: Vec<Term> = Vec::new();
    proof {
        lemma_run_discharges(v0);
        assert(sv(stack@) =~= seq![StepS::Value(v0)]);
        assert(tv(arg_stack@) =~= Seq::<TermS>::empty());
    }
    while stack.len() != 0
        invariant
            run(sv(stack@), tv(arg_stack@)) == Some(seq![discharge_value(v0)]),
            stack_fits(sv(stack@)),
        decreases wm(sv(stack@)),
    {
        let ghost pre = stack@;
        let ghost pre_args = arg_stack@;
        let frame = stack.pop().unwrap();
        let ghost fv = frame@;
        proof {
            assert(stack@ =~= pre.drop_last());
            lemma_sv_drop_last(pre);
            assert(sv(pre)[pre.len() - 1] == fv);
            assert(sv(pre).last() == fv);
            assert(step_fits(fv));
            lemma_wm_drop_last(sv(pre));
            lemma_wm_step_pos(fv);
            assert(stack_fits(sv(stack@))) by {
                assert(forall|j: int|
                    0 <= j < sv(stack@).len() ==> sv(stack@)[j] == sv(pre)[j]);
            }
        }
        match frame {
            DischargeStep::DischargeValue(value) => match value {
                Value::Con(x) => {
                    let ghost xv = x@;
                    arg_stack.push(Term::Constant(x));
                    proof {
                        lemma_tv_push(pre_args, arg_stack@.last());
                        assert(arg_stack@.drop_last() =~= pre_args);
                        assert(tv(arg_stack@) == tv(pre_args).push(TermS::Constant(xv)));
                    }
                },
                Value::Builtin { fun, runtime } => {
                    let ghost bv = fv->Value_0;
                    let BuiltinRuntime { forces, args } = runtime;
                    let ghost full = env_view(args@);
                    let mut term = Term::Builtin(fun);
                    let mut i: usize = 0;
                    while i < forces
                        invariant
                            i <= forces,
                            term@ == force_n(TermS::Builtin(fun), i as nat),
                        decreases forces - i,
                    {
                        term = Term::Force(Box::new(term));
                        i = i + 1;
                    }
                    arg_stack.push(term);
                    let ghost base = sv(stack@);
                    proof {
                        lemma_env_view(args@);
                        assert(bv == ValueS::Builtin { fun, forces: forces as nat, args: full });
                        lemma_tv_push(pre_args, arg_stack@.last());
                        assert(arg_stack@.drop_last() =~= pre_args);
                        assert(tv(arg_stack@) == tv(pre_args).push(
                            force_n(TermS::Builtin(fun), forces as nat),
                        ));
                        assert(run(sv(pre), tv(pre_args)) == run(
                            base + builtin_steps(full),
                            tv(arg_stack@),
                        ));
                        lemma_wm_concat(base, builtin_steps(full));
                        lemma_builtin_steps_wm(full);
                        assert(wm(base + builtin_steps(full)) < wm(sv(pre)));
                    }
                    let mut rem = args;
                    proof {
                        assert(sv(stack@) + builtin_steps(env_view(rem@)) =~= base + builtin_steps(
                            full,
                        ));
                    }
                    while rem.len() != 0
                        invariant
                            run(base + builtin_steps(full), tv(arg_stack@)) == Some(
                                seq![discharge_value(v0)],
                            ),
                            sv(stack@) + builtin_steps(env_view(rem@)) == base + builtin_steps(
                                full,
                            ),
                            env_fits(env_view(rem@), env_view(rem@).len() as int),
                            stack_fits(sv(stack@)),
                            env_view(rem@).len() == rem@.len(),
                        decreases rem.len(),
                    {
                        let ghost prem = rem@;
                        let ghost prestack = stack@;
                        let a = rem.pop().unwrap();
                        let ghost av = a@;
                        stack.push(DischargeStep::PopArgStack(PartialTerm::Apply));
                        stack.push(DischargeStep::DischargeValue(a));
                        proof {
                            reveal_with_fuel(builtin_steps, 2);
                            let pv = env_view(prem);
                            lemma_env_view(prem);
                            lemma_env_view(rem@);
                            assert(pv.len() == prem.len());
                            assert(pv.len() > 0);
                            assert(rem@ =~= prem.drop_last());
                            assert forall|j: int|
                                0 <= j < rem@.len() implies env_view(rem@)[j] == pv.drop_last()[j] by {
                                assert(rem@[j] == prem[j]);
                                assert(rem@[j]@ == prem[j]@);
                            }
                            assert(env_view(rem@) =~= pv.drop_last());
                            assert(pv.last() == av);
                            assert(builtin_steps(pv) =~= seq![
                                StepS::Pop(FrameS::Apply),
                                StepS::Value(pv.last()),
                            ] + builtin_steps(pv.drop_last()));
                            assert(sv(stack@) =~= sv(prestack).push(
                                StepS::Pop(FrameS::Apply),
                            ).push(StepS::Value(av)));
                            assert(sv(stack@) + builtin_steps(env_view(rem@)) =~= sv(prestack)
                                + builtin_steps(pv));
                            lemma_env_fits_drop_last(pv);
                            lemma_env_fits_elem(pv, pv.len() - 1, pv.len() as int);
                            assert(stack_fits(sv(stack@))) by {
                                assert(forall|j: int|
                                    0 <= j < sv(prestack).len() ==> sv(stack@)[j] == sv(
                                        prestack,
                                    )[j]);
                                assert(step_fits(sv(stack@)[sv(stack@).len() - 1]));
                                assert(step_fits(sv(stack@)[sv(stack@).len() - 2]));
                            }
                        }
                    }
                    proof {
                        assert(builtin_steps(env_view(rem@)) =~= Seq::<StepS>::empty());
                        assert(sv(stack@) =~= sv(stack@) + builtin_steps(env_view(rem@)));
                        assert(sv(stack@) == base + builtin_steps(full));
                    }
                },
                Value::Delay(b, e) => {
                    let ghost bv = fv->Value_0;
                    stack.push(DischargeStep::DischargeValueEnv(0, e, Term::Delay(b)));
                    proof {
                        lemma_sv_push(pre.drop_last(), stack@.last());
                        assert(stack@.drop_last() =~= pre.drop_last());
                        let st = stack@.last()@;
                        assert(sv(stack@) == sv(pre).drop_last().push(st));
                        assert(step_fits(st));
                        lemma_wm_push(sv(pre).drop_last(), st);
                        assert(wm(sv(stack@)) < wm(sv(pre)));
                        assert(stack_fits(sv(stack@))) by {
                            assert(forall|j: int|
                                0 <= j < sv(stack@).len() - 1 ==> sv(stack@)[j] == sv(pre)[j]);
                        }
                    }
                },
                Value::Lambda { parameter_name, body, env } => {
                    let ghost bv = fv->Value_0;
                    stack.push(
                        DischargeStep::DischargeValueEnv(
                            0,
                            env,
                            Term::Lambda { parameter_name, body },
                        ),
                    );
                    proof {
                        lemma_sv_push(pre.drop_last(), stack@.last());
                        assert(stack@.drop_last() =~= pre.drop_last());
                        let st = stack@.last()@;
                        assert(sv(stack@) == sv(pre).drop_last().push(st));
                        assert(step_fits(st));
                        lemma_wm_push(sv(pre).drop_last(), st);
                        assert(wm(sv(stack@)) < wm(sv(pre)));
                        assert(stack_fits(sv(stack@))) by {
                            assert(forall|j: int|
                                0 <= j < sv(stack@).len() - 1 ==> sv(stack@)[j] == sv(pre)[j]);
                        }
                    }
                },
            },
            DischargeStep::DischargeValueEnv(lam_cnt, env, term) => {
                let ghost dn = lam_cnt as nat;
                let ghost ev = env_view(env@);
                let ghost tmv = term@;
                proof {
                    lemma_env_view(env@);
                }
                match term {
                    Term::Var(name) => {
                        let index: usize = name.index;
                        if lam_cnt >= index {
                            let ghost nv = name@;
                            arg_stack.push(Term::Var(name));
                            proof {
                                lemma_tv_push(pre_args, arg_stack@.last());
                                assert(arg_stack@.drop_last() =~= pre_args);
                                assert(tv(arg_stack@) == tv(pre_args).push(TermS::Var(nv)));
                            }
                        } else if index - lam_cnt > env.len() {
                            let ghost nv = name@;
                            arg_stack.push(Term::Var(name));
                            proof {
                                lemma_tv_push(pre_args, arg_stack@.last());
                                assert(arg_stack@.drop_last() =~= pre_args);
                                assert(tv(arg_stack@) == tv(pre_args).push(TermS::Var(nv)));
                            }
                        } else {
                            let k = env.len() - (index - lam_cnt);
                            let v = env[k].clone();
                            stack.push(DischargeStep::DischargeValue(v));
                            proof {
                                assert(ev[k as int] == env@[k as int]@);
                                lemma_sv_push(pre.drop_last(), stack@.last());
                                assert(stack@.drop_last() =~= pre.drop_last());
                                assert(sv(stack@) == sv(pre).drop_last().push(
                                    StepS::Value(ev[k as int]),
                                ));
                                lemma_env_fits_elem(ev, k as int, ev.len() as int);
                                lemma_wm_push(sv(pre).drop_last(), StepS::Value(ev[k as int]));
                                lemma_esize_elem(ev, k as int, ev.len() as int);
                                assert(wm_step(fv) == 2 + esize(ev));
                                assert(wm(sv(stack@)) < wm(sv(pre)));
                                assert(stack_fits(sv(stack@))) by {
                                    assert(forall|j: int|
                                        0 <= j < sv(stack@).len() - 1 ==> sv(stack@)[j] == sv(
                                            pre,
                                        )[j]);
                                }
                            }
                        }
                    },
                    Term::Lambda { parameter_name, body } => {
                        let ghost pnv = parameter_name@;
                        stack.push(DischargeStep::PopArgStack(PartialTerm::Lambda(parameter_name)));
                        stack.push(DischargeStep::DischargeValueEnv(lam_cnt + 1, env, *body));
                        proof {
                            assert(sv(stack@) =~= sv(pre).drop_last().push(
                                StepS::Pop(FrameS::Lambda(pnv)),
                            ).push(sv(stack@).last()));
                            lemma_wm_push(sv(pre).drop_last(), StepS::Pop(FrameS::Lambda(pnv)));
                            lemma_wm_push(
                                sv(pre).drop_last().push(StepS::Pop(FrameS::Lambda(pnv))),
                                sv(stack@).last(),
                            );
                            lemma_mul_one_more(tsize(sv(stack@).last()->ValueEnv_2), 2 + esize(ev));
                            assert(wm(sv(stack@)) < wm(sv(pre)));
                            assert(stack_fits(sv(stack@))) by {
                                assert(forall|j: int|
                                    0 <= j < sv(stack@).len() - 2 ==> sv(stack@)[j] == sv(pre)[j]);
                            }
                        }
                    },
                    Term::Apply { function, argument } => {
                        let e2 = clone_env(&env);
                        stack.push(DischargeStep::PopArgStack(PartialTerm::Apply));
                        stack.push(DischargeStep::DischargeValueEnv(lam_cnt, e2, *argument));
                        stack.push(DischargeStep::DischargeValueEnv(lam_cnt, env, *function));
                        proof {
                            assert(sv(stack@) =~= sv(pre).drop_last().push(
                                StepS::Pop(FrameS::Apply),
                            ).push(sv(stack@)[sv(stack@).len() - 2]).push(sv(stack@).last()));
                            lemma_wm_push(sv(pre).drop_last(), StepS::Pop(FrameS::Apply));
                            lemma_wm_push(
                                sv(pre).drop_last().push(StepS::Pop(FrameS::Apply)),
                                sv(stack@)[sv(stack@).len() - 2],
                            );
                            lemma_wm_push(
                                sv(pre).drop_last().push(StepS::Pop(FrameS::Apply)).push(
                                    sv(stack@)[sv(stack@).len() - 2],
                                ),
                                sv(stack@).last(),
                            );
                            lemma_mul_two_more(
                                tsize(sv(stack@).last()->ValueEnv_2),
                                tsize(sv(stack@)[sv(stack@).len() - 2]->ValueEnv_2),
                                2 + esize(ev),
                            );
                            assert(wm(sv(stack@)) < wm(sv(pre)));
                            assert(stack_fits(sv(stack@))) by {
                                assert(forall|j: int|
                                    0 <= j < sv(stack@).len() - 3 ==> sv(stack@)[j] == sv(pre)[j]);
                            }
                        }
                    },
                    Term::Delay(b) => {
                        stack.push(DischargeStep::PopArgStack(PartialTerm::Delay));
                        stack.push(DischargeStep::DischargeValueEnv(lam_cnt, env, *b));
                        proof {
                            assert(sv(stack@) =~= sv(pre).drop_last().push(
                                StepS::Pop(FrameS::Delay),
                            ).push(sv(stack@).last()));
                            lemma_wm_push(sv(pre).drop_last(), StepS::Pop(FrameS::Delay));
                            lemma_wm_push(
                                sv(pre).drop_last().push(StepS::Pop(FrameS::Delay)),
                                sv(stack@).last(),
                            );
                            lemma_mul_one_more(tsize(sv(stack@).last()->ValueEnv_2), 2 + esize(ev));
                            assert(wm(sv(stack@)) < wm(sv(pre)));
                            assert(stack_fits(sv(stack@))) by {
                                assert(forall|j: int|
                                    0 <= j < sv(stack@).len() - 2 ==> sv(stack@)[j] == sv(pre)[j]);
                            }
                        }
                    },
                    Term::Force(b) => {
                        stack.push(DischargeStep::PopArgStack(PartialTerm::Force));
                        stack.push(DischargeStep::DischargeValueEnv(lam_cnt, env, *b));
                        proof {
                            assert(sv(stack@) =~= sv(pre).drop_last().push(
                                StepS::Pop(FrameS::Force),
                            ).push(sv(stack@).last()));
                            lemma_wm_push(sv(pre).drop_last(), StepS::Pop(FrameS::Force));
                            lemma_wm_push(
                                sv(pre).drop_last().push(StepS::Pop(FrameS::Force)),
                                sv(stack@).last(),
                            );
                            lemma_mul_one_more(tsize(sv(stack@).last()->ValueEnv_2), 2 + esize(ev));
                            assert(wm(sv(stack@)) < wm(sv(pre)));
                            assert(stack_fits(sv(stack@))) by {
                                assert(forall|j: int|
                                    0 <= j < sv(stack@).len() - 2 ==> sv(stack@)[j] == sv(pre)[j]);
                            }
                        }
                    },
                    rest => {
                        let ghost rv = rest@;
                        arg_stack.push(rest);
                        proof {
                            lemma_tv_push(pre_args, arg_stack@.last());
                            assert(arg_stack@.drop_last() =~= pre_args);
                            assert(tv(arg_stack@) == tv(pre_args).push(rv));
                        }
                    },
                }
            },
            DischargeStep::PopArgStack(partial) => {
                proof {
                    if tv(pre_args).len() == 0 {
                        assert(run(sv(pre), tv(pre_args)) is None);
                        assert(false);
                    }
                }
                match partial {
                    PartialTerm::Delay => {
                        let body = arg_stack.pop().unwrap();
                        let ghost bv = body@;
                        arg_stack.push(Term::Delay(Box::new(body)));
                        proof {
                            lemma_tv_drop_last(pre_args);
                            lemma_tv_push(pre_args.drop_last(), arg_stack@.last());
                            assert(arg_stack@.drop_last() =~= pre_args.drop_last());
                            assert(tv(pre_args).last() == bv);
                            assert(tv(arg_stack@) == tv(pre_args).drop_last().push(
                                TermS::Delay(Box::new(bv)),
                            ));
                        }
                    },
                    PartialTerm::Lambda(parameter_name) => {
                        let ghost pnv = parameter_name@;
                        let body = arg_stack.pop().unwrap();
                        let ghost bv = body@;
                        arg_stack.push(
                            Term::Lambda { parameter_name, body: Box::new(body) },
                        );
                        proof {
                            lemma_tv_drop_last(pre_args);
                            lemma_tv_push(pre_args.drop_last(), arg_stack@.last());
                            assert(arg_stack@.drop_last() =~= pre_args.drop_last());
                            assert(tv(pre_args).last() == bv);
                            assert(tv(arg_stack@) == tv(pre_args).drop_last().push(
                                TermS::Lambda { parameter_name: pnv, body: Box::new(bv) },
                            ));
                        }
                    },
                    PartialTerm::Apply => {
                        proof {
                            if tv(pre_args).len() < 2 {
                                assert(run(sv(pre), tv(pre_args)) is None);
                                assert(false);
                            }
                        }
                        let argument = arg_stack.pop().unwrap();
                        let function = arg_stack.pop().unwrap();
                        let ghost av = argument@;
                        let ghost fnv = function@;
                        arg_stack.push(
                            Term::Apply {
                                function: Box::new(function),
                                argument: Box::new(argument),
                            },
                        );
                        proof {
                            lemma_tv_drop_last(pre_args);
                            lemma_tv_drop_last(pre_args.drop_last());
                            lemma_tv_push(
                                pre_args.drop_last().drop_last(),
                                arg_stack@.last(),
                            );
                            assert(arg_stack@.drop_last() =~= pre_args.drop_last().drop_last());
                            assert(tv(pre_args).last() == av);
                            assert(tv(pre_args)[tv(pre_args).len() - 2] == fnv);
                            assert(tv(arg_stack@) == tv(pre_args).drop_last().drop_last().push(
                                TermS::Apply { function: Box::new(fnv), argument: Box::new(av) },
                            ));
                        }
                    },
                    PartialTerm::Force => {
                        let body = arg_stack.pop().unwrap();
                        let ghost bv = body@;
                        arg_stack.push(Term::Force(Box::new(body)));
                        proof {
                            lemma_tv_drop_last(pre_args);
                            lemma_tv_push(pre_args.drop_last(), arg_stack@.last());
                            assert(arg_stack@.drop_last() =~= pre_args.drop_last());
                            assert(tv(pre_args).last() == bv);
                            assert(tv(arg_stack@) == tv(pre_args).drop_last().push(
                                TermS::Force(Box::new(bv)),
                            ));
                        }
                    },
                }
            },
        }
    }
    proof {
        assert(sv(stack@) =~= Seq::<StepS>::empty());
        assert(run(sv(stack@), tv(arg_stack@)) == Some(tv(arg_stack@)));
        assert(tv(arg_stack@) == seq![discharge_value(v0)]);
        assert(arg_stack@.len() == 1);
    }
    let ghost fa = arg_stack@;
    let t = arg_stack.pop().unwrap();
    proof {
        assert(t@ == tv(fa)[0]);
    }
    t
}

// ---------------------------------------------------------------------
// Laws of the discharge
// ---------------------------------------------------------------------
/// Discharging a reduced constant gives the constant term.
pub proof fn law_discharge_constant(c: crate::ast::ConstantS)
    ensures
        discharge_value(ValueS::Con(c)) == TermS::Constant(c),
{
}

/// Discharging a term under the empty environment changes nothing: every
/// variable is either bound inside the term or free, and both are kept.
pub proof fn law_discharge_env_empty(depth: nat, t: TermS)
    ensures
        discharge_env(depth, Seq::empty(), t) == t,
    decreases tsize(t),
{
    match t {
        TermS::Lambda { parameter_name, body } => {
            law_discharge_env_empty(depth + 1, *body);
        },
        TermS::Apply { function, argument } => {
            law_discharge_env_empty(depth, *function);
            law_discharge_env_empty(depth, *argument);
        },
        TermS::Delay(b) => {
            law_discharge_env_empty(depth, *b);
        },
        TermS::Force(b) => {
            law_discharge_env_empty(depth, *b);
        },
        _ => {},
    }
}

/// Discharging a suspension with an empty capture gives back the delayed
/// term unchanged.
pub proof fn law_discharge_delay_empty(t: TermS)
    ensures
        discharge_value(ValueS::Delay(Box::new(t), Seq::empty())) == TermS::Delay(Box::new(t)),
{
    law_discharge_env_empty(0, TermS::Delay(Box::new(t)));
}

/// Discharging a closure with an empty capture gives back the lambda
/// unchanged.
pub proof fn law_discharge_lambda_empty(b: NamedDeBruijnS, t: TermS)
    ensures
        discharge_value(ValueS::Lambda { parameter_name: b, body: Box::new(t), env: Seq::empty() })
            == (TermS::Lambda { parameter_name: b, body: Box::new(t) }),
{
    law_discharge_env_empty(0, TermS::Lambda { parameter_name: b, body: Box::new(t) });
}

/// Discharging a partially applied built-in rebuilds it as the built-in
/// under its pending forces, applied left to right to the discharges of
/// its pending arguments.
pub proof fn law_discharge_builtin(fun: crate::builtins::DefaultFunction, forces: nat, args: Seq<ValueS>)
    ensures
        discharge_value(ValueS::Builtin { fun, forces, args }) == discharge_args(
            force_n(TermS::Builtin(fun), forces),
            args,
        ),
        args.len() > 0 ==> discharge_value(ValueS::Builtin { fun, forces, args })
            == (TermS::Apply {
                function: Box::new(discharge_args(
                    force_n(TermS::Builtin(fun), forces),
                    args.drop_last(),
                )),
                argument: Box::new(discharge_value(args.last())),
            }),
{
}

/// Discharging a closure whose body refers to the innermost captured
/// value substitutes that value's discharge under the binder. The body's
/// index is two: index one names the closure's own binder.
pub proof fn law_discharge_closure(b: NamedDeBruijnS, x: NamedDeBruijnS, v: ValueS)
    requires
        x.index == 2,
    ensures
        discharge_value(
            ValueS::Lambda {
                parameter_name: b,
                body: Box::new(TermS::Var(x)),
                env: seq![v],
            },
        ) == (TermS::Lambda { parameter_name: b, body: Box::new(discharge_value(v)) }),
{
    let env = seq![v];
    assert(discharge_env(1, env, TermS::Var(x)) == discharge_value(env[0]));
}

/// A variable bound inside the closure's own body is kept as it is; only
/// indices that reach past the binders crossed so far consult the
/// environment.
pub proof fn law_discharge_bound_var(b: NamedDeBruijnS, x: NamedDeBruijnS, env: Seq<ValueS>)
    requires
        x.index <= 1,
    ensures
        discharge_value(
            ValueS::Lambda { parameter_name: b, body: Box::new(TermS::Var(x)), env },
        ) == (TermS::Lambda { parameter_name: b, body: Box::new(TermS::Var(x)) }),
{
    assert(discharge_env(1, env, TermS::Var(x)) == TermS::Var(x));
}

} // verus!
