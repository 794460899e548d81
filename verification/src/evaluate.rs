//! Normalisation by evaluation: `evaluate` turns terms into values,
//! `quote` reads values back into terms.
//!
//! Evaluation of an untyped term need not terminate, so the meaning of each
//! operation is given by a spec function with a `fuel` argument, bounding the
//! number of closures entered (beta steps for evaluation, binders for quoting):
//! `None` means that the fuel ran out, or that the operation fails (applies
//! something that is not a function, a level overflows, a variable is out of scope).
//! An executable operation requires that some fuel makes its spec function succeed,
//! and returns the result that every such fuel gives.
use crate::query::{Compiler, ElabInfo};
use crate::term::{Clos, Env, Icit, Ix, Lvl, Spine, Term, Val, Var};
use vstd::prelude::*;

verus! {

/// The least `n` with `p(n)`, where there is one.
pub open spec fn least(p: spec_fn(nat) -> bool) -> nat {
    choose|n: nat| #[trigger] p(n) && forall|m: nat| m < n ==> !#[trigger] p(m)
}

pub proof fn lemma_least(p: spec_fn(nat) -> bool, n: nat)
    requires
        p(n),
    ensures
        p(least(p)),
        least(p) <= n,
        forall|m: nat| m < least(p) ==> !#[trigger] p(m),
    decreases n,
{
    if exists|m: nat| m < n && #[trigger] p(m) {
        let m = choose|m: nat| m < n && #[trigger] p(m);
        lemma_least(p, m);
    } else {
        assert(p(n) && forall|m: nat| m < n ==> !#[trigger] p(m));
    }
}

/// The term that a variable of a value reads back as, under `l` binders.
pub open spec fn quote_head(h: Var<Lvl>, l: Lvl) -> Option<Term> {
    match h {
        Var::Local(lv) => if lv.0 < l.0 {
            Some(Term::Var(Var::Local(lv.spec_to_ix(l))))
        } else {
            None
        },
        Var::Top(d) => Some(Term::Var(Var::Top(d))),
        Var::Meta(m) => Some(Term::Var(Var::Meta(m))),
        Var::Rec(id) => Some(Term::Var(Var::Rec(id))),
        Var::Cons(id) => Some(Term::Var(Var::Cons(id))),
        Var::Builtin(b) => Some(Term::Var(Var::Builtin(b))),
    }
}

/// The value of a variable of a term in `env`.
pub open spec fn eval_var(v: Var<Ix>, env: Env) -> Option<Val> {
    match v {
        Var::Local(ix) => if ix.0 < env.size.0 {
            Some(env.spec_val(ix))
        } else {
            None
        },
        Var::Top(d) => Some(Val::App(Var::Top(d), Spine::Nil)),
        Var::Rec(id) => Some(Val::App(Var::Rec(id), Spine::Nil)),
        Var::Meta(m) => Some(Val::App(Var::Meta(m), Spine::Nil)),
        Var::Cons(id) => Some(Val::App(Var::Cons(id), Spine::Nil)),
        Var::Builtin(b) => Some(Val::App(Var::Builtin(b), Spine::Nil)),
    }
}

/// Evaluation of `t` in `env`, entering at most `fuel` closures.
pub open spec fn eval(t: Term, env: Env, fuel: nat) -> Option<Val>
    decreases fuel, t,
{
    match t {
        Term::Type => Some(Val::Type),
        Term::Var(v) => eval_var(v, env),
        Term::Lam(icit, body) => Some(Val::Lam(icit, Clos(Box::new(env), body))),
        Term::Pi(icit, ty, body) => match eval(*ty, env, fuel) {
            Some(tyv) => Some(Val::Pi(icit, Box::new(tyv), Clos(Box::new(env), body))),
            None => None,
        },
        Term::Fun(from, to) => match (eval(*from, env, fuel), eval(*to, env, fuel)) {
            (Some(a), Some(b)) => Some(Val::Fun(Box::new(a), Box::new(b))),
            _ => None,
        },
        Term::App(icit, f, x) => match (eval(*f, env, fuel), eval(*x, env, fuel)) {
            (Some(fv), Some(xv)) => match fv {
                Val::App(h, sp) => Some(Val::App(h, Spine::Snoc(Box::new(sp), icit, Box::new(xv)))),
                Val::Lam(_, cl) => if fuel == 0 || cl.0.size.0 == u32::MAX {
                    None
                } else {
                    eval(*cl.1, cl.0.spec_pushed(Some(xv)), (fuel - 1) as nat)
                },
                Val::Error => Some(Val::Error),
                _ => None,
            },
            _ => None,
        },
        Term::Lit(l, w) => Some(Val::Lit(l, w)),
        Term::Error => Some(Val::Error),
    }
}

/// Applying closure `cl` to `x`, entering at most `fuel` closures (this one included).
pub open spec fn apply_fuel(cl: Clos, x: Val, fuel: nat) -> Option<Val> {
    if fuel == 0 || cl.0.size.0 == u32::MAX {
        None
    } else {
        eval(*cl.1, cl.0.spec_pushed(Some(x)), (fuel - 1) as nat)
    }
}

/// Applying `f` to the argument `x`, entering at most `fuel` closures.
pub open spec fn app_fuel(f: Val, icit: Icit, x: Val, fuel: nat) -> Option<Val> {
    match f {
        Val::App(h, sp) => Some(Val::App(h, Spine::Snoc(Box::new(sp), icit, Box::new(x)))),
        Val::Lam(_, cl) => apply_fuel(cl, x, fuel),
        Val::Error => Some(Val::Error),
        _ => None,
    }
}

/// Reading back value `v` under `l` binders, entering at most `fuel` closures.
pub open spec fn quote_fuel(v: Val, l: Lvl, fuel: nat) -> Option<Term>
    decreases fuel, v,
{
    match v {
        Val::Type => Some(Term::Type),
        Val::App(h, sp) => match quote_head(h, l) {
            Some(ht) => quote_spine_fuel(ht, sp, l, fuel),
            None => None,
        },
        Val::Lam(icit, cl) => match quote_clos_fuel(cl, fuel) {
            Some(b) => Some(Term::Lam(icit, Box::new(b))),
            None => None,
        },
        Val::Pi(icit, ty, cl) => match (quote_fuel(*ty, l, fuel), quote_clos_fuel(cl, fuel)) {
            (Some(a), Some(b)) => Some(Term::Pi(icit, Box::new(a), Box::new(b))),
            _ => None,
        },
        Val::Fun(from, to) => match (quote_fuel(*from, l, fuel), quote_fuel(*to, l, fuel)) {
            (Some(a), Some(b)) => Some(Term::Fun(Box::new(a), Box::new(b))),
            _ => None,
        },
        Val::Lit(l, w) => Some(Term::Lit(l, w)),
        Val::Error => Some(Term::Error),
    }
}

/// Reading back the application of `head` to the arguments of `sp`, the first argument innermost.
pub open spec fn quote_spine_fuel(head: Term, sp: Spine, l: Lvl, fuel: nat) -> Option<Term>
    decreases fuel, sp,
{
    match sp {
        Spine::Nil => Some(head),
        Spine::Snoc(rest, icit, x) => match (
            quote_spine_fuel(head, *rest, l, fuel),
            quote_fuel(*x, l, fuel),
        ) {
            (Some(f), Some(a)) => Some(Term::App(icit, Box::new(f), Box::new(a))),
            _ => None,
        },
    }
}

/// Reading back the body of closure `cl`: applied to a fresh variable at the
/// level just past its environment, and read back under one more binder.
pub open spec fn quote_clos_fuel(cl: Clos, fuel: nat) -> Option<Term>
    decreases fuel, cl,
{
    if fuel == 0 || cl.0.size.0 == u32::MAX {
        None
    } else {
        match eval(*cl.1, cl.0.spec_pushed(None), (fuel - 1) as nat) {
            Some(bv) => quote_fuel(bv, Lvl((cl.0.size.0 + 1) as u32), (fuel - 1) as nat),
            None => None,
        }
    }
}

/// The number of constructors of `t`.
pub open spec fn term_size(t: Term) -> nat
    decreases t,
{
    match t {
        Term::Lam(_, b) => 1 + term_size(*b),
        Term::Pi(_, a, b) => 1 + term_size(*a) + term_size(*b),
        Term::Fun(a, b) => 1 + term_size(*a) + term_size(*b),
        Term::App(_, a, b) => 1 + term_size(*a) + term_size(*b),
        _ => 1,
    }
}

/// The number of constructors of `v`, closures not looked into.
pub open spec fn val_size(v: Val) -> nat
    decreases v,
{
    match v {
        Val::App(_, sp) => 1 + spine_size(sp),
        Val::Pi(_, a, _) => 1 + val_size(*a),
        Val::Fun(a, b) => 1 + val_size(*a) + val_size(*b),
        _ => 1,
    }
}

pub open spec fn spine_size(sp: Spine) -> nat
    decreases sp,
{
    match sp {
        Spine::Nil => 1,
        Spine::Snoc(rest, _, x) => 1 + spine_size(*rest) + val_size(*x),
    }
}

// Termination, and the results of the total operations.
/// Whether evaluating `t` in `env` terminates without failing.
pub open spec fn evaluates(t: Term, env: Env) -> bool {
    exists|fuel: nat| eval(t, env, fuel) is Some
}

pub open spec fn eval_steps(t: Term, env: Env) -> nat {
    least(|fuel: nat| eval(t, env, fuel) is Some)
}

/// The value of `t` in `env`, where `evaluates(t, env)`.
pub open spec fn eval_result(t: Term, env: Env) -> Val {
    eval(t, env, eval_steps(t, env))->Some_0
}

pub open spec fn applies(f: Val, icit: Icit, x: Val) -> bool {
    exists|fuel: nat| app_fuel(f, icit, x, fuel) is Some
}

pub open spec fn app_steps(f: Val, icit: Icit, x: Val) -> nat {
    least(|fuel: nat| app_fuel(f, icit, x, fuel) is Some)
}

pub open spec fn app_result(f: Val, icit: Icit, x: Val) -> Val {
    app_fuel(f, icit, x, app_steps(f, icit, x))->Some_0
}

pub open spec fn clos_applies(cl: Clos, x: Val) -> bool {
    exists|fuel: nat| apply_fuel(cl, x, fuel) is Some
}

pub open spec fn apply_steps(cl: Clos, x: Val) -> nat {
    least(|fuel: nat| apply_fuel(cl, x, fuel) is Some)
}

pub open spec fn apply_result(cl: Clos, x: Val) -> Val {
    apply_fuel(cl, x, apply_steps(cl, x))->Some_0
}

/// Whether reading back `v` under `l` binders terminates without failing.
pub open spec fn quotes(v: Val, l: Lvl) -> bool {
    exists|fuel: nat| quote_fuel(v, l, fuel) is Some
}

pub open spec fn quote_steps(v: Val, l: Lvl) -> nat {
    least(|fuel: nat| quote_fuel(v, l, fuel) is Some)
}

pub open spec fn quote_result(v: Val, l: Lvl) -> Term {
    quote_fuel(v, l, quote_steps(v, l))->Some_0
}

pub open spec fn spine_quotes(head: Term, sp: Spine, l: Lvl) -> bool {
    exists|fuel: nat| quote_spine_fuel(head, sp, l, fuel) is Some
}

pub open spec fn spine_steps(head: Term, sp: Spine, l: Lvl) -> nat {
    least(|fuel: nat| quote_spine_fuel(head, sp, l, fuel) is Some)
}

pub open spec fn spine_result(head: Term, sp: Spine, l: Lvl) -> Term {
    quote_spine_fuel(head, sp, l, spine_steps(head, sp, l))->Some_0
}

pub open spec fn clos_quotes(cl: Clos) -> bool {
    exists|fuel: nat| quote_clos_fuel(cl, fuel) is Some
}

pub open spec fn clos_quote_steps(cl: Clos) -> nat {
    least(|fuel: nat| quote_clos_fuel(cl, fuel) is Some)
}

pub open spec fn clos_quote_result(cl: Clos) -> Term {
    quote_clos_fuel(cl, clos_quote_steps(cl))->Some_0
}

// More fuel never changes a result.
pub proof fn lemma_eval_mono(t: Term, env: Env, f: nat, g: nat)
    requires
        f <= g,
        eval(t, env, f) is Some,
    ensures
        eval(t, env, g) == eval(t, env, f),
    decreases f, t,
{
    match t {
        Term::Pi(icit, ty, body) => {
            lemma_eval_mono(*ty, env, f, g);
        },
        Term::Fun(from, to) => {
            lemma_eval_mono(*from, env, f, g);
            lemma_eval_mono(*to, env, f, g);
        },
        Term::App(icit, fun, x) => {
            lemma_eval_mono(*fun, env, f, g);
            lemma_eval_mono(*x, env, f, g);
            let fv = eval(*fun, env, f)->Some_0;
            let xv = eval(*x, env, f)->Some_0;
            match fv {
                Val::Lam(_, cl) => {
                    lemma_eval_mono(
                        *cl.1,
                        cl.0.spec_pushed(Some(xv)),
                        (f - 1) as nat,
                        (g - 1) as nat,
                    );
                },
                _ => {},
            }
        },
        _ => {},
    }
}

pub proof fn lemma_quote_mono(v: Val, l: Lvl, f: nat, g: nat)
    requires
        f <= g,
        quote_fuel(v, l, f) is Some,
    ensures
        quote_fuel(v, l, g) == quote_fuel(v, l, f),
    decreases f, v,
{
    match v {
        Val::App(h, sp) => {
            lemma_quote_spine_mono(quote_head(h, l)->Some_0, sp, l, f, g);
        },
        Val::Lam(icit, cl) => {
            lemma_quote_clos_mono(cl, f, g);
        },
        Val::Pi(icit, ty, cl) => {
            lemma_quote_mono(*ty, l, f, g);
            lemma_quote_clos_mono(cl, f, g);
        },
        Val::Fun(from, to) => {
            lemma_quote_mono(*from, l, f, g);
            lemma_quote_mono(*to, l, f, g);
        },
        _ => {},
    }
}

pub proof fn lemma_quote_spine_mono(head: Term, sp: Spine, l: Lvl, f: nat, g: nat)
    requires
        f <= g,
        quote_spine_fuel(head, sp, l, f) is Some,
    ensures
        quote_spine_fuel(head, sp, l, g) == quote_spine_fuel(head, sp, l, f),
    decreases f, sp,
{
    match sp {
        Spine::Snoc(rest, icit, x) => {
            lemma_quote_spine_mono(head, *rest, l, f, g);
            lemma_quote_mono(*x, l, f, g);
        },
        Spine::Nil => {},
    }
}

pub proof fn lemma_quote_clos_mono(cl: Clos, f: nat, g: nat)
    requires
        f <= g,
        quote_clos_fuel(cl, f) is Some,
    ensures
        quote_clos_fuel(cl, g) == quote_clos_fuel(cl, f),
    decreases f, cl,
{
    let env = cl.0.spec_pushed(None);
    lemma_eval_mono(*cl.1, env, (f - 1) as nat, (g - 1) as nat);
    let bv = eval(*cl.1, env, (f - 1) as nat)->Some_0;
    lemma_quote_mono(bv, Lvl((cl.0.size.0 + 1) as u32), (f - 1) as nat, (g - 1) as nat);
}

// Any fuel that succeeds gives the result of the total operation.
pub proof fn lemma_eval_det(t: Term, env: Env, f: nat)
    requires
        eval(t, env, f) is Some,
    ensures
        evaluates(t, env),
        eval(t, env, eval_steps(t, env)) is Some,
        eval_steps(t, env) <= f,
        eval(t, env, f) == Some(eval_result(t, env)),
{
    let p = |fuel: nat| eval(t, env, fuel) is Some;
    lemma_least(p, f);
    lemma_eval_mono(t, env, eval_steps(t, env), f);
}

pub proof fn lemma_app_det(fv: Val, icit: Icit, x: Val, f: nat)
    requires
        app_fuel(fv, icit, x, f) is Some,
    ensures
        applies(fv, icit, x),
        app_fuel(fv, icit, x, app_steps(fv, icit, x)) is Some,
        app_steps(fv, icit, x) <= f,
        app_fuel(fv, icit, x, f) == Some(app_result(fv, icit, x)),
{
    let p = |fuel: nat| app_fuel(fv, icit, x, fuel) is Some;
    lemma_least(p, f);
    let s = app_steps(fv, icit, x);
    match fv {
        Val::Lam(_, cl) => {
            lemma_eval_mono(*cl.1, cl.0.spec_pushed(Some(x)), (s - 1) as nat, (f - 1) as nat);
        },
        _ => {},
    }
}

pub proof fn lemma_apply_det(cl: Clos, x: Val, f: nat)
    requires
        apply_fuel(cl, x, f) is Some,
    ensures
        clos_applies(cl, x),
        apply_fuel(cl, x, apply_steps(cl, x)) is Some,
        apply_steps(cl, x) <= f,
        apply_fuel(cl, x, f) == Some(apply_result(cl, x)),
{
    let p = |fuel: nat| apply_fuel(cl, x, fuel) is Some;
    lemma_least(p, f);
    let s = apply_steps(cl, x);
    lemma_eval_mono(*cl.1, cl.0.spec_pushed(Some(x)), (s - 1) as nat, (f - 1) as nat);
}

pub proof fn lemma_quote_det(v: Val, l: Lvl, f: nat)
    requires
        quote_fuel(v, l, f) is Some,
    ensures
        quotes(v, l),
        quote_fuel(v, l, quote_steps(v, l)) is Some,
        quote_steps(v, l) <= f,
        quote_fuel(v, l, f) == Some(quote_result(v, l)),
{
    let p = |fuel: nat| quote_fuel(v, l, fuel) is Some;
    lemma_least(p, f);
    lemma_quote_mono(v, l, quote_steps(v, l), f);
}

pub proof fn lemma_spine_det(head: Term, sp: Spine, l: Lvl, f: nat)
    requires
        quote_spine_fuel(head, sp, l, f) is Some,
    ensures
        spine_quotes(head, sp, l),
        quote_spine_fuel(head, sp, l, spine_steps(head, sp, l)) is Some,
        spine_steps(head, sp, l) <= f,
        quote_spine_fuel(head, sp, l, f) == Some(spine_result(head, sp, l)),
{
    let p = |fuel: nat| quote_spine_fuel(head, sp, l, fuel) is Some;
    lemma_least(p, f);
    lemma_quote_spine_mono(head, sp, l, spine_steps(head, sp, l), f);
}

pub proof fn lemma_clos_quote_det(cl: Clos, f: nat)
    requires
        quote_clos_fuel(cl, f) is Some,
    ensures
        clos_quotes(cl),
        quote_clos_fuel(cl, clos_quote_steps(cl)) is Some,
        clos_quote_steps(cl) <= f,
        quote_clos_fuel(cl, f) == Some(clos_quote_result(cl)),
{
    let p = |fuel: nat| quote_clos_fuel(cl, fuel) is Some;
    lemma_least(p, f);
    lemma_quote_clos_mono(cl, clos_quote_steps(cl), f);
}

/// Evaluating an application evaluates the function and the argument, and applies one to the other.
pub proof fn lemma_eval_app(icit: Icit, f: Term, x: Term, env: Env)
    requires
        evaluates(Term::App(icit, Box::new(f), Box::new(x)), env),
    ensures
        evaluates(f, env),
        evaluates(x, env),
        applies(eval_result(f, env), icit, eval_result(x, env)),
        eval_result(Term::App(icit, Box::new(f), Box::new(x)), env) == app_result(
            eval_result(f, env),
            icit,
            eval_result(x, env),
        ),
{
    let t = Term::App(icit, Box::new(f), Box::new(x));
    let w = choose|w: nat| eval(t, env, w) is Some;
    lemma_eval_det(t, env, w);
    let fuel = eval_steps(t, env);
    lemma_eval_det(f, env, fuel);
    lemma_eval_det(x, env, fuel);
    lemma_app_det(eval_result(f, env), icit, eval_result(x, env), fuel);
}

/// Applying a closure evaluates its body with its variable bound to the argument.
pub proof fn lemma_apply_eval(cl: Clos, x: Val)
    requires
        cl.0.size.0 < u32::MAX,
    ensures
        clos_applies(cl, x) <==> evaluates(*cl.1, cl.0.spec_pushed(Some(x))),
        clos_applies(cl, x) ==> apply_result(cl, x) == eval_result(*cl.1, cl.0.spec_pushed(Some(x))),
{
    let env = cl.0.spec_pushed(Some(x));
    if clos_applies(cl, x) {
        let w = choose|w: nat| apply_fuel(cl, x, w) is Some;
        lemma_apply_det(cl, x, w);
        lemma_eval_det(*cl.1, env, (w - 1) as nat);
    }
    if evaluates(*cl.1, env) {
        let w = choose|w: nat| eval(*cl.1, env, w) is Some;
        assert(apply_fuel(cl, x, w + 1) == eval(*cl.1, env, w));
        lemma_apply_det(cl, x, w + 1);
        lemma_eval_det(*cl.1, env, w);
    }
}

// Normal forms.
/// Whether `t` is neutral: a variable applied to arguments in normal form.
pub open spec fn is_neutral(t: Term) -> bool
    decreases t,
{
    match t {
        Term::Var(_) => true,
        Term::App(_, f, x) => is_neutral(*f) && is_normal(*x),
        _ => false,
    }
}

/// Whether `t` is in normal form: every application in it is neutral.
pub open spec fn is_normal(t: Term) -> bool
    decreases t,
{
    match t {
        Term::Lam(_, b) => is_normal(*b),
        Term::Pi(_, a, b) => is_normal(*a) && is_normal(*b),
        Term::Fun(a, b) => is_normal(*a) && is_normal(*b),
        Term::App(_, f, x) => is_neutral(*f) && is_normal(*x),
        _ => true,
    }
}

/// Whether every local variable of `t` is bound, by a binder of `t` or by one of
/// `n` binders around it, and no level under a binder of `t` overflows.
pub open spec fn scoped(t: Term, n: nat) -> bool
    decreases t,
{
    match t {
        Term::Var(Var::Local(ix)) => ix.0 < n,
        Term::Lam(_, b) => n < u32::MAX && scoped(*b, n + 1),
        Term::Pi(_, a, b) => scoped(*a, n) && n < u32::MAX && scoped(*b, n + 1),
        Term::Fun(a, b) => scoped(*a, n) && scoped(*b, n),
        Term::App(_, a, b) => scoped(*a, n) && scoped(*b, n),
        _ => true,
    }
}

/// The deepest nesting of binders in `t`.
pub open spec fn binder_depth(t: Term) -> nat
    decreases t,
{
    match t {
        Term::Lam(_, b) => 1 + binder_depth(*b),
        Term::Pi(_, a, b) => if binder_depth(*a) >= 1 + binder_depth(*b) {
            binder_depth(*a)
        } else {
            1 + binder_depth(*b)
        },
        Term::Fun(a, b) => if binder_depth(*a) >= binder_depth(*b) {
            binder_depth(*a)
        } else {
            binder_depth(*b)
        },
        Term::App(_, a, b) => if binder_depth(*a) >= binder_depth(*b) {
            binder_depth(*a)
        } else {
            binder_depth(*b)
        },
        _ => 0,
    }
}

/// Whether every variable of `env` stands for itself.
pub open spec fn is_identity_env(env: Env) -> bool {
    forall|i: u32|
        i < env.size.0 ==> #[trigger] env.spec_val(Ix(i)) == Val::spec_local(
            Lvl((env.size.0 - 1 - i) as u32),
        )
}

proof fn lemma_new_identity(size: Lvl)
    ensures
        is_identity_env(Env::spec_new(size)),
{
}

proof fn lemma_push_identity(env: Env)
    requires
        is_identity_env(env),
        env.size.0 < u32::MAX,
    ensures
        is_identity_env(env.spec_pushed(None)),
{
    let e2 = env.spec_pushed(None);
    assert forall|i: u32| i < e2.size.0 implies #[trigger] e2.spec_val(Ix(i)) == Val::spec_local(
        Lvl((e2.size.0 - 1 - i) as u32),
    ) by {
        if i > 0 {
            assert(crate::term::vals_get(e2.vals, i as nat) == crate::term::vals_get(env.vals, (i - 1) as nat));
            assert(env.spec_val(Ix((i - 1) as u32)) == Val::spec_local(
                Lvl((env.size.0 - 1 - (i - 1)) as u32),
            ));
        }
    }
}

proof fn lemma_neutral_roundtrip(t: Term, env: Env, f: nat)
    requires
        is_identity_env(env),
        is_neutral(t),
        scoped(t, env.size.0 as nat),
        f >= binder_depth(t),
    ensures
        eval(t, env, 0) matches Some(Val::App(h, sp)) && quote_head(h, env.size) matches Some(
            ht,
        ) && quote_spine_fuel(ht, sp, env.size, f) == Some(t),
    decreases t, 0nat,
{
    match t {
        Term::Var(Var::Local(ix)) => {
            assert(env.spec_val(Ix(ix.0)) == Val::spec_local(Lvl((env.size.0 - 1 - ix.0) as u32)));
        },
        Term::App(i, fun, x) => {
            lemma_neutral_roundtrip(*fun, env, f);
            lemma_normal_roundtrip(*x, env, f);
        },
        _ => {},
    }
}

proof fn lemma_normal_roundtrip(t: Term, env: Env, f: nat)
    requires
        is_identity_env(env),
        is_normal(t),
        scoped(t, env.size.0 as nat),
        f >= binder_depth(t),
    ensures
        eval(t, env, 0) is Some,
        quote_fuel(eval(t, env, 0)->Some_0, env.size, f) == Some(t),
    decreases t, 1nat,
{
    match t {
        Term::Var(_) | Term::App(_, _, _) => {
            lemma_neutral_roundtrip(t, env, f);
        },
        Term::Lam(i, b) => {
            let e2 = env.spec_pushed(None);
            lemma_push_identity(env);
            lemma_normal_roundtrip(*b, e2, (f - 1) as nat);
            lemma_eval_mono(*b, e2, 0, (f - 1) as nat);
            assert(quote_clos_fuel(Clos(Box::new(env), b), f) == Some(*b));
        },
        Term::Pi(i, a, b) => {
            lemma_normal_roundtrip(*a, env, f);
            let e2 = env.spec_pushed(None);
            lemma_push_identity(env);
            lemma_normal_roundtrip(*b, e2, (f - 1) as nat);
            lemma_eval_mono(*b, e2, 0, (f - 1) as nat);
            assert(quote_clos_fuel(Clos(Box::new(env), b), f) == Some(*b));
        },
        Term::Fun(a, b) => {
            lemma_normal_roundtrip(*a, env, f);
            lemma_normal_roundtrip(*b, env, f);
        },
        _ => {},
    }
}

/// Normal forms are fixed points of normalisation: a term in normal form, whose
/// variables are all bound by its own binders or by `size` binders around it,
/// evaluates (in the environment where each of those `size` variables stands for
/// itself) to a value that reads back, under `size` binders, as the term itself.
pub proof fn lemma_quote_evaluate_normal(t: Term, size: Lvl)
    requires
        is_normal(t),
        scoped(t, size.0 as nat),
    ensures
        evaluates(t, Env::spec_new(size)),
        quotes(eval_result(t, Env::spec_new(size)), size),
        quote_result(eval_result(t, Env::spec_new(size)), size) == t,
{
    let env = Env::spec_new(size);
    lemma_new_identity(size);
    lemma_normal_roundtrip(t, env, binder_depth(t));
    lemma_eval_det(t, env, 0);
    lemma_quote_det(eval_result(t, env), size, binder_depth(t));
}

/// Evaluates `term` in `env`.
/// This creates a value, which you can call `inline()` on to unfold its top-level definitions if needed.
pub fn evaluate(term: Term, env: &Env) -> (v: Val)
    requires
        evaluates(term, *env),
    ensures
        v == eval_result(term, *env),
    decreases eval_steps(term, *env), 2nat, term_size(term),
{
    let ghost fuel = eval_steps(term, *env);
    proof {
        let f = choose|f: nat| eval(term, *env, f) is Some;
        lemma_eval_det(term, *env, f);
    }
    match term {
        Term::Type => Val::Type,
        Term::Var(Var::Local(ix)) => env.val(ix),
        Term::Var(Var::Top(def)) => Val::top(def),
        Term::Var(Var::Rec(id)) => Val::rec(id),
        Term::Var(Var::Meta(meta)) => Val::meta(meta),
        Term::Var(Var::Cons(id)) => Val::App(Var::Cons(id), Spine::Nil),
        Term::Var(Var::Builtin(b)) => Val::App(Var::Builtin(b), Spine::Nil),
        Term::Lam(icit, body) => Val::Lam(icit, Clos(Box::new(env.copy()), body)),
        Term::Pi(icit, ty, body) => {
            proof {
                lemma_eval_det(*ty, *env, fuel);
            }
            let ty = evaluate(*ty, env);
            Val::Pi(icit, Box::new(ty), Clos(Box::new(env.copy()), body))
        },
        Term::Fun(from, to) => {
            proof {
                lemma_eval_det(*from, *env, fuel);
                lemma_eval_det(*to, *env, fuel);
            }
            let from = evaluate(*from, env);
            let to = evaluate(*to, env);
            Val::Fun(Box::new(from), Box::new(to))
        },
        Term::App(icit, f, x) => {
            proof {
                lemma_eval_det(*f, *env, fuel);
                lemma_eval_det(*x, *env, fuel);
            }
            let f = evaluate(*f, env);
            let x = evaluate(*x, env);
            proof {
                lemma_app_det(f, icit, x, fuel);
            }
            f.app(icit, x)
        },
        Term::Lit(l, w) => Val::Lit(l, w),
        Term::Error => Val::Error,
    }
}

impl Val {
    /// Applies `self` to the argument `x`.
    pub fn app(self, icit: Icit, x: Val) -> (r: Val)
        requires
            applies(self, icit, x),
        ensures
            r == app_result(self, icit, x),
        decreases app_steps(self, icit, x), 1nat, 0nat,
    {
        let ghost fuel = app_steps(self, icit, x);
        let ghost xg = x;
        proof {
            let f = choose|f: nat| app_fuel(self, icit, x, f) is Some;
            lemma_app_det(self, icit, x, f);
        }
        match self {
            Val::App(h, sp) => Val::App(h, sp.push(icit, x)),
            Val::Lam(_, cl) => {
                proof {
                    lemma_apply_det(cl, xg, fuel);
                }
                cl.apply(x)
            },
            Val::Error => Val::Error,
            _ => vstd::pervasive::unreached(),
        }
    }
}

impl Clos {
    /// Applies the closure to `x`: evaluates its body with its variable bound to `x`.
    pub fn apply(self, x: Val) -> (r: Val)
        requires
            clos_applies(self, x),
        ensures
            r == apply_result(self, x),
        decreases apply_steps(self, x), 0nat, 0nat,
    {
        let ghost fuel = apply_steps(self, x);
        let ghost cl = self;
        let ghost xg = x;
        proof {
            let f = choose|f: nat| apply_fuel(self, x, f) is Some;
            lemma_apply_det(self, x, f);
        }
        let Clos(env, body) = self;
        let mut env = *env;
        env.push(Some(x));
        proof {
            lemma_eval_det(*cl.1, cl.0.spec_pushed(Some(xg)), (fuel - 1) as nat);
        }
        evaluate(*body, &env)
    }

    /// Reads back the body of the closure, under one more binder than its environment.
    pub fn quote(self) -> (t: Term)
        requires
            clos_quotes(self),
        ensures
            t == clos_quote_result(self),
        decreases clos_quote_steps(self), 0nat, 0nat,
    {
        let ghost fuel = clos_quote_steps(self);
        let ghost cl = self;
        proof {
            let f = choose|f: nat| quote_clos_fuel(self, f) is Some;
            lemma_clos_quote_det(self, f);
        }
        let Clos(env, body) = self;
        let mut env = *env;
        let l = env.size;
        env.push(None);
        proof {
            lemma_eval_det(*cl.1, cl.0.spec_pushed(None), (fuel - 1) as nat);
        }
        let v = evaluate(*body, &env);
        proof {
            lemma_quote_det(v, Lvl((l.0 + 1) as u32), (fuel - 1) as nat);
        }
        quote(v, l.inc())
    }
}

/// Applying `f` to the arguments of `sp`, the first argument first, entering at most
/// `fuel` closures in each application.
pub open spec fn app_spine_fuel(f: Val, sp: Spine, fuel: nat) -> Option<Val>
    decreases sp,
{
    match sp {
        Spine::Nil => Some(f),
        Spine::Snoc(rest, icit, x) => match app_spine_fuel(f, *rest, fuel) {
            Some(g) => app_fuel(g, icit, *x, fuel),
            None => None,
        },
    }
}

/// Unfolding the global definitions that head `v`, a Pi domain in it, or either side of a
/// function type in it, with at most `fuel` nested unfoldings (and `fuel` closures entered
/// in each evaluation): a definition whose elaboration succeeded is replaced by the value
/// of its term, in the environment of no variables, applied to the arguments it had, and
/// that value is unfolded in turn; a definition that has no value (its elaboration failed)
/// stays as it is; `None` where an elaboration is not known, or fuel runs out.
pub open spec fn inline_fuel<D: Compiler>(db: &D, v: Val, fuel: nat) -> Option<Val>
    decreases fuel, v,
{
    match v {
        Val::App(Var::Top(d), sp) => match db.spec_elaborate_def(d) {
            Some(Ok(info)) => if fuel == 0 {
                None
            } else {
                match eval(elab_term(info), Env::spec_new(Lvl(0)), (fuel - 1) as nat) {
                    Some(dv) => match app_spine_fuel(dv, sp, (fuel - 1) as nat) {
                        Some(u) => inline_fuel(db, u, (fuel - 1) as nat),
                        None => None,
                    },
                    None => None,
                }
            },
            Some(Err(_)) => Some(v),
            None => None,
        },
        Val::Pi(icit, ty, cl) => match inline_fuel(db, *ty, fuel) {
            Some(t) => Some(Val::Pi(icit, Box::new(t), cl)),
            None => None,
        },
        Val::Fun(from, to) => match (inline_fuel(db, *from, fuel), inline_fuel(db, *to, fuel)) {
            (Some(a), Some(b)) => Some(Val::Fun(Box::new(a), Box::new(b))),
            _ => None,
        },
        _ => Some(v),
    }
}

/// The term of an elaborated definition.
pub open spec fn elab_term(info: ElabInfo) -> Term {
    *info.term
}

pub open spec fn spine_applies(f: Val, sp: Spine) -> bool {
    exists|fuel: nat| app_spine_fuel(f, sp, fuel) is Some
}

pub open spec fn app_spine_steps(f: Val, sp: Spine) -> nat {
    least(|fuel: nat| app_spine_fuel(f, sp, fuel) is Some)
}

pub open spec fn app_spine_result(f: Val, sp: Spine) -> Val {
    app_spine_fuel(f, sp, app_spine_steps(f, sp))->Some_0
}

/// Whether unfolding the definitions of `v` terminates without failing.
pub open spec fn inlines<D: Compiler>(db: &D, v: Val) -> bool {
    exists|fuel: nat| inline_fuel(db, v, fuel) is Some
}

pub open spec fn inline_steps<D: Compiler>(db: &D, v: Val) -> nat {
    least(|fuel: nat| inline_fuel(db, v, fuel) is Some)
}

pub open spec fn inline_result<D: Compiler>(db: &D, v: Val) -> Val {
    inline_fuel(db, v, inline_steps(db, v))->Some_0
}

pub proof fn lemma_app_mono(f: Val, icit: Icit, x: Val, a: nat, b: nat)
    requires
        a <= b,
        app_fuel(f, icit, x, a) is Some,
    ensures
        app_fuel(f, icit, x, b) == app_fuel(f, icit, x, a),
{
    if let Val::Lam(_, cl) = f {
        lemma_eval_mono(*cl.1, cl.0.spec_pushed(Some(x)), (a - 1) as nat, (b - 1) as nat);
    }
}

pub proof fn lemma_app_spine_mono(f: Val, sp: Spine, a: nat, b: nat)
    requires
        a <= b,
        app_spine_fuel(f, sp, a) is Some,
    ensures
        app_spine_fuel(f, sp, b) == app_spine_fuel(f, sp, a),
    decreases sp,
{
    if let Spine::Snoc(rest, icit, x) = sp {
        lemma_app_spine_mono(f, *rest, a, b);
        let g = app_spine_fuel(f, *rest, a)->Some_0;
        lemma_app_mono(g, icit, *x, a, b);
    }
}

pub proof fn lemma_inline_mono<D: Compiler>(db: &D, v: Val, a: nat, b: nat)
    requires
        a <= b,
        inline_fuel(db, v, a) is Some,
    ensures
        inline_fuel(db, v, b) == inline_fuel(db, v, a),
    decreases a, v,
{
    match v {
        Val::App(Var::Top(d), sp) => {
            if let Some(Ok(info)) = db.spec_elaborate_def(d) {
                let env = Env::spec_new(Lvl(0));
                lemma_eval_mono(elab_term(info), env, (a - 1) as nat, (b - 1) as nat);
                let dv = eval(elab_term(info), env, (a - 1) as nat)->Some_0;
                lemma_app_spine_mono(dv, sp, (a - 1) as nat, (b - 1) as nat);
                let u = app_spine_fuel(dv, sp, (a - 1) as nat)->Some_0;
                lemma_inline_mono(db, u, (a - 1) as nat, (b - 1) as nat);
            }
        },
        Val::Pi(_, ty, _) => {
            lemma_inline_mono(db, *ty, a, b);
        },
        Val::Fun(from, to) => {
            lemma_inline_mono(db, *from, a, b);
            lemma_inline_mono(db, *to, a, b);
        },
        _ => {},
    }
}

pub proof fn lemma_app_spine_det(f: Val, sp: Spine, fuel: nat)
    requires
        app_spine_fuel(f, sp, fuel) is Some,
    ensures
        spine_applies(f, sp),
        app_spine_fuel(f, sp, app_spine_steps(f, sp)) is Some,
        app_spine_steps(f, sp) <= fuel,
        app_spine_fuel(f, sp, fuel) == Some(app_spine_result(f, sp)),
{
    let p = |n: nat| app_spine_fuel(f, sp, n) is Some;
    lemma_least(p, fuel);
    lemma_app_spine_mono(f, sp, app_spine_steps(f, sp), fuel);
}

pub proof fn lemma_inline_det<D: Compiler>(db: &D, v: Val, fuel: nat)
    requires
        inline_fuel(db, v, fuel) is Some,
    ensures
        inlines(db, v),
        inline_fuel(db, v, inline_steps(db, v)) is Some,
        inline_steps(db, v) <= fuel,
        inline_fuel(db, v, fuel) == Some(inline_result(db, v)),
{
    let p = |n: nat| inline_fuel(db, v, n) is Some;
    lemma_least(p, fuel);
    lemma_inline_mono(db, v, inline_steps(db, v), fuel);
}

/// A value headed by no global definition, with no such definition in a Pi domain or on
/// either side of a function type, is unfolded to itself.
pub proof fn lemma_inline_no_definitions<D: Compiler>(db: &D, v: Val)
    requires
        !(v matches Val::App(Var::Top(_), _)),
        !(v is Pi),
        !(v is Fun),
    ensures
        inlines(db, v),
        inline_result(db, v) == v,
{
    lemma_inline_det(db, v, 0);
}

/// Applies `f` to the arguments of `sp`, the first argument first.
fn app_spine(f: Val, sp: Spine) -> (r: Val)
    requires
        spine_applies(f, sp),
    ensures
        r == app_spine_result(f, sp),
    decreases sp,
{
    let ghost fuel = app_spine_steps(f, sp);
    let ghost fg = f;
    proof {
        let n = choose|n: nat| app_spine_fuel(f, sp, n) is Some;
        lemma_app_spine_det(f, sp, n);
    }
    match sp {
        Spine::Nil => f,
        Spine::Snoc(rest, icit, x) => {
            proof {
                lemma_app_spine_det(fg, *rest, fuel);
                let g = app_spine_result(fg, *rest);
                lemma_app_det(g, icit, *x, fuel);
            }
            let g = app_spine(f, *rest);
            g.app(icit, *x)
        },
    }
}

/// Unfolds the global definitions that head `val`, a Pi domain in it, or either side of a
/// function type in it: such a definition, where its elaboration gives it a term, becomes
/// the value of that term applied to the arguments it had, and is unfolded in turn; a
/// definition without a value stays as it is. Metavariables are not solved yet, and local
/// variables, recursive definitions, constructors and builtins stand for themselves.
pub fn inline<D: Compiler>(val: Val, db: &D) -> (r: Val)
    requires
        inlines(db, val),
    ensures
        r == inline_result(db, val),
    decreases inline_steps(db, val), val_size(val),
{
    let ghost fuel = inline_steps(db, val);
    let ghost vg = val;
    proof {
        let n = choose|n: nat| inline_fuel(db, val, n) is Some;
        lemma_inline_det(db, val, n);
    }
    match val {
        Val::App(h, sp) => match h {
            Var::Top(def) => match db.elaborate_def(def) {
                Ok(info) => {
                    let ghost env = Env::spec_new(Lvl(0));
                    proof {
                        lemma_eval_det(elab_term(info), env, (fuel - 1) as nat);
                    }
                    let dv = evaluate((*info.term).copy(), &Env::new(Lvl::zero()));
                    proof {
                        lemma_app_spine_det(dv, sp, (fuel - 1) as nat);
                    }
                    let u = app_spine(dv, sp);
                    proof {
                        lemma_inline_det(db, u, (fuel - 1) as nat);
                    }
                    inline(u, db)
                },
                Err(_) => Val::App(h, sp),
            },
            _ => Val::App(h, sp),
        },
        Val::Pi(icit, ty, cl) => {
            proof {
                lemma_inline_det(db, *ty, fuel);
            }
            let ty = inline(*ty, db);
            Val::Pi(icit, Box::new(ty), cl)
        },
        Val::Fun(from, to) => {
            proof {
                lemma_inline_det(db, *from, fuel);
                lemma_inline_det(db, *to, fuel);
            }
            let from = inline(*from, db);
            let to = inline(*to, db);
            Val::Fun(Box::new(from), Box::new(to))
        },
        v => v,
    }
}

/// Reads back `val`, seen from inside `enclosing` binders, as a term.
pub fn quote(val: Val, enclosing: Lvl) -> (t: Term)
    requires
        quotes(val, enclosing),
    ensures
        t == quote_result(val, enclosing),
    decreases quote_steps(val, enclosing), 1nat, val_size(val),
{
    let ghost fuel = quote_steps(val, enclosing);
    proof {
        let f = choose|f: nat| quote_fuel(val, enclosing, f) is Some;
        lemma_quote_det(val, enclosing, f);
    }
    match val {
        Val::Type => Term::Type,
        Val::App(h, sp) => {
            let h = match h {
                Var::Local(l) => Term::Var(Var::Local(l.to_ix(enclosing))),
                Var::Top(def) => Term::Var(Var::Top(def)),
                Var::Meta(meta) => Term::Var(Var::Meta(meta)),
                Var::Rec(id) => Term::Var(Var::Rec(id)),
                Var::Cons(id) => Term::Var(Var::Cons(id)),
                Var::Builtin(b) => Term::Var(Var::Builtin(b)),
            };
            proof {
                lemma_spine_det(h, sp, enclosing, fuel);
            }
            quote_spine(h, sp, enclosing)
        },
        Val::Lam(icit, cl) => {
            proof {
                lemma_clos_quote_det(cl, fuel);
            }
            Term::Lam(icit, Box::new(cl.quote()))
        },
        Val::Pi(icit, ty, cl) => {
            proof {
                lemma_quote_det(*ty, enclosing, fuel);
                lemma_clos_quote_det(cl, fuel);
            }
            let ty = quote(*ty, enclosing);
            Term::Pi(icit, Box::new(ty), Box::new(cl.quote()))
        },
        Val::Fun(from, to) => {
            proof {
                lemma_quote_det(*from, enclosing, fuel);
                lemma_quote_det(*to, enclosing, fuel);
            }
            let from = quote(*from, enclosing);
            let to = quote(*to, enclosing);
            Term::Fun(Box::new(from), Box::new(to))
        },
        Val::Lit(l, w) => Term::Lit(l, w),
        Val::Error => Term::Error,
    }
}

/// Applies `head` to the arguments of `sp`, each read back under `enclosing` binders.
fn quote_spine(head: Term, sp: Spine, enclosing: Lvl) -> (t: Term)
    requires
        spine_quotes(head, sp, enclosing),
    ensures
        t == spine_result(head, sp, enclosing),
    decreases spine_steps(head, sp, enclosing), 1nat, spine_size(sp),
{
    let ghost fuel = spine_steps(head, sp, enclosing);
    let ghost hg = head;
    proof {
        let f = choose|f: nat| quote_spine_fuel(head, sp, enclosing, f) is Some;
        lemma_spine_det(head, sp, enclosing, f);
    }
    match sp {
        Spine::Nil => head,
        Spine::Snoc(rest, icit, x) => {
            proof {
                lemma_spine_det(hg, *rest, enclosing, fuel);
                lemma_quote_det(*x, enclosing, fuel);
            }
            let f = quote_spine(head, *rest, enclosing);
            let a = quote(*x, enclosing);
            Term::App(icit, Box::new(f), Box::new(a))
        },
    }
}

} // verus!
