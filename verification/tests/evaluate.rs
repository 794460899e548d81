use pika::evaluate::{evaluate, quote};
use pika::error::FileId;
use pika::query::{Compiler, Cxt, Database, DefError, DefId, Interner, NameInfo, PreDefId};
use pika::term::{Builtin, Clos, Env, Icit, Ix, Literal, Lvl, Meta, PreDef, Spine, Term, Val, Var, Width};

fn var(i: u32) -> Term {
    Term::Var(Var::Local(Ix(i)))
}

fn lam(b: Term) -> Term {
    Term::Lam(Icit::Expl, Box::new(b))
}

fn app(f: Term, x: Term) -> Term {
    Term::App(Icit::Expl, Box::new(f), Box::new(x))
}

#[test]
fn identity_applied_to_type_is_type() {
    let t = app(lam(var(0)), Term::Type);
    let v = evaluate(t, &Env::new(Lvl(0)));
    assert!(v.same(&Val::Type));
    assert!(quote(v, Lvl(0)).same(&Term::Type));
}

#[test]
fn constant_function_keeps_first_argument() {
    // (\x. \y. x) a b, with a and b free at levels 0 and 1
    let k = lam(lam(var(1)));
    let t = app(app(k, var(1)), var(0));
    let v = evaluate(t, &Env::new(Lvl(2)));
    assert!(v.same(&Val::local(Lvl(0))));
    assert!(quote(v, Lvl(2)).same(&var(1)));
}

#[test]
fn normal_forms_read_back_unchanged() {
    let terms = vec![
        lam(var(0)),
        lam(lam(app(var(1), var(0)))),
        Term::Pi(Icit::Impl, Box::new(Term::Type), Box::new(Term::Fun(Box::new(var(0)), Box::new(var(0))))),
        app(app(var(2), Term::Type), lam(var(3))),
        Term::Var(Var::Top(DefId(4))),
        Term::Error,
    ];
    for t in terms {
        let v = evaluate(t.copy(), &Env::new(Lvl(3)));
        let back = quote(v, Lvl(3));
        assert!(back.same(&t), "{:?} read back as {:?}", t, back);
    }
}

#[test]
fn redexes_are_reduced() {
    // (\f. f Type) (\x. x)  ~>  Type
    let t = app(lam(app(var(0), Term::Type)), lam(var(0)));
    let v = evaluate(t, &Env::new(Lvl(0)));
    assert!(quote(v, Lvl(0)).same(&Term::Type));
    // \y. (\x. x) y  ~>  \y. y
    let t = lam(app(lam(var(0)), var(0)));
    let v = evaluate(t, &Env::new(Lvl(0)));
    assert!(quote(v, Lvl(0)).same(&lam(var(0))));
}

#[test]
fn application_of_neutral_extends_spine() {
    let f = Val::local(Lvl(0));
    let r = f.app(Icit::Impl, Val::Type);
    let expected = Val::App(Var::Local(Lvl(0)), Spine::Nil.push(Icit::Impl, Val::Type));
    assert!(r.same(&expected));
    assert!(quote(r, Lvl(1)).same(&Term::App(Icit::Impl, Box::new(var(0)), Box::new(Term::Type))));
}

#[test]
fn application_of_error_is_error() {
    assert!(Val::Error.app(Icit::Expl, Val::Type).same(&Val::Error));
    let v = evaluate(app(Term::Error, Term::Type), &Env::new(Lvl(0)));
    assert!(v.same(&Val::Error));
}

#[test]
fn closure_application_binds_argument() {
    let cl = Clos(Box::new(Env::new(Lvl(1))), Box::new(app(var(1), var(0))));
    let r = cl.apply(Val::Type);
    let expected = Val::local(Lvl(0)).app(Icit::Expl, Val::Type);
    assert!(r.same(&expected));
}

#[test]
fn closure_reads_back_under_one_more_binder() {
    let cl = Clos(Box::new(Env::new(Lvl(1))), Box::new(app(var(1), var(0))));
    assert!(cl.quote().same(&app(var(1), var(0))));
}

#[test]
fn environment_values_and_variables() {
    let mut env = Env::new(Lvl(1));
    env.push(Some(Val::Type));
    env.push(None);
    assert_eq!(env.size, Lvl(3));
    assert!(env.val(Ix(0)).same(&Val::local(Lvl(2))));
    assert!(env.val(Ix(1)).same(&Val::Type));
    assert!(env.val(Ix(2)).same(&Val::local(Lvl(0))));
}

#[test]
fn index_level_conversions() {
    assert_eq!(Lvl(1).to_ix(Lvl(3)), Ix(1));
    assert_eq!(Lvl(2).to_ix(Lvl(3)), Ix(0));
    assert_eq!(Ix(0).to_lvl(Lvl(3)), Lvl(2));
    assert_eq!(Ix(2).to_lvl(Lvl(3)), Lvl(0));
    assert_eq!(Ix(1).to_lvl(Lvl(5)).to_ix(Lvl(5)), Ix(1));
    assert_eq!(Lvl::zero().inc(), Lvl(1));
    assert_eq!(Ix::zero().inc(), Ix(1));
}

#[test]
fn inline_keeps_values_without_definitions() {
    let db = Database::new();
    let v = Val::Pi(
        Icit::Expl,
        Box::new(Val::meta(Meta::Type(PreDefId(0)))),
        Clos(Box::new(Env::new(Lvl(0))), Box::new(Term::Type)),
    );
    let r = pika::evaluate::inline(v.copy(), &db);
    assert!(r.same(&v));
    let f = Val::Fun(Box::new(Val::local(Lvl(0))), Box::new(Val::rec(PreDefId(1))));
    assert!(pika::evaluate::inline(f.copy(), &db).same(&f));
}

#[test]
fn lookup_of_definition_reports_failed_elaboration() {
    let mut db = Database::new();
    let root = Cxt::new(FileId(0), &mut db);
    let x = db.intern_name("x".to_string());
    let pre = db.intern_predef(PreDef::Expr(Term::Type));
    let def = db.intern_def(pre, root, None);
    let c = root.define(x, NameInfo::Def(def), &mut db);
    db.record_elaboration(def, Err(DefError::ElabError(def)));
    assert!(matches!(db.def_type(def), Err(DefError::ElabError(d)) if d == def));
    match c.lookup(x, &db) {
        Err(DefError::ElabError(d)) => assert_eq!(d, def),
        other => panic!("unexpected {:?}", other),
    }
    let y = db.intern_name("y".to_string());
    assert!(matches!(c.lookup(y, &db), Err(DefError::NoValue)));
}

#[test]
fn literals_constructors_and_builtins_evaluate_to_themselves() {
    let terms = vec![
        Term::Lit(Literal::Negative(-4), Width::W64),
        app(Term::Var(Var::Cons(DefId(3))), Term::Lit(Literal::Positive(1), Width::W32)),
        Term::Var(Var::Builtin(Builtin::I32)),
    ];
    for t in terms {
        let v = evaluate(t.copy(), &Env::new(Lvl(0)));
        assert!(quote(v, Lvl(0)).same(&t));
    }
    let v = evaluate(Term::Lit(Literal::Positive(9), Width::W8), &Env::new(Lvl(0)));
    assert!(v.same(&Val::Lit(Literal::Positive(9), Width::W8)));
}

fn elab(term: Term) -> pika::query::ElabInfo {
    pika::query::ElabInfo {
        term: std::sync::Arc::new(term),
        typ: std::sync::Arc::new(Val::Type),
        solved_globals: std::sync::Arc::new(Vec::new()),
        children: std::sync::Arc::new(Vec::new()),
    }
}

#[test]
fn inline_unfolds_definitions_applied_to_their_arguments() {
    let mut db = Database::new();
    // d0 is the identity function, d1 stands for d0, d2 has no value.
    db.record_elaboration(DefId(0), Ok(elab(lam(var(0)))));
    db.record_elaboration(DefId(1), Ok(elab(Term::Var(Var::Top(DefId(0))))));
    db.record_elaboration(DefId(2), Err(DefError::NoValue));
    let applied = Val::App(Var::Top(DefId(1)), Spine::Nil.push(Icit::Expl, Val::Lit(Literal::Positive(3), Width::W8)));
    let r = pika::evaluate::inline(applied, &db);
    assert!(r.same(&Val::Lit(Literal::Positive(3), Width::W8)));
    let fun = Val::Fun(Box::new(Val::top(DefId(1))), Box::new(Val::top(DefId(2))));
    match pika::evaluate::inline(fun, &db) {
        Val::Fun(a, b) => {
            assert!(matches!(*a, Val::Lam(Icit::Expl, _)));
            assert!(b.same(&Val::top(DefId(2))));
        },
        other => panic!("unexpected {:?}", other),
    }
}
