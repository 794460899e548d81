use pika::elab::{elab_case, elab_pat, elab_pat_app, PreArgs, PrePat, ReasonExpected, TypeError};
use pika::error::{FileId, Span};
use pika::pattern::{data_shape, Cov, Pat, TyShape};
use pika::query::{Cxt, Database, DefId, ElabInfo, Interner, Name, NameInfo};
use pika::term::{Builtin, Env, Icit, Ix, Literal, Lvl, Spine, Term, Val, Var, Width};
use std::sync::Arc;

fn builtin(b: Builtin) -> Val {
    Val::App(Var::Builtin(b), Spine::Nil)
}

fn given() -> ReasonExpected {
    ReasonExpected::Given(Span(0, 1))
}

fn name(db: &mut Database, s: &str) -> Name {
    db.intern_name(s.to_string())
}

/// A type that is a top-level definition.
fn list_ty() -> Val {
    Val::top(DefId(9))
}

#[test]
fn literals_take_the_width_of_the_integer_type() {
    let mut db = Database::new();
    let mut cxt = Cxt::new(FileId(0), &mut db);
    let lit = PrePat::Lit(Span(2, 3), Literal::Positive(7));
    let p = elab_pat(&lit, &builtin(Builtin::I32), given(), &mut cxt, &mut db).unwrap();
    assert_eq!(p, Pat::Lit(Literal::Positive(7), Width::W32));
    let p = elab_pat(&lit, &builtin(Builtin::I64), given(), &mut cxt, &mut db).unwrap();
    assert_eq!(p, Pat::Lit(Literal::Positive(7), Width::W64));
    match elab_pat(&lit, &builtin(Builtin::Bool), given(), &mut cxt, &mut db) {
        Err(TypeError::InvalidPatternBecause(e)) => match *e {
            TypeError::NotIntType(s, ty, r) => {
                assert_eq!(s, Span(2, 3));
                assert!(ty.same(&builtin(Builtin::Bool)));
                assert_eq!(r, given());
            },
            other => panic!("unexpected {:?}", other),
        },
        other => panic!("unexpected {:?}", other),
    }
}

#[test]
fn a_new_name_becomes_a_local_variable() {
    let mut db = Database::new();
    let root = Cxt::new(FileId(0), &mut db);
    let mut cxt = root;
    let x = name(&mut db, "x");
    let p = elab_pat(&PrePat::Var(Span(0, 1), x), &builtin(Builtin::I32), given(), &mut cxt, &mut db).unwrap();
    assert_eq!(p, Pat::Var(x, Box::new(builtin(Builtin::I32))));
    assert_eq!(cxt.size(&db), Lvl(1));
    let (v, ty) = cxt.lookup(x, &db).unwrap();
    assert_eq!(v, Var::Local(Ix(0)));
    assert!(ty.same(&builtin(Builtin::I32)));
    assert_eq!(root.size(&db), Lvl(0));
}

#[test]
fn holes_match_anything_and_bind_nothing() {
    let mut db = Database::new();
    let root = Cxt::new(FileId(0), &mut db);
    let mut cxt = root;
    let p = elab_pat(&PrePat::Hole(Span(0, 1)), &Val::Type, given(), &mut cxt, &mut db).unwrap();
    assert_eq!(p, Pat::Any);
    assert_eq!(cxt, root);
    match elab_pat(&PrePat::Other(Span(4, 9)), &Val::Type, given(), &mut cxt, &mut db) {
        Err(TypeError::InvalidPattern(s)) => assert_eq!(s, Span(4, 9)),
        other => panic!("unexpected {:?}", other),
    }
}

#[test]
fn true_and_false_are_booleans_where_the_type_is_bool() {
    let mut db = Database::new();
    let root = Cxt::new(FileId(0), &mut db);
    let mut cxt = root;
    let t = name(&mut db, "True");
    let f = name(&mut db, "False");
    db.record_unify(builtin(Builtin::Bool), builtin(Builtin::Bool), Lvl(0), false, Ok(true));
    db.record_unify(builtin(Builtin::I32), builtin(Builtin::Bool), Lvl(0), false, Ok(false));
    let p = elab_pat(&PrePat::Var(Span(0, 4), t), &builtin(Builtin::Bool), given(), &mut cxt, &mut db).unwrap();
    assert_eq!(p, Pat::Bool(true));
    let alt = PrePat::OrPat(
        Span(0, 12),
        Box::new(PrePat::Var(Span(0, 4), t)),
        Box::new(PrePat::Var(Span(7, 12), f)),
    );
    let p = elab_pat(&alt, &builtin(Builtin::Bool), given(), &mut cxt, &mut db).unwrap();
    assert_eq!(p, Pat::Or(Box::new(Pat::Bool(true)), Box::new(Pat::Bool(false))));
    assert_eq!(cxt, root);
    match elab_pat(&PrePat::Var(Span(3, 8), f), &builtin(Builtin::I32), given(), &mut cxt, &mut db) {
        Err(TypeError::InvalidPatternBecause(e)) => match *e {
            TypeError::Unify(s, a, b, _) => {
                assert_eq!(s, Span(3, 8));
                assert!(a.same(&builtin(Builtin::Bool)));
                assert!(b.same(&builtin(Builtin::I32)));
            },
            other => panic!("unexpected {:?}", other),
        },
        other => panic!("unexpected {:?}", other),
    }
}

/// Constructor 5, `Just : I32 -> List`, applied as `Just x`.
fn just_x(db: &mut Database, cxt: Cxt) -> (PrePat, Name) {
    let just = name(db, "Just");
    let x = name(db, "x");
    let head = PrePat::Var(Span(0, 4), just);
    let app = PrePat::App(Span(0, 6), Icit::Expl, Box::new(head.copy()), Box::new(PrePat::Var(Span(5, 6), x)));
    let cty = Val::Fun(Box::new(builtin(Builtin::I32)), Box::new(list_ty()));
    db.record_infer(head, cxt, Ok((Term::Var(Var::Cons(DefId(5))), cty.copy())));
    db.record_arity(cty, 1);
    (app, x)
}

#[test]
fn constructor_arguments_are_elaborated_against_its_parameters() {
    let mut db = Database::new();
    let root = Cxt::new(FileId(0), &mut db);
    let mut cxt = root;
    let (app, x) = just_x(&mut db, root);
    db.record_unify(list_ty(), list_ty(), Lvl(0), true, Ok(true));
    let p = elab_pat(&app, &list_ty(), given(), &mut cxt, &mut db).unwrap();
    assert_eq!(p, Pat::Cons(DefId(5), Box::new(list_ty()), vec![Pat::Var(x, Box::new(builtin(Builtin::I32)))]));
    assert_eq!(cxt.size(&db), Lvl(1));
}

#[test]
fn a_constructor_of_another_type_is_refused() {
    let mut db = Database::new();
    let root = Cxt::new(FileId(0), &mut db);
    let mut cxt = root;
    let (app, _) = just_x(&mut db, root);
    db.record_unify(list_ty(), Val::Type, Lvl(0), true, Ok(false));
    match elab_pat(&app, &Val::Type, given(), &mut cxt, &mut db) {
        Err(TypeError::InvalidPatternBecause(e)) => match *e {
            TypeError::Unify(s, a, b, _) => {
                assert_eq!(s, Span(0, 6));
                assert!(a.same(&list_ty()));
                assert!(b.same(&Val::Type));
            },
            other => panic!("unexpected {:?}", other),
        },
        other => panic!("unexpected {:?}", other),
    }
}

#[test]
fn too_many_arguments_are_refused() {
    let mut db = Database::new();
    let root = Cxt::new(FileId(0), &mut db);
    let mut cxt = root;
    let (app, _) = just_x(&mut db, root);
    let y = name(&mut db, "y");
    let app2 = PrePat::App(Span(0, 8), Icit::Expl, Box::new(app), Box::new(PrePat::Var(Span(7, 8), y)));
    match elab_pat(&app2, &list_ty(), given(), &mut cxt, &mut db) {
        Err(TypeError::WrongNumConsArgs(s, arity, given_args)) => {
            assert_eq!(s, Span(0, 8));
            assert_eq!(arity, 1);
            assert_eq!(given_args, 2);
        },
        other => panic!("unexpected {:?}", other),
    }
}

#[test]
fn implicit_parameters_become_unnamed_variables() {
    let mut db = Database::new();
    let root = Cxt::new(FileId(0), &mut db);
    let mut cxt = root;
    let list = name(&mut db, "List");
    let nil = name(&mut db, "Nil");
    // `List.Nil : {a : Type} -> List`
    let head = PrePat::Dot(Span(0, 8), Box::new(PrePat::Var(Span(0, 4), list)), nil, PreArgs::Nil);
    let cty = Val::Pi(
        Icit::Impl,
        Box::new(Val::Type),
        pika::term::Clos(Box::new(Env::new(Lvl(0))), Box::new(Term::Var(Var::Top(DefId(9))))),
    );
    db.record_infer(head.copy(), root, Ok((Term::Var(Var::Cons(DefId(6))), cty.copy())));
    db.record_arity(cty, 0);
    db.record_unify(list_ty(), list_ty(), Lvl(1), true, Ok(true));
    let p = elab_pat_app(&head, Vec::new(), &list_ty(), given(), &mut cxt, &mut db).unwrap();
    let underscore = name(&mut db, "_");
    assert_eq!(p, Pat::Cons(DefId(6), Box::new(list_ty()), vec![Pat::Var(underscore, Box::new(Val::Type))]));
    assert_eq!(cxt.size(&db), Lvl(1));
}

#[test]
fn an_inferred_head_that_is_no_constructor_is_no_pattern() {
    let mut db = Database::new();
    let root = Cxt::new(FileId(0), &mut db);
    let mut cxt = root;
    let f = name(&mut db, "f");
    let x = name(&mut db, "x");
    let head = PrePat::Var(Span(0, 1), f);
    let app = PrePat::App(Span(0, 3), Icit::Expl, Box::new(head.copy()), Box::new(PrePat::Var(Span(2, 3), x)));
    db.record_infer(head, root, Ok((Term::Var(Var::Top(DefId(2))), Val::Type)));
    match elab_pat(&app, &Val::Type, given(), &mut cxt, &mut db) {
        Err(TypeError::InvalidPattern(s)) => assert_eq!(s, Span(0, 3)),
        other => panic!("unexpected {:?}", other),
    }
}

#[test]
fn a_name_bound_to_a_constructor_is_a_constructor_pattern() {
    let mut db = Database::new();
    let root = Cxt::new(FileId(0), &mut db);
    let none = name(&mut db, "None");
    // Definition 0 is the constructor `None : List`.
    let pid = db.intern_predef(pika::term::PreDef::Cons(none, Val::Type));
    let id = db.intern_def(pid, root, None);
    db.record_elaboration(
        id,
        Ok(ElabInfo {
            term: Arc::new(Term::Var(Var::Cons(id))),
            typ: Arc::new(list_ty()),
            solved_globals: Arc::new(Vec::new()),
            children: Arc::new(Vec::new()),
        }),
    );
    let mut cxt = root.define(none, NameInfo::Def(id), &mut db);
    let inner = cxt;
    let pre = PrePat::Var(Span(0, 4), none);
    db.record_infer(pre.copy(), inner, Ok((Term::Var(Var::Cons(id)), list_ty())));
    db.record_arity(list_ty(), 0);
    db.record_unify(list_ty(), list_ty(), Lvl(0), true, Ok(true));
    let p = elab_pat(&pre, &list_ty(), given(), &mut cxt, &mut db).unwrap();
    assert_eq!(p, Pat::Cons(id, Box::new(list_ty()), vec![]));
    assert_eq!(cxt, inner);
}

#[test]
fn exhaustive_cases_give_the_cases_and_the_redundant_ones() {
    let mut db = Database::new();
    let root = Cxt::new(FileId(0), &mut db);
    let mut cxt = root;
    let t = name(&mut db, "True");
    let f = name(&mut db, "False");
    let x = name(&mut db, "x");
    db.record_unify(builtin(Builtin::Bool), builtin(Builtin::Bool), Lvl(0), false, Ok(true));
    let cases = vec![
        (PrePat::Var(Span(0, 4), t), Term::Lit(Literal::Positive(1), Width::W32)),
        (PrePat::Var(Span(10, 11), x), Term::Var(Var::Local(Ix(0)))),
        (PrePat::Var(Span(20, 25), f), Term::Lit(Literal::Positive(0), Width::W32)),
    ];
    let (cs, redundant) =
        elab_case(&cases, &builtin(Builtin::Bool), &TyShape::Other, Span(0, 30), given(), &mut cxt, &mut db).unwrap();
    assert_eq!(cxt, root);
    assert_eq!(redundant, vec![false, false, true]);
    assert_eq!(cs.len(), 3);
    assert_eq!(cs[0].0, Pat::Bool(true));
    assert_eq!(cs[1].0, Pat::Var(x, Box::new(builtin(Builtin::Bool))));
    assert_eq!(cs[2].0, Pat::Bool(false));
    assert_eq!(cs[1].1, Term::Var(Var::Local(Ix(0))));
}

#[test]
fn inexhaustive_cases_say_what_they_cover() {
    let mut db = Database::new();
    let root = Cxt::new(FileId(0), &mut db);
    let mut cxt = root;
    let t = name(&mut db, "True");
    db.record_unify(builtin(Builtin::Bool), builtin(Builtin::Bool), Lvl(0), false, Ok(true));
    let cases = vec![(PrePat::Var(Span(0, 4), t), Term::Type)];
    match elab_case(&cases, &builtin(Builtin::Bool), &TyShape::Other, Span(3, 9), given(), &mut cxt, &mut db) {
        Err(TypeError::Inexhaustive(s, cov, ty)) => {
            assert_eq!(s, Span(3, 9));
            assert!(matches!(cov, Cov::Bool(true)));
            assert!(ty.same(&builtin(Builtin::Bool)));
        },
        other => panic!("unexpected {:?}", other),
    }
    assert_eq!(cxt, root);
}

#[test]
fn an_error_in_a_pattern_stops_the_cases() {
    let mut db = Database::new();
    let root = Cxt::new(FileId(0), &mut db);
    let mut cxt = root;
    let cases = vec![(PrePat::Hole(Span(0, 1)), Term::Type), (PrePat::Other(Span(5, 6)), Term::Type)];
    match elab_case(&cases, &Val::Type, &TyShape::Other, Span(0, 9), given(), &mut cxt, &mut db) {
        Err(TypeError::InvalidPattern(s)) => assert_eq!(s, Span(5, 6)),
        other => panic!("unexpected {:?}", other),
    }
    assert_eq!(cxt, root);
}

#[test]
fn patterns_and_coverings_clone() {
    let p = Pat::Cons(DefId(1), Box::new(Val::Type), vec![Pat::Bool(true), Pat::Any]);
    assert_eq!(p.clone(), p);
    let c = Pat::Or(Box::new(Pat::Bool(true)), Box::new(Pat::Bool(false))).cov();
    assert!(c.clone().same(&c));
}

#[test]
fn a_shape_lists_the_constructors_of_a_namespace() {
    let mut db = Database::new();
    let root = Cxt::new(FileId(0), &mut db);
    let a = name(&mut db, "A");
    let b = name(&mut db, "B");
    let pa = db.intern_predef(pika::term::PreDef::Cons(a, Val::Type));
    let pb = db.intern_predef(pika::term::PreDef::Cons(b, Val::Type));
    let ida = db.intern_def(pa, root, None);
    let idb = db.intern_def(pb, root, None);
    let info = |t: Term| {
        Ok(ElabInfo {
            term: Arc::new(t),
            typ: Arc::new(Val::Type),
            solved_globals: Arc::new(Vec::new()),
            children: Arc::new(Vec::new()),
        })
    };
    db.record_elaboration(ida, info(Term::Var(Var::Cons(ida))));
    // `B` is no constructor: its term is something else.
    db.record_elaboration(idb, info(Term::Type));
    let scope = db.intern_scope(vec![(a, ida), (b, idb)]);
    match data_shape(scope, &vec![true, false], vec![vec![TyShape::Other], vec![]], &db) {
        TyShape::Data(v) => {
            assert_eq!(v.len(), 1);
            assert_eq!(v[0].0, ida);
            assert!(v[0].1);
            assert_eq!(v[0].2.len(), 1);
        },
        other => panic!("unexpected {:?}", other),
    }
}

#[test]
fn elaboration_and_add_locals_build_the_same_context() {
    let mut db = Database::new();
    let root = Cxt::new(FileId(0), &mut db);
    let mut cxt = root;
    let (app, _) = just_x(&mut db, root);
    db.record_unify(list_ty(), list_ty(), Lvl(0), true, Ok(true));
    let p = elab_pat(&app, &list_ty(), given(), &mut cxt, &mut db).unwrap();
    let mut again = root;
    p.add_locals(&mut again, &mut db);
    assert_eq!(again, cxt);
}
