use pika::pattern::{case_coverage, Cov, Names, Pat, TyShape};
use pika::query::{Database, DefId, Interner, Name};
use pika::term::{Builtin, Env, Icit, Ix, Literal, Lvl, Spine, Val, Var, Width};

fn cons(id: u32, args: Vec<Pat>) -> Pat {
    Pat::Cons(DefId(id), Box::new(Val::Type), args)
}

fn or(a: Pat, b: Pat) -> Pat {
    Pat::Or(Box::new(a), Box::new(b))
}

fn lits(c: &Cov) -> Vec<usize> {
    match c {
        Cov::Lit(s) => s.iter().collect(),
        other => panic!("not literals: {:?}", other),
    }
}

#[test]
fn wildcards_and_variables_cover_everything() {
    assert!(matches!(Pat::Any.cov(), Cov::All));
    assert!(matches!(Pat::Var(Name(0), Box::new(Val::Type)).cov(), Cov::All));
}

#[test]
fn both_booleans_cover_all_booleans() {
    assert!(matches!(or(Pat::Bool(true), Pat::Bool(false)).cov(), Cov::All));
    assert!(matches!(or(Pat::Bool(false), Pat::Bool(false)).cov(), Cov::Bool(false)));
    assert!(matches!(Pat::Bool(true).cov(), Cov::Bool(true)));
}

#[test]
fn literals_accumulate() {
    let p = or(Pat::Lit(Literal::Positive(3), Width::W32), Pat::Lit(Literal::Positive(1), Width::W32));
    assert_eq!(lits(&p.cov()), vec![1, 3]);
    let p = or(p, Pat::Lit(Literal::Positive(40), Width::W64));
    assert_eq!(lits(&p.cov()), vec![1, 3, 40]);
    let q = or(Pat::Lit(Literal::Positive(3), Width::W8), Pat::Lit(Literal::Positive(3), Width::W8));
    assert_eq!(lits(&q.cov()), vec![3]);
}

#[test]
fn literal_to_usize_keeps_bits() {
    assert_eq!(Literal::Positive(7).to_usize(), 7);
    assert_eq!(Literal::Negative(-2).to_usize(), usize::MAX - 1);
}

#[test]
fn same_constructor_merges_arguments() {
    let p = or(cons(4, vec![Pat::Bool(true), Pat::Any]), cons(4, vec![Pat::Bool(false), Pat::Bool(true)]));
    match p.cov() {
        Cov::Cons(v) => {
            assert_eq!(v.len(), 1);
            assert_eq!(v[0].0, DefId(4));
            assert_eq!(v[0].1.len(), 2);
            assert!(matches!(v[0].1[0], Cov::All));
            assert!(matches!(v[0].1[1], Cov::All));
        },
        other => panic!("unexpected {:?}", other),
    }
}

#[test]
fn different_constructors_are_kept_in_order() {
    let p = or(or(cons(1, vec![]), cons(2, vec![Pat::Bool(true)])), cons(1, vec![]));
    match p.cov() {
        Cov::Cons(v) => {
            assert_eq!(v.len(), 2);
            assert_eq!(v[0].0, DefId(1));
            assert_eq!(v[1].0, DefId(2));
            assert!(matches!(v[1].1[0], Cov::Bool(true)));
        },
        other => panic!("unexpected {:?}", other),
    }
}

#[test]
fn merging_stops_at_the_shorter_argument_list() {
    let p = or(cons(5, vec![Pat::Bool(true), Pat::Bool(true)]), cons(5, vec![Pat::Bool(true)]));
    match p.cov() {
        Cov::Cons(v) => {
            assert_eq!(v[0].1.len(), 1);
            assert!(matches!(v[0].1[0], Cov::Bool(true)));
        },
        other => panic!("unexpected {:?}", other),
    }
}

#[test]
fn all_absorbs_and_nothing_is_neutral() {
    assert!(matches!(Cov::All.or(Cov::Bool(true)), Cov::All));
    assert!(matches!(Cov::Bool(false).or(Cov::All), Cov::All));
    assert!(matches!(Cov::Nothing.or(Cov::Bool(true)), Cov::Bool(true)));
    assert!(matches!(Cov::Bool(false).or(Cov::Nothing), Cov::Bool(false)));
    assert!(matches!(Cov::Nothing.or(Cov::Nothing), Cov::Nothing));
}

#[test]
fn literal_order_does_not_matter() {
    let a = or(Pat::Lit(Literal::Positive(9), Width::W16), Pat::Lit(Literal::Positive(2), Width::W16));
    let b = or(Pat::Lit(Literal::Positive(2), Width::W16), Pat::Lit(Literal::Positive(9), Width::W16));
    assert_eq!(lits(&a.cov()), lits(&b.cov()));
}

fn cons_val(id: u32, args: Vec<Val>) -> Val {
    let mut sp = Spine::Nil;
    for a in args {
        sp = sp.push(Icit::Expl, a);
    }
    Val::App(Var::Cons(DefId(id)), sp)
}

fn truth(b: bool) -> Val {
    Val::App(Var::Builtin(if b { Builtin::True } else { Builtin::False }), Spine::Nil)
}

#[test]
fn variable_pattern_binds_the_value() {
    let db = Database::new();
    let p = Pat::Var(Name(0), Box::new(Val::Type));
    let env = p.match_with(&Val::Lit(Literal::Positive(5), Width::W32), Env::new(Lvl(2)), &db).unwrap();
    assert_eq!(env.size, Lvl(3));
    assert!(env.val(Ix(0)).same(&Val::Lit(Literal::Positive(5), Width::W32)));
    assert!(env.val(Ix(1)).same(&Val::local(Lvl(1))));
    let env = Pat::Any.match_with(&Val::Type, Env::new(Lvl(2)), &db).unwrap();
    assert_eq!(env.size, Lvl(2));
}

#[test]
fn constructor_pattern_matches_arguments_in_order() {
    let db = Database::new();
    let p = cons(7, vec![Pat::Var(Name(0), Box::new(Val::Type)), Pat::Lit(Literal::Positive(3), Width::W32)]);
    let v = cons_val(7, vec![Val::Type, Val::Lit(Literal::Positive(3), Width::W32)]);
    let env = p.match_with(&v, Env::new(Lvl(0)), &db).unwrap();
    assert_eq!(env.size, Lvl(1));
    assert!(env.val(Ix(0)).same(&Val::Type));
    let w = cons_val(7, vec![Val::Type, Val::Lit(Literal::Positive(4), Width::W32)]);
    assert!(p.match_with(&w, Env::new(Lvl(0)), &db).is_none());
    let other = cons_val(8, vec![Val::Type, Val::Lit(Literal::Positive(3), Width::W32)]);
    assert!(p.match_with(&other, Env::new(Lvl(0)), &db).is_none());
}

#[test]
fn constructor_pattern_with_more_arguments_than_the_value() {
    let db = Database::new();
    let p = cons(1, vec![Pat::Var(Name(0), Box::new(Val::Type)), Pat::Var(Name(1), Box::new(Val::Type))]);
    let v = cons_val(1, vec![Val::Error]);
    let env = p.match_with(&v, Env::new(Lvl(0)), &db).unwrap();
    assert_eq!(env.size, Lvl(1));
    assert!(env.val(Ix(0)).same(&Val::Error));
}

#[test]
fn boolean_and_alternative_patterns() {
    let db = Database::new();
    assert!(Pat::Bool(true).match_with(&truth(true), Env::new(Lvl(0)), &db).is_some());
    assert!(Pat::Bool(true).match_with(&truth(false), Env::new(Lvl(0)), &db).is_none());
    assert!(Pat::Bool(false).match_with(&truth(false), Env::new(Lvl(0)), &db).is_some());
    let p = or(Pat::Bool(false), Pat::Bool(true));
    assert!(p.match_with(&truth(true), Env::new(Lvl(0)), &db).is_some());
    let lits = or(Pat::Lit(Literal::Positive(1), Width::W8), Pat::Lit(Literal::Positive(2), Width::W8));
    assert!(lits.match_with(&Val::Lit(Literal::Positive(2), Width::W8), Env::new(Lvl(0)), &db).is_some());
    assert!(lits.match_with(&Val::Lit(Literal::Positive(3), Width::W8), Env::new(Lvl(0)), &db).is_none());
}

#[test]
fn names_of_nested_constructor_patterns_come_in_order() {
    let p = cons(
        1,
        vec![
            Pat::Var(Name(5), Box::new(Val::Type)),
            Pat::Any,
            cons(2, vec![Pat::Var(Name(6), Box::new(Val::Type)), Pat::Lit(Literal::Positive(1), Width::W8)]),
            or(Pat::Var(Name(9), Box::new(Val::Type)), Pat::Any),
            Pat::Var(Name(7), Box::new(Val::Type)),
        ],
    );
    let mut names = Names::new();
    names.add(Name(1));
    let l = p.add_names(Lvl(3), &mut names);
    assert_eq!(l, Lvl(6));
    assert_eq!(names.names, vec![Name(1), Name(5), Name(6), Name(7)]);
}

#[test]
fn patterns_without_variables_add_no_names() {
    let mut names = Names::new();
    assert_eq!(Pat::Any.add_names(Lvl(2), &mut names), Lvl(2));
    assert_eq!(Pat::Bool(true).add_names(Lvl(2), &mut names), Lvl(2));
    assert_eq!(or(Pat::Var(Name(0), Box::new(Val::Type)), Pat::Any).add_names(Lvl(2), &mut names), Lvl(2));
    assert!(names.names.is_empty());
}

#[test]
fn pattern_variables_become_locals_in_order() {
    let mut db = Database::new();
    let mut cxt = pika::query::Cxt::new(pika::error::FileId(0), &mut db);
    let x = db.intern_name("x".to_string());
    let y = db.intern_name("y".to_string());
    let p = cons(
        1,
        vec![
            Pat::Var(x, Box::new(Val::Type)),
            or(Pat::Var(y, Box::new(Val::Error)), Pat::Any),
            cons(2, vec![Pat::Bool(true), Pat::Var(y, Box::new(Val::Error))]),
        ],
    );
    p.add_locals(&mut cxt, &mut db);
    assert_eq!(cxt.size(&db), Lvl(2));
    let (vx, tx) = cxt.lookup(x, &db).unwrap();
    assert_eq!(vx, Var::Local(Ix(1)));
    assert!(tx.same(&Val::Type));
    let (vy, ty) = cxt.lookup(y, &db).unwrap();
    assert_eq!(vy, Var::Local(Ix(0)));
    assert!(ty.same(&Val::Error));
}

#[test]
fn patterns_without_variables_leave_the_context_alone() {
    let mut db = Database::new();
    let root = pika::query::Cxt::new(pika::error::FileId(0), &mut db);
    let mut cxt = root;
    or(Pat::Bool(true), Pat::Bool(false)).add_locals(&mut cxt, &mut db);
    Pat::Lit(Literal::Positive(3), Width::W8).add_locals(&mut cxt, &mut db);
    assert_eq!(cxt, root);
    assert_eq!(cxt.size(&db), Lvl(0));
}

#[test]
fn a_covering_put_together_with_itself_is_unchanged() {
    let p = or(cons(1, vec![Pat::Bool(true), cons(3, vec![])]), cons(2, vec![Pat::Lit(Literal::Positive(5), Width::W8)]));
    let c = p.cov().or(p.cov());
    match c {
        Cov::Cons(v) => {
            assert_eq!(v.len(), 2);
            assert_eq!(v[0].0, DefId(1));
            assert!(matches!(v[0].1[0], Cov::Bool(true)));
            match &v[0].1[1] {
                Cov::Cons(w) => {
                    assert_eq!(w.len(), 1);
                    assert_eq!(w[0].0, DefId(3));
                },
                other => panic!("unexpected {:?}", other),
            }
            assert_eq!(v[1].0, DefId(2));
            assert_eq!(lits(&v[1].1[0]), vec![5]);
        },
        other => panic!("unexpected {:?}", other),
    }
    assert!(matches!(Cov::Bool(true).or(Cov::Bool(true)), Cov::Bool(true)));
}

#[test]
fn order_does_not_matter_outside_constructor_lists() {
    assert!(matches!(Cov::Bool(true).or(Cov::Bool(false)), Cov::All));
    assert!(matches!(Cov::Bool(false).or(Cov::Bool(true)), Cov::All));
    let c = cons(1, vec![]).cov();
    assert!(matches!(Cov::Nothing.or(cons(1, vec![]).cov()), Cov::Cons(_)));
    assert!(matches!(c.or(Cov::Nothing), Cov::Cons(_)));
}

#[test]
fn constructor_patterns_see_through_definitions() {
    let mut db = Database::new();
    // Definition 3 is constructor 7 applied to `Type`.
    let term = pika::term::Term::App(
        Icit::Expl,
        Box::new(pika::term::Term::Var(Var::Cons(DefId(7)))),
        Box::new(pika::term::Term::Type),
    );
    db.record_elaboration(
        DefId(3),
        Ok(pika::query::ElabInfo {
            term: std::sync::Arc::new(term),
            typ: std::sync::Arc::new(Val::Type),
            solved_globals: std::sync::Arc::new(Vec::new()),
            children: std::sync::Arc::new(Vec::new()),
        }),
    );
    let p = cons(7, vec![Pat::Var(Name(0), Box::new(Val::Type))]);
    let env = p.match_with(&Val::top(DefId(3)), Env::new(Lvl(0)), &db).unwrap();
    assert_eq!(env.size, Lvl(1));
    assert!(env.val(Ix(0)).same(&Val::Type));
    assert!(cons(8, vec![]).match_with(&Val::top(DefId(3)), Env::new(Lvl(0)), &db).is_none());
}

/// A datatype with constructors 1 (no arguments) and 2 (a `Bool`).
fn two_cons() -> TyShape {
    TyShape::Data(vec![(DefId(1), true, vec![]), (DefId(2), true, vec![TyShape::Other])])
}

#[test]
fn simplify_turns_complete_coverings_into_all() {
    let ty = two_cons();
    let full = or(cons(1, vec![]), cons(2, vec![Pat::Any])).cov();
    assert!(matches!(full.simplify(&ty), Cov::All));
    let both_bools = or(cons(1, vec![]), or(cons(2, vec![Pat::Bool(true)]), cons(2, vec![Pat::Bool(false)]))).cov();
    assert!(matches!(both_bools.simplify(&ty), Cov::All));
    let partial = or(cons(1, vec![]), cons(2, vec![Pat::Bool(true)])).cov();
    match partial.simplify(&ty) {
        Cov::Cons(v) => {
            assert_eq!(v.len(), 2);
            assert!(matches!(v[1].1[0], Cov::Bool(true)));
        },
        other => panic!("unexpected {:?}", other),
    }
    assert!(matches!(Cov::Bool(true).simplify(&TyShape::Other), Cov::Bool(true)));
}

#[test]
fn simplify_looks_into_arguments() {
    // Constructor 3 takes a value of the two-constructor type.
    let ty = TyShape::Data(vec![(DefId(3), true, vec![two_cons()])]);
    let p = or(cons(3, vec![cons(1, vec![])]), cons(3, vec![cons(2, vec![Pat::Any])])).cov();
    assert!(matches!(p.simplify(&ty), Cov::All));
    let q = cons(3, vec![cons(1, vec![])]).cov();
    assert!(matches!(q.simplify(&ty), Cov::Cons(_)));
}

#[test]
fn coverings_are_copied_and_compared() {
    let c = or(cons(1, vec![Pat::Lit(Literal::Positive(4), Width::W8)]), cons(2, vec![Pat::Bool(true)])).cov();
    let d = c.copy();
    assert!(c.same(&d));
    assert!(!c.same(&cons(1, vec![Pat::Lit(Literal::Positive(5), Width::W8)]).cov()));
    assert!(Cov::All.same(&Cov::All));
    assert!(!Cov::All.same(&Cov::Nothing));
    assert!(Pat::Lit(Literal::Positive(2), Width::W8).cov().same(&Pat::Lit(Literal::Positive(2), Width::W16).cov()));
}

#[test]
fn case_coverage_finds_redundant_cases_and_exhaustiveness() {
    let ty = two_cons();
    let pats = vec![cons(2, vec![Pat::Bool(true)]), cons(1, vec![]), cons(2, vec![Pat::Bool(true)]), cons(2, vec![Pat::Any]), Pat::Any];
    let (redundant, last) = case_coverage(&pats, &ty);
    assert_eq!(redundant, vec![false, false, true, false, true]);
    assert!(matches!(last, Cov::All));
    let (redundant, last) = case_coverage(&vec![cons(1, vec![])], &ty);
    assert_eq!(redundant, vec![false]);
    assert!(!matches!(last, Cov::All));
}

#[test]
fn patterns_are_written_as_in_the_source() {
    let mut db = Database::new();
    let root = pika::query::Cxt::new(pika::error::FileId(0), &mut db);
    let some = db.intern_name("Some".to_string());
    let x = db.intern_name("x".to_string());
    let pre = db.intern_predef(pika::term::PreDef::Cons(some, Val::Type));
    let d = db.intern_def(pre, root, None);
    let p = or(
        Pat::Cons(d, Box::new(Val::Type), vec![Pat::Var(x, Box::new(Val::Type)), Pat::Bool(false), Pat::Any]),
        Pat::Lit(Literal::Negative(-42), Width::W32),
    );
    let mut names = Names::new();
    assert_eq!(p.pretty(&mut db, &mut names), "Some x False _ | -42");
    assert_eq!(names.names, vec![x]);
    let mut names = Names::new();
    assert_eq!(Pat::Lit(Literal::Positive(1907), Width::W64).pretty(&mut db, &mut names), "1907");
    assert_eq!(Literal::Negative(i64::MIN).pretty(), "-9223372036854775808");
    assert_eq!(Literal::Positive(0).pretty(), "0");
}

#[test]
fn what_is_left_uncovered_is_shown() {
    let mut db = Database::new();
    let root = pika::query::Cxt::new(pika::error::FileId(0), &mut db);
    let nil = db.intern_name("Nil".to_string());
    let cons_name = db.intern_name("Cons".to_string());
    let pn = db.intern_predef(pika::term::PreDef::Cons(nil, Val::Type));
    let pc = db.intern_predef(pika::term::PreDef::Cons(cons_name, Val::Type));
    let dn = db.intern_def(pn, root, None);
    let dc = db.intern_def(pc, root, None);
    let ty = TyShape::Data(vec![(dn, true, vec![]), (dc, true, vec![TyShape::Other, TyShape::Other])]);
    let only_cons_true = Pat::Cons(dc, Box::new(Val::Type), vec![Pat::Bool(true), Pat::Any]).cov();
    assert_eq!(only_cons_true.pretty_rest(&ty, &db), "Cons False <nothing>; Nil");
    let only_nil = Pat::Cons(dn, Box::new(Val::Type), vec![]).cov();
    assert_eq!(only_nil.pretty_rest(&ty, &db), "Cons _ _");
    assert_eq!(Cov::All.pretty_rest(&ty, &db), "<nothing>");
    assert_eq!(Cov::Bool(false).pretty_rest(&TyShape::Other, &db), "True");
    assert_eq!(Cov::Nothing.pretty_rest(&TyShape::Other, &db), "_");
}

#[test]
fn shown_names_do_not_clash_with_names_in_scope() {
    let mut db = Database::new();
    let x = db.intern_name("x".to_string());
    let x1 = db.intern_name("x'".to_string());
    let y = db.intern_name("y".to_string());
    let mut names = Names::new();
    names.add(x);
    names.add(x1);
    let p = or(Pat::Var(x, Box::new(Val::Type)), Pat::Var(y, Box::new(Val::Type)));
    assert_eq!(p.pretty(&mut db, &mut names), "x'' | y");
    assert_eq!(names.names.len(), 4);
    assert_eq!(names.names[2].get(&db), "x''");
    assert_eq!(names.names[3], y);
    // The name shown next is fresh against everything now in scope.
    assert_eq!(Pat::Var(x, Box::new(Val::Type)).pretty(&mut db, &mut names), "x'''");
    let fresh = names.disamb(y, &mut db);
    assert_eq!(fresh.get(&db), "y'");
    let z = db.intern_name("z".to_string());
    assert_eq!(names.disamb(z, &mut db), z);
}

#[test]
fn constructors_that_are_no_candidates_are_simplified_from_their_own_types() {
    // No constructor of the type can build the value; a covering that names constructor 9,
    // of one argument, covers everything there is, and its argument is simplified.
    let ty = TyShape::Data(vec![(DefId(9), false, vec![two_cons()])]);
    let c = cons(9, vec![cons(1, vec![])]).cov();
    assert!(matches!(c.simplify(&ty), Cov::All));
    // With constructor 1 a candidate, the entry for 9 is kept and 1 is left uncovered.
    let ty2 = TyShape::Data(vec![(DefId(1), true, vec![]), (DefId(9), false, vec![two_cons()])]);
    let d = cons(9, vec![or(cons(1, vec![]), cons(2, vec![Pat::Any]))]).cov();
    match d.simplify(&ty2) {
        Cov::Cons(v) => {
            assert_eq!(v.len(), 1);
            assert_eq!(v[0].0, DefId(9));
            assert!(matches!(v[0].1[0], Cov::All));
        },
        other => panic!("unexpected {:?}", other),
    }
}
