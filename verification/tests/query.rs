use pika::error::{Error, FileId, Span};
use pika::query::{Compiler, CompilerExt, Cxt, Database, DefError, DefId, EffStack, ElabInfo};
use pika::query::{Interner, Name, NameInfo, PreDefId, RecSolution};
use pika::term::{Builtin, Icit, Ix, Lvl, Meta, PreDef, Spine, Term, Val, Var};
use std::sync::Arc;

/// Records that each of the first definitions elaborates to `Type`, of type `Type`.
fn record_all(db: &mut Database) {
    for d in 0..16 {
        db.record_elaboration(DefId(d), Ok(type_info()));
    }
}

fn type_info() -> ElabInfo {
    ElabInfo {
        term: Arc::new(Term::Type),
        typ: Arc::new(Val::Type),
        solved_globals: Arc::new(Vec::new()),
        children: Arc::new(Vec::new()),
    }
}

fn name(db: &mut impl Interner, s: &str) -> Name {
    db.intern_name(s.to_string())
}

#[test]
fn interning_a_name_twice_gives_the_same_id() {
    let mut db = Database::new();
    let a = db.intern_name("a".to_string());
    let b = db.intern_name("b".to_string());
    let a2 = db.intern_name("a".to_string());
    assert_eq!(a, a2);
    assert_ne!(a, b);
    assert_eq!(a.get(&db), "a");
    assert_eq!(b.get(&db), "b");
}

#[test]
fn interning_definitions_scopes_and_types() {
    let mut db = Database::new();
    let root = Cxt::new(FileId(0), &mut db);
    let p = db.intern_predef(PreDef::Expr(Term::Type));
    let p2 = db.intern_predef(PreDef::Expr(Term::Type));
    let q = db.intern_predef(PreDef::Expr(Term::Error));
    assert_eq!(p, p2);
    assert_ne!(p, q);
    assert!(db.lookup_intern_predef(q).same(&PreDef::Expr(Term::Error)));
    let d = db.intern_def(p, root, None);
    let d2 = db.intern_def(p, root, None);
    let e = db.intern_def(p, root, Some(EffStack::Nil));
    assert_eq!(d, d2);
    assert_ne!(d, e);
    let (p3, c3, eff3) = db.lookup_intern_def(e);
    assert_eq!(p3, p);
    assert_eq!(c3, root);
    assert!(matches!(eff3, Some(EffStack::Nil)));
    let x = name(&mut db, "x");
    let s = db.intern_scope(vec![(x, d)]);
    let s2 = db.intern_scope(vec![(x, d)]);
    let s3 = db.intern_scope(vec![(x, e)]);
    assert_eq!(s, s2);
    assert_ne!(s, s3);
    assert_eq!(db.lookup_intern_scope(s3), vec![(x, e)]);
    let t = db.intern_type(vec![(x, d), (x, e)]);
    assert_eq!(db.intern_type(vec![(x, d), (x, e)]), t);
    assert_eq!(db.lookup_intern_type(t), vec![(x, d), (x, e)]);
}

#[test]
fn defined_local_is_found_at_index_zero() {
    let mut db = Database::new();
    let root = Cxt::new(FileId(3), &mut db);
    let x = name(&mut db, "x");
    let c = root.define(x, NameInfo::Local(Val::Type), &mut db);
    record_all(&mut db);
    match c.lookup(x, &db) {
        Ok((v, ty)) => {
            assert_eq!(v, Var::Local(Ix(0)));
            assert!(ty.same(&Val::Type));
        },
        Err(e) => panic!("unexpected {:?}", e),
    }
    assert_eq!(c.size(&db), Lvl(1));
    assert_eq!(root.size(&db), Lvl(0));
    assert_eq!(c.file(&db), FileId(3));
    assert_eq!(c.env(&db).size, Lvl(1));
}

#[test]
fn later_locals_shift_earlier_indices_and_shadow() {
    let mut db = Database::new();
    let root = Cxt::new(FileId(0), &mut db);
    let x = name(&mut db, "x");
    let y = name(&mut db, "y");
    let c1 = root.define(x, NameInfo::Local(Val::Type), &mut db);
    let c2 = c1.define(y, NameInfo::Local(Val::Error), &mut db);
    let c3 = c2.define(x, NameInfo::Local(Val::local(Lvl(0))), &mut db);
    record_all(&mut db);
    let (vx, tx) = c2.lookup(x, &db).unwrap();
    assert_eq!(vx, Var::Local(Ix(1)));
    assert!(tx.same(&Val::Type));
    let (vy, ty) = c3.lookup(y, &db).unwrap();
    assert_eq!(vy, Var::Local(Ix(1)));
    assert!(ty.same(&Val::Error));
    let (vx3, tx3) = c3.lookup(x, &db).unwrap();
    assert_eq!(vx3, Var::Local(Ix(0)));
    assert!(tx3.same(&Val::local(Lvl(0))));
    assert_eq!(c3.size(&db), Lvl(3));
}

#[test]
fn other_kinds_of_names() {
    let mut db = Database::new();
    let root = Cxt::new(FileId(0), &mut db);
    let f = name(&mut db, "f");
    let r = name(&mut db, "r");
    let o = name(&mut db, "o");
    let p = db.intern_predef(PreDef::FunDec(f, Some(Val::Type)));
    let d = db.intern_def(p, root, None);
    let c = root.define(f, NameInfo::Def(d), &mut db);
    let c = c.define(r, NameInfo::Rec(PreDefId(7), Val::Error), &mut db);
    let c = c.define(o, NameInfo::Other(Var::Meta(Meta::Type(PreDefId(1))), Val::Type), &mut db);
    assert_eq!(c.size(&db), Lvl(0));
    record_all(&mut db);
    let (vf, tf) = c.lookup(f, &db).unwrap();
    assert_eq!(vf, Var::Top(d));
    assert!(tf.same(&Val::Type));
    let (vr, tr) = c.lookup(r, &db).unwrap();
    assert_eq!(vr, Var::Rec(PreDefId(7)));
    assert!(tr.same(&Val::Error));
    let (vo, _) = c.lookup(o, &db).unwrap();
    assert_eq!(vo, Var::Meta(Meta::Type(PreDefId(1))));
    let missing = Name(1000);
    assert!(matches!(c.lookup(missing, &db), Err(DefError::NoValue)));
}

#[test]
fn recursive_definitions_resolve_once_elaborated() {
    let mut db = Database::new();
    let root = Cxt::new(FileId(0), &mut db);
    let f = name(&mut db, "f");
    let p = db.intern_predef(PreDef::FunDec(f, None));
    let c = root.define(f, NameInfo::Rec(p, Val::Error), &mut db);
    assert_eq!(c.lookup_rec(p, &db), None);
    let d = db.intern_def(p, c, None);
    let c2 = c.define(f, NameInfo::Def(d), &mut db);
    assert_eq!(c2.lookup_rec(p, &db), Some(d));
    assert_eq!(root.lookup_rec(p, &db), None);
}

#[test]
fn identical_context_entries_are_shared() {
    let mut db = Database::new();
    let root = Cxt::new(FileId(0), &mut db);
    let root2 = Cxt::new(FileId(0), &mut db);
    assert_eq!(root, root2);
    let x = name(&mut db, "x");
    let c1 = root.define(x, NameInfo::Local(Val::Type), &mut db);
    let c2 = root.define(x, NameInfo::Local(Val::Type), &mut db);
    let c3 = root.define(x, NameInfo::Local(Val::Error), &mut db);
    assert_eq!(c1, c2);
    assert_ne!(c1, c3);
    assert_ne!(Cxt::new(FileId(1), &mut db), root);
}

#[test]
fn rec_solution_accessors() {
    let s = RecSolution::Defined(PreDefId(2), 5, Span(1, 4), Val::Type);
    assert_eq!(s.id(), PreDefId(2));
    assert_eq!(s.num(), 5);
    assert!(s.val().same(&Val::Type));
    let s = RecSolution::Inferred(PreDefId(3), 9, Span::empty(), Val::Error);
    assert_eq!(s.id(), PreDefId(3));
    assert_eq!(s.num(), 9);
    assert!(s.val().same(&Val::Error));
}

#[test]
fn errors_are_kept_in_order_until_taken() {
    let mut db = Database::new();
    assert_eq!(db.num_errors(), 0);
    db.report_error(Error { file: FileId(0), span: Span(0, 1), message: "first".to_string() });
    db.report_error(Error { file: FileId(0), span: Span(2, 3), message: "second".to_string() });
    assert_eq!(db.num_errors(), 2);
    let errors = db.take_errors();
    assert_eq!(errors.len(), 2);
    assert_eq!(errors[0].message, "first");
    assert_eq!(errors[1].span, Span(2, 3));
    assert_eq!(db.num_errors(), 0);
}

#[test]
fn file_sources_last_set_wins() {
    let mut db = Database::new();
    db.set_file_source(FileId(0), "val x = Type\n".to_string());
    db.set_file_source(FileId(1), "fun id x = x\n".to_string());
    db.set_file_source(FileId(0), "val y = Type\n".to_string());
    assert_eq!(db.file_source(FileId(0)), "val y = Type\n");
    assert_eq!(db.file_source(FileId(1)), "fun id x = x\n");
    db.record_elaboration(DefId(0), Ok(type_info()));
    assert!(matches!(db.def_type(DefId(0)), Ok(t) if t.same(&Val::Type)));
    let info = db.elaborate_def(DefId(0)).unwrap();
    assert!(info.term.same(&Term::Type));
    let _ = Icit::Expl;
}

#[test]
fn block_definitions_see_their_run_and_what_came_before() {
    let mut db = Database::new();
    let root = Cxt::new(FileId(0), &mut db);
    let f = name(&mut db, "f");
    let g = name(&mut db, "g");
    let x = name(&mut db, "x");
    let block = vec![
        PreDef::FunDec(f, Some(Val::Type)),
        PreDef::Fun(g, None, Term::Var(Var::Rec(PreDefId(0)))),
        PreDef::Val(x, None, Term::Type),
        PreDef::Expr(Term::Error),
        PreDef::ValDec(f, Some(Val::Error)),
    ];
    let rv = pika::query::intern_block(block, &mut db, root, None);
    assert_eq!(rv.len(), 5);
    record_all(&mut db);
    let pf = db.intern_predef(PreDef::FunDec(f, Some(Val::Type)));
    let pg = db.intern_predef(PreDef::Fun(g, None, Term::Var(Var::Rec(PreDefId(0)))));
    let cxt_of = |db: &Database, d: DefId| {
        let (_, c, eff) = db.lookup_intern_def(d);
        assert!(eff.is_none());
        c
    };
    // f, first of the run: sees f and g as recursive definitions.
    let (p0, c0, _) = db.lookup_intern_def(rv[0]);
    assert_eq!(p0, pf);
    let (vf, tf) = c0.lookup(f, &db).unwrap();
    assert_eq!(vf, Var::Rec(pf));
    assert!(tf.same(&Val::Type));
    let (vg, tg) = c0.lookup(g, &db).unwrap();
    assert_eq!(vg, Var::Rec(pg));
    assert!(tg.same(&Val::Error));
    assert_eq!(c0.lookup_rec(pf, &db), None);
    // g, second of the run: sees f as the definition it became.
    let c1 = cxt_of(&db, rv[1]);
    assert_eq!(c1.lookup(f, &db).unwrap().0, Var::Top(rv[0]));
    assert_eq!(c1.lookup(g, &db).unwrap().0, Var::Rec(pg));
    assert_eq!(c1.lookup_rec(pf, &db), Some(rv[0]));
    // x: sees both definitions of the run.
    let c2 = cxt_of(&db, rv[2]);
    assert_eq!(c2.lookup(f, &db).unwrap().0, Var::Top(rv[0]));
    assert_eq!(c2.lookup(g, &db).unwrap().0, Var::Top(rv[1]));
    assert!(matches!(c2.lookup(x, &db), Err(DefError::NoValue)));
    // the expression: sees x.
    let c3 = cxt_of(&db, rv[3]);
    assert_eq!(c3.lookup(x, &db).unwrap().0, Var::Top(rv[2]));
    // the last declaration, alone in its run: sees itself as recursive, shadowing the first f.
    let c4 = cxt_of(&db, rv[4]);
    let (v4, t4) = c4.lookup(f, &db).unwrap();
    assert!(matches!(v4, Var::Rec(_)));
    assert!(t4.same(&Val::Error));
    assert_eq!(c4.size(&db), Lvl(0));
    assert_eq!(c4.file(&db), FileId(0));
}

#[test]
fn block_with_effects_keeps_them_on_every_definition() {
    let mut db = Database::new();
    let root = Cxt::new(FileId(0), &mut db);
    let a = name(&mut db, "a");
    let block = vec![PreDef::Impl(None, None, Term::Type), PreDef::Cons(a, Val::Type)];
    let effs = EffStack::Cons(Box::new(Val::Type), Box::new(EffStack::Nil));
    let rv = pika::query::intern_block(block, &mut db, root, Some(effs.copy()));
    assert_eq!(rv.len(), 2);
    for d in &rv {
        let (_, _, eff) = db.lookup_intern_def(*d);
        assert!(eff.unwrap().same(&effs));
    }
    let (_, c1, _) = db.lookup_intern_def(rv[1]);
    assert_eq!(c1, root);
    let empty = pika::query::intern_block(Vec::new(), &mut db, root, None);
    assert!(empty.is_empty());
}

#[test]
fn top_level_reports_a_parse_error_and_defines_nothing() {
    let mut db = Database::new();
    let err = Error { file: FileId(2), span: Span(4, 9), message: "unexpected token".to_string() };
    let defs = pika::query::top_level(&mut db, FileId(2), Err(err));
    assert!(defs.is_empty());
    assert_eq!(db.num_errors(), 1);
    let errors = db.take_errors();
    assert_eq!(errors[0].span, Span(4, 9));
    assert_eq!(errors[0].message, "unexpected token");
}

#[test]
fn top_level_puts_the_file_in_its_root_context() {
    let mut db = Database::new();
    let a = name(&mut db, "a");
    let b = name(&mut db, "b");
    let parsed = vec![PreDef::Val(a, None, Term::Type), PreDef::Val(b, None, Term::Error)];
    let defs = pika::query::top_level(&mut db, FileId(5), Ok(parsed));
    assert_eq!(defs.len(), 2);
    assert_eq!(db.num_errors(), 0);
    let root = Cxt::new(FileId(5), &mut db);
    let (_, c0, eff0) = db.lookup_intern_def(defs[0]);
    assert_eq!(c0, root);
    assert!(eff0.is_none());
    record_all(&mut db);
    let (_, c1, _) = db.lookup_intern_def(defs[1]);
    assert_eq!(c1.lookup(a, &db).unwrap().0, Var::Top(defs[0]));
    assert_eq!(c1.file(&db), FileId(5));
}

#[test]
fn recursive_definitions_after_define() {
    let mut db = Database::new();
    let root = Cxt::new(FileId(0), &mut db);
    let f = name(&mut db, "f");
    let g = name(&mut db, "g");
    let pf = db.intern_predef(PreDef::FunDec(f, Some(Val::Type)));
    let pg = db.intern_predef(PreDef::FunDec(g, None));
    let declared = root.define(f, NameInfo::Rec(pf, Val::Type), &mut db);
    assert_eq!(declared.lookup_rec(pf, &db), None);
    let d = db.intern_def(pf, declared, None);
    let defined = declared.define(f, NameInfo::Def(d), &mut db);
    assert_eq!(defined.lookup_rec(pf, &db), Some(d));
    assert_eq!(defined.lookup_rec(pg, &db), None);
    let x = name(&mut db, "x");
    let local = defined.define(x, NameInfo::Local(Val::Type), &mut db);
    assert_eq!(local.lookup_rec(pf, &db), Some(d));
    assert_eq!(root.lookup_rec(pf, &db), None);
}

#[test]
fn size_counts_locals_and_file_stays() {
    let mut db = Database::new();
    let root = Cxt::new(FileId(7), &mut db);
    let a = name(&mut db, "a");
    let b = name(&mut db, "b");
    let p = db.intern_predef(PreDef::Expr(Term::Type));
    let d = db.intern_def(p, root, None);
    let c1 = root.define(a, NameInfo::Local(Val::Type), &mut db);
    let c2 = c1.define(b, NameInfo::Def(d), &mut db);
    let c3 = c2.define(b, NameInfo::Rec(p, Val::Error), &mut db);
    let c4 = c3.define(a, NameInfo::Local(Val::Error), &mut db);
    assert_eq!(root.size(&db), Lvl(0));
    assert_eq!(c2.size(&db), Lvl(1));
    assert_eq!(c3.size(&db), Lvl(1));
    assert_eq!(c4.size(&db), Lvl(2));
    for c in [root, c1, c2, c3, c4] {
        assert_eq!(c.file(&db), FileId(7));
    }
}

#[test]
fn a_definition_is_found_after_define_once_elaborated() {
    let mut db = Database::new();
    let root = Cxt::new(FileId(0), &mut db);
    let n = name(&mut db, "n");
    let p = db.intern_predef(PreDef::Expr(Term::Type));
    let d = db.intern_def(p, root, None);
    db.record_elaboration(d, Ok(type_info()));
    let c = root.define(n, NameInfo::Def(d), &mut db);
    let (v, ty) = c.lookup(n, &db).unwrap();
    assert_eq!(v, Var::Top(d));
    assert!(ty.same(&Val::Type));
}

#[test]
fn the_root_context_holds_the_builtins() {
    let mut db = Database::new();
    let root = Cxt::new(FileId(1), &mut db);
    record_all(&mut db);
    let find = |db: &mut Database, s: &str| {
        let n = db.intern_name(s.to_string());
        root.lookup(n, db)
    };
    let (v, ty) = find(&mut db, "True").unwrap();
    assert_eq!(v, Var::Builtin(Builtin::True));
    assert!(ty.same(&Val::App(Var::Builtin(Builtin::Bool), Spine::Nil)));
    let (v, ty) = find(&mut db, "False").unwrap();
    assert_eq!(v, Var::Builtin(Builtin::False));
    assert!(ty.same(&Val::App(Var::Builtin(Builtin::Bool), Spine::Nil)));
    for (s, b) in [("I32", Builtin::I32), ("I64", Builtin::I64), ("Bool", Builtin::Bool)] {
        let (v, ty) = find(&mut db, s).unwrap();
        assert_eq!(v, Var::Builtin(b));
        assert!(ty.same(&Val::Type));
    }
    assert!(matches!(find(&mut db, "Int"), Err(DefError::NoValue)));
    assert_eq!(root.size(&db), Lvl(0));
    assert_eq!(root.file(&db), FileId(1));
    // A second root context of the same file is the same context.
    assert_eq!(Cxt::new(FileId(1), &mut db), root);
}
