//! Elaborating patterns: turning a pattern as it is written into a `Pat`, with the help of
//! the elaborator's answers on inferring a pattern's head, unifying types and counting
//! a type's parameters (`PatElab`).

use crate::error::Span;
use crate::pattern::{
    case_coverage, cases_cov, cov_or, cov_view, lemma_local_entries_append, local_entries, pat_cov, pat_locals,
    pats_cov, pats_locals, simplify_spec, Cov, CovV, Pat, TyShape,
};
use crate::evaluate::{apply_result, clos_applies};
use crate::query::{
    chain, cxt_entry_wf, cxt_size, cxts_linked, defined_entry, interns, lemma_chain_define, resolve, tables_wf,
    unique, Binding, Compiler, Cxt, DefError, DefId, ElabInfo,
    InternTables, Interner, MaybeEntry, Name, NameInfo,
};
use crate::term::{Builtin, Icit, Literal, Lvl, Spine, Term, VTy, Val, Var, Width};
use vstd::prelude::*;

verus! {

/// A pattern as it is written, each part with its place in the source.
#[derive(PartialEq, Eq, Hash, Debug)]
pub enum PrePat {
    /// An integer literal.
    Lit(Span, Literal),
    /// A name: a constructor, `True` or `False`, or a new variable.
    Var(Span, Name),
    /// `_`.
    Hole(Span),
    /// An application, of a function to an argument.
    App(Span, Icit, Box<PrePat>, Box<PrePat>),
    /// A member of a datatype's namespace (`T.C`), applied to arguments.
    Dot(Span, Box<PrePat>, Name, PreArgs),
    /// Alternatives.
    OrPat(Span, Box<PrePat>, Box<PrePat>),
    /// Anything else, which is no pattern.
    Other(Span),
}

/// The arguments of a pattern, the first first.
#[derive(PartialEq, Eq, Hash, Debug)]
pub enum PreArgs {
    Nil,
    Cons(Icit, Box<PrePat>, Box<PreArgs>),
}

/// Why a type is expected where it is.
#[derive(Copy, Clone, PartialEq, Eq, Structural, Hash, Debug)]
pub enum ReasonExpected {
    /// It was given, here.
    Given(Span),
    /// It is that of an earlier branch, here, which this one must match.
    MustMatch(Span),
}

/// An error found while elaborating.
#[derive(Debug)]
pub enum TypeError {
    /// This is not a pattern.
    InvalidPattern(Span),
    /// This is not a valid pattern, for the reason given.
    InvalidPatternBecause(Box<TypeError>),
    /// A literal stands where a value of this type, which is no integer type, is expected.
    NotIntType(Span, VTy, ReasonExpected),
    /// A value of the first type stands where one of the second is expected.
    Unify(Span, VTy, VTy, ReasonExpected),
    /// A constructor of this many explicit parameters is given that many arguments.
    WrongNumConsArgs(Span, usize, usize),
    /// The cases of a `case` expression on a value of this type leave what the covering
    /// does not cover.
    Inexhaustive(Span, Cov, VTy),
}

impl PrePat {
    pub open spec fn spec_span(&self) -> Span {
        match self {
            PrePat::Lit(s, _) => *s,
            PrePat::Var(s, _) => *s,
            PrePat::Hole(s) => *s,
            PrePat::App(s, _, _, _) => *s,
            PrePat::Dot(s, _, _, _) => *s,
            PrePat::OrPat(s, _, _) => *s,
            PrePat::Other(s) => *s,
        }
    }

    /// Where the pattern stands in the source.
    #[verifier::when_used_as_spec(spec_span)]
    pub fn span(&self) -> (s: Span)
        ensures
            s == self.spec_span(),
    {
        match self {
            PrePat::Lit(s, _) => *s,
            PrePat::Var(s, _) => *s,
            PrePat::Hole(s) => *s,
            PrePat::App(s, _, _, _) => *s,
            PrePat::Dot(s, _, _, _) => *s,
            PrePat::OrPat(s, _, _) => *s,
            PrePat::Other(s) => *s,
        }
    }

    pub fn copy(&self) -> (r: PrePat)
        ensures
            r == *self,
        decreases self,
    {
        match self {
            PrePat::Lit(s, l) => PrePat::Lit(*s, *l),
            PrePat::Var(s, n) => PrePat::Var(*s, *n),
            PrePat::Hole(s) => PrePat::Hole(*s),
            PrePat::App(s, i, f, x) => PrePat::App(*s, *i, Box::new(f.copy()), Box::new(x.copy())),
            PrePat::Dot(s, h, m, sp) => PrePat::Dot(*s, Box::new(h.copy()), *m, sp.copy()),
            PrePat::OrPat(s, x, y) => PrePat::OrPat(*s, Box::new(x.copy()), Box::new(y.copy())),
            PrePat::Other(s) => PrePat::Other(*s),
        }
    }

    pub fn same(&self, other: &PrePat) -> (r: bool)
        ensures
            r == (*self == *other),
        decreases self,
    {
        match (self, other) {
            (PrePat::Lit(s, l), PrePat::Lit(s2, l2)) => *s == *s2 && *l == *l2,
            (PrePat::Var(s, n), PrePat::Var(s2, n2)) => *s == *s2 && *n == *n2,
            (PrePat::Hole(s), PrePat::Hole(s2)) => *s == *s2,
            (PrePat::App(s, i, f, x), PrePat::App(s2, i2, f2, x2)) => *s == *s2 && *i == *i2 && f.same(f2)
                && x.same(x2),
            (PrePat::Dot(s, h, m, sp), PrePat::Dot(s2, h2, m2, sp2)) => *s == *s2 && *m == *m2 && h.same(h2)
                && sp.same(sp2),
            (PrePat::OrPat(s, x, y), PrePat::OrPat(s2, x2, y2)) => *s == *s2 && x.same(x2) && y.same(y2),
            (PrePat::Other(s), PrePat::Other(s2)) => *s == *s2,
            _ => false,
        }
    }
}

impl PreArgs {
    pub fn copy(&self) -> (r: PreArgs)
        ensures
            r == *self,
        decreases self,
    {
        match self {
            PreArgs::Nil => PreArgs::Nil,
            PreArgs::Cons(i, p, rest) => PreArgs::Cons(*i, Box::new(p.copy()), Box::new(rest.copy())),
        }
    }

    pub fn same(&self, other: &PreArgs) -> (r: bool)
        ensures
            r == (*self == *other),
        decreases self,
    {
        match (self, other) {
            (PreArgs::Nil, PreArgs::Nil) => true,
            (PreArgs::Cons(i, p, rest), PreArgs::Cons(i2, p2, rest2)) => *i == *i2 && p.same(p2) && rest.same(
                rest2,
            ),
            _ => false,
        }
    }
}

impl TypeError {
    pub fn copy(&self) -> (r: TypeError)
        ensures
            type_error_view(r) == type_error_view(*self),
        decreases self,
    {
        match self {
            TypeError::InvalidPattern(s) => TypeError::InvalidPattern(*s),
            TypeError::InvalidPatternBecause(e) => TypeError::InvalidPatternBecause(Box::new(e.copy())),
            TypeError::NotIntType(s, t, r) => TypeError::NotIntType(*s, t.copy(), *r),
            TypeError::Unify(s, a, b, r) => TypeError::Unify(*s, a.copy(), b.copy(), *r),
            TypeError::WrongNumConsArgs(s, a, b) => TypeError::WrongNumConsArgs(*s, *a, *b),
            TypeError::Inexhaustive(s, c, t) => TypeError::Inexhaustive(*s, c.copy(), t.copy()),
        }
    }
}

/// What a result says, its error taken by what it says.
pub open spec fn res_view<T>(r: Result<T, TypeError>) -> Result<T, TypeErrorV> {
    match r {
        Ok(a) => Ok(a),
        Err(e) => Err(type_error_view(e)),
    }
}

/// The elaborator's answers that elaborating a pattern asks for. They are read from what
/// the implementation holds besides its interning tables (its store), so interning leaves
/// them as they are.
pub trait PatElab: Compiler {
    /// The term (with its top-level definitions unfolded) and the type inferred for `head`,
    /// the head of a constructor pattern, in context `c`; where known.
    spec fn infer_answer(store: Self::Store, head: PrePat, c: Cxt) -> Option<Result<(Term, VTy), TypeErrorV>>;

    /// Whether a value of type `a` can stand where one of type `b` is expected, `l` variables
    /// in scope (`local` where the unification is local to a pattern, for constructors
    /// of other datatypes and indexed types); where known.
    spec fn unify_answer(store: Self::Store, a: VTy, b: VTy, l: Lvl, local: bool) -> Option<Result<bool, TypeErrorV>>;

    /// The number of explicit parameters of type `ty`; where known.
    spec fn arity_answer(store: Self::Store, ty: VTy) -> Option<usize>;

    /// The elaboration of `d`, as `Compiler::elaborate_def` gives it.
    spec fn elab_answer(store: Self::Store, d: DefId) -> Option<Result<ElabInfo, DefError>>;

    proof fn lemma_elab_answer(&self)
        ensures
            forall|d: DefId| #[trigger] self.spec_elaborate_def(d) == Self::elab_answer(self.store(), d),
    ;

    fn infer_head(&self, head: &PrePat, c: Cxt) -> (r: Result<(Term, VTy), TypeError>)
        requires
            Self::infer_answer(self.store(), *head, c) is Some,
        ensures
            res_view(r) == Self::infer_answer(self.store(), *head, c)->Some_0,
    ;

    fn unify(&self, a: &VTy, b: &VTy, l: Lvl, local: bool) -> (r: Result<bool, TypeError>)
        requires
            Self::unify_answer(self.store(), *a, *b, l, local) is Some,
        ensures
            res_view(r) == Self::unify_answer(self.store(), *a, *b, l, local)->Some_0,
    ;

    fn arity(&self, ty: &VTy) -> (n: usize)
        requires
            Self::arity_answer(self.store(), *ty) is Some,
        ensures
            Some(n) == Self::arity_answer(self.store(), *ty),
    ;
}

/// What an error says, with the covering of an `Inexhaustive` error taken by its content.
pub enum TypeErrorV {
    InvalidPattern(Span),
    InvalidPatternBecause(Box<TypeErrorV>),
    NotIntType(Span, VTy, ReasonExpected),
    Unify(Span, VTy, VTy, ReasonExpected),
    WrongNumConsArgs(Span, usize, usize),
    Inexhaustive(Span, CovV, VTy),
}

/// What error `e` says.
pub open spec fn type_error_view(e: TypeError) -> TypeErrorV
    decreases e,
{
    match e {
        TypeError::InvalidPattern(s) => TypeErrorV::InvalidPattern(s),
        TypeError::InvalidPatternBecause(b) => TypeErrorV::InvalidPatternBecause(
            Box::new(type_error_view(*b)),
        ),
        TypeError::NotIntType(s, t, r) => TypeErrorV::NotIntType(s, t, r),
        TypeError::Unify(s, a, b, r) => TypeErrorV::Unify(s, a, b, r),
        TypeError::WrongNumConsArgs(s, a, b) => TypeErrorV::WrongNumConsArgs(s, a, b),
        TypeError::Inexhaustive(s, c, t) => TypeErrorV::Inexhaustive(s, cov_view(c), t),
    }
}

/// A pattern, its constructor arguments taken as a sequence.
pub enum PatV {
    Any,
    Var(Name, VTy),
    Cons(DefId, VTy, Seq<PatV>),
    Or(Box<PatV>, Box<PatV>),
    Lit(Literal, Width),
    Bool(bool),
}

/// What pattern `p` says.
pub open spec fn pat_view(p: Pat) -> PatV
    decreases p,
{
    match p {
        Pat::Any => PatV::Any,
        Pat::Var(n, ty) => PatV::Var(n, *ty),
        Pat::Cons(id, ty, ps) => PatV::Cons(id, *ty, pats_view(ps@)),
        Pat::Or(x, y) => PatV::Or(Box::new(pat_view(*x)), Box::new(pat_view(*y))),
        Pat::Lit(l, w) => PatV::Lit(l, w),
        Pat::Bool(b) => PatV::Bool(b),
    }
}

/// What each of the patterns `s` says.
pub open spec fn pats_view(s: Seq<Pat>) -> Seq<PatV>
    decreases s,
{
    if s.len() == 0 {
        Seq::empty()
    } else {
        pats_view(s.subrange(0, s.len() - 1)).push(pat_view(s[s.len() - 1]))
    }
}

impl Clone for Pat {
    /// A pattern saying the same.
    fn clone(&self) -> (r: Pat)
        ensures
            pat_view(r) == pat_view(*self),
        decreases self,
    {
        match self {
            Pat::Any => Pat::Any,
            Pat::Var(n, ty) => Pat::Var(*n, Box::new(ty.copy())),
            Pat::Cons(id, ty, v) => {
                let mut out: Vec<Pat> = Vec::new();
                let mut i: usize = 0;
                proof {
                    assert(v@.subrange(0, 0) =~= Seq::<Pat>::empty());
                }
                while i < v.len()
                    invariant
                        *self == Pat::Cons(*id, *ty, *v),
                        i <= v@.len(),
                        pats_view(out@) == pats_view(v@.subrange(0, i as int)),
                    decreases v@.len() - i,
                {
                    proof {
                        assert(decreases_to!(*self => (*self)->Cons_2));
                        assert(decreases_to!(*v => v@));
                        assert(decreases_to!(v@ => v@[i as int]));
                        assert(decreases_to!(*self => v@[i as int]));
                    }
                    let p = v[i].clone();
                    proof {
                        lemma_pats_view_push(out@, p);
                        lemma_pats_view_push(v@.subrange(0, i as int), v@[i as int]);
                        assert(v@.subrange(0, i + 1) =~= v@.subrange(0, i as int).push(v@[i as int]));
                    }
                    out.push(p);
                    i += 1;
                }
                proof {
                    assert(v@.subrange(0, v@.len() as int) =~= v@);
                }
                Pat::Cons(*id, Box::new(ty.copy()), out)
            },
            Pat::Or(x, y) => Pat::Or(Box::new((**x).clone()), Box::new((**y).clone())),
            Pat::Lit(l, w) => Pat::Lit(*l, *w),
            Pat::Bool(b) => Pat::Bool(*b),
        }
    }
}

impl Clone for Cov {
    /// A covering saying the same.
    fn clone(&self) -> (r: Cov)
        ensures
            cov_view(r) == cov_view(*self),
    {
        self.copy()
    }
}

/// What an elaboration result says.
pub open spec fn pat_res_view(r: Result<Pat, TypeError>) -> Result<PatV, TypeErrorV> {
    match r {
        Ok(p) => Ok(pat_view(p)),
        Err(e) => Err(type_error_view(e)),
    }
}

// Sizes, for the recursion of elaboration.
pub open spec fn prepat_size(p: PrePat) -> nat
    decreases p,
{
    match p {
        PrePat::App(_, _, f, x) => 1 + prepat_size(*f) + prepat_size(*x),
        PrePat::Dot(_, h, _, a) => 1 + prepat_size(*h) + args_size(a),
        PrePat::OrPat(_, x, y) => 1 + prepat_size(*x) + prepat_size(*y),
        _ => 1,
    }
}

pub open spec fn args_size(a: PreArgs) -> nat
    decreases a,
{
    match a {
        PreArgs::Nil => 0,
        PreArgs::Cons(_, p, rest) => 1 + prepat_size(*p) + args_size(*rest),
    }
}

/// The arguments `a`, in order.
pub open spec fn args_seq(a: PreArgs) -> Seq<(Icit, PrePat)>
    decreases a,
{
    match a {
        PreArgs::Nil => Seq::empty(),
        PreArgs::Cons(i, p, rest) => seq![(i, *p)] + args_seq(*rest),
    }
}

/// The size of the arguments of a spine.
pub open spec fn spine_size(s: Seq<(Icit, PrePat)>) -> nat
    decreases s.len(),
{
    if s.len() == 0 {
        0
    } else {
        1 + prepat_size(s[0].1) + spine_size(s.subrange(1, s.len() as int))
    }
}

/// The head and the arguments of an application, the first argument first.
pub open spec fn sep(p: PrePat) -> (PrePat, Seq<(Icit, PrePat)>)
    decreases p,
{
    match p {
        PrePat::App(_, i, f, x) => {
            let r = sep(*f);
            (r.0, r.1.push((i, *x)))
        },
        _ => (p, Seq::empty()),
    }
}

pub proof fn lemma_spine_size_push(s: Seq<(Icit, PrePat)>, e: (Icit, PrePat))
    ensures
        spine_size(s.push(e)) == spine_size(s) + 1 + prepat_size(e.1),
    decreases s.len(),
{
    let t = s.push(e);
    assert(t[0] == if s.len() == 0 { e } else { s[0] });
    if s.len() > 0 {
        assert(t.subrange(1, t.len() as int) =~= s.subrange(1, s.len() as int).push(e));
        lemma_spine_size_push(s.subrange(1, s.len() as int), e);
        assert(spine_size(t) == 1 + prepat_size(t[0].1) + spine_size(t.subrange(1, t.len() as int)));
        assert(spine_size(s) == 1 + prepat_size(s[0].1) + spine_size(s.subrange(1, s.len() as int)));
    } else {
        assert(t.subrange(1, t.len() as int) =~= Seq::<(Icit, PrePat)>::empty());
        assert(spine_size(t) == 1 + prepat_size(t[0].1) + spine_size(t.subrange(1, t.len() as int)));
    }
}

pub proof fn lemma_sep_size(p: PrePat)
    ensures
        spine_size(sep(p).1) + prepat_size(sep(p).0) <= prepat_size(p),
        p is App ==> spine_size(sep(p).1) < prepat_size(p),
    decreases p,
{
    if let PrePat::App(_, i, f, x) = p {
        lemma_sep_size(*f);
        lemma_spine_size_push(sep(*f).1, (i, *x));
    }
}

pub proof fn lemma_args_seq_size(a: PreArgs)
    ensures
        spine_size(args_seq(a)) == args_size(a),
    decreases a,
{
    if let PreArgs::Cons(i, p, rest) = a {
        lemma_args_seq_size(*rest);
        let s = seq![(i, *p)] + args_seq(*rest);
        assert(s.subrange(1, s.len() as int) =~= args_seq(*rest));
    }
}

pub proof fn lemma_spine_size_elem(s: Seq<(Icit, PrePat)>, k: int)
    requires
        0 <= k < s.len(),
    ensures
        prepat_size(s[k].1) < spine_size(s.subrange(k, s.len() as int)),
        spine_size(s.subrange(k + 1, s.len() as int)) < spine_size(s.subrange(k, s.len() as int)),
{
    let r = s.subrange(k, s.len() as int);
    assert(r.subrange(1, r.len() as int) =~= s.subrange(k + 1, s.len() as int));
}

// Interning, as a function of the table.
/// Table `s` once `k` is interned in it.
pub open spec fn interned<K>(s: Seq<K>, k: K) -> Seq<K> {
    if s.contains(k) {
        s
    } else {
        s.push(k)
    }
}

/// The id that `k` has once interned in `s`.
pub open spec fn intern_id<K>(s: Seq<K>, k: K) -> nat {
    if s.contains(k) {
        choose|i: nat| i < s.len() && s[i as int] == k
    } else {
        s.len()
    }
}

/// Interning gives the table and the id that `interned` and `intern_id` say.
pub proof fn lemma_interns_det<K>(old: Seq<K>, new: Seq<K>, k: K, id: nat)
    requires
        unique(old),
        interns(old, new, k, id),
    ensures
        new == interned(old, k),
        id == intern_id(old, k),
{
    if old.contains(k) {
        let i = choose|i: nat| i < old.len() && old[i as int] == k;
        assert(old[id as int] == old[i as int]);
    }
}

/// The tables and the context once `name` is defined as `info` in context `c`.
pub open spec fn define_state(t: InternTables, c: Cxt, name: Name, info: NameInfo) -> (InternTables, Cxt) {
    let e = defined_entry(t.cxts, c, name, info);
    (InternTables { cxts: interned(t.cxts, e), ..t }, Cxt(intern_id(t.cxts, e) as u32))
}

/// Whether `name` can be defined as a local variable in context `c` within the limits of
/// the tables.
pub open spec fn can_define_local(t: InternTables, c: Cxt) -> bool {
    &&& t.cxts.len() < u32::MAX
    &&& cxt_size(t.cxts, c).0 < u32::MAX
}

/// The tables and the name once the name of an unnamed variable, `_`, is interned.
pub open spec fn underscore_state(t: InternTables) -> (InternTables, Name) {
    let u = seq!['_'];
    (InternTables { names: interned(t.names, u), ..t }, Name(intern_id(t.names, u) as u32))
}

/// The value of `Bool`.
pub open spec fn bool_type() -> Val {
    Val::App(Var::Builtin(Builtin::Bool), Spine::Nil)
}

/// Looking a name up, by its binding, with the elaborations of store `s`; `None` where a
/// definition is found whose elaboration is not known.
pub open spec fn lookup_in<D: PatElab>(s: D::Store, b: Binding) -> Option<Result<(Var<crate::term::Ix>, VTy), DefError>> {
    match b {
        Binding::Unbound => Some(Err(DefError::NoValue)),
        Binding::Local(ix, ty) => Some(Ok((Var::Local(ix), ty))),
        Binding::Var(v, ty) => Some(Ok((v, ty))),
        Binding::Def(id) => match D::elab_answer(s, id) {
            Some(Ok(info)) => Some(Ok((Var::Top(id), *info.typ))),
            Some(Err(e)) => Some(Err(e)),
            None => None,
        },
    }
}

/// A name that is no constructor and neither `True` nor `False` becomes a new local
/// variable of the type expected.
pub open spec fn new_var_spec(t: InternTables, c: Cxt, n: Name, ty: VTy) -> Option<(Result<PatV, TypeErrorV>, InternTables, Cxt)> {
    if can_define_local(t, c) {
        let d = define_state(t, c, n, NameInfo::Local(ty));
        Some((Ok(PatV::Var(n, ty)), d.0, d.1))
    } else {
        None
    }
}

/// What elaborating pattern `pre` against type `ty`, in context `c` with tables `t` and
/// the elaborator's answers of store `s`, gives: the pattern or the error, and the tables
/// and the context after it. `None` where an answer the elaboration asks for is not known,
/// a table would overflow, an alternative binds a variable, or applying a constructor's
/// type to a variable does not terminate.
///
/// - A literal is a literal of width 32 or 64 where `ty` is `I32` or `I64`, and an error
///   otherwise.
/// - A name that is a constructor is that constructor applied to nothing; `True` and
///   `False` are booleans, where `ty` unifies with `Bool`; any other name is a new local
///   variable of type `ty`.
/// - `_` matches anything; an application or a namespace member is a constructor pattern
///   (`elab_app_spec`); alternatives are elaborated in turn and may bind nothing; anything
///   else is no pattern.
pub open spec fn elab_pat_spec<D: PatElab>(
    s: D::Store,
    t: InternTables,
    c: Cxt,
    pre: PrePat,
    ty: VTy,
    reason: ReasonExpected,
) -> Option<(Result<PatV, TypeErrorV>, InternTables, Cxt)>
    decreases prepat_size(pre), 0nat,
{
    match pre {
        PrePat::Lit(sp, l) => Some(
            (
                match ty {
                    Val::App(Var::Builtin(Builtin::I32), _) => Ok(PatV::Lit(l, Width::W32)),
                    Val::App(Var::Builtin(Builtin::I64), _) => Ok(PatV::Lit(l, Width::W64)),
                    _ => Err(
                        TypeErrorV::InvalidPatternBecause(
                            Box::new(TypeErrorV::NotIntType(sp, ty, reason)),
                        ),
                    ),
                },
                t,
                c,
            ),
        ),
        PrePat::Var(sp, n) => match lookup_in::<D>(s, resolve(t.cxts, c, n, 0)) {
            None => None,
            Some(Ok((Var::Top(id), _))) => match D::elab_answer(s, id) {
                None => None,
                Some(r) => if r matches Ok(info) && *info.term == Term::Var(Var::Cons(id)) {
                    elab_app_spec::<D>(s, t, c, pre, Seq::empty(), ty, reason)
                } else {
                    new_var_spec(t, c, n, ty)
                },
            },
            Some(Ok((Var::Builtin(b), _))) if b == Builtin::True || b == Builtin::False => {
                match D::unify_answer(s, ty, bool_type(), cxt_size(t.cxts, c), false) {
                    None => None,
                    Some(Err(e)) => Some((Err(TypeErrorV::InvalidPatternBecause(Box::new(e))), t, c)),
                    Some(Ok(false)) => Some(
                        (
                            Err(
                                TypeErrorV::InvalidPatternBecause(
                                    Box::new(TypeErrorV::Unify(sp, bool_type(), ty, reason)),
                                ),
                            ),
                            t,
                            c,
                        ),
                    ),
                    Some(Ok(true)) => Some((Ok(PatV::Bool(b == Builtin::True)), t, c)),
                }
            },
            Some(_) => new_var_spec(t, c, n, ty),
        },
        PrePat::Hole(_) => Some((Ok(PatV::Any), t, c)),
        PrePat::App(_, _, _, _) => {
            proof {
                lemma_sep_size(pre);
            }
            elab_app_spec::<D>(s, t, c, sep(pre).0, sep(pre).1, ty, reason)
        },
        PrePat::Dot(sp, h, m, a) => {
            proof {
                lemma_args_seq_size(a);
            }
            elab_app_spec::<D>(s, t, c, PrePat::Dot(sp, h, m, PreArgs::Nil), args_seq(a), ty, reason)
        },
        PrePat::OrPat(_, x, y) => {
            let before = cxt_size(t.cxts, c);
            match elab_pat_spec::<D>(s, t, c, *x, ty, reason) {
                None => None,
                Some((Err(e), t1, c1)) => Some((Err(e), t1, c1)),
                Some((Ok(px), t1, c1)) => if cxt_size(t1.cxts, c1) != before {
                    None
                } else {
                    match elab_pat_spec::<D>(s, t1, c1, *y, ty, reason) {
                        None => None,
                        Some((Err(e), t2, c2)) => Some((Err(e), t2, c2)),
                        Some((Ok(py), t2, c2)) => if cxt_size(t2.cxts, c2) != before {
                            None
                        } else {
                            Some((Ok(PatV::Or(Box::new(px), Box::new(py))), t2, c2))
                        },
                    }
                },
            }
        },
        PrePat::Other(sp) => Some((Err(TypeErrorV::InvalidPattern(sp)), t, c)),
    }
}

/// Where a constructor pattern with head `head` and arguments `spine` stands in the source.
pub open spec fn app_span(head: PrePat, spine: Seq<(Icit, PrePat)>) -> Span {
    Span(
        head.spec_span().0,
        if spine.len() == 0 {
            head.spec_span().1
        } else {
            spine.last().1.spec_span().1
        },
    )
}

/// The number of explicit arguments of `spine`.
pub open spec fn explicit_count(spine: Seq<(Icit, PrePat)>) -> nat
    decreases spine.len(),
{
    if spine.len() == 0 {
        0
    } else {
        explicit_count(spine.drop_last()) + if spine.last().0 == Icit::Expl {
            1nat
        } else {
            0nat
        }
    }
}

/// What elaborating the constructor pattern with head `head` and arguments `spine` gives:
/// the head must be inferred to be a constructor, whose type the arguments then follow
/// (`elab_args_spec`).
pub open spec fn elab_app_spec<D: PatElab>(
    s: D::Store,
    t: InternTables,
    c: Cxt,
    head: PrePat,
    spine: Seq<(Icit, PrePat)>,
    expected: VTy,
    reason: ReasonExpected,
) -> Option<(Result<PatV, TypeErrorV>, InternTables, Cxt)>
    decreases spine_size(spine), u32::MAX + 1,
{
    let span = app_span(head, spine);
    match D::infer_answer(s, head, c) {
        None => None,
        Some(Err(e)) => Some((Err(e), t, c)),
        Some(Ok((term, cty))) => match term {
            Term::Var(Var::Cons(id)) => match D::arity_answer(s, cty) {
                None => None,
                Some(arity) => {
                    if explicit_count(spine) > usize::MAX {
                        None
                    } else {
                        proof {
                            assert(spine.subrange(0, spine.len() as int) =~= spine);
                        }
                        elab_args_spec::<D>(
                            s,
                            t,
                            c,
                            cxt_size(t.cxts, c),
                            cty,
                            spine,
                            0,
                            Seq::empty(),
                            id,
                            expected,
                            reason,
                            span,
                            arity,
                            explicit_count(spine) as usize,
                        )
                    }
                },
            },
            _ => Some((Err(TypeErrorV::InvalidPattern(span)), t, c)),
        },
    }
}

/// Elaborating the arguments `spine[k..]` of constructor `id`, whose type, with the
/// arguments before `k` applied, is `ty`, with `l` variables in scope, the argument
/// patterns so far being `pats`.
///
/// - An explicit argument where the type takes an implicit parameter: the parameter is
///   bound to a new unnamed local variable, which the pattern binds, and the argument
///   waits.
/// - An argument of the kind the type takes is elaborated against the parameter's type.
/// - No argument left: the implicit parameters left are bound to new unnamed local
///   variables; then the type must be no function type, and must unify with the expected
///   type.
/// - Otherwise the constructor is given the wrong number of arguments.
pub open spec fn elab_args_spec<D: PatElab>(
    s: D::Store,
    t: InternTables,
    c: Cxt,
    l: Lvl,
    ty: VTy,
    spine: Seq<(Icit, PrePat)>,
    k: nat,
    pats: Seq<PatV>,
    id: DefId,
    expected: VTy,
    reason: ReasonExpected,
    span: Span,
    arity: usize,
    f_arity: usize,
) -> Option<(Result<PatV, TypeErrorV>, InternTables, Cxt)>
    decreases spine_size(spine.subrange(k as int, spine.len() as int)), u32::MAX - l.0,
{
    if k > spine.len() {
        None
    } else if k < spine.len() {
        let (i, pat) = spine[k as int];
        proof {
            lemma_spine_size_elem(spine, k as int);
        }
        match ty {
            Val::Pi(Icit::Impl, dom, cl) if i == Icit::Expl => {
                let u = underscore_state(t);
                if t.names.len() >= u32::MAX || !can_define_local(u.0, c) || l.0 >= u32::MAX
                    || !clos_applies(cl, Val::App(Var::Local(l), Spine::Nil)) {
                    None
                } else {
                    let d = define_state(u.0, c, u.1, NameInfo::Local(*dom));
                    elab_args_spec::<D>(
                        s,
                        d.0,
                        d.1,
                        Lvl((l.0 + 1) as u32),
                        apply_result(cl, Val::App(Var::Local(l), Spine::Nil)),
                        spine,
                        k,
                        pats.push(PatV::Var(u.1, *dom)),
                        id,
                        expected,
                        reason,
                        span,
                        arity,
                        f_arity,
                    )
                }
            },
            Val::Pi(i2, dom, cl) if i == i2 => match elab_pat_spec::<D>(s, t, c, pat, *dom, reason) {
                None => None,
                Some((Err(e), t1, c1)) => Some((Err(e), t1, c1)),
                Some((Ok(p), t1, c1)) => if l.0 >= u32::MAX || !clos_applies(
                    cl,
                    Val::App(Var::Local(l), Spine::Nil),
                ) {
                    None
                } else {
                    elab_args_spec::<D>(
                        s,
                        t1,
                        c1,
                        Lvl((l.0 + 1) as u32),
                        apply_result(cl, Val::App(Var::Local(l), Spine::Nil)),
                        spine,
                        k + 1,
                        pats.push(p),
                        id,
                        expected,
                        reason,
                        span,
                        arity,
                        f_arity,
                    )
                },
            },
            Val::Fun(from, to) if i == Icit::Expl => match elab_pat_spec::<D>(s, t, c, pat, *from, reason) {
                None => None,
                Some((Err(e), t1, c1)) => Some((Err(e), t1, c1)),
                Some((Ok(p), t1, c1)) => elab_args_spec::<D>(
                    s,
                    t1,
                    c1,
                    l,
                    *to,
                    spine,
                    k + 1,
                    pats.push(p),
                    id,
                    expected,
                    reason,
                    span,
                    arity,
                    f_arity,
                ),
            },
            _ => Some((Err(TypeErrorV::WrongNumConsArgs(span, arity, f_arity)), t, c)),
        }
    } else {
        match ty {
            Val::Pi(Icit::Impl, dom, cl) => {
                let u = underscore_state(t);
                if t.names.len() >= u32::MAX || !can_define_local(u.0, c) || l.0 >= u32::MAX
                    || !clos_applies(cl, Val::App(Var::Local(l), Spine::Nil)) {
                    None
                } else {
                    let d = define_state(u.0, c, u.1, NameInfo::Local(*dom));
                    elab_args_spec::<D>(
                        s,
                        d.0,
                        d.1,
                        Lvl((l.0 + 1) as u32),
                        apply_result(cl, Val::App(Var::Local(l), Spine::Nil)),
                        spine,
                        k,
                        pats.push(PatV::Var(u.1, *dom)),
                        id,
                        expected,
                        reason,
                        span,
                        arity,
                        f_arity,
                    )
                }
            },
            Val::Fun(_, _) | Val::Pi(_, _, _) => Some(
                (Err(TypeErrorV::WrongNumConsArgs(span, arity, f_arity)), t, c),
            ),
            _ => match D::unify_answer(s, ty, expected, l, true) {
                None => None,
                Some(Err(e)) => Some((Err(TypeErrorV::InvalidPatternBecause(Box::new(e))), t, c)),
                Some(Ok(false)) => Some(
                    (
                        Err(
                            TypeErrorV::InvalidPatternBecause(
                                Box::new(TypeErrorV::Unify(span, ty, expected, reason)),
                            ),
                        ),
                        t,
                        c,
                    ),
                ),
                Some(Ok(true)) => Some((Ok(PatV::Cons(id, expected, pats)), t, c)),
            },
        }
    }
}

/// The suffix of a spine is no larger than the spine.
pub proof fn lemma_spine_size_suffix(s: Seq<(Icit, PrePat)>, k: int)
    requires
        0 <= k <= s.len(),
    ensures
        spine_size(s.subrange(k, s.len() as int)) <= spine_size(s),
    decreases k,
{
    if k == 0 {
        assert(s.subrange(0, s.len() as int) =~= s);
    } else {
        lemma_spine_size_suffix(s, k - 1);
        lemma_spine_size_elem(s, k - 1);
    }
}

proof fn lemma_pats_view_push(s: Seq<Pat>, p: Pat)
    ensures
        pats_view(s.push(p)) == pats_view(s).push(pat_view(p)),
{
    assert(s.push(p).subrange(0, s.len() as int) =~= s);
}

/// The head of an application and its arguments, the first first.
fn sep_app(pre: &PrePat) -> (r: (PrePat, Vec<(Icit, PrePat)>))
    ensures
        r.0 == sep(*pre).0,
        r.1@ == sep(*pre).1,
    decreases pre,
{
    match pre {
        PrePat::App(_, i, f, x) => {
            let (h, mut sp) = sep_app(f);
            sp.push((*i, x.copy()));
            (h, sp)
        },
        _ => (pre.copy(), Vec::new()),
    }
}

/// The arguments `a`, in order.
fn args_vec(a: &PreArgs) -> (v: Vec<(Icit, PrePat)>)
    ensures
        v@ == args_seq(*a),
    decreases a,
{
    match a {
        PreArgs::Nil => Vec::new(),
        PreArgs::Cons(i, p, rest) => {
            let mut v = Vec::new();
            v.push((*i, p.copy()));
            let mut r = args_vec(rest);
            v.append(&mut r);
            v
        },
    }
}

/// Interns the name of an unnamed variable, `_`.
fn underscore<D: Interner>(db: &mut D) -> (n: Name)
    requires
        old(db).inv(),
        old(db).tables().names.len() < u32::MAX,
    ensures
        final(db).inv(),
        final(db).store() == old(db).store(),
        (final(db).tables(), n) == underscore_state(old(db).tables()),
{
    proof {
        db.lemma_inv();
        reveal_strlit("_");
    }
    let ghost t = db.tables();
    let u = String::from_str("_");
    assert(u@ =~= seq!['_']);
    let n = db.intern_name(u);
    proof {
        lemma_interns_det(t.names, db.tables().names, seq!['_'], n.0 as nat);
        assert(db.tables() =~= underscore_state(t).0);
    }
    n
}

/// Extends the context with a local variable `name` of type `ty`.
fn define_local<D: Interner>(cxt: &mut Cxt, name: Name, ty: &VTy, db: &mut D)
    requires
        old(db).inv(),
        old(cxt).0 < old(db).tables().cxts.len(),
        can_define_local(old(db).tables(), *old(cxt)),
    ensures
        final(db).inv(),
        final(db).store() == old(db).store(),
        final(cxt).0 < final(db).tables().cxts.len(),
        old(db).tables().cxts.len() <= final(db).tables().cxts.len(),
        (final(db).tables(), *final(cxt)) == define_state(old(db).tables(), *old(cxt), name, NameInfo::Local(*ty)),
{
    proof {
        db.lemma_inv();
    }
    let ghost t = db.tables();
    let ghost c0 = *cxt;
    let c = cxt.define(name, NameInfo::Local(ty.copy()), db);
    proof {
        lemma_interns_det(t.cxts, db.tables().cxts, defined_entry(t.cxts, c0, name, NameInfo::Local(*ty)), c.0 as nat);
        assert(db.tables() =~= define_state(t, c0, name, NameInfo::Local(*ty)).0);
    }
    *cxt = c;
}

/// Elaborates pattern `pre` against type `ty`, extending the context with the variables
/// it binds; `reason` says why `ty` is expected.
pub fn elab_pat<D: PatElab>(pre: &PrePat, ty: &VTy, reason: ReasonExpected, cxt: &mut Cxt, db: &mut D) -> (r: Result<Pat, TypeError>)
    requires
        old(db).inv(),
        old(cxt).0 < old(db).tables().cxts.len(),
        elab_pat_spec::<D>(old(db).store(), old(db).tables(), *old(cxt), *pre, *ty, reason) is Some,
    ensures
        final(db).inv(),
        final(db).store() == old(db).store(),
        final(cxt).0 < final(db).tables().cxts.len(),
        old(db).tables().cxts.len() <= final(db).tables().cxts.len(),
        (pat_res_view(r), final(db).tables(), *final(cxt)) == elab_pat_spec::<D>(
            old(db).store(),
            old(db).tables(),
            *old(cxt),
            *pre,
            *ty,
            reason,
        )->Some_0,
        r matches Ok(p) ==> cxt_size(final(db).tables().cxts, *final(cxt)).0 == cxt_size(
            old(db).tables().cxts,
            *old(cxt),
        ).0 + bound_count(pat_view(p)),
        r matches Ok(p) ==> chain(final(db).tables().cxts, *final(cxt)) == local_entries(pat_locals(p)) + chain(
            old(db).tables().cxts,
            *old(cxt),
        ),
    decreases prepat_size(*pre), 0nat,
{
    proof {
        reveal_with_fuel(type_error_view, 2);
        lemma_elab_pat_binds::<D>(db.store(), db.tables(), *cxt, *pre, *ty, reason);
        db.lemma_inv();
        lemma_tables_linked(db.tables());
        lemma_elab_pat_scope::<D>(db.store(), db.tables(), *cxt, *pre, *ty, reason);
        lemma_all_pat_locals_view();
    }
    match pre {
        PrePat::Lit(sp, l) => match ty {
            Val::App(Var::Builtin(Builtin::I32), _) => Ok(Pat::Lit(*l, Width::W32)),
            Val::App(Var::Builtin(Builtin::I64), _) => Ok(Pat::Lit(*l, Width::W64)),
            _ => Err(
                TypeError::InvalidPatternBecause(Box::new(TypeError::NotIntType(*sp, ty.copy(), reason))),
            ),
        },
        PrePat::Var(sp, n) => {
            proof {
                db.lemma_elab_answer();
            }
            let r = cxt.lookup(*n, db);
            match r {
                Ok((Var::Top(id), _)) => {
                    let info = db.elaborate_def(id);
                    let is_cons = match &info {
                        Ok(info) => match &*info.term {
                            Term::Var(Var::Cons(id2)) => *id2 == id,
                            _ => false,
                        },
                        Err(_) => false,
                    };
                    if is_cons {
                        elab_pat_app(pre, Vec::new(), ty, reason, cxt, db)
                    } else {
                        define_local(cxt, *n, ty, db);
                        Ok(Pat::Var(*n, Box::new(ty.copy())))
                    }
                },
                Ok((Var::Builtin(b), _)) => {
                    if b == Builtin::True || b == Builtin::False {
                        let l = cxt.size(db);
                        let bool_ty = Val::App(Var::Builtin(Builtin::Bool), Spine::Nil);
                        match db.unify(ty, &bool_ty, l, false) {
                            Err(e) => Err(TypeError::InvalidPatternBecause(Box::new(e))),
                            Ok(false) => Err(
                                TypeError::InvalidPatternBecause(
                                    Box::new(TypeError::Unify(*sp, bool_ty, ty.copy(), reason)),
                                ),
                            ),
                            Ok(true) => Ok(Pat::Bool(b == Builtin::True)),
                        }
                    } else {
                        define_local(cxt, *n, ty, db);
                        Ok(Pat::Var(*n, Box::new(ty.copy())))
                    }
                },
                _ => {
                    define_local(cxt, *n, ty, db);
                    Ok(Pat::Var(*n, Box::new(ty.copy())))
                },
            }
        },
        PrePat::Hole(_) => Ok(Pat::Any),
        PrePat::App(_, _, _, _) => {
            proof {
                lemma_sep_size(*pre);
            }
            let (h, sp) = sep_app(pre);
            elab_pat_app(&h, sp, ty, reason, cxt, db)
        },
        PrePat::Dot(sp, h, m, a) => {
            proof {
                lemma_args_seq_size(*a);
            }
            let head = PrePat::Dot(*sp, Box::new(h.copy()), *m, PreArgs::Nil);
            let args = args_vec(a);
            elab_pat_app(&head, args, ty, reason, cxt, db)
        },
        PrePat::OrPat(_, x, y) => {
            let px = match elab_pat(x, ty, reason, cxt, db) {
                Ok(p) => p,
                Err(e) => return Err(e),
            };
            let py = match elab_pat(y, ty, reason, cxt, db) {
                Ok(p) => p,
                Err(e) => return Err(e),
            };
            Ok(Pat::Or(Box::new(px), Box::new(py)))
        },
        PrePat::Other(sp) => Err(TypeError::InvalidPattern(*sp)),
    }
}

/// Elaborates the constructor pattern with head `head` and arguments `spine` against
/// type `expected`: the head must be a constructor, whose parameters the arguments
/// follow, implicit parameters that no argument gives becoming unnamed local variables.
pub fn elab_pat_app<D: PatElab>(
    head: &PrePat,
    spine: Vec<(Icit, PrePat)>,
    expected: &VTy,
    reason: ReasonExpected,
    cxt: &mut Cxt,
    db: &mut D,
) -> (r: Result<Pat, TypeError>)
    requires
        old(db).inv(),
        old(cxt).0 < old(db).tables().cxts.len(),
        elab_app_spec::<D>(old(db).store(), old(db).tables(), *old(cxt), *head, spine@, *expected, reason) is Some,
    ensures
        final(db).inv(),
        final(db).store() == old(db).store(),
        final(cxt).0 < final(db).tables().cxts.len(),
        old(db).tables().cxts.len() <= final(db).tables().cxts.len(),
        (pat_res_view(r), final(db).tables(), *final(cxt)) == elab_app_spec::<D>(
            old(db).store(),
            old(db).tables(),
            *old(cxt),
            *head,
            spine@,
            *expected,
            reason,
        )->Some_0,
    decreases spine_size(spine@), 1nat,
{
    let ghost s = db.store();
    let ghost target = elab_app_spec::<D>(db.store(), db.tables(), *cxt, *head, spine@, *expected, reason)->Some_0;
    let span = Span(
        head.span().0,
        if spine.len() == 0 {
            head.span().1
        } else {
            spine[spine.len() - 1].1.span().1
        },
    );
    assert(span == app_span(*head, spine@));
    let (term, cty) = match db.infer_head(head, *cxt) {
        Ok(x) => x,
        Err(e) => return Err(e),
    };
    match term {
        Term::Var(Var::Cons(id)) => {
            let arity = db.arity(&cty);
            let mut f_arity: usize = 0;
            let mut j: usize = 0;
            while j < spine.len()
                invariant
                    j <= spine.len(),
                    f_arity <= j,
                    f_arity == explicit_count(spine@.take(j as int)),
                decreases spine.len() - j,
            {
                assert(spine@.take(j + 1).drop_last() =~= spine@.take(j as int));
                if spine[j].0 == Icit::Expl {
                    f_arity += 1;
                }
                j += 1;
            }
            assert(spine@.take(spine.len() as int) =~= spine@);
            assert(spine@.subrange(0, spine@.len() as int) =~= spine@);
            let mut l = cxt.size(db);
            let mut ty = cty;
            let mut pats: Vec<Pat> = Vec::new();
            let mut k: usize = 0;
            loop
                invariant
                    db.inv(),
                    db.store() == s,
                    s == old(db).store(),
                    old(db).tables().cxts.len() <= db.tables().cxts.len(),
                    target == elab_app_spec::<D>(s, old(db).tables(), *old(cxt), *head, spine@, *expected, reason)->Some_0,
                    cxt.0 < db.tables().cxts.len(),
                    k <= spine.len(),
                    elab_args_spec::<D>(
                        s,
                        db.tables(),
                        *cxt,
                        l,
                        ty,
                        spine@,
                        k as nat,
                        pats_view(pats@),
                        id,
                        *expected,
                        reason,
                        span,
                        arity,
                        f_arity,
                    ) == Some(target),
                decreases spine_size(spine@.subrange(k as int, spine@.len() as int)), u32::MAX - l.0,
            {
                let ghost pats0 = pats@;
                if k < spine.len() {
                    let i = spine[k].0;
                    proof {
                        lemma_spine_size_elem(spine@, k as int);
                        lemma_spine_size_suffix(spine@, k as int);
                    }
                    match ty {
                        Val::Pi(i2, dom, cl) => {
                            if i2 == Icit::Impl && i == Icit::Expl {
                                let u = underscore(db);
                                define_local(cxt, u, &*dom, db);
                                proof {
                                    lemma_pats_view_push(pats0, Pat::Var(u, dom));
                                }
                                pats.push(Pat::Var(u, dom));
                                ty = cl.apply(Val::local(l));
                                l = l.inc();
                            } else if i2 == i {
                                let p = match elab_pat(&spine[k].1, &*dom, reason, cxt, db) {
                                    Ok(p) => p,
                                    Err(e) => return Err(e),
                                };
                                proof {
                                    lemma_pats_view_push(pats0, p);
                                }
                                pats.push(p);
                                ty = cl.apply(Val::local(l));
                                l = l.inc();
                                k += 1;
                            } else {
                                return Err(TypeError::WrongNumConsArgs(span, arity, f_arity));
                            }
                        },
                        Val::Fun(from, to) => {
                            if i == Icit::Expl {
                                let p = match elab_pat(&spine[k].1, &*from, reason, cxt, db) {
                                    Ok(p) => p,
                                    Err(e) => return Err(e),
                                };
                                proof {
                                    lemma_pats_view_push(pats0, p);
                                }
                                pats.push(p);
                                ty = *to;
                                k += 1;
                            } else {
                                return Err(TypeError::WrongNumConsArgs(span, arity, f_arity));
                            }
                        },
                        _ => {
                            return Err(TypeError::WrongNumConsArgs(span, arity, f_arity));
                        },
                    }
                } else {
                    match ty {
                        Val::Pi(i2, dom, cl) => {
                            if i2 == Icit::Impl {
                                let u = underscore(db);
                                define_local(cxt, u, &*dom, db);
                                proof {
                                    lemma_pats_view_push(pats0, Pat::Var(u, dom));
                                }
                                pats.push(Pat::Var(u, dom));
                                ty = cl.apply(Val::local(l));
                                l = l.inc();
                            } else {
                                return Err(TypeError::WrongNumConsArgs(span, arity, f_arity));
                            }
                        },
                        Val::Fun(_, _) => {
                            return Err(TypeError::WrongNumConsArgs(span, arity, f_arity));
                        },
                        _ => {
                            proof {
                                reveal_with_fuel(type_error_view, 2);
                            }
                            let ur = db.unify(&ty, expected, l, true);
                            return match ur {
                                Err(e) => Err(TypeError::InvalidPatternBecause(Box::new(e))),
                                Ok(false) => Err(
                                    TypeError::InvalidPatternBecause(
                                        Box::new(TypeError::Unify(span, ty, expected.copy(), reason)),
                                    ),
                                ),
                                Ok(true) => Ok(Pat::Cons(id, Box::new(expected.copy()), pats)),
                            };
                        },
                    }
                }
            }
        },
        _ => Err(TypeError::InvalidPattern(span)),
    }
}

// Coverage, on what patterns say.
/// What a pattern covers, as `pat_cov` says of a pattern with this content.
pub open spec fn patv_cov(p: PatV) -> Option<CovV>
    decreases p,
{
    match p {
        PatV::Any => Some(CovV::All),
        PatV::Var(_, _) => Some(CovV::All),
        PatV::Cons(id, _, v) => match patvs_cov(v) {
            Some(cs) => Some(CovV::Cons(seq![(id, cs)])),
            None => None,
        },
        PatV::Or(x, y) => match (patv_cov(*x), patv_cov(*y)) {
            (Some(a), Some(b)) => cov_or(a, b),
            _ => None,
        },
        PatV::Lit(l, _) => if l.spec_to_usize() < usize::MAX {
            Some(CovV::Lit(Set::empty().insert(l.spec_to_usize() as nat)))
        } else {
            None
        },
        PatV::Bool(b) => Some(CovV::Bool(b)),
    }
}

/// What each of the patterns `s` covers.
pub open spec fn patvs_cov(s: Seq<PatV>) -> Option<Seq<CovV>>
    decreases s,
{
    if s.len() == 0 {
        Some(Seq::empty())
    } else {
        match (patvs_cov(s.subrange(0, s.len() - 1)), patv_cov(s[s.len() - 1])) {
            (Some(r), Some(c)) => Some(r.push(c)),
            _ => None,
        }
    }
}

/// What the cases with patterns `ps` cover together, on values of type `ty`, as
/// `cases_cov` says of patterns with this content.
pub open spec fn cases_cov_v(ps: Seq<PatV>, ty: TyShape) -> Option<CovV>
    decreases ps.len(),
{
    if ps.len() == 0 {
        Some(CovV::Nothing)
    } else {
        match cases_cov_v(ps.subrange(0, ps.len() - 1), ty) {
            Some(last) => match patv_cov(ps[ps.len() - 1]) {
                Some(pc) => match cov_or(last, pc) {
                    Some(c) => simplify_spec(c, ty),
                    None => None,
                },
                None => None,
            },
            None => None,
        }
    }
}

pub proof fn lemma_pats_view_index(s: Seq<Pat>)
    ensures
        pats_view(s).len() == s.len(),
        forall|i: int| 0 <= i < s.len() ==> #[trigger] pats_view(s)[i] == pat_view(s[i]),
    decreases s.len(),
{
    if s.len() > 0 {
        lemma_pats_view_index(s.subrange(0, s.len() - 1));
    }
}

pub proof fn lemma_pats_view_prefix(s: Seq<Pat>, k: int)
    requires
        0 <= k <= s.len(),
    ensures
        pats_view(s.subrange(0, k)) == pats_view(s).subrange(0, k),
{
    lemma_pats_view_index(s);
    lemma_pats_view_index(s.subrange(0, k));
    assert(pats_view(s.subrange(0, k)) =~= pats_view(s).subrange(0, k));
}

proof fn lemma_pat_cov_view(p: Pat)
    ensures
        pat_cov(p) == patv_cov(pat_view(p)),
    decreases p,
{
    match p {
        Pat::Cons(_, _, v) => {
            assert(decreases_to!(p => v));
            assert(decreases_to!(v => v@));
            lemma_pats_cov_view(v@);
        },
        Pat::Or(x, y) => {
            lemma_pat_cov_view(*x);
            lemma_pat_cov_view(*y);
        },
        _ => {},
    }
}

proof fn lemma_pats_cov_view(s: Seq<Pat>)
    ensures
        pats_cov(s) == patvs_cov(pats_view(s)),
    decreases s,
{
    if s.len() > 0 {
        lemma_pats_view_index(s);
        lemma_pats_cov_view(s.subrange(0, s.len() - 1));
        lemma_pat_cov_view(s[s.len() - 1]);
        let v = pats_view(s);
        assert(v.subrange(0, v.len() - 1) =~= pats_view(s.subrange(0, s.len() - 1)));
    }
}

/// What the patterns cover depends only on what they say.
pub proof fn lemma_cases_cov_view(ps: Seq<Pat>, ty: TyShape)
    ensures
        cases_cov(ps, ty) == cases_cov_v(pats_view(ps), ty),
    decreases ps.len(),
{
    if ps.len() > 0 {
        lemma_pats_view_index(ps);
        lemma_cases_cov_view(ps.subrange(0, ps.len() - 1), ty);
        lemma_pat_cov_view(ps[ps.len() - 1]);
        let v = pats_view(ps);
        assert(v.subrange(0, v.len() - 1) =~= pats_view(ps.subrange(0, ps.len() - 1)));
    }
}

/// What elaborating the patterns of `cases` in turn gives, each in context `c` (the
/// variables a pattern binds are in scope in its own case only): the patterns, or the
/// first error, and the tables after it; `None` where an elaboration is not known.
pub open spec fn elab_cases_spec<D: PatElab>(
    s: D::Store,
    t: InternTables,
    c: Cxt,
    cases: Seq<(PrePat, Term)>,
    val_ty: VTy,
    reason: ReasonExpected,
) -> Option<(Result<Seq<PatV>, TypeErrorV>, InternTables)>
    decreases cases.len(),
{
    if cases.len() == 0 {
        Some((Ok(Seq::empty()), t))
    } else {
        match elab_cases_spec::<D>(s, t, c, cases.drop_last(), val_ty, reason) {
            None => None,
            Some((Err(e), t1)) => Some((Err(e), t1)),
            Some((Ok(ps), t1)) => match elab_pat_spec::<D>(s, t1, c, cases.last().0, val_ty, reason) {
                None => None,
                Some((Err(e), t2, _)) => Some((Err(e), t2)),
                Some((Ok(p), t2, _)) => Some((Ok(ps.push(p)), t2)),
            },
        }
    }
}

proof fn lemma_elab_cases_prefix<D: PatElab>(
    s: D::Store,
    t: InternTables,
    c: Cxt,
    cases: Seq<(PrePat, Term)>,
    val_ty: VTy,
    reason: ReasonExpected,
    k: nat,
)
    requires
        elab_cases_spec::<D>(s, t, c, cases, val_ty, reason) is Some,
        k <= cases.len(),
    ensures
        elab_cases_spec::<D>(s, t, c, cases.take(k as int), val_ty, reason) is Some,
        elab_cases_spec::<D>(s, t, c, cases.take(k as int), val_ty, reason) matches Some((Err(e), t1))
            ==> elab_cases_spec::<D>(s, t, c, cases, val_ty, reason) == Some((Err::<Seq<PatV>, TypeErrorV>(e), t1)),
    decreases cases.len(),
{
    if k < cases.len() {
        lemma_elab_cases_prefix::<D>(s, t, c, cases.drop_last(), val_ty, reason, k);
        assert(cases.drop_last().take(k as int) =~= cases.take(k as int));
    } else {
        assert(cases.take(k as int) =~= cases);
    }
}

/// Elaborates the patterns of the cases of a `case` expression on a value of type
/// `val_ty`, whose constructors `shape` lists, each case's variables in scope in that
/// case only; then decides the coverage. Gives the cases, each pattern with its body, and
/// for each case whether it is redundant, where the cases are exhaustive; the first
/// error, or an `Inexhaustive` error with what the cases cover, otherwise.
pub fn elab_case<D: PatElab>(
    cases: &Vec<(PrePat, Term)>,
    val_ty: &VTy,
    shape: &TyShape,
    vspan: Span,
    reason: ReasonExpected,
    cxt: &mut Cxt,
    db: &mut D,
) -> (r: Result<(Vec<(Pat, Term)>, Vec<bool>), TypeError>)
    requires
        old(db).inv(),
        old(cxt).0 < old(db).tables().cxts.len(),
        elab_cases_spec::<D>(old(db).store(), old(db).tables(), *old(cxt), cases@, *val_ty, reason) is Some,
        elab_cases_spec::<D>(old(db).store(), old(db).tables(), *old(cxt), cases@, *val_ty, reason)->Some_0.0 matches Ok(
            ps,
        ) ==> cases_cov_v(ps, *shape) is Some,
    ensures
        final(db).inv(),
        final(db).store() == old(db).store(),
        *final(cxt) == *old(cxt),
        final(db).tables() == elab_cases_spec::<D>(
            old(db).store(),
            old(db).tables(),
            *old(cxt),
            cases@,
            *val_ty,
            reason,
        )->Some_0.1,
        match elab_cases_spec::<D>(old(db).store(), old(db).tables(), *old(cxt), cases@, *val_ty, reason)->Some_0.0 {
            Err(e) => r matches Err(e2) && type_error_view(e2) == e,
            Ok(ps) => {
                let cov = cases_cov_v(ps, *shape)->Some_0;
                &&& (r is Ok <==> cov == CovV::All)
                &&& (r matches Ok((cs, red)) ==> {
                    &&& cs@.len() == cases@.len()
                    &&& red@.len() == cases@.len()
                    &&& forall|i: int|
                        0 <= i < cases@.len() ==> pat_view(#[trigger] cs@[i].0) == ps[i] && cs@[i].1
                            == cases@[i].1
                    &&& forall|i: int|
                        0 <= i < cases@.len() ==> #[trigger] red@[i] == (cases_cov_v(ps.take(i + 1), *shape)
                            == cases_cov_v(ps.take(i), *shape))
                })
                &&& (r matches Err(e) ==> type_error_view(e) == TypeErrorV::Inexhaustive(vspan, cov, *val_ty))
            },
        },
{
    let ghost s = db.store();
    let ghost t0 = db.tables();
    let ghost full = elab_cases_spec::<D>(s, t0, *cxt, cases@, *val_ty, reason)->Some_0;
    let c0 = *cxt;
    let mut pats: Vec<Pat> = Vec::new();
    let mut bodies: Vec<Term> = Vec::new();
    let mut i: usize = 0;
    proof {
        assert(cases@.take(0) =~= Seq::<(PrePat, Term)>::empty());
    }
    while i < cases.len()
        invariant
            db.inv(),
            db.store() == s,
            s == old(db).store(),
            t0 == old(db).tables(),
            c0 == *old(cxt),
            *cxt == c0,
            c0.0 < db.tables().cxts.len(),
            i <= cases@.len(),
            pats@.len() == i,
            bodies@.len() == i,
            forall|j: int| 0 <= j < i ==> #[trigger] bodies@[j] == cases@[j].1,
            full == elab_cases_spec::<D>(s, t0, c0, cases@, *val_ty, reason)->Some_0,
            elab_cases_spec::<D>(s, t0, c0, cases@, *val_ty, reason) is Some,
            elab_cases_spec::<D>(s, t0, c0, cases@.take(i as int), *val_ty, reason) == Some(
                (Ok::<Seq<PatV>, TypeErrorV>(pats_view(pats@)), db.tables()),
            ),
        decreases cases@.len() - i,
    {
        proof {
            lemma_elab_cases_prefix::<D>(s, t0, c0, cases@, *val_ty, reason, (i + 1) as nat);
            let pre = cases@.take(i + 1);
            assert(pre.drop_last() =~= cases@.take(i as int));
            assert(pre.last() == cases@[i as int]);
        }
        let ghost pats0 = pats@;
        let p = match elab_pat(&cases[i].0, val_ty, reason, cxt, db) {
            Ok(p) => p,
            Err(e) => {
                *cxt = c0;
                return Err(e);
            },
        };
        *cxt = c0;
        proof {
            lemma_pats_view_push(pats0, p);
        }
        pats.push(p);
        bodies.push(cases[i].1.copy());
        i += 1;
    }
    proof {
        assert(cases@.take(cases@.len() as int) =~= cases@);
        lemma_cases_cov_view(pats@, *shape);
        lemma_pats_view_index(pats@);
        assert forall|k: int| 0 <= k <= pats@.len() implies #[trigger] cases_cov(pats@.subrange(0, k), *shape)
            == cases_cov_v(pats_view(pats@).take(k), *shape) by {
            lemma_cases_cov_view(pats@.subrange(0, k), *shape);
            lemma_pats_view_prefix(pats@, k);
        }
    }
    let (redundant, last) = case_coverage(&pats, shape);
    proof {
        assert forall|k: int| 0 <= k < pats@.len() implies #[trigger] redundant@[k] == (cases_cov_v(
            pats_view(pats@).take(k + 1),
            *shape,
        ) == cases_cov_v(pats_view(pats@).take(k), *shape)) by {
            assert(cases_cov(pats@.subrange(0, k + 1), *shape) == cases_cov_v(pats_view(pats@).take(k + 1), *shape));
            assert(cases_cov(pats@.subrange(0, k), *shape) == cases_cov_v(pats_view(pats@).take(k), *shape));
        }
    }
    match last {
        Cov::All => {
            let ghost all_pats = pats@;
            let ghost all_bodies = bodies@;
            let mut cs: Vec<(Pat, Term)> = Vec::new();
            while pats.len() > 0
                invariant
                    pats@.len() == bodies@.len(),
                    pats@.len() + cs@.len() == all_pats.len(),
                    all_pats.len() == all_bodies.len(),
                    forall|j: int| 0 <= j < pats@.len() ==> #[trigger] pats@[j] == all_pats[j],
                    forall|j: int| 0 <= j < bodies@.len() ==> #[trigger] bodies@[j] == all_bodies[j],
                    forall|j: int|
                        0 <= j < cs@.len() ==> #[trigger] cs@[j] == (
                            all_pats[pats@.len() + j],
                            all_bodies[pats@.len() + j],
                        ),
                decreases pats@.len(),
            {
                let p = pats.pop().unwrap();
                let b = bodies.pop().unwrap();
                cs.insert(0, (p, b));
            }
            Ok((cs, redundant))
        },
        _ => Err(TypeError::Inexhaustive(vspan, last, val_ty.copy())),
    }
}

// What elaboration binds.
/// The number of variables pattern `p` binds: its variables, the unnamed ones standing for
/// implicit parameters of constructors included; alternatives bind none.
pub open spec fn bound_count(p: PatV) -> nat
    decreases p,
{
    match p {
        PatV::Var(_, _) => 1,
        PatV::Cons(_, _, ps) => bounds_count(ps),
        _ => 0,
    }
}

/// The number of variables the patterns `s` bind.
pub open spec fn bounds_count(s: Seq<PatV>) -> nat
    decreases s,
{
    if s.len() == 0 {
        0
    } else {
        bounds_count(s.subrange(0, s.len() - 1)) + bound_count(s[s.len() - 1])
    }
}

proof fn lemma_bounds_count_push(s: Seq<PatV>, p: PatV)
    ensures
        bounds_count(s.push(p)) == bounds_count(s) + bound_count(p),
{
    assert(s.push(p).subrange(0, s.len() as int) =~= s);
}

proof fn lemma_define_state_size(t: InternTables, c: Cxt, name: Name, ty: VTy)
    requires
        can_define_local(t, c),
    ensures
        cxt_size(define_state(t, c, name, NameInfo::Local(ty)).0.cxts, define_state(t, c, name, NameInfo::Local(ty)).1).0
            == cxt_size(t.cxts, c).0 + 1,
{
    let e = defined_entry(t.cxts, c, name, NameInfo::Local(ty));
    let s2 = interned(t.cxts, e);
    let id = intern_id(t.cxts, e);
    if t.cxts.contains(e) {
        let j = choose|j: int| 0 <= j < t.cxts.len() && t.cxts[j] == e;
        assert(t.cxts[(j as nat) as int] == e);
        assert(s2[id as int] == e);
    } else {
        assert(s2[id as int] == e);
    }
    assert((id as u32) as nat == id);
}

proof fn lemma_new_var_binds(t: InternTables, c: Cxt, n: Name, ty: VTy)
    ensures
        new_var_spec(t, c, n, ty) matches Some((Ok(p), t2, c2)) ==> cxt_size(t2.cxts, c2).0 == cxt_size(t.cxts, c).0
            + bound_count(p),
{
    if can_define_local(t, c) {
        lemma_define_state_size(t, c, n, ty);
    }
}

/// Elaborating a pattern extends the context by one local variable for each variable the
/// pattern binds.
pub proof fn lemma_elab_pat_binds<D: PatElab>(
    s: D::Store,
    t: InternTables,
    c: Cxt,
    pre: PrePat,
    ty: VTy,
    reason: ReasonExpected,
)
    ensures
        elab_pat_spec::<D>(s, t, c, pre, ty, reason) matches Some((Ok(p), t2, c2)) ==> cxt_size(t2.cxts, c2).0
            == cxt_size(t.cxts, c).0 + bound_count(p),
    decreases prepat_size(pre), 0nat,
{
    match pre {
        PrePat::Var(_, n) => {
            lemma_new_var_binds(t, c, n, ty);
            lemma_app_binds::<D>(s, t, c, pre, Seq::empty(), ty, reason);
        },
        PrePat::App(_, _, _, _) => {
            lemma_sep_size(pre);
            lemma_app_binds::<D>(s, t, c, sep(pre).0, sep(pre).1, ty, reason);
        },
        PrePat::Dot(sp, h, m, a) => {
            lemma_args_seq_size(a);
            lemma_app_binds::<D>(s, t, c, PrePat::Dot(sp, h, m, PreArgs::Nil), args_seq(a), ty, reason);
        },
        _ => {},
    }
}

/// Elaborating a constructor pattern extends the context by one local variable for each
/// variable the pattern binds.
pub proof fn lemma_app_binds<D: PatElab>(
    s: D::Store,
    t: InternTables,
    c: Cxt,
    head: PrePat,
    spine: Seq<(Icit, PrePat)>,
    expected: VTy,
    reason: ReasonExpected,
)
    ensures
        elab_app_spec::<D>(s, t, c, head, spine, expected, reason) matches Some((Ok(p), t2, c2)) ==> cxt_size(
            t2.cxts,
            c2,
        ).0 == cxt_size(t.cxts, c).0 + bound_count(p),
    decreases spine_size(spine), u32::MAX + 1,
{
    if let Some(Ok((Term::Var(Var::Cons(id)), cty))) = D::infer_answer(s, head, c) {
        if let Some(arity) = D::arity_answer(s, cty) {
            if explicit_count(spine) <= usize::MAX {
                assert(spine.subrange(0, spine.len() as int) =~= spine);
                lemma_args_binds::<D>(
                    s,
                    t,
                    c,
                    cxt_size(t.cxts, c),
                    cty,
                    spine,
                    0,
                    Seq::empty(),
                    id,
                    expected,
                    reason,
                    app_span(head, spine),
                    arity,
                    explicit_count(spine) as usize,
                );
            }
        }
    }
}

/// Elaborating the arguments of a constructor pattern extends the context by one local
/// variable for each variable they bind.
pub proof fn lemma_args_binds<D: PatElab>(
    s: D::Store,
    t: InternTables,
    c: Cxt,
    l: Lvl,
    ty: VTy,
    spine: Seq<(Icit, PrePat)>,
    k: nat,
    pats: Seq<PatV>,
    id: DefId,
    expected: VTy,
    reason: ReasonExpected,
    span: Span,
    arity: usize,
    f_arity: usize,
)
    ensures
        elab_args_spec::<D>(s, t, c, l, ty, spine, k, pats, id, expected, reason, span, arity, f_arity) matches Some(
            (Ok(p), t2, c2),
        ) ==> cxt_size(t2.cxts, c2).0 + bounds_count(pats) == cxt_size(t.cxts, c).0 + bound_count(p),
    decreases spine_size(spine.subrange(k as int, spine.len() as int)), u32::MAX - l.0,
{
    if k < spine.len() {
        let (i, pat) = spine[k as int];
        lemma_spine_size_elem(spine, k as int);
        match ty {
            Val::Pi(Icit::Impl, dom, cl) if i == Icit::Expl => {
                let u = underscore_state(t);
                if !(t.names.len() >= u32::MAX || !can_define_local(u.0, c) || l.0 >= u32::MAX || !clos_applies(
                    cl,
                    Val::App(Var::Local(l), Spine::Nil),
                )) {
                    let d = define_state(u.0, c, u.1, NameInfo::Local(*dom));
                    lemma_define_state_size(u.0, c, u.1, *dom);
                    lemma_bounds_count_push(pats, PatV::Var(u.1, *dom));
                    lemma_args_binds::<D>(
                        s,
                        d.0,
                        d.1,
                        Lvl((l.0 + 1) as u32),
                        apply_result(cl, Val::App(Var::Local(l), Spine::Nil)),
                        spine,
                        k,
                        pats.push(PatV::Var(u.1, *dom)),
                        id,
                        expected,
                        reason,
                        span,
                        arity,
                        f_arity,
                    );
                }
            },
            Val::Pi(i2, dom, cl) if i == i2 => {
                lemma_elab_pat_binds::<D>(s, t, c, pat, *dom, reason);
                if let Some((Ok(p), t1, c1)) = elab_pat_spec::<D>(s, t, c, pat, *dom, reason) {
                    if !(l.0 >= u32::MAX || !clos_applies(cl, Val::App(Var::Local(l), Spine::Nil))) {
                        lemma_bounds_count_push(pats, p);
                        lemma_args_binds::<D>(
                            s,
                            t1,
                            c1,
                            Lvl((l.0 + 1) as u32),
                            apply_result(cl, Val::App(Var::Local(l), Spine::Nil)),
                            spine,
                            k + 1,
                            pats.push(p),
                            id,
                            expected,
                            reason,
                            span,
                            arity,
                            f_arity,
                        );
                    }
                }
            },
            Val::Fun(from, to) if i == Icit::Expl => {
                lemma_elab_pat_binds::<D>(s, t, c, pat, *from, reason);
                if let Some((Ok(p), t1, c1)) = elab_pat_spec::<D>(s, t, c, pat, *from, reason) {
                    lemma_bounds_count_push(pats, p);
                    lemma_args_binds::<D>(
                        s,
                        t1,
                        c1,
                        l,
                        *to,
                        spine,
                        k + 1,
                        pats.push(p),
                        id,
                        expected,
                        reason,
                        span,
                        arity,
                        f_arity,
                    );
                }
            },
            _ => {},
        }
    } else if k == spine.len() {
        if let Val::Pi(Icit::Impl, dom, cl) = ty {
            let u = underscore_state(t);
            if !(t.names.len() >= u32::MAX || !can_define_local(u.0, c) || l.0 >= u32::MAX || !clos_applies(
                cl,
                Val::App(Var::Local(l), Spine::Nil),
            )) {
                let d = define_state(u.0, c, u.1, NameInfo::Local(*dom));
                lemma_define_state_size(u.0, c, u.1, *dom);
                lemma_bounds_count_push(pats, PatV::Var(u.1, *dom));
                lemma_args_binds::<D>(
                    s,
                    d.0,
                    d.1,
                    Lvl((l.0 + 1) as u32),
                    apply_result(cl, Val::App(Var::Local(l), Spine::Nil)),
                    spine,
                    k,
                    pats.push(PatV::Var(u.1, *dom)),
                    id,
                    expected,
                    reason,
                    span,
                    arity,
                    f_arity,
                );
            }
        }
    }
}

// What elaboration puts in scope.
/// The variables pattern `p` binds, in order, with their types.
pub open spec fn patv_locals(p: PatV) -> Seq<(Name, VTy)>
    decreases p,
{
    match p {
        PatV::Var(n, ty) => seq![(n, ty)],
        PatV::Cons(_, _, ps) => patvs_locals(ps),
        _ => Seq::empty(),
    }
}

/// The variables the patterns `s` bind, in order, with their types.
pub open spec fn patvs_locals(s: Seq<PatV>) -> Seq<(Name, VTy)>
    decreases s,
{
    if s.len() == 0 {
        Seq::empty()
    } else {
        patvs_locals(s.subrange(0, s.len() - 1)) + patv_locals(s[s.len() - 1])
    }
}

proof fn lemma_patvs_locals_push(s: Seq<PatV>, p: PatV)
    ensures
        patvs_locals(s.push(p)) == patvs_locals(s) + patv_locals(p),
{
    assert(s.push(p).subrange(0, s.len() as int) =~= s);
}

proof fn lemma_pat_locals_view(p: Pat)
    ensures
        pat_locals(p) == patv_locals(pat_view(p)),
    decreases p,
{
    match p {
        Pat::Cons(_, _, v) => {
            assert(decreases_to!(p => v));
            assert(decreases_to!(v => v@));
            lemma_pats_locals_view(v@);
        },
        _ => {},
    }
}

proof fn lemma_pats_locals_view(s: Seq<Pat>)
    ensures
        pats_locals(s) == patvs_locals(pats_view(s)),
    decreases s,
{
    if s.len() > 0 {
        lemma_pats_view_index(s);
        lemma_pats_locals_view(s.subrange(0, s.len() - 1));
        lemma_pat_locals_view(s[s.len() - 1]);
        let v = pats_view(s);
        assert(v.subrange(0, v.len() - 1) =~= pats_view(s.subrange(0, s.len() - 1)));
    }
}

proof fn lemma_local_entries_single(n: Name, ty: VTy)
    ensures
        local_entries(seq![(n, ty)]) == seq![(n, NameInfo::Local(ty))],
{
    assert(seq![(n, ty)].drop_last() =~= Seq::<(Name, VTy)>::empty());
    assert(local_entries(Seq::<(Name, VTy)>::empty()) == Seq::<(Name, NameInfo)>::empty());
    assert(local_entries(seq![(n, ty)]) =~= seq![(n, NameInfo::Local(ty))]);
}

proof fn lemma_patv_locals_len(p: PatV)
    ensures
        patv_locals(p).len() == bound_count(p),
    decreases p,
{
    if let PatV::Cons(_, _, ps) = p {
        lemma_patvs_locals_len(ps);
    }
}

proof fn lemma_patvs_locals_len(s: Seq<PatV>)
    ensures
        patvs_locals(s).len() == bounds_count(s),
    decreases s,
{
    if s.len() > 0 {
        lemma_patvs_locals_len(s.subrange(0, s.len() - 1));
        lemma_patv_locals_len(s[s.len() - 1]);
    }
}

proof fn lemma_tables_linked(t: InternTables)
    requires
        tables_wf(t),
    ensures
        cxts_linked(t.cxts),
{
    assert forall|i: int| 0 <= i < t.cxts.len() implies (#[trigger] t.cxts[i] matches MaybeEntry::Yes(e) ==> e.rest.0
        < i) by {
        assert(cxt_entry_wf(t, t.cxts[i], i));
    }
}

proof fn lemma_all_pat_locals_view()
    ensures
        forall|p: Pat| #[trigger] pat_locals(p) == patv_locals(pat_view(p)),
{
    assert forall|p: Pat| #[trigger] pat_locals(p) == patv_locals(pat_view(p)) by {
        lemma_pat_locals_view(p);
    }
}

proof fn lemma_define_state_chain(t: InternTables, c: Cxt, name: Name, info: NameInfo)
    requires
        cxts_linked(t.cxts),
        c.0 < t.cxts.len(),
        t.cxts.len() < u32::MAX,
    ensures
        cxts_linked(define_state(t, c, name, info).0.cxts),
        define_state(t, c, name, info).1.0 < define_state(t, c, name, info).0.cxts.len(),
        chain(define_state(t, c, name, info).0.cxts, define_state(t, c, name, info).1) == seq![(name, info)]
            + chain(t.cxts, c),
{
    let e = defined_entry(t.cxts, c, name, info);
    let new = interned(t.cxts, e);
    let id = intern_id(t.cxts, e);
    if t.cxts.contains(e) {
        let j = choose|j: int| 0 <= j < t.cxts.len() && t.cxts[j] == e;
        assert(t.cxts[(j as nat) as int] == e);
    }
    assert(new[id as int] == e);
    assert((id as u32) as nat == id);
    assert forall|i: int| 0 <= i < new.len() implies (#[trigger] new[i] matches MaybeEntry::Yes(x) ==> x.rest.0
        < i) by {
        if i < t.cxts.len() {
            assert(new[i] == t.cxts[i]);
        }
    }
    lemma_chain_define(t.cxts, new, c, Cxt(id as u32), name, info);
}

/// Elaborating a pattern puts the variables it binds in scope, in order, each as a local
/// variable of its type, in front of what was in scope: the context that `Pat::add_locals`
/// builds from the pattern.
pub proof fn lemma_elab_pat_scope<D: PatElab>(
    s: D::Store,
    t: InternTables,
    c: Cxt,
    pre: PrePat,
    ty: VTy,
    reason: ReasonExpected,
)
    requires
        cxts_linked(t.cxts),
        c.0 < t.cxts.len(),
    ensures
        elab_pat_spec::<D>(s, t, c, pre, ty, reason) matches Some((Ok(p), t2, c2)) ==> {
            &&& cxts_linked(t2.cxts)
            &&& c2.0 < t2.cxts.len()
            &&& chain(t2.cxts, c2) == local_entries(patv_locals(p)) + chain(t.cxts, c)
        },
    decreases prepat_size(pre), 0nat,
{
    assert(local_entries(Seq::<(Name, VTy)>::empty()) + chain(t.cxts, c) =~= chain(t.cxts, c));
    match pre {
        PrePat::Var(_, n) => {
            if can_define_local(t, c) {
                lemma_define_state_chain(t, c, n, NameInfo::Local(ty));
                lemma_local_entries_single(n, ty);
            }
            lemma_app_scope::<D>(s, t, c, pre, Seq::empty(), ty, reason);
        },
        PrePat::App(_, _, _, _) => {
            lemma_sep_size(pre);
            lemma_app_scope::<D>(s, t, c, sep(pre).0, sep(pre).1, ty, reason);
        },
        PrePat::Dot(sp, h, m, a) => {
            lemma_args_seq_size(a);
            lemma_app_scope::<D>(s, t, c, PrePat::Dot(sp, h, m, PreArgs::Nil), args_seq(a), ty, reason);
        },
        PrePat::OrPat(_, x, y) => {
            lemma_elab_pat_scope::<D>(s, t, c, *x, ty, reason);
            if let Some((Ok(px), t1, c1)) = elab_pat_spec::<D>(s, t, c, *x, ty, reason) {
                lemma_elab_pat_binds::<D>(s, t, c, *x, ty, reason);
                lemma_patv_locals_len(px);
                if cxt_size(t1.cxts, c1) == cxt_size(t.cxts, c) {
                    assert(patv_locals(px) =~= Seq::<(Name, VTy)>::empty());
                    assert(chain(t1.cxts, c1) == chain(t.cxts, c));
                    lemma_elab_pat_scope::<D>(s, t1, c1, *y, ty, reason);
                    lemma_elab_pat_binds::<D>(s, t1, c1, *y, ty, reason);
                    if let Some((Ok(py), t2, c2)) = elab_pat_spec::<D>(s, t1, c1, *y, ty, reason) {
                        lemma_patv_locals_len(py);
                        if cxt_size(t2.cxts, c2) == cxt_size(t.cxts, c) {
                            assert(patv_locals(py) =~= Seq::<(Name, VTy)>::empty());
                        }
                    }
                }
            }
        },
        _ => {},
    }
}

/// Elaborating a constructor pattern puts the variables it binds in scope, in order.
pub proof fn lemma_app_scope<D: PatElab>(
    s: D::Store,
    t: InternTables,
    c: Cxt,
    head: PrePat,
    spine: Seq<(Icit, PrePat)>,
    expected: VTy,
    reason: ReasonExpected,
)
    requires
        cxts_linked(t.cxts),
        c.0 < t.cxts.len(),
    ensures
        elab_app_spec::<D>(s, t, c, head, spine, expected, reason) matches Some((Ok(p), t2, c2)) ==> {
            &&& cxts_linked(t2.cxts)
            &&& c2.0 < t2.cxts.len()
            &&& chain(t2.cxts, c2) == local_entries(patv_locals(p)) + chain(t.cxts, c)
        },
    decreases spine_size(spine), u32::MAX + 1,
{
    if let Some(Ok((Term::Var(Var::Cons(id)), cty))) = D::infer_answer(s, head, c) {
        if let Some(arity) = D::arity_answer(s, cty) {
            if explicit_count(spine) <= usize::MAX {
                assert(spine.subrange(0, spine.len() as int) =~= spine);
                assert(local_entries(patvs_locals(Seq::empty())) + chain(t.cxts, c) =~= chain(t.cxts, c));
                lemma_args_scope::<D>(
                    s,
                    t,
                    c,
                    cxt_size(t.cxts, c),
                    cty,
                    spine,
                    0,
                    Seq::empty(),
                    id,
                    expected,
                    reason,
                    app_span(head, spine),
                    arity,
                    explicit_count(spine) as usize,
                    chain(t.cxts, c),
                );
            }
        }
    }
}

/// Elaborating the arguments of a constructor pattern puts the variables they bind in
/// scope, in order, after those of the arguments before them (`pats`), which are in scope
/// in front of `base`.
pub proof fn lemma_args_scope<D: PatElab>(
    s: D::Store,
    t: InternTables,
    c: Cxt,
    l: Lvl,
    ty: VTy,
    spine: Seq<(Icit, PrePat)>,
    k: nat,
    pats: Seq<PatV>,
    id: DefId,
    expected: VTy,
    reason: ReasonExpected,
    span: Span,
    arity: usize,
    f_arity: usize,
    base: Seq<(Name, NameInfo)>,
)
    requires
        cxts_linked(t.cxts),
        c.0 < t.cxts.len(),
        chain(t.cxts, c) == local_entries(patvs_locals(pats)) + base,
    ensures
        elab_args_spec::<D>(s, t, c, l, ty, spine, k, pats, id, expected, reason, span, arity, f_arity) matches Some(
            (Ok(p), t2, c2),
        ) ==> {
            &&& cxts_linked(t2.cxts)
            &&& c2.0 < t2.cxts.len()
            &&& chain(t2.cxts, c2) == local_entries(patv_locals(p)) + base
        },
    decreases spine_size(spine.subrange(k as int, spine.len() as int)), u32::MAX - l.0,
{
    if k < spine.len() {
        let (i, pat) = spine[k as int];
        lemma_spine_size_elem(spine, k as int);
        match ty {
            Val::Pi(Icit::Impl, dom, cl) if i == Icit::Expl => {
                let u = underscore_state(t);
                if !(t.names.len() >= u32::MAX || !can_define_local(u.0, c) || l.0 >= u32::MAX || !clos_applies(
                    cl,
                    Val::App(Var::Local(l), Spine::Nil),
                )) {
                    let d = define_state(u.0, c, u.1, NameInfo::Local(*dom));
                    lemma_define_state_chain(u.0, c, u.1, NameInfo::Local(*dom));
                    lemma_patvs_locals_push(pats, PatV::Var(u.1, *dom));
                    lemma_local_entries_append(patvs_locals(pats), seq![(u.1, *dom)]);
                    lemma_local_entries_single(u.1, *dom);
                    assert(chain(d.0.cxts, d.1) =~= local_entries(patvs_locals(pats.push(PatV::Var(u.1, *dom))))
                        + base);
                    lemma_args_scope::<D>(
                        s,
                        d.0,
                        d.1,
                        Lvl((l.0 + 1) as u32),
                        apply_result(cl, Val::App(Var::Local(l), Spine::Nil)),
                        spine,
                        k,
                        pats.push(PatV::Var(u.1, *dom)),
                        id,
                        expected,
                        reason,
                        span,
                        arity,
                        f_arity,
                        base,
                    );
                }
            },
            Val::Pi(i2, dom, cl) if i == i2 => {
                lemma_elab_pat_scope::<D>(s, t, c, pat, *dom, reason);
                if let Some((Ok(p), t1, c1)) = elab_pat_spec::<D>(s, t, c, pat, *dom, reason) {
                    if !(l.0 >= u32::MAX || !clos_applies(cl, Val::App(Var::Local(l), Spine::Nil))) {
                        lemma_patvs_locals_push(pats, p);
                        lemma_local_entries_append(patvs_locals(pats), patv_locals(p));
                        assert(chain(t1.cxts, c1) =~= local_entries(patvs_locals(pats.push(p))) + base);
                        lemma_args_scope::<D>(
                            s,
                            t1,
                            c1,
                            Lvl((l.0 + 1) as u32),
                            apply_result(cl, Val::App(Var::Local(l), Spine::Nil)),
                            spine,
                            k + 1,
                            pats.push(p),
                            id,
                            expected,
                            reason,
                            span,
                            arity,
                            f_arity,
                            base,
                        );
                    }
                }
            },
            Val::Fun(from, to) if i == Icit::Expl => {
                lemma_elab_pat_scope::<D>(s, t, c, pat, *from, reason);
                if let Some((Ok(p), t1, c1)) = elab_pat_spec::<D>(s, t, c, pat, *from, reason) {
                    lemma_patvs_locals_push(pats, p);
                    lemma_local_entries_append(patvs_locals(pats), patv_locals(p));
                    assert(chain(t1.cxts, c1) =~= local_entries(patvs_locals(pats.push(p))) + base);
                    lemma_args_scope::<D>(
                        s,
                        t1,
                        c1,
                        l,
                        *to,
                        spine,
                        k + 1,
                        pats.push(p),
                        id,
                        expected,
                        reason,
                        span,
                        arity,
                        f_arity,
                        base,
                    );
                }
            },
            _ => {},
        }
    } else if k == spine.len() {
        if let Val::Pi(Icit::Impl, dom, cl) = ty {
            let u = underscore_state(t);
            if !(t.names.len() >= u32::MAX || !can_define_local(u.0, c) || l.0 >= u32::MAX || !clos_applies(
                cl,
                Val::App(Var::Local(l), Spine::Nil),
            )) {
                let d = define_state(u.0, c, u.1, NameInfo::Local(*dom));
                lemma_define_state_chain(u.0, c, u.1, NameInfo::Local(*dom));
                lemma_patvs_locals_push(pats, PatV::Var(u.1, *dom));
                lemma_local_entries_append(patvs_locals(pats), seq![(u.1, *dom)]);
                lemma_local_entries_single(u.1, *dom);
                assert(chain(d.0.cxts, d.1) =~= local_entries(patvs_locals(pats.push(PatV::Var(u.1, *dom))))
                    + base);
                lemma_args_scope::<D>(
                    s,
                    d.0,
                    d.1,
                    Lvl((l.0 + 1) as u32),
                    apply_result(cl, Val::App(Var::Local(l), Spine::Nil)),
                    spine,
                    k,
                    pats.push(PatV::Var(u.1, *dom)),
                    id,
                    expected,
                    reason,
                    span,
                    arity,
                    f_arity,
                    base,
                );
            }
        }
    }
}

} // verus!
