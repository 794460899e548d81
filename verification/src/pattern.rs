//! Patterns of `case` expressions, and what a list of patterns covers.

use crate::evaluate::{inline_result, inlines};
use crate::query::{
    chain, cxt_file, cxt_size, cxts_linked, extends, lemma_chain_define, lemma_interns_extends,
    lemma_resolve_chain, resolve, resolve_entries, Binding, Compiler, Cxt, DefError, DefId, ElabInfo,
    InternTables, Interner, MaybeEntry, Name, NameInfo, ScopeId,
};
use crate::term::{lit_text, Builtin, Env, Ix, Literal, Lvl, Spine, Term, VTy, Val, Var, Width};
use bit_set::BitSet;
use vstd::prelude::*;
use vstd::string::StringExecFns;

verus! {

broadcast use vstd::std_specs::vec::group_vec_axioms;

#[verifier::external_type_specification]
#[verifier::external_body]
#[verifier::reject_recursive_types(B)]
pub struct ExBitSet<B>(BitSet<B>);

/// The elements of a `BitSet`.
pub uninterp spec fn bit_set_elems(s: BitSet) -> Set<nat>;

/// `BitSet::new`: the empty set.
#[verifier::external_body]
fn bit_set_new() -> (s: BitSet)
    ensures
        bit_set_elems(s) == Set::<nat>::empty(),
{
    BitSet::new()
}

/// `BitSet::insert`: adds `value` to the set, and tells whether it was not there before.
/// The set's bit vector grows to `value + 1` bits, whose count must not overflow.
#[verifier::external_body]
fn bit_set_insert(s: &mut BitSet, value: usize) -> (fresh: bool)
    requires
        value < usize::MAX,
    ensures
        bit_set_elems(*final(s)) == bit_set_elems(*old(s)).insert(value as nat),
        fresh == !bit_set_elems(*old(s)).contains(value as nat),
{
    s.insert(value)
}

/// `BitSet::union_with`: adds every element of `other` to the set.
#[verifier::external_body]
fn bit_set_union_with(s: &mut BitSet, other: &BitSet)
    ensures
        bit_set_elems(*final(s)) == bit_set_elems(*old(s)).union(bit_set_elems(*other)),
{
    s.union_with(other)
}

/// `BitSet::clone`: a set with the same elements (the bit vector is copied).
#[verifier::external_body]
fn bit_set_clone(s: &BitSet) -> (r: BitSet)
    ensures
        bit_set_elems(r) == bit_set_elems(*s),
{
    s.clone()
}

/// `BitSet == BitSet`: whether the two sets have the same elements (their elements,
/// listed in increasing order, are compared).
#[verifier::external_body]
fn bit_set_eq(a: &BitSet, b: &BitSet) -> (r: bool)
    ensures
        r == (bit_set_elems(*a) == bit_set_elems(*b)),
{
    a == b
}

/// A pattern, elaborated.
#[derive(PartialEq, Eq, Hash, Debug)]
pub enum Pat {
    Any,
    Var(Name, Box<VTy>),
    Cons(DefId, Box<VTy>, Vec<Pat>),
    Or(Box<Pat>, Box<Pat>),
    Lit(Literal, Width),
    Bool(bool),
}

/// What a list of patterns covers of the values of a type.
#[derive(Debug)]
pub enum Cov {
    /// We covered everything, there's nothing left
    All,
    /// We didn't cover anything yet
    Nothing,
    /// We *did* cover these constructors
    Cons(Vec<(DefId, Vec<Cov>)>),
    /// We *did* cover these literals
    Lit(BitSet),
    /// we *did* cover this Bool
    Bool(bool),
}

/// The mathematical content of a `Cov`.
pub enum CovV {
    All,
    Nothing,
    Cons(Seq<(DefId, Seq<CovV>)>),
    Lit(Set<nat>),
    Bool(bool),
}

pub open spec fn cov_view(c: Cov) -> CovV
    decreases c,
{
    match c {
        Cov::All => CovV::All,
        Cov::Nothing => CovV::Nothing,
        Cov::Cons(v) => CovV::Cons(entries_view(v@)),
        Cov::Lit(s) => CovV::Lit(bit_set_elems(s)),
        Cov::Bool(b) => CovV::Bool(b),
    }
}

pub open spec fn entries_view(s: Seq<(DefId, Vec<Cov>)>) -> Seq<(DefId, Seq<CovV>)>
    decreases s,
{
    if s.len() == 0 {
        Seq::empty()
    } else {
        let last = s[s.len() - 1];
        entries_view(s.subrange(0, s.len() - 1)).push((last.0, covs_view(last.1@)))
    }
}

pub open spec fn covs_view(s: Seq<Cov>) -> Seq<CovV>
    decreases s,
{
    if s.len() == 0 {
        Seq::empty()
    } else {
        covs_view(s.subrange(0, s.len() - 1)).push(cov_view(s[s.len() - 1]))
    }
}

/// The covering of `a` and `b` together; `None` where they cover values of
/// different kinds, so that they cannot be put together.
pub open spec fn cov_or(a: CovV, b: CovV) -> Option<CovV>
    decreases b,
{
    match (a, b) {
        (CovV::All, _) => Some(CovV::All),
        (_, CovV::All) => Some(CovV::All),
        (CovV::Nothing, x) => Some(x),
        (x, CovV::Nothing) => Some(x),
        (CovV::Bool(x), CovV::Bool(y)) => Some(
            if x != y {
                CovV::All
            } else {
                CovV::Bool(x)
            },
        ),
        (CovV::Lit(s), CovV::Lit(t)) => Some(CovV::Lit(s.union(t))),
        (CovV::Cons(v), CovV::Cons(v2)) => match merge_entries(v, v2) {
            Some(w) => Some(CovV::Cons(w)),
            None => None,
        },
        _ => None,
    }
}

/// The entries `v` with each entry of `v2` merged in, in order.
pub open spec fn merge_entries(v: Seq<(DefId, Seq<CovV>)>, v2: Seq<(DefId, Seq<CovV>)>) -> Option<
    Seq<(DefId, Seq<CovV>)>,
>
    decreases v2,
{
    if v2.len() == 0 {
        Some(v)
    } else {
        match merge_entries(v, v2.subrange(0, v2.len() - 1)) {
            Some(w) => merge_entry(w, v2[v2.len() - 1]),
            None => None,
        }
    }
}

/// The first position at or after `i` of an entry for constructor `cons` in `v`.
pub open spec fn find_cons(v: Seq<(DefId, Seq<CovV>)>, cons: DefId, i: nat) -> Option<nat>
    decreases v.len() - i,
{
    if i >= v.len() {
        None
    } else if v[i as int].0 == cons {
        Some(i)
    } else {
        find_cons(v, cons, i + 1)
    }
}

/// The entries `v` with entry `e` merged in: where `v` has an entry for the same
/// constructor (the first one), the coverings of their arguments are put together
/// pairwise; otherwise `e` is added at the end.
pub open spec fn merge_entry(v: Seq<(DefId, Seq<CovV>)>, e: (DefId, Seq<CovV>)) -> Option<
    Seq<(DefId, Seq<CovV>)>,
>
    decreases e,
{
    match find_cons(v, e.0, 0) {
        Some(i) => match zip_or(v[i as int].1, e.1) {
            Some(z) => Some(v.update(i as int, (e.0, z))),
            None => None,
        },
        None => Some(v.push(e)),
    }
}

/// The coverings `xs[i]` and `ys[i]` put together, for each position of both.
pub open spec fn zip_or(xs: Seq<CovV>, ys: Seq<CovV>) -> Option<Seq<CovV>>
    decreases ys,
{
    if xs.len() == 0 || ys.len() == 0 {
        Some(Seq::empty())
    } else {
        match (cov_or(xs[0], ys[0]), zip_or(xs.subrange(1, xs.len() as int), ys.subrange(1, ys.len() as int))) {
            (Some(c), Some(r)) => Some(seq![c] + r),
            _ => None,
        }
    }
}

pub proof fn lemma_covs_view(s: Seq<Cov>)
    ensures
        covs_view(s).len() == s.len(),
        forall|i: int| 0 <= i < s.len() ==> #[trigger] covs_view(s)[i] == cov_view(s[i]),
    decreases s.len(),
{
    if s.len() > 0 {
        lemma_covs_view(s.subrange(0, s.len() - 1));
    }
}

pub proof fn lemma_entries_view(s: Seq<(DefId, Vec<Cov>)>)
    ensures
        entries_view(s).len() == s.len(),
        forall|i: int|
            0 <= i < s.len() ==> #[trigger] entries_view(s)[i] == (s[i].0, covs_view(s[i].1@)),
    decreases s.len(),
{
    if s.len() > 0 {
        lemma_entries_view(s.subrange(0, s.len() - 1));
    }
}

/// The number of constructors and arguments in a covering.
pub open spec fn cov_size(c: CovV) -> nat
    decreases c,
{
    match c {
        CovV::Cons(v) => 1 + entries_size(v),
        _ => 1,
    }
}

pub open spec fn entries_size(s: Seq<(DefId, Seq<CovV>)>) -> nat
    decreases s,
{
    if s.len() == 0 {
        0
    } else {
        entries_size(s.subrange(0, s.len() - 1)) + 1 + covs_size(s[s.len() - 1].1)
    }
}

pub open spec fn covs_size(s: Seq<CovV>) -> nat
    decreases s,
{
    if s.len() == 0 {
        0
    } else {
        covs_size(s.subrange(0, s.len() - 1)) + 1 + cov_size(s[s.len() - 1])
    }
}

pub proof fn lemma_entries_size_elem(s: Seq<(DefId, Seq<CovV>)>, k: int)
    requires
        0 <= k < s.len(),
    ensures
        covs_size(s[k].1) < entries_size(s),
    decreases s.len(),
{
    if k < s.len() - 1 {
        lemma_entries_size_elem(s.subrange(0, s.len() - 1), k);
    }
}

pub proof fn lemma_covs_size_elem(s: Seq<CovV>, k: int)
    requires
        0 <= k < s.len(),
    ensures
        cov_size(s[k]) < covs_size(s),
    decreases s.len(),
{
    if k < s.len() - 1 {
        lemma_covs_size_elem(s.subrange(0, s.len() - 1), k);
    }
}

/// A prefix of entries that merge in without failing merges in without failing.
pub proof fn lemma_merge_prefix(v: Seq<(DefId, Seq<CovV>)>, v2: Seq<(DefId, Seq<CovV>)>, k: nat)
    requires
        merge_entries(v, v2) is Some,
        k <= v2.len(),
    ensures
        merge_entries(v, v2.subrange(0, k as int)) is Some,
    decreases v2.len(),
{
    if k < v2.len() {
        lemma_merge_prefix(v, v2.subrange(0, v2.len() - 1), k);
        assert(v2.subrange(0, v2.len() - 1).subrange(0, k as int) =~= v2.subrange(0, k as int));
    } else {
        assert(v2.subrange(0, k as int) =~= v2);
    }
}

pub proof fn lemma_find_cons_skip(v: Seq<(DefId, Seq<CovV>)>, cons: DefId, i: nat)
    requires
        i <= v.len(),
        forall|j: int| 0 <= j < i ==> v[j].0 != cons,
    ensures
        find_cons(v, cons, 0) == find_cons(v, cons, i),
    decreases i,
{
    if i > 0 {
        lemma_find_cons_skip(v, cons, (i - 1) as nat);
    }
}

impl Cov {
    /// The covering of `self` and `other` together.
    pub fn or(self, other: Self) -> (r: Self)
        requires
            cov_or(cov_view(self), cov_view(other)) is Some,
        ensures
            cov_view(r) == cov_or(cov_view(self), cov_view(other))->Some_0,
        decreases cov_size(cov_view(other)),
    {
        match (self, other) {
            (Cov::All, _) => Cov::All,
            (_, Cov::All) => Cov::All,
            (Cov::Nothing, x) => x,
            (x, Cov::Nothing) => x,
            (Cov::Bool(x), Cov::Bool(y)) => {
                if x != y {
                    Cov::All
                } else {
                    Cov::Bool(x)
                }
            },
            (Cov::Lit(a), Cov::Lit(b)) => {
                let mut a = a;
                bit_set_union_with(&mut a, &b);
                Cov::Lit(a)
            },
            (Cov::Cons(v), Cov::Cons(v2)) => Cov::Cons(merge_cons(v, v2)),
            _ => vstd::pervasive::unreached(),
        }
    }
}

/// Merges the entries of `v2` into `v`, in order.
fn merge_cons(v: Vec<(DefId, Vec<Cov>)>, v2: Vec<(DefId, Vec<Cov>)>) -> (r: Vec<(DefId, Vec<Cov>)>)
    requires
        merge_entries(entries_view(v@), entries_view(v2@)) is Some,
    ensures
        entries_view(r@) == merge_entries(entries_view(v@), entries_view(v2@))->Some_0,
    decreases entries_size(entries_view(v2@)),
{
    let ghost vv = entries_view(v@);
    let ghost vv2 = entries_view(v2@);
    let ghost v2_0 = v2;
    proof {
        lemma_entries_view(v2@);
    }
    let mut v = v;
    let mut rest = v2;
    let ghost mut k: nat = 0;
    while rest.len() > 0
        invariant
            v2 == v2_0,
            k <= v2_0@.len(),
            rest@ == v2_0@.subrange(k as int, v2_0@.len() as int),
            vv2 == entries_view(v2_0@),
            vv2.len() == v2_0@.len(),
            forall|i: int| 0 <= i < v2_0@.len() ==> #[trigger] vv2[i] == (v2_0@[i].0, covs_view(v2_0@[i].1@)),
            merge_entries(vv, vv2) is Some,
            merge_entries(vv, vv2.subrange(0, k as int)) == Some(entries_view(v@)),
        decreases rest@.len(),
    {
        let ghost w = entries_view(v@);
        let ghost v_old = v@;
        proof {
            lemma_entries_view(v@);
            lemma_merge_prefix(vv, vv2, k + 1);
            assert(vv2.subrange(0, (k + 1) as int).subrange(0, k as int) =~= vv2.subrange(0, k as int));
            assert(vv2.subrange(0, (k + 1) as int)[k as int] == vv2[k as int]);
            assert(merge_entry(w, vv2[k as int]) is Some);
            assert(rest@[0] == v2_0@[k as int]);
        }
        let (cons, cov) = rest.remove(0);
        let mut idx: usize = 0;
        while idx < v.len() && v[idx].0 != cons
            invariant
                idx <= v@.len(),
                forall|j: int| 0 <= j < idx ==> v@[j].0 != cons,
            decreases v@.len() - idx,
        {
            idx += 1;
        }
        proof {
            lemma_find_cons_skip(w, cons, idx as nat);
            lemma_entries_size_elem(vv2, k as int);
        }
        if idx < v.len() {
            let (c, old) = v.remove(idx);
            proof {
                assert(covs_view(cov@) == vv2[k as int].1);
                assert(covs_size(covs_view(cov@)) < entries_size(entries_view(v2_0@)));
            }
            let merged = zip_covs(old, cov);
            v.insert(idx, (c, merged));
            proof {
                assert(v@ =~= v_old.update(idx as int, (c, merged)));
                lemma_entries_view(v@);
                assert(entries_view(v@) =~= w.update(idx as int, (cons, covs_view(merged@))));
            }
        } else {
            v.push((cons, cov));
            proof {
                lemma_entries_view(v@);
                assert(entries_view(v@) =~= w.push(vv2[k as int]));
            }
        }
        proof {
            k = k + 1;
            assert(rest@ =~= v2_0@.subrange(k as int, v2_0@.len() as int));
        }
    }
    proof {
        assert(vv2.subrange(0, k as int) =~= vv2);
    }
    v
}

/// Puts the coverings of `xs` and `ys` together pairwise.
fn zip_covs(xs: Vec<Cov>, ys: Vec<Cov>) -> (r: Vec<Cov>)
    requires
        zip_or(covs_view(xs@), covs_view(ys@)) is Some,
    ensures
        covs_view(r@) == zip_or(covs_view(xs@), covs_view(ys@))->Some_0,
    decreases covs_size(covs_view(ys@)),
{
    let ghost xv = covs_view(xs@);
    let ghost yv = covs_view(ys@);
    let ghost ys_0 = ys;
    proof {
        lemma_covs_view(xs@);
        lemma_covs_view(ys@);
    }
    let mut xl = xs;
    let mut yl = ys;
    let mut out: Vec<Cov> = Vec::new();
    let ghost mut k: int = 0;
    proof {
        assert(xv.subrange(0, xv.len() as int) =~= xv);
        assert(yv.subrange(0, yv.len() as int) =~= yv);
        assert(covs_view(out@) =~= Seq::<CovV>::empty());
        match zip_or(xv, yv) {
            Some(r) => {
                assert(Seq::<CovV>::empty() + r =~= r);
            },
            None => {},
        }
    }
    while xl.len() > 0 && yl.len() > 0
        invariant
            ys == ys_0,
            0 <= k,
            k <= xv.len() && k <= yv.len(),
            xl@.len() == xv.len() - k,
            yl@.len() == yv.len() - k,
            forall|i: int| 0 <= i < xl@.len() ==> #[trigger] cov_view(xl@[i]) == xv[k + i],
            forall|i: int| 0 <= i < yl@.len() ==> #[trigger] cov_view(yl@[i]) == yv[k + i],
            yv == covs_view(ys_0@),
            zip_or(xv, yv) is Some,
            zip_or(xv, yv) == match zip_or(xv.subrange(k, xv.len() as int), yv.subrange(k, yv.len() as int)) {
                Some(rest) => Some(covs_view(out@) + rest),
                None => None,
            },
        decreases yl@.len(),
    {
        let ghost xr = xv.subrange(k, xv.len() as int);
        let ghost yr = yv.subrange(k, yv.len() as int);
        let ghost out_old = covs_view(out@);
        let ghost out_seq = out@;
        proof {
            assert(xr.subrange(1, xr.len() as int) =~= xv.subrange(k + 1, xv.len() as int));
            assert(yr.subrange(1, yr.len() as int) =~= yv.subrange(k + 1, yv.len() as int));
            assert(zip_or(xr, yr) is Some);
            assert(cov_view(xl@[0]) == xr[0]);
            assert(cov_view(yl@[0]) == yr[0]);
            lemma_covs_size_elem(yv, k);
        }
        let x = xl.remove(0);
        let y = yl.remove(0);
        proof {
            assert(cov_view(y) == yv[k]);
            assert(cov_size(cov_view(y)) < covs_size(covs_view(ys_0@)));
        }
        let c = x.or(y);
        out.push(c);
        proof {
            assert(out@.subrange(0, out@.len() - 1) =~= out_seq);
            assert(covs_view(out@) =~= out_old.push(cov_view(c)));
            let r = zip_or(xv.subrange(k + 1, xv.len() as int), yv.subrange(k + 1, yv.len() as int))->Some_0;
            assert(out_old + (seq![cov_view(c)] + r) =~= covs_view(out@) + r);
            k = k + 1;
        }
    }
    proof {
        let xr = xv.subrange(k, xv.len() as int);
        let yr = yv.subrange(k, yv.len() as int);
        assert(xr.len() == 0 || yr.len() == 0);
        assert(covs_view(out@) + Seq::<CovV>::empty() =~= covs_view(out@));
    }
    out
}

/// What the elaborator knows of the type of the values a covering is about, as far as
/// simplifying the covering needs it.
#[derive(Debug)]
pub enum TyShape {
    /// A datatype: the constructors a covering of its values may mention, each with
    /// whether it is a candidate (whether its return type unifies with this type, so that
    /// it can build a value of it) and the types of its arguments, in order; the candidates
    /// come in the order of the datatype's scope.
    Data(Vec<(DefId, bool, Vec<TyShape>)>),
    /// A type that is not a datatype.
    Other,
}

/// Whether `r`, the elaboration of `id`, makes `id` a constructor: its term is the
/// constructor `id` itself.
pub open spec fn elaborates_to_cons(r: Option<Result<ElabInfo, DefError>>, id: DefId) -> bool {
    r matches Some(Ok(info)) && *info.term == Term::Var(Var::Cons(id))
}

/// The entries of the shape of a datatype whose namespace holds `members`: its
/// constructors, in order, the one at position `k` of the namespace with `unified[k]` and
/// `args[k]`.
pub open spec fn shape_entries<D: Compiler>(
    db: &D,
    members: Seq<(Name, DefId)>,
    unified: Seq<bool>,
    args: Seq<Vec<TyShape>>,
) -> Seq<(DefId, bool, Vec<TyShape>)>
    decreases members.len(),
{
    if members.len() == 0 {
        Seq::empty()
    } else {
        let k = members.len() - 1;
        let prev = shape_entries(db, members.drop_last(), unified, args);
        if elaborates_to_cons(db.spec_elaborate_def(members[k].1), members[k].1) {
            prev.push((members[k].1, unified[k], args[k]))
        } else {
            prev
        }
    }
}

/// The shape of a datatype whose namespace is `scope`: the members of the namespace that
/// are constructors (their elaboration is the constructor itself), in the order of the
/// namespace, the member at position `k` with `unified[k]` (whether its return type
/// unifies with the type at hand, which the elaborator answers) and `args[k]` (the shapes
/// of its arguments' types).
pub fn data_shape<D: Compiler>(scope: ScopeId, unified: &Vec<bool>, args: Vec<Vec<TyShape>>, db: &D) -> (r:
    TyShape)
    requires
        db.inv(),
        scope.0 < db.tables().scopes.len(),
        unified@.len() == db.tables().scopes[scope.0 as int].len(),
        args@.len() == db.tables().scopes[scope.0 as int].len(),
        forall|k: int|
            0 <= k < db.tables().scopes[scope.0 as int].len() ==> db.spec_elaborate_def(
                (#[trigger] db.tables().scopes[scope.0 as int][k]).1,
            ) is Some,
    ensures
        r matches TyShape::Data(v) && v@ == shape_entries(
            db,
            db.tables().scopes[scope.0 as int],
            unified@,
            args@,
        ),
{
    let members = db.lookup_intern_scope(scope);
    let ghost args0 = args@;
    let mut args = args;
    let mut out: Vec<(DefId, bool, Vec<TyShape>)> = Vec::new();
    let mut i: usize = 0;
    proof {
        assert(members@.take(0) =~= Seq::<(Name, DefId)>::empty());
        assert(args@.subrange(0, args@.len() as int) =~= args0);
    }
    while i < members.len()
        invariant
            members@ == db.tables().scopes[scope.0 as int],
            i <= members@.len(),
            unified@.len() == members@.len(),
            args0.len() == members@.len(),
            args@ == args0.subrange(i as int, args0.len() as int),
            forall|k: int| 0 <= k < members@.len() ==> db.spec_elaborate_def(#[trigger] members@[k].1) is Some,
            out@ == shape_entries(db, members@.take(i as int), unified@, args0),
        decreases members@.len() - i,
    {
        let id = members[i].1;
        let a = args.remove(0);
        proof {
            let pre = members@.take(i + 1);
            assert(pre.drop_last() =~= members@.take(i as int));
            assert(pre[i as int] == members@[i as int]);
            assert(args@ =~= args0.subrange(i + 1, args0.len() as int));
        }
        let is_cons = match db.elaborate_def(id) {
            Ok(info) => match &*info.term {
                Term::Var(Var::Cons(id2)) => *id2 == id,
                _ => false,
            },
            Err(_) => false,
        };
        if is_cons {
            out.push((id, unified[i], a));
        }
        i += 1;
    }
    proof {
        assert(members@.take(members@.len() as int) =~= members@);
    }
    TyShape::Data(out)
}

/// The first position of constructor `id` in `cands`, from position `i` on.
pub open spec fn cand_index(cands: Seq<(DefId, bool, Vec<TyShape>)>, id: DefId, i: nat) -> Option<nat>
    decreases cands.len() - i,
{
    if i >= cands.len() {
        None
    } else if cands[i as int].0 == id {
        Some(i)
    } else {
        cand_index(cands, id, i + 1)
    }
}

/// Covering `c` of the values of type `t`, simplified: a list of constructor entries that
/// covers each candidate constructor of the datatype completely (some entry for it has
/// all its arguments covered completely, once simplified) becomes `All`; the arguments of
/// each entry are simplified against the types of the constructor's arguments. `None` where
/// a list of constructor entries is about a type that is not a datatype, names a
/// constructor whose argument types the type does not give, or has more arguments than
/// its constructor.
pub open spec fn simplify_spec(c: CovV, t: TyShape) -> Option<CovV>
    decreases c,
{
    match c {
        CovV::Cons(v) => match t {
            TyShape::Data(cands) => match simplify_entries(v, cands@) {
                Some(v2) => Some(
                    if all_covered(cands@, v2) {
                        CovV::All
                    } else {
                        CovV::Cons(v2)
                    },
                ),
                None => None,
            },
            TyShape::Other => None,
        },
        _ => Some(c),
    }
}

pub open spec fn simplify_entries(v: Seq<(DefId, Seq<CovV>)>, cands: Seq<(DefId, bool, Vec<TyShape>)>) -> Option<
    Seq<(DefId, Seq<CovV>)>,
>
    decreases v,
{
    if v.len() == 0 {
        Some(Seq::empty())
    } else {
        let e = v[v.len() - 1];
        match simplify_entries(v.subrange(0, v.len() - 1), cands) {
            Some(w) => match cand_index(cands, e.0, 0) {
                Some(k) => match simplify_args(e.1, cands[k as int].2@) {
                    Some(a) => Some(w.push((e.0, a))),
                    None => None,
                },
                None => None,
            },
            None => None,
        }
    }
}

pub open spec fn simplify_args(xs: Seq<CovV>, ts: Seq<TyShape>) -> Option<Seq<CovV>>
    decreases xs,
{
    if xs.len() > ts.len() {
        None
    } else if xs.len() == 0 {
        Some(Seq::empty())
    } else {
        match (
            simplify_args(xs.subrange(0, xs.len() - 1), ts),
            simplify_spec(xs[xs.len() - 1], ts[xs.len() - 1]),
        ) {
            (Some(a), Some(c)) => Some(a.push(c)),
            _ => None,
        }
    }
}

/// Whether entry `e` covers its constructor completely.
pub open spec fn entry_complete(e: (DefId, Seq<CovV>)) -> bool {
    forall|i: int| 0 <= i < e.1.len() ==> #[trigger] e.1[i] is All
}

/// Whether `v` has an entry for constructor `id` that covers it completely.
pub open spec fn has_complete_entry(v: Seq<(DefId, Seq<CovV>)>, id: DefId) -> bool {
    exists|j: int| 0 <= j < v.len() && (#[trigger] v[j]).0 == id && entry_complete(v[j])
}

/// Whether every candidate constructor has an entry in `v` that covers it completely.
pub open spec fn all_covered(cands: Seq<(DefId, bool, Vec<TyShape>)>, v: Seq<(DefId, Seq<CovV>)>) -> bool {
    forall|k: int| 0 <= k < cands.len() && cands[k].1 ==> has_complete_entry(v, #[trigger] cands[k].0)
}

/// Simplifying a simplified covering changes nothing: simplifying twice is simplifying once.
pub proof fn lemma_simplify_idempotent(c: CovV, ty: TyShape)
    requires
        simplify_spec(c, ty) is Some,
    ensures
        simplify_spec(simplify_spec(c, ty)->Some_0, ty) == simplify_spec(c, ty),
    decreases c,
{
    if let CovV::Cons(v) = c {
        if let TyShape::Data(cands) = ty {
            let v2 = simplify_entries(v, cands@)->Some_0;
            if !all_covered(cands@, v2) {
                lemma_simplify_entries_idempotent(v, cands@);
            }
        }
    }
}

proof fn lemma_simplify_entries_idempotent(v: Seq<(DefId, Seq<CovV>)>, cands: Seq<(DefId, bool, Vec<TyShape>)>)
    requires
        simplify_entries(v, cands) is Some,
    ensures
        simplify_entries(simplify_entries(v, cands)->Some_0, cands) == simplify_entries(v, cands),
    decreases v,
{
    if v.len() > 0 {
        let init = v.subrange(0, v.len() - 1);
        let e = v[v.len() - 1];
        assert(decreases_to!(v => init));
        assert(decreases_to!(v => e));
        lemma_simplify_entries_idempotent(init, cands);
        let w0 = simplify_entries(init, cands)->Some_0;
        let k = cand_index(cands, e.0, 0)->Some_0;
        lemma_simplify_args_idempotent(e.1, cands[k as int].2@);
        let a = simplify_args(e.1, cands[k as int].2@)->Some_0;
        let w = w0.push((e.0, a));
        assert(w.subrange(0, w.len() - 1) =~= w0);
        assert(w[w.len() - 1] == (e.0, a));
    }
}

proof fn lemma_simplify_args_idempotent(xs: Seq<CovV>, ts: Seq<TyShape>)
    requires
        simplify_args(xs, ts) is Some,
    ensures
        simplify_args(xs, ts)->Some_0.len() == xs.len(),
        simplify_args(simplify_args(xs, ts)->Some_0, ts) == simplify_args(xs, ts),
    decreases xs,
{
    if xs.len() > 0 {
        let init = xs.subrange(0, xs.len() - 1);
        let x = xs[xs.len() - 1];
        assert(decreases_to!(xs => init));
        assert(decreases_to!(xs => x));
        lemma_simplify_args_idempotent(init, ts);
        lemma_simplify_idempotent(x, ts[xs.len() - 1]);
        let a0 = simplify_args(init, ts)->Some_0;
        let c = simplify_spec(x, ts[xs.len() - 1])->Some_0;
        let a = a0.push(c);
        assert(a.subrange(0, a.len() - 1) =~= a0);
        assert(a[a.len() - 1] == c);
    }
}

/// Simplifying leaves a covering that is no list of constructor entries as it is, whatever
/// the type.
pub proof fn lemma_simplify_keeps_others(c: CovV, t: TyShape)
    requires
        !(c is Cons),
    ensures
        simplify_spec(c, t) == Some(c),
{
}

/// The constructors of `cands` are distinct: a datatype lists each of its constructors once.
pub open spec fn cands_distinct(cands: Seq<(DefId, bool, Vec<TyShape>)>) -> bool {
    forall|a: int, b: int| 0 <= a < b < cands.len() ==> #[trigger] cands[a].0 != #[trigger] cands[b].0
}

proof fn lemma_cand_index_of(cands: Seq<(DefId, bool, Vec<TyShape>)>, k: int, i: nat)
    requires
        cands_distinct(cands),
        0 <= i <= k < cands.len(),
    ensures
        cand_index(cands, cands[k].0, i) == Some(k as nat),
    decreases k - i,
{
    if i < k {
        assert(cands[i as int].0 != cands[k].0);
        lemma_cand_index_of(cands, k, i + 1);
    }
}

proof fn lemma_cand_index_found(cands: Seq<(DefId, bool, Vec<TyShape>)>, id: DefId, i: nat)
    ensures
        cand_index(cands, id, i) matches Some(m) ==> m < cands.len() && cands[m as int].0 == id,
    decreases cands.len() - i,
{
    if i < cands.len() && cands[i as int].0 != id {
        lemma_cand_index_found(cands, id, i + 1);
    }
}

/// Simplifying the arguments of an entry simplifies each of them against the type of the
/// parameter at its position: the simplification exists exactly when each argument's does
/// (and there are no more arguments than parameters), and argument `i` of the result is
/// argument `i` simplified against parameter type `i`.
pub proof fn lemma_simplify_args_each(xs: Seq<CovV>, ts: Seq<TyShape>)
    ensures
        simplify_args(xs, ts) is Some <==> (xs.len() <= ts.len() && forall|i: int|
            0 <= i < xs.len() ==> #[trigger] simplify_spec(xs[i], ts[i]) is Some),
        simplify_args(xs, ts) matches Some(a) ==> {
            &&& a.len() == xs.len()
            &&& forall|i: int| 0 <= i < xs.len() ==> #[trigger] a[i] == simplify_spec(xs[i], ts[i])->Some_0
        },
    decreases xs.len(),
{
    if xs.len() > 0 && xs.len() <= ts.len() {
        let init = xs.subrange(0, xs.len() - 1);
        lemma_simplify_args_each(init, ts);
        assert forall|i: int| 0 <= i < init.len() implies #[trigger] init[i] == xs[i] by {}
        if (forall|i: int| 0 <= i < xs.len() ==> #[trigger] simplify_spec(xs[i], ts[i]) is Some) {
            assert forall|i: int| 0 <= i < init.len() implies #[trigger] simplify_spec(init[i], ts[i]) is Some by {
                assert(simplify_spec(xs[i], ts[i]) is Some);
            }
            assert(simplify_args(init, ts) is Some);
            assert(simplify_spec(xs[xs.len() - 1], ts[xs.len() - 1]) is Some);
        }
        if simplify_args(xs, ts) is Some {
            let a = simplify_args(xs, ts)->Some_0;
            let a0 = simplify_args(init, ts)->Some_0;
            assert forall|i: int| 0 <= i < xs.len() implies #[trigger] simplify_spec(xs[i], ts[i]) is Some && a[i]
                == simplify_spec(xs[i], ts[i])->Some_0 by {
                if i < xs.len() - 1 {
                    assert(a[i] == a0[i]);
                    assert(init[i] == xs[i]);
                    assert(simplify_spec(init[i], ts[i]) is Some);
                }
            }
        }
    }
}

/// Simplifying the entries of a covering keeps each entry's constructor, which the type
/// must list, and simplifies the entry's arguments against that constructor's parameter
/// types.
pub proof fn lemma_simplify_entries_each(v: Seq<(DefId, Seq<CovV>)>, cands: Seq<(DefId, bool, Vec<TyShape>)>)
    ensures
        simplify_entries(v, cands) matches Some(w) ==> {
            &&& w.len() == v.len()
            &&& forall|j: int|
                0 <= j < v.len() ==> {
                    &&& (#[trigger] w[j]).0 == v[j].0
                    &&& cand_index(cands, v[j].0, 0) is Some
                    &&& simplify_args(v[j].1, cands[cand_index(cands, v[j].0, 0)->Some_0 as int].2@) == Some(w[j].1)
                }
        },
    decreases v.len(),
{
    if v.len() > 0 {
        let init = v.subrange(0, v.len() - 1);
        lemma_simplify_entries_each(init, cands);
        if simplify_entries(v, cands) is Some {
            let w = simplify_entries(v, cands)->Some_0;
            let w0 = simplify_entries(init, cands)->Some_0;
            assert forall|j: int| 0 <= j < v.len() implies {
                &&& (#[trigger] w[j]).0 == v[j].0
                &&& cand_index(cands, v[j].0, 0) is Some
                &&& simplify_args(v[j].1, cands[cand_index(cands, v[j].0, 0)->Some_0 as int].2@) == Some(w[j].1)
            } by {
                if j < v.len() - 1 {
                    assert(w[j] == w0[j]);
                    assert(init[j] == v[j]);
                }
            }
        }
    }
}

/// A covering by constructor entries of the values of a datatype simplifies to `All`
/// exactly when every candidate constructor has an entry each of whose arguments,
/// simplified against the constructor's parameter type at its position, is `All`.
pub proof fn lemma_simplify_all_iff(v: Seq<(DefId, Seq<CovV>)>, cands: Vec<(DefId, bool, Vec<TyShape>)>)
    requires
        simplify_spec(CovV::Cons(v), TyShape::Data(cands)) is Some,
        cands_distinct(cands@),
    ensures
        simplify_spec(CovV::Cons(v), TyShape::Data(cands)) == Some(CovV::All) <==> forall|k: int|
            0 <= k < cands@.len() && cands@[k].1 ==> exists|j: int|
                0 <= j < v.len() && (#[trigger] v[j]).0 == #[trigger] cands@[k].0 && forall|i: int|
                    0 <= i < v[j].1.len() ==> #[trigger] simplify_spec(v[j].1[i], cands@[k].2@[i]) == Some(
                        CovV::All,
                    ),
{
    let cs = cands@;
    let w = simplify_entries(v, cs)->Some_0;
    lemma_simplify_entries_each(v, cs);
    // The constructor of entry j is candidate k.
    assert forall|j: int, k: int| 0 <= j < v.len() && 0 <= k < cs.len() && v[j].0 == cs[k].0 implies {
        &&& cand_index(cs, v[j].0, 0) == Some(k as nat)
        &&& w[j].1.len() == v[j].1.len()
        &&& forall|i: int| 0 <= i < v[j].1.len() ==> #[trigger] w[j].1[i] == simplify_spec(v[j].1[i], cs[k].2@[i])->Some_0
        &&& forall|i: int| 0 <= i < v[j].1.len() ==> #[trigger] simplify_spec(v[j].1[i], cs[k].2@[i]) is Some
    } by {
        lemma_cand_index_of(cs, k, 0);
        assert(w[j].0 == v[j].0);
        lemma_simplify_args_each(v[j].1, cs[k].2@);
    }
    let rhs = forall|k: int|
        0 <= k < cs.len() && cs[k].1 ==> exists|j: int|
            0 <= j < v.len() && (#[trigger] v[j]).0 == #[trigger] cs[k].0 && forall|i: int|
                0 <= i < v[j].1.len() ==> #[trigger] simplify_spec(v[j].1[i], cs[k].2@[i]) == Some(CovV::All);
    if rhs {
        assert forall|k: int| 0 <= k < cs.len() && cs[k].1 implies has_complete_entry(w, #[trigger] cs[k].0) by {
            let j = choose|j: int|
                0 <= j < v.len() && (#[trigger] v[j]).0 == #[trigger] cs[k].0 && forall|i: int|
                    0 <= i < v[j].1.len() ==> #[trigger] simplify_spec(v[j].1[i], cs[k].2@[i]) == Some(CovV::All);
            assert(w[j].0 == cs[k].0);
            assert forall|i: int| 0 <= i < w[j].1.len() implies #[trigger] w[j].1[i] is All by {
                assert(simplify_spec(v[j].1[i], cs[k].2@[i]) == Some(CovV::All));
            }
            assert(entry_complete(w[j]));
        }
        assert(all_covered(cs, w));
    }
    if all_covered(cs, w) {
        assert forall|k: int| 0 <= k < cs.len() && cs[k].1 implies exists|j: int|
            0 <= j < v.len() && (#[trigger] v[j]).0 == #[trigger] cs[k].0 && forall|i: int|
                0 <= i < v[j].1.len() ==> #[trigger] simplify_spec(v[j].1[i], cs[k].2@[i]) == Some(CovV::All) by {
            assert(has_complete_entry(w, cs[k].0));
            let j = choose|j: int| 0 <= j < w.len() && (#[trigger] w[j]).0 == cs[k].0 && entry_complete(w[j]);
            assert(v[j].0 == cs[k].0);
            assert forall|i: int| 0 <= i < v[j].1.len() implies #[trigger] simplify_spec(v[j].1[i], cs[k].2@[i])
                == Some(CovV::All) by {
                assert(w[j].1[i] is All);
            }
        }
    }
}

/// Where a covering by constructor entries does not simplify to `All`, each entry keeps
/// its constructor and each of its arguments becomes that argument simplified against the
/// constructor's parameter type at its position.
pub proof fn lemma_simplify_args_pointwise(v: Seq<(DefId, Seq<CovV>)>, cands: Vec<(DefId, bool, Vec<TyShape>)>)
    requires
        simplify_spec(CovV::Cons(v), TyShape::Data(cands)) matches Some(CovV::Cons(_)),
        cands_distinct(cands@),
    ensures
        simplify_spec(CovV::Cons(v), TyShape::Data(cands)) matches Some(CovV::Cons(w)) && w.len() == v.len()
            && forall|j: int, k: int|
            0 <= j < v.len() && 0 <= k < cands@.len() && (#[trigger] v[j]).0 == #[trigger] cands@[k].0 ==> {
                &&& w[j].0 == v[j].0
                &&& w[j].1.len() == v[j].1.len()
                &&& forall|i: int|
                    0 <= i < v[j].1.len() ==> #[trigger] w[j].1[i] == simplify_spec(v[j].1[i], cands@[k].2@[i])->Some_0
            },
{
    let cs = cands@;
    let w = simplify_entries(v, cs)->Some_0;
    lemma_simplify_entries_each(v, cs);
    assert forall|j: int, k: int| 0 <= j < v.len() && 0 <= k < cs.len() && (#[trigger] v[j]).0 == #[trigger] cs[k].0 implies {
        &&& w[j].0 == v[j].0
        &&& w[j].1.len() == v[j].1.len()
        &&& forall|i: int| 0 <= i < v[j].1.len() ==> #[trigger] w[j].1[i] == simplify_spec(v[j].1[i], cs[k].2@[i])->Some_0
    } by {
        lemma_cand_index_of(cs, k, 0);
        assert(w[j].0 == v[j].0);
        lemma_simplify_args_each(v[j].1, cs[k].2@);
    }
}

proof fn lemma_simplify_entries_prefix(
    v: Seq<(DefId, Seq<CovV>)>,
    cands: Seq<(DefId, bool, Vec<TyShape>)>,
    k: nat,
)
    requires
        simplify_entries(v, cands) is Some,
        k <= v.len(),
    ensures
        simplify_entries(v.subrange(0, k as int), cands) is Some,
    decreases v.len(),
{
    if k < v.len() {
        lemma_simplify_entries_prefix(v.subrange(0, v.len() - 1), cands, k);
        assert(v.subrange(0, v.len() - 1).subrange(0, k as int) =~= v.subrange(0, k as int));
    } else {
        assert(v.subrange(0, k as int) =~= v);
    }
}

proof fn lemma_simplify_args_prefix(xs: Seq<CovV>, ts: Seq<TyShape>, k: nat)
    requires
        simplify_args(xs, ts) is Some,
        k <= xs.len(),
    ensures
        simplify_args(xs.subrange(0, k as int), ts) is Some,
    decreases xs.len(),
{
    if k < xs.len() {
        lemma_simplify_args_prefix(xs.subrange(0, xs.len() - 1), ts, k);
        assert(xs.subrange(0, xs.len() - 1).subrange(0, k as int) =~= xs.subrange(0, k as int));
    } else {
        assert(xs.subrange(0, k as int) =~= xs);
    }
}

proof fn lemma_cand_index(cands: Seq<(DefId, bool, Vec<TyShape>)>, id: DefId, i: nat)
    ensures
        cand_index(cands, id, i) matches Some(k) ==> i <= k < cands.len() && cands[k as int].0 == id,
        cand_index(cands, id, i) is None ==> forall|j: int| i <= j < cands.len() ==> cands[j].0 != id,
    decreases cands.len() - i,
{
    if i < cands.len() && cands[i as int].0 != id {
        lemma_cand_index(cands, id, i + 1);
    }
}

impl Cov {
    /// Simplifies the covering of the values of type `ty`: where a list of constructor
    /// entries covers every constructor of the datatype completely, it becomes `All`.
    pub fn simplify(self, ty: &TyShape) -> (r: Cov)
        requires
            simplify_spec(cov_view(self), *ty) is Some,
        ensures
            cov_view(r) == simplify_spec(cov_view(self), *ty)->Some_0,
        decreases cov_size(cov_view(self)),
    {
        match self {
            Cov::Cons(covs) => match ty {
                TyShape::Data(cands) => {
                    let v2 = simplify_cons(covs, cands);
                    if covers_all(cands, &v2) {
                        Cov::All
                    } else {
                        Cov::Cons(v2)
                    }
                },
                TyShape::Other => vstd::pervasive::unreached(),
            },
            other => other,
        }
    }
}

/// Simplifies the arguments of each entry against the types of its constructor's arguments.
fn simplify_cons(v: Vec<(DefId, Vec<Cov>)>, cands: &Vec<(DefId, bool, Vec<TyShape>)>) -> (r: Vec<(DefId, Vec<Cov>)>)
    requires
        simplify_entries(entries_view(v@), cands@) is Some,
    ensures
        entries_view(r@) == simplify_entries(entries_view(v@), cands@)->Some_0,
    decreases entries_size(entries_view(v@)),
{
    let ghost vv = entries_view(v@);
    let ghost v_0 = v;
    proof {
        lemma_entries_view(v@);
        assert(vv.subrange(0, 0) =~= Seq::<(DefId, Seq<CovV>)>::empty());
    }
    let mut rest = v;
    let mut out: Vec<(DefId, Vec<Cov>)> = Vec::new();
    let ghost mut k: nat = 0;
    while rest.len() > 0
        invariant
            v == v_0,
            k <= v_0@.len(),
            rest@ == v_0@.subrange(k as int, v_0@.len() as int),
            vv == entries_view(v_0@),
            vv.len() == v_0@.len(),
            forall|i: int| 0 <= i < v_0@.len() ==> #[trigger] vv[i] == (v_0@[i].0, covs_view(v_0@[i].1@)),
            simplify_entries(vv, cands@) is Some,
            simplify_entries(vv.subrange(0, k as int), cands@) == Some(entries_view(out@)),
        decreases rest@.len(),
    {
        let ghost out_old = out@;
        proof {
            lemma_simplify_entries_prefix(vv, cands@, k + 1);
            let pre = vv.subrange(0, (k + 1) as int);
            assert(pre.subrange(0, pre.len() - 1) =~= vv.subrange(0, k as int));
            assert(pre[pre.len() - 1] == vv[k as int]);
            assert(rest@[0] == v_0@[k as int]);
            lemma_entries_size_elem(vv, k as int);
        }
        let (id, args) = rest.remove(0);
        proof {
            assert(covs_view(args@) == vv[k as int].1);
            assert(covs_size(covs_view(args@)) < entries_size(entries_view(v@)));
        }
        let mut c: usize = 0;
        while c < cands.len() && cands[c].0 != id
            invariant
                c <= cands@.len(),
                forall|j: int| 0 <= j < c ==> cands@[j].0 != id,
            decreases cands@.len() - c,
        {
            c += 1;
        }
        proof {
            lemma_cand_index(cands@, id, 0);
            if c < cands@.len() {
                assert(cand_index(cands@, id, 0) == Some(c as nat)) by {
                    lemma_cand_skip(cands@, id, c as nat);
                }
            } else {
                assert(cand_index(cands@, id, 0) is None) by {
                    lemma_cand_skip(cands@, id, c as nat);
                }
            }
        }
        let args2 = simplify_covs(args, &cands[c].2);
        out.push((id, args2));
        proof {
            assert(out@.subrange(0, out@.len() - 1) =~= out_old);
            lemma_entries_view(out@);
            lemma_entries_view(out_old);
            assert(entries_view(out@) =~= entries_view(out_old).push((id, covs_view(args2@))));
            k = k + 1;
        }
    }
    proof {
        assert(vv.subrange(0, k as int) =~= vv);
    }
    out
}

proof fn lemma_cand_skip(cands: Seq<(DefId, bool, Vec<TyShape>)>, id: DefId, i: nat)
    requires
        i <= cands.len(),
        forall|j: int| 0 <= j < i ==> cands[j].0 != id,
    ensures
        cand_index(cands, id, 0) == cand_index(cands, id, i),
    decreases i,
{
    if i > 0 {
        lemma_cand_skip(cands, id, (i - 1) as nat);
    }
}

/// Simplifies each covering of `xs` against the type at the same position of `ts`.
fn simplify_covs(xs: Vec<Cov>, ts: &Vec<TyShape>) -> (r: Vec<Cov>)
    requires
        simplify_args(covs_view(xs@), ts@) is Some,
    ensures
        covs_view(r@) == simplify_args(covs_view(xs@), ts@)->Some_0,
    decreases covs_size(covs_view(xs@)),
{
    let ghost xv = covs_view(xs@);
    let ghost xs_0 = xs;
    proof {
        lemma_covs_view(xs@);
        assert(xv.subrange(0, 0) =~= Seq::<CovV>::empty());
        assert(xv.len() <= ts@.len());
    }
    let n = xs.len();
    let mut rest = xs;
    let mut out: Vec<Cov> = Vec::new();
    let mut i: usize = 0;
    while rest.len() > 0
        invariant
            xs == xs_0,
            n == xs_0@.len(),
            i <= xs_0@.len(),
            xv.len() <= ts@.len(),
            rest@ == xs_0@.subrange(i as int, xs_0@.len() as int),
            xv == covs_view(xs_0@),
            xv.len() == xs_0@.len(),
            forall|j: int| 0 <= j < xs_0@.len() ==> #[trigger] xv[j] == cov_view(xs_0@[j]),
            simplify_args(xv, ts@) is Some,
            simplify_args(xv.subrange(0, i as int), ts@) == Some(covs_view(out@)),
        decreases rest@.len(),
    {
        let ghost out_old = out@;
        proof {
            lemma_simplify_args_prefix(xv, ts@, (i + 1) as nat);
            let pre = xv.subrange(0, i + 1);
            assert(pre.subrange(0, pre.len() - 1) =~= xv.subrange(0, i as int));
            assert(pre[pre.len() - 1] == xv[i as int]);
            assert(rest@[0] == xs_0@[i as int]);
            lemma_covs_size_elem(xv, i as int);
        }
        let x = rest.remove(0);
        proof {
            assert(cov_view(x) == xv[i as int]);
            assert(cov_size(cov_view(x)) < covs_size(covs_view(xs@)));
        }
        let c = x.simplify(&ts[i]);
        out.push(c);
        proof {
            assert(out@.subrange(0, out@.len() - 1) =~= out_old);
            assert(covs_view(out@) =~= covs_view(out_old).push(cov_view(c)));
            assert(i < xs_0@.len());
        }
        i += 1;
    }
    proof {
        assert(xv.subrange(0, i as int) =~= xv);
    }
    out
}

/// Whether every candidate constructor has an entry in `v` that covers it completely.
fn covers_all(cands: &Vec<(DefId, bool, Vec<TyShape>)>, v: &Vec<(DefId, Vec<Cov>)>) -> (b: bool)
    ensures
        b == all_covered(cands@, entries_view(v@)),
{
    let ghost ev = entries_view(v@);
    proof {
        lemma_entries_view(v@);
    }
    let mut k: usize = 0;
    while k < cands.len()
        invariant
            k <= cands@.len(),
            ev == entries_view(v@),
            ev.len() == v@.len(),
            forall|i: int| 0 <= i < v@.len() ==> #[trigger] ev[i] == (v@[i].0, covs_view(v@[i].1@)),
            forall|kk: int| 0 <= kk < k && cands@[kk].1 ==> has_complete_entry(ev, #[trigger] cands@[kk].0),
        decreases cands@.len() - k,
    {
        if !cands[k].1 {
            k += 1;
            continue;
        }
        let id = cands[k].0;
        let mut j: usize = 0;
        let mut found = false;
        while j < v.len() && !found
            invariant
                j <= v@.len(),
                ev == entries_view(v@),
                ev.len() == v@.len(),
                forall|i: int| 0 <= i < v@.len() ==> #[trigger] ev[i] == (v@[i].0, covs_view(v@[i].1@)),
                found ==> has_complete_entry(ev, id),
                !found ==> forall|jj: int|
                    0 <= jj < j ==> !(#[trigger] ev[jj].0 == id && entry_complete(ev[jj])),
            decreases v@.len() - j + if found {
                0int
            } else {
                1int
            },
        {
            if v[j].0 == id {
                let args = &v[j].1;
                proof {
                    lemma_covs_view(args@);
                }
                let mut a: usize = 0;
                while a < args.len() && matches!(args[a], Cov::All)
                    invariant
                        a <= args@.len(),
                        forall|i: int| 0 <= i < a ==> cov_view(#[trigger] args@[i]) is All,
                    decreases args@.len() - a,
                {
                    a += 1;
                }
                if a == args.len() {
                    assert(ev[j as int].0 == id);
                    assert(entry_complete(ev[j as int])) by {
                        assert forall|i: int| 0 <= i < ev[j as int].1.len() implies #[trigger] ev[j as int].1[i] is All by {
                            assert(ev[j as int].1[i] == cov_view(args@[i]));
                        }
                    }
                    found = true;
                } else {
                    assert(!entry_complete(ev[j as int])) by {
                        assert(ev[j as int].1[a as int] == cov_view(args@[a as int]));
                    }
                    j += 1;
                }
            } else {
                j += 1;
            }
        }
        if !found {
            proof {
                assert(!has_complete_entry(ev, id));
                assert(!all_covered(cands@, ev)) by {
                    if all_covered(cands@, ev) {
                        assert(has_complete_entry(ev, cands@[k as int].0));
                    }
                }
            }
            return false;
        }
        k += 1;
    }
    true
}

impl Cov {
    pub fn copy(&self) -> (r: Cov)
        ensures
            cov_view(r) == cov_view(*self),
        decreases cov_size(cov_view(*self)),
    {
        match self {
            Cov::All => Cov::All,
            Cov::Nothing => Cov::Nothing,
            Cov::Lit(s) => Cov::Lit(bit_set_clone(s)),
            Cov::Bool(b) => Cov::Bool(*b),
            Cov::Cons(v) => {
                let ghost ev = entries_view(v@);
                proof {
                    lemma_entries_view(v@);
                }
                let mut out: Vec<(DefId, Vec<Cov>)> = Vec::new();
                let mut k: usize = 0;
                while k < v.len()
                    invariant
                        k <= v@.len(),
                        ev == entries_view(v@),
                        ev.len() == v@.len(),
                        cov_view(*self) == CovV::Cons(ev),
                        forall|i: int| 0 <= i < v@.len() ==> #[trigger] ev[i] == (v@[i].0, covs_view(v@[i].1@)),
                        entries_view(out@) == ev.subrange(0, k as int),
                    decreases v@.len() - k,
                {
                    let ghost out_old = out@;
                    let args = &v[k].1;
                    proof {
                        lemma_entries_size_elem(ev, k as int);
                        lemma_covs_view(args@);
                    }
                    let mut a2: Vec<Cov> = Vec::new();
                    let mut i: usize = 0;
                    while i < args.len()
                        invariant
                            i <= args@.len(),
                            covs_size(covs_view(args@)) < entries_size(ev),
                            cov_view(*self) == CovV::Cons(ev),
                            covs_view(args@).len() == args@.len(),
                            forall|j: int| 0 <= j < args@.len() ==> #[trigger] covs_view(args@)[j] == cov_view(args@[j]),
                            covs_view(a2@) == covs_view(args@).subrange(0, i as int),
                        decreases args@.len() - i,
                    {
                        let ghost a_old = a2@;
                        proof {
                            lemma_covs_size_elem(covs_view(args@), i as int);
                        }
                        let c = args[i].copy();
                        a2.push(c);
                        proof {
                            assert(a2@.subrange(0, a2@.len() - 1) =~= a_old);
                            assert(covs_view(a2@) =~= covs_view(args@).subrange(0, i + 1));
                        }
                        i += 1;
                    }
                    proof {
                        assert(covs_view(args@).subrange(0, i as int) =~= covs_view(args@));
                    }
                    out.push((v[k].0, a2));
                    proof {
                        assert(out@.subrange(0, out@.len() - 1) =~= out_old);
                        assert(entries_view(out@) =~= ev.subrange(0, k + 1));
                    }
                    k += 1;
                }
                proof {
                    assert(ev.subrange(0, k as int) =~= ev);
                }
                Cov::Cons(out)
            },
        }
    }

    /// Whether the two coverings are the same.
    pub fn same(&self, other: &Cov) -> (r: bool)
        ensures
            r == (cov_view(*self) == cov_view(*other)),
        decreases cov_size(cov_view(*self)),
    {
        match (self, other) {
            (Cov::All, Cov::All) => true,
            (Cov::Nothing, Cov::Nothing) => true,
            (Cov::Bool(a), Cov::Bool(b)) => *a == *b,
            (Cov::Lit(a), Cov::Lit(b)) => bit_set_eq(a, b),
            (Cov::Cons(v), Cov::Cons(w)) => {
                let ghost ev = entries_view(v@);
                let ghost ew = entries_view(w@);
                proof {
                    lemma_entries_view(v@);
                    lemma_entries_view(w@);
                }
                if v.len() != w.len() {
                    return false;
                }
                let mut k: usize = 0;
                while k < v.len()
                    invariant
                        k <= v@.len(),
                        v@.len() == w@.len(),
                        ev == entries_view(v@),
                        ew == entries_view(w@),
                        ev.len() == v@.len(),
                        ew.len() == w@.len(),
                        cov_view(*self) == CovV::Cons(ev),
                        cov_view(*other) == CovV::Cons(ew),
                        forall|i: int| 0 <= i < v@.len() ==> #[trigger] ev[i] == (v@[i].0, covs_view(v@[i].1@)),
                        forall|i: int| 0 <= i < w@.len() ==> #[trigger] ew[i] == (w@[i].0, covs_view(w@[i].1@)),
                        forall|i: int| 0 <= i < k ==> #[trigger] ev[i] == ew[i],
                    decreases v@.len() - k,
                {
                    if v[k].0 != w[k].0 {
                        assert(ev[k as int] != ew[k as int]);
                        return false;
                    }
                    let xs = &v[k].1;
                    let ys = &w[k].1;
                    proof {
                        lemma_entries_size_elem(ev, k as int);
                        lemma_covs_view(xs@);
                        lemma_covs_view(ys@);
                    }
                    if xs.len() != ys.len() {
                        assert(ev[k as int].1.len() != ew[k as int].1.len());
                        return false;
                    }
                    let mut i: usize = 0;
                    while i < xs.len()
                        invariant
                            i <= xs@.len(),
                            xs@.len() == ys@.len(),
                            covs_size(covs_view(xs@)) < entries_size(ev),
                            cov_view(*self) == CovV::Cons(ev),
                            cov_view(*other) == CovV::Cons(ew),
                            k < ev.len() && k < ew.len(),
                            ev[k as int].1 == covs_view(xs@),
                            ew[k as int].1 == covs_view(ys@),
                            covs_view(xs@).len() == xs@.len(),
                            covs_view(ys@).len() == ys@.len(),
                            forall|j: int| 0 <= j < xs@.len() ==> #[trigger] covs_view(xs@)[j] == cov_view(xs@[j]),
                            forall|j: int| 0 <= j < ys@.len() ==> #[trigger] covs_view(ys@)[j] == cov_view(ys@[j]),
                            forall|j: int| 0 <= j < i ==> #[trigger] covs_view(xs@)[j] == covs_view(ys@)[j],
                        decreases xs@.len() - i,
                    {
                        proof {
                            lemma_covs_size_elem(covs_view(xs@), i as int);
                        }
                        if !xs[i].same(&ys[i]) {
                            assert(covs_view(xs@)[i as int] != covs_view(ys@)[i as int]);
                            assert(ev[k as int].1 != ew[k as int].1);
                            return false;
                        }
                        i += 1;
                    }
                    proof {
                        assert(covs_view(xs@) =~= covs_view(ys@));
                    }
                    k += 1;
                }
                proof {
                    assert(ev =~= ew);
                }
                true
            },
            _ => false,
        }
    }
}

/// The covering after each of the patterns `ps` of a `case` expression, in turn, of the
/// values of type `ty`: nothing before the first case; after each case, the covering
/// before it put together with what its pattern covers, simplified. `None` where a
/// pattern's covering, putting it together, or simplifying fails.
pub open spec fn cases_cov(ps: Seq<Pat>, ty: TyShape) -> Option<CovV>
    decreases ps.len(),
{
    if ps.len() == 0 {
        Some(CovV::Nothing)
    } else {
        match cases_cov(ps.subrange(0, ps.len() - 1), ty) {
            Some(last) => match pat_cov(ps[ps.len() - 1]) {
                Some(pc) => match cov_or(last, pc) {
                    Some(c) => simplify_spec(c, ty),
                    None => None,
                },
                None => None,
            },
            None => None,
        }
    }
}

proof fn lemma_cases_cov_prefix(ps: Seq<Pat>, ty: TyShape, k: nat)
    requires
        cases_cov(ps, ty) is Some,
        k <= ps.len(),
    ensures
        cases_cov(ps.subrange(0, k as int), ty) is Some,
    decreases ps.len(),
{
    if k < ps.len() {
        lemma_cases_cov_prefix(ps.subrange(0, ps.len() - 1), ty, k);
        assert(ps.subrange(0, ps.len() - 1).subrange(0, k as int) =~= ps.subrange(0, k as int));
    } else {
        assert(ps.subrange(0, k as int) =~= ps);
    }
}

/// The coverage decision of a `case` expression whose patterns are `pats`, on values of
/// type `ty`: for each case, whether it is redundant (the covering is the same after it as
/// before it), and the covering after the last case, which is `All` where the cases are
/// exhaustive.
pub fn case_coverage(pats: &Vec<Pat>, ty: &TyShape) -> (r: (Vec<bool>, Cov))
    requires
        cases_cov(pats@, *ty) is Some,
    ensures
        r.0@.len() == pats@.len(),
        forall|i: int|
            0 <= i < pats@.len() ==> #[trigger] r.0@[i] == (cases_cov(pats@.subrange(0, i + 1), *ty)
                == cases_cov(pats@.subrange(0, i), *ty)),
        cov_view(r.1) == cases_cov(pats@, *ty)->Some_0,
{
    let mut last = Cov::Nothing;
    let mut redundant: Vec<bool> = Vec::new();
    let mut i: usize = 0;
    proof {
        assert(pats@.subrange(0, 0) =~= Seq::<Pat>::empty());
    }
    while i < pats.len()
        invariant
            i <= pats@.len(),
            cases_cov(pats@, *ty) is Some,
            cases_cov(pats@.subrange(0, i as int), *ty) == Some(cov_view(last)),
            redundant@.len() == i,
            forall|j: int|
                0 <= j < i ==> #[trigger] redundant@[j] == (cases_cov(pats@.subrange(0, j + 1), *ty)
                    == cases_cov(pats@.subrange(0, j), *ty)),
        decreases pats@.len() - i,
    {
        let ghost red_old = redundant@;
        proof {
            lemma_cases_cov_prefix(pats@, *ty, (i + 1) as nat);
            let pre = pats@.subrange(0, i + 1);
            assert(pre.subrange(0, pre.len() - 1) =~= pats@.subrange(0, i as int));
            assert(pre[pre.len() - 1] == pats@[i as int]);
        }
        let c = last.copy().or(pats[i].cov()).simplify(ty);
        redundant.push(c.same(&last));
        last = c;
        i += 1;
        proof {
            assert forall|j: int| 0 <= j < i implies #[trigger] redundant@[j] == (cases_cov(
                pats@.subrange(0, j + 1),
                *ty,
            ) == cases_cov(pats@.subrange(0, j), *ty)) by {
                if j < i - 1 {
                    assert(redundant@[j] == red_old[j]);
                }
            }
        }
    }
    proof {
        assert(pats@.subrange(0, i as int) =~= pats@);
    }
    (redundant, last)
}

/// What a pattern covers; `None` where its alternatives cover values of different kinds,
/// or where it holds a literal whose bits are all ones (which no set of literals can hold).
pub open spec fn pat_cov(p: Pat) -> Option<CovV>
    decreases p,
{
    match p {
        Pat::Any => Some(CovV::All),
        Pat::Var(_, _) => Some(CovV::All),
        Pat::Cons(id, _, v) => match pats_cov(v@) {
            Some(cs) => Some(CovV::Cons(seq![(id, cs)])),
            None => None,
        },
        Pat::Or(x, y) => match (pat_cov(*x), pat_cov(*y)) {
            (Some(a), Some(b)) => cov_or(a, b),
            _ => None,
        },
        Pat::Lit(l, _) => if l.spec_to_usize() < usize::MAX {
            Some(CovV::Lit(Set::empty().insert(l.spec_to_usize() as nat)))
        } else {
            None
        },
        Pat::Bool(b) => Some(CovV::Bool(b)),
    }
}

/// What each of the patterns `s` covers.
pub open spec fn pats_cov(s: Seq<Pat>) -> Option<Seq<CovV>>
    decreases s,
{
    if s.len() == 0 {
        Some(Seq::empty())
    } else {
        match (pats_cov(s.subrange(0, s.len() - 1)), pat_cov(s[s.len() - 1])) {
            (Some(r), Some(c)) => Some(r.push(c)),
            _ => None,
        }
    }
}

pub proof fn lemma_pats_cov_prefix(s: Seq<Pat>, i: int)
    requires
        pats_cov(s) is Some,
        0 <= i < s.len(),
    ensures
        pats_cov(s.subrange(0, i)) is Some,
        pat_cov(s[i]) is Some,
    decreases s.len(),
{
    if i < s.len() - 1 {
        lemma_pats_cov_prefix(s.subrange(0, s.len() - 1), i);
        assert(s.subrange(0, s.len() - 1).subrange(0, i) =~= s.subrange(0, i));
    }
}

impl Pat {
    /// What the pattern covers of the values it matches against.
    pub fn cov(&self) -> (c: Cov)
        requires
            pat_cov(*self) is Some,
        ensures
            cov_view(c) == pat_cov(*self)->Some_0,
        decreases self,
    {
        match self {
            Pat::Any => Cov::All,
            Pat::Var(_, _) => Cov::All,
            Pat::Cons(id, ty, v) => {
                let mut covs: Vec<Cov> = Vec::new();
                let mut i: usize = 0;
                proof {
                    assert(v@.subrange(0, 0) =~= Seq::<Pat>::empty());
                    assert(covs_view(covs@) =~= Seq::<CovV>::empty());
                }
                while i < v.len()
                    invariant
                        *self == Pat::Cons(*id, *ty, *v),
                        i <= v@.len(),
                        pats_cov(v@) is Some,
                        pats_cov(v@.subrange(0, i as int)) == Some(covs_view(covs@)),
                    decreases v@.len() - i,
                {
                    proof {
                        lemma_pats_cov_prefix(v@, i as int);
                        assert(v@.subrange(0, i + 1).subrange(0, i as int) =~= v@.subrange(0, i as int));
                    }
                    let ghost before = covs@;
                    proof {
                        assert(decreases_to!(*self => (*self)->Cons_2));
                        assert(decreases_to!(*v => v@));
                        assert(decreases_to!(v@ => v@[i as int]));
                        assert(decreases_to!(*self => v@[i as int]));
                    }
                    let c = v[i].cov();
                    covs.push(c);
                    proof {
                        assert(covs@.subrange(0, covs@.len() - 1) =~= before);
                    }
                    i += 1;
                }
                proof {
                    assert(v@.subrange(0, v@.len() as int) =~= v@);
                }
                let mut entries: Vec<(DefId, Vec<Cov>)> = Vec::new();
                entries.push((*id, covs));
                proof {
                    lemma_entries_view(entries@);
                    assert(entries_view(entries@) =~= seq![(*id, covs_view(covs@))]);
                }
                Cov::Cons(entries)
            },
            Pat::Or(x, y) => {
                let a = x.cov();
                let b = y.cov();
                a.or(b)
            },
            Pat::Lit(l, _) => {
                let mut s = bit_set_new();
                bit_set_insert(&mut s, l.to_usize());
                Cov::Lit(s)
            },
            Pat::Bool(b) => Cov::Bool(*b),
        }
    }
}

/// The outcome of matching a value against a pattern.
pub enum MatchOutcome {
    /// The value is not of a kind the pattern can be matched against.
    Stuck,
    /// The value does not match.
    NoMatch,
    /// The value matches: the environment with the values of the pattern's variables, in order, on top.
    Bound(Env),
}

/// The arguments of a spine, the first first.
pub open spec fn spine_args(sp: Spine) -> Seq<Val>
    decreases sp,
{
    match sp {
        Spine::Nil => Seq::empty(),
        Spine::Snoc(rest, _, x) => spine_args(*rest).push(*x),
    }
}

/// Matching value `v` against pattern `p`, with the variables bound so far in `env`.
pub open spec fn match_spec<D: Compiler>(db: &D, p: Pat, v: Val, env: Env) -> MatchOutcome
    decreases p, 0nat,
{
    match p {
        Pat::Any => MatchOutcome::Bound(env),
        Pat::Var(_, _) => if env.size.0 < u32::MAX {
            MatchOutcome::Bound(env.spec_pushed(Some(v)))
        } else {
            MatchOutcome::Stuck
        },
        Pat::Cons(id, _, ps) => if inlines(db, v) {
            match inline_result(db, v) {
                Val::App(Var::Cons(id2), sp) => if id == id2 {
                    match_args(db, ps@, spine_args(sp), 0, env)
                } else {
                    MatchOutcome::NoMatch
                },
                _ => MatchOutcome::Stuck,
            }
        } else {
            MatchOutcome::Stuck
        },
        Pat::Lit(x, _) => match v {
            Val::Lit(l, _) => if l == x {
                MatchOutcome::Bound(env)
            } else {
                MatchOutcome::NoMatch
            },
            _ => MatchOutcome::Stuck,
        },
        Pat::Bool(x) => match v {
            Val::App(Var::Builtin(Builtin::True), _) => if x {
                MatchOutcome::Bound(env)
            } else {
                MatchOutcome::NoMatch
            },
            Val::App(Var::Builtin(Builtin::False), _) => if !x {
                MatchOutcome::Bound(env)
            } else {
                MatchOutcome::NoMatch
            },
            _ => MatchOutcome::Stuck,
        },
        Pat::Or(x, y) => match match_spec(db, *x, v, env) {
            MatchOutcome::NoMatch => match_spec(db, *y, v, env),
            o => o,
        },
    }
}

/// Matching the arguments `args[i..]` against the patterns `ps[i..]`, pairwise, as far as both go.
pub open spec fn match_args<D: Compiler>(db: &D, ps: Seq<Pat>, args: Seq<Val>, i: nat, env: Env) -> MatchOutcome
    decreases ps, ps.len() - i,
{
    if i >= ps.len() || i >= args.len() {
        MatchOutcome::Bound(env)
    } else {
        match match_spec(db, ps[i as int], args[i as int], env) {
            MatchOutcome::Bound(e) => match_args(db, ps, args, i + 1, e),
            o => o,
        }
    }
}

/// The environment a match binds, where it matches.
pub open spec fn bound_env(o: MatchOutcome) -> Option<Env> {
    match o {
        MatchOutcome::Bound(e) => Some(e),
        _ => None,
    }
}

/// A boolean pattern matches a value headed by the builtin `True` or `False` exactly when
/// the two booleans agree, binding nothing.
pub proof fn lemma_bool_pattern_matches<D: Compiler>(db: &D, x: bool, b: bool, sp: Spine, env: Env)
    ensures
        bound_env(
            match_spec(
                db,
                Pat::Bool(x),
                Val::App(Var::Builtin(if b { Builtin::True } else { Builtin::False }), sp),
                env,
            ),
        ) == if x == b {
            Some(env)
        } else {
            None::<Env>
        },
{
}

/// A wildcard matches every value and binds nothing; a variable matches every value and
/// binds it on top of what was bound (within the limit of an environment's size); a
/// literal pattern matches a literal exactly when the two are the same literal.
pub proof fn lemma_simple_patterns_match<D: Compiler>(db: &D, n: Name, ty: VTy, v: Val, l: Literal, x: Literal, w: Width, w2: Width, env: Env)
    ensures
        bound_env(match_spec(db, Pat::Any, v, env)) == Some(env),
        env.size.0 < u32::MAX ==> bound_env(match_spec(db, Pat::Var(n, Box::new(ty)), v, env)) == Some(
            env.spec_pushed(Some(v)),
        ),
        bound_env(match_spec(db, Pat::Lit(x, w), Val::Lit(l, w2), env)) == if l == x {
            Some(env)
        } else {
            None::<Env>
        },
{
}

/// A constructor pattern does not match a value that is, once its top-level definitions are
/// unfolded, built by another constructor.
pub proof fn lemma_other_constructor_no_match<D: Compiler>(db: &D, id: DefId, ty: VTy, ps: Vec<Pat>, v: Val, env: Env)
    requires
        inlines(db, v),
        inline_result(db, v) matches Val::App(Var::Cons(id2), _) && id2 != id,
    ensures
        bound_env(match_spec(db, Pat::Cons(id, Box::new(ty), ps), v, env)) == None::<Env>,
{
}

fn spine_arg_vals(sp: &Spine) -> (r: Vec<Val>)
    ensures
        r@ == spine_args(*sp),
    decreases sp,
{
    match sp {
        Spine::Nil => Vec::new(),
        Spine::Snoc(rest, _, x) => {
            let mut v = spine_arg_vals(rest);
            v.push(x.copy());
            v
        },
    }
}

impl Pat {
    /// Matches `val` against the pattern: the environment `env` with the values
    /// of the pattern's variables pushed on it, or `None` where `val` does not match.
    /// Against a constructor pattern, the global definitions heading `val` are unfolded first.
    pub fn match_with<D: Compiler>(&self, val: &Val, env: Env, db: &D) -> (r: Option<Env>)
        requires
            !(match_spec(db, *self, *val, env) is Stuck),
        ensures
            r == bound_env(match_spec(db, *self, *val, env)),
        decreases self,
    {
        match self {
            Pat::Any => Some(env),
            Pat::Var(_, _) => {
                let mut env = env;
                env.push(Some(val.copy()));
                Some(env)
            },
            Pat::Cons(id, ty, v) => match crate::evaluate::inline(val.copy(), db) {
                Val::App(Var::Cons(id2), sp) => {
                    if *id == id2 {
                        let args = spine_arg_vals(&sp);
                        let ghost env0 = env;
                        let mut cur = env;
                        let mut i: usize = 0;
                        while i < v.len() && i < args.len()
                            invariant
                                *self == Pat::Cons(*id, *ty, *v),
                                env == env0,
                                match_spec(db, *self, *val, env0) == match_args(db, v@, args@, 0, env0),
                                i <= v@.len(),
                                match_args(db, v@, args@, 0, env0) == match_args(db, v@, args@, i as nat, cur),
                                !(match_args(db, v@, args@, 0, env0) is Stuck),
                            decreases v@.len() - i,
                        {
                            proof {
                                assert(decreases_to!(*self => (*self)->Cons_2));
                                assert(decreases_to!(*v => v@));
                                assert(decreases_to!(v@ => v@[i as int]));
                            }
                            match v[i].match_with(&args[i], cur, db) {
                                Some(e) => {
                                    cur = e;
                                },
                                None => {
                                    return None;
                                },
                            }
                            i += 1;
                        }
                        Some(cur)
                    } else {
                        None
                    }
                },
                _ => vstd::pervasive::unreached(),
            },
            Pat::Lit(x, _) => match val {
                Val::Lit(l, _) => {
                    if *l == *x {
                        Some(env)
                    } else {
                        None
                    }
                },
                _ => vstd::pervasive::unreached(),
            },
            Pat::Bool(x) => match val {
                Val::App(Var::Builtin(Builtin::True), _) => {
                    if *x {
                        Some(env)
                    } else {
                        None
                    }
                },
                Val::App(Var::Builtin(Builtin::False), _) => {
                    if !*x {
                        Some(env)
                    } else {
                        None
                    }
                },
                _ => vstd::pervasive::unreached(),
            },
            Pat::Or(x, y) => match x.match_with(val, env.copy(), db) {
                Some(e) => Some(e),
                None => y.match_with(val, env, db),
            },
        }
    }
}

/// The names of the variables in scope, the outermost first, as a printer shows them.
#[derive(Debug)]
pub struct Names {
    pub names: Vec<Name>,
}

impl Names {
    pub fn new() -> (n: Names)
        ensures
            n.names@ == Seq::<Name>::empty(),
    {
        Names { names: Vec::new() }
    }

    /// Brings `n` into scope, innermost.
    pub fn add(&mut self, n: Name)
        ensures
            final(self).names@ == old(self).names@.push(n),
    {
        self.names.push(n);
    }

    /// Whether a name in scope is written `s`.
    pub fn shows<T: Interner>(&self, s: &String, db: &T) -> (b: bool)
        requires
            db.inv(),
            all_valid(db.tables(), self.names@),
        ensures
            b == strings_of(db.tables(), self.names@).contains(s@),
    {
        let ghost sc = strings_of(db.tables(), self.names@);
        let mut k: usize = 0;
        while k < self.names.len()
            invariant
                db.inv(),
                all_valid(db.tables(), self.names@),
                sc == strings_of(db.tables(), self.names@),
                sc.len() == self.names@.len(),
                k <= self.names@.len(),
                forall|i: int| 0 <= i < k ==> sc[i] != s@,
            decreases self.names@.len() - k,
        {
            let w = self.names[k].get(db);
            if w == *s {
                assert(sc[k as int] == s@);
                return true;
            }
            k += 1;
        }
        false
    }

    /// How the names in scope are written.
    pub fn strings<T: Interner>(&self, db: &T) -> (r: Vec<String>)
        requires
            db.inv(),
            all_valid(db.tables(), self.names@),
        ensures
            strings_view(r@) == strings_of(db.tables(), self.names@),
    {
        let mut r: Vec<String> = Vec::new();
        let mut k: usize = 0;
        while k < self.names.len()
            invariant
                db.inv(),
                all_valid(db.tables(), self.names@),
                k <= self.names@.len(),
                r@.len() == k,
                strings_view(r@) == strings_of(db.tables(), self.names@.subrange(0, k as int)),
            decreases self.names@.len() - k,
        {
            let w = self.names[k].get(db);
            let ghost r0 = r@;
            r.push(w);
            proof {
                let want = strings_of(db.tables(), self.names@.subrange(0, k + 1));
                let had = strings_of(db.tables(), self.names@.subrange(0, k as int));
                assert forall|i: int| 0 <= i < k implies #[trigger] strings_view(r@)[i] == want[i] by {
                    assert(r@[i] == r0[i]);
                    assert(strings_view(r0)[i] == had[i]);
                }
                assert(strings_view(r@)[k as int] == want[k as int]);
                assert(strings_view(r@) =~= want);
            }
            k += 1;
        }
        proof {
            assert(self.names@.subrange(0, k as int) =~= self.names@);
        }
        r
    }

    /// The name to show a variable named `n` under, so that it does not clash with the
    /// names in scope: `n` itself where no name in scope is written as it is, otherwise `n`
    /// followed by the fewest primes (`'`) that make a name that none in scope is written as.
    #[verifier::spinoff_prover]
    pub fn disamb<T: Interner>(&self, n: Name, db: &mut T) -> (r: Name)
        requires
            old(db).inv(),
            n.0 < old(db).tables().names.len(),
            all_valid(old(db).tables(), self.names@),
            old(db).tables().names.len() < u32::MAX,
        ensures
            final(db).inv(),
            final(db).store() == old(db).store(),
            final(db).tables() == (InternTables {
                names: final(db).tables().names,
                ..old(db).tables()
            }),
            extends(old(db).tables().names, final(db).tables().names),
            final(db).tables().names.len() <= old(db).tables().names.len() + 1,
            r.0 < final(db).tables().names.len(),
            final(db).tables().names[r.0 as int] == shown_as(
                strings_of(old(db).tables(), self.names@),
                old(db).tables().names[n.0 as int],
            ),
            !strings_of(old(db).tables(), self.names@).contains(final(db).tables().names[r.0 as int]),
    {
        let ghost sc = strings_of(db.tables(), self.names@);
        let base = n.get(db);
        if !self.shows(&base, db) {
            return n;
        }
        let scope = self.strings(db);
        let ghost b = base@;
        proof {
            lemma_fresh_primes(sc, b);
            reveal_strlit("'");
        }
        let mut s = base.clone();
        s.append("'");
        let ghost mut j: nat = 1;
        proof {
            reveal_with_fuel(primes, 2);
            assert(s@ =~= b + primes(1));
        }
        proof {
            lemma_fresh_start(sc, b);
        }
        while contains_str(&scope, &s)
            invariant
                sc == strings_view(scope@),
                "'"@ == seq!['\''],
                j <= sc.len() + 1,
                s@ == b + primes(j),
                fresh_inv(sc, b, j),
            decreases sc.len() + 1 - j,
        {
            proof {
                lemma_fresh_step(sc, b, j);
            }
            s.append("'");
            proof {
                j = j + 1;
                assert(s@ =~= b + primes(j));
            }
        }
        proof {
            lemma_fresh_end(sc, b, j);
        }
        let ghost t0 = db.tables();
        let r = db.intern_name(s);
        proof {
            lemma_interns_extends(t0.names, db.tables().names, b + primes(j), r.0 as nat);
        }
        r
    }
}

/// Strings `b` with one to `j - 1` primes are all in scope, and the fewest primes not in
/// scope are `j` or more.
#[verifier::opaque]
pub open spec fn fresh_inv(sc: Seq<Seq<char>>, b: Seq<char>, j: nat) -> bool {
    &&& 1 <= j <= sc.len() + 1
    &&& forall|k: nat| 1 <= k < j ==> sc.contains(#[trigger] (b + primes(k)))
    &&& fresh_primes(sc, b) >= j
    &&& !sc.contains(b + primes(fresh_primes(sc, b)))
    &&& forall|k: nat| 1 <= k < fresh_primes(sc, b) ==> sc.contains(#[trigger] (b + primes(k)))
}

proof fn lemma_fresh_start(sc: Seq<Seq<char>>, b: Seq<char>)
    ensures
        fresh_inv(sc, b, 1),
{
    reveal(fresh_inv);
    lemma_fresh_primes(sc, b);
}

/// One more primed string found in scope: the fewest primes not in scope are more.
proof fn lemma_fresh_step(sc: Seq<Seq<char>>, b: Seq<char>, j: nat)
    requires
        fresh_inv(sc, b, j),
        sc.contains(b + primes(j)),
    ensures
        j + 1 <= sc.len() + 1,
        fresh_inv(sc, b, j + 1),
{
    reveal(fresh_inv);
    assert(fresh_primes(sc, b) != j);
    lemma_pigeon(sc, b, j);
}

proof fn lemma_fresh_end(sc: Seq<Seq<char>>, b: Seq<char>, j: nat)
    requires
        fresh_inv(sc, b, j),
        !sc.contains(b + primes(j)),
    ensures
        fresh_primes(sc, b) == j,
{
    reveal(fresh_inv);
    if fresh_primes(sc, b) > j {
        assert(sc.contains(b + primes(j)));
    }
}

/// The contents of strings `v`.
pub open spec fn strings_view(v: Seq<String>) -> Seq<Seq<char>> {
    v.map_values(|s: String| s@)
}

/// Whether `s` is one of `v`.
fn contains_str(v: &Vec<String>, s: &String) -> (b: bool)
    ensures
        b == strings_view(v@).contains(s@),
{
    let mut k: usize = 0;
    while k < v.len()
        invariant
            k <= v@.len(),
            forall|i: int| 0 <= i < k ==> v@[i]@ != s@,
        decreases v@.len() - k,
    {
        if v[k] == *s {
            assert(strings_view(v@)[k as int] == s@);
            return true;
        }
        k += 1;
    }
    proof {
        assert forall|i: int| 0 <= i < strings_view(v@).len() implies strings_view(v@)[i] != s@ by {
            assert(strings_view(v@)[i] == v@[i]@);
        }
    }
    false
}

/// Whether every name of `ns` is in the tables.
pub open spec fn all_valid(t: InternTables, ns: Seq<Name>) -> bool {
    forall|i: int| 0 <= i < ns.len() ==> (#[trigger] ns[i]).0 < t.names.len()
}

/// How the names `ns` are written.
pub open spec fn strings_of(t: InternTables, ns: Seq<Name>) -> Seq<Seq<char>> {
    ns.map_values(|n: Name| t.names[n.0 as int])
}

/// `'` written `j` times.
pub open spec fn primes(j: nat) -> Seq<char>
    decreases j,
{
    if j == 0 {
        Seq::empty()
    } else {
        primes((j - 1) as nat).push('\'')
    }
}

/// The fewest primes (one or more) that, after `base`, make a string not in `scope`.
pub open spec fn fresh_primes(scope: Seq<Seq<char>>, base: Seq<char>) -> nat {
    choose|j: nat|
        1 <= j && !scope.contains(base + primes(j)) && forall|k: nat|
            1 <= k < j ==> scope.contains(#[trigger] (base + primes(k)))
}

/// What a variable named `base` is shown as where the names `scope` are in scope.
pub open spec fn shown_as(scope: Seq<Seq<char>>, base: Seq<char>) -> Seq<char> {
    if scope.contains(base) {
        base + primes(fresh_primes(scope, base))
    } else {
        base
    }
}

proof fn lemma_primes_len(j: nat)
    ensures
        primes(j).len() == j,
    decreases j,
{
    if j > 0 {
        lemma_primes_len((j - 1) as nat);
    }
}

/// Where the first `m` primed strings are all in `scope`, `scope` holds at least `m` strings.
proof fn lemma_pigeon(scope: Seq<Seq<char>>, base: Seq<char>, m: nat)
    requires
        forall|k: nat| 1 <= k <= m ==> scope.contains(#[trigger] (base + primes(k))),
    ensures
        m <= scope.len(),
    decreases m,
{
    if m > 0 {
        let w = base + primes(m);
        assert(scope.contains(w));
        let i = choose|i: int| 0 <= i < scope.len() && scope[i] == w;
        let rest = scope.remove(i);
        assert forall|k: nat| 1 <= k <= (m - 1) as nat implies rest.contains(#[trigger] (base + primes(k))) by {
            let wk = base + primes(k);
            assert(scope.contains(wk));
            lemma_primes_len(k);
            lemma_primes_len(m);
            assert(wk.len() != w.len());
            let i2 = choose|i2: int| 0 <= i2 < scope.len() && scope[i2] == wk;
            assert(i2 != i);
            if i2 < i {
                assert(rest[i2] == wk);
            } else {
                assert(rest[i2 - 1] == wk);
            }
        }
        lemma_pigeon(rest, base, (m - 1) as nat);
    }
}

proof fn lemma_fresh_find(scope: Seq<Seq<char>>, base: Seq<char>, j: nat) -> (r: nat)
    requires
        1 <= j <= scope.len() + 1,
        forall|k: nat| 1 <= k < j ==> scope.contains(#[trigger] (base + primes(k))),
    ensures
        1 <= r <= scope.len() + 1,
        !scope.contains(base + primes(r)),
        forall|k: nat| 1 <= k < r ==> scope.contains(#[trigger] (base + primes(k))),
    decreases scope.len() + 1 - j,
{
    if !scope.contains(base + primes(j)) {
        j
    } else {
        lemma_pigeon(scope, base, j);
        lemma_fresh_find(scope, base, j + 1)
    }
}

/// There are fewest such primes, no more than one more than the strings in scope.
proof fn lemma_fresh_primes(scope: Seq<Seq<char>>, base: Seq<char>)
    ensures
        1 <= fresh_primes(scope, base) <= scope.len() + 1,
        !scope.contains(base + primes(fresh_primes(scope, base))),
        forall|k: nat| 1 <= k < fresh_primes(scope, base) ==> scope.contains(#[trigger] (base + primes(k))),
{
    let r = lemma_fresh_find(scope, base, 1);
    let j = fresh_primes(scope, base);
    if j != r {
        if j < r {
            assert(scope.contains(base + primes(j)));
        } else {
            assert(scope.contains(base + primes(r)));
        }
    }
}

/// The name of the definition that `id` refers to, as the tables hold it.
pub open spec fn def_name(t: InternTables, id: DefId) -> Seq<char> {
    t.names[t.predefs[t.defs[id.0 as int].0.0 as int].spec_name()->Some_0.0 as int]
}

/// Whether definition `id` is in the tables with a name.
pub open spec fn def_named(t: InternTables, id: DefId) -> bool {
    &&& id.0 < t.defs.len()
    &&& t.defs[id.0 as int].0.0 < t.predefs.len()
    &&& t.predefs[t.defs[id.0 as int].0.0 as int].spec_name() is Some
    &&& t.predefs[t.defs[id.0 as int].0.0 as int].spec_name()->Some_0.0 < t.names.len()
}

/// Whether every name and constructor of `p` is in the tables.
pub open spec fn printable(t: InternTables, p: Pat) -> bool
    decreases p,
{
    match p {
        Pat::Var(n, _) => n.0 < t.names.len(),
        Pat::Cons(id, _, ps) => def_named(t, id) && pats_printable(t, ps@),
        Pat::Or(x, y) => printable(t, *x) && printable(t, *y),
        _ => true,
    }
}

pub open spec fn pats_printable(t: InternTables, s: Seq<Pat>) -> bool
    decreases s,
{
    if s.len() == 0 {
        true
    } else {
        pats_printable(t, s.subrange(0, s.len() - 1)) && printable(t, s[s.len() - 1])
    }
}

/// A pattern as it is written where the names `scope` are in scope, and the names its
/// variables are shown as, in order: a constructor followed by its arguments, separated by
/// spaces; alternatives separated by ` | `; each variable under a name that clashes with
/// none in scope (`shown_as`), which is then in scope for what follows.
pub open spec fn pat_show(t: InternTables, scope: Seq<Seq<char>>, p: Pat) -> (Seq<char>, Seq<Seq<char>>)
    decreases p,
{
    match p {
        Pat::Any => (seq!['_'], Seq::empty()),
        Pat::Var(n, _) => {
            let w = shown_as(scope, t.names[n.0 as int]);
            (w, seq![w])
        },
        Pat::Cons(id, _, ps) => {
            let r = pats_show(t, scope, ps@);
            (def_name(t, id) + r.0, r.1)
        },
        Pat::Or(x, y) => {
            let a = pat_show(t, scope, *x);
            let b = pat_show(t, scope + a.1, *y);
            (a.0 + seq![' ', '|', ' '] + b.0, a.1 + b.1)
        },
        Pat::Lit(l, _) => (lit_text(l), Seq::empty()),
        Pat::Bool(b) => (
            if b {
                seq!['T', 'r', 'u', 'e']
            } else {
                seq!['F', 'a', 'l', 's', 'e']
            },
            Seq::empty(),
        ),
    }
}

/// The patterns `s`, each after a space, and the names their variables are shown as.
pub open spec fn pats_show(t: InternTables, scope: Seq<Seq<char>>, s: Seq<Pat>) -> (Seq<char>, Seq<Seq<char>>)
    decreases s,
{
    if s.len() == 0 {
        (Seq::empty(), Seq::empty())
    } else {
        let a = pats_show(t, scope, s.subrange(0, s.len() - 1));
        let b = pat_show(t, scope + a.1, s[s.len() - 1]);
        (a.0 + seq![' '] + b.0, a.1 + b.1)
    }
}

/// The number of variables a pattern shows, alternatives included.
pub open spec fn shown_count(p: Pat) -> nat
    decreases p,
{
    match p {
        Pat::Var(_, _) => 1,
        Pat::Cons(_, _, ps) => shown_counts(ps@),
        Pat::Or(x, y) => shown_count(*x) + shown_count(*y),
        _ => 0,
    }
}

pub open spec fn shown_counts(s: Seq<Pat>) -> nat
    decreases s,
{
    if s.len() == 0 {
        0
    } else {
        shown_counts(s.subrange(0, s.len() - 1)) + shown_count(s[s.len() - 1])
    }
}

proof fn lemma_pats_printable_elem(t: InternTables, s: Seq<Pat>, k: int)
    requires
        pats_printable(t, s),
        0 <= k < s.len(),
    ensures
        printable(t, s[k]),
    decreases s.len(),
{
    if k < s.len() - 1 {
        lemma_pats_printable_elem(t, s.subrange(0, s.len() - 1), k);
    }
}

proof fn lemma_shown_counts_prefix(s: Seq<Pat>, k: int)
    requires
        0 <= k < s.len(),
    ensures
        shown_counts(s.subrange(0, k)) + shown_count(s[k]) <= shown_counts(s),
        shown_counts(s.subrange(0, k + 1)) == shown_counts(s.subrange(0, k)) + shown_count(s[k]),
    decreases s.len(),
{
    assert(s.subrange(0, k + 1).subrange(0, k) =~= s.subrange(0, k));
    if k < s.len() - 1 {
        lemma_shown_counts_prefix(s.subrange(0, s.len() - 1), k);
        assert(s.subrange(0, s.len() - 1).subrange(0, k) =~= s.subrange(0, k));
        assert(s.subrange(0, s.len() - 1)[k] == s[k]);
    } else {
        assert(s.subrange(0, s.len() - 1) =~= s.subrange(0, k));
    }
}

/// Printability only needs the tables to hold what the pattern names, so it survives
/// more strings being interned.
proof fn lemma_printable_grow(t0: InternTables, t1: InternTables, p: Pat)
    requires
        printable(t0, p),
        t1 == (InternTables { names: t1.names, ..t0 }),
        extends(t0.names, t1.names),
    ensures
        printable(t1, p),
        pat_show_same(t0, t1, p),
    decreases p,
{
    match p {
        Pat::Cons(id, _, ps) => {
            assert(decreases_to!(ps => ps@));
            lemma_pats_printable_grow(t0, t1, ps@);
            assert(def_name(t1, id) == def_name(t0, id));
            assert forall|sc: Seq<Seq<char>>| #[trigger] pat_show(t1, sc, p) == pat_show(t0, sc, p) by {
                assert(pats_show(t1, sc, ps@) == pats_show(t0, sc, ps@));
            }
        },
        Pat::Or(x, y) => {
            lemma_printable_grow(t0, t1, *x);
            lemma_printable_grow(t0, t1, *y);
            assert forall|sc: Seq<Seq<char>>| #[trigger] pat_show(t1, sc, p) == pat_show(t0, sc, p) by {
                let a = pat_show(t0, sc, *x);
                assert(pat_show(t1, sc, *x) == a);
                assert(pat_show(t1, sc + a.1, *y) == pat_show(t0, sc + a.1, *y));
            }
        },
        Pat::Var(n, _) => {
            assert(t1.names[n.0 as int] == t0.names[n.0 as int]);
            assert forall|sc: Seq<Seq<char>>| #[trigger] pat_show(t1, sc, p) == pat_show(t0, sc, p) by {}
        },
        _ => {
            assert forall|sc: Seq<Seq<char>>| #[trigger] pat_show(t1, sc, p) == pat_show(t0, sc, p) by {}
        },
    }
}

/// Whether showing `p` reads the same from tables `t0` and `t1`, whatever is in scope.
pub open spec fn pat_show_same(t0: InternTables, t1: InternTables, p: Pat) -> bool {
    forall|sc: Seq<Seq<char>>| #[trigger] pat_show(t1, sc, p) == pat_show(t0, sc, p)
}

proof fn lemma_pats_printable_grow(t0: InternTables, t1: InternTables, s: Seq<Pat>)
    requires
        pats_printable(t0, s),
        t1 == (InternTables { names: t1.names, ..t0 }),
        extends(t0.names, t1.names),
    ensures
        pats_printable(t1, s),
        forall|sc: Seq<Seq<char>>| #[trigger] pats_show(t1, sc, s) == pats_show(t0, sc, s),
    decreases s,
{
    if s.len() > 0 {
        let init = s.subrange(0, s.len() - 1);
        assert(decreases_to!(s => init));
        assert(decreases_to!(s => s[s.len() - 1]));
        lemma_pats_printable_grow(t0, t1, init);
        lemma_printable_grow(t0, t1, s[s.len() - 1]);
        assert forall|sc: Seq<Seq<char>>| #[trigger] pats_show(t1, sc, s) == pats_show(t0, sc, s) by {
            let a = pats_show(t0, sc, init);
            assert(pats_show(t1, sc, init) == a);
            assert(pat_show(t1, sc + a.1, s[s.len() - 1]) == pat_show(t0, sc + a.1, s[s.len() - 1]));
        }
    }
}

/// The strings of names `ns` read the same from grown tables.
proof fn lemma_strings_grow(t0: InternTables, t1: InternTables, ns: Seq<Name>)
    requires
        all_valid(t0, ns),
        extends(t0.names, t1.names),
    ensures
        all_valid(t1, ns),
        strings_of(t1, ns) == strings_of(t0, ns),
{
    assert(strings_of(t1, ns) =~= strings_of(t0, ns));
}

/// Showing a pattern shows as many names as it has variables.
proof fn lemma_pat_show_count(t: InternTables, sc: Seq<Seq<char>>, p: Pat)
    ensures
        pat_show(t, sc, p).1.len() == shown_count(p),
    decreases p,
{
    match p {
        Pat::Cons(_, _, ps) => {
            assert(decreases_to!(ps => ps@));
            lemma_pats_show_count(t, sc, ps@);
        },
        Pat::Or(x, y) => {
            lemma_pat_show_count(t, sc, *x);
            lemma_pat_show_count(t, sc + pat_show(t, sc, *x).1, *y);
        },
        _ => {},
    }
}

proof fn lemma_pats_show_count(t: InternTables, sc: Seq<Seq<char>>, s: Seq<Pat>)
    ensures
        pats_show(t, sc, s).1.len() == shown_counts(s),
    decreases s,
{
    if s.len() > 0 {
        let init = s.subrange(0, s.len() - 1);
        assert(decreases_to!(s => init));
        assert(decreases_to!(s => s[s.len() - 1]));
        lemma_pats_show_count(t, sc, init);
        lemma_pat_show_count(t, sc + pats_show(t, sc, init).1, s[s.len() - 1]);
    }
}

impl Pat {
    /// The pattern as it is written, each variable under a name that clashes with none in
    /// scope (`Names::disamb`), which is then brought into scope in `names`, in order.
    pub fn pretty<T: Interner>(&self, db: &mut T, names: &mut Names) -> (s: String)
        requires
            old(db).inv(),
            printable(old(db).tables(), *self),
            all_valid(old(db).tables(), old(names).names@),
            old(db).tables().names.len() + shown_count(*self) < u32::MAX,
        ensures
            final(db).inv(),
            final(db).store() == old(db).store(),
            final(db).tables() == (InternTables {
                names: final(db).tables().names,
                ..old(db).tables()
            }),
            extends(old(db).tables().names, final(db).tables().names),
            final(db).tables().names.len() <= old(db).tables().names.len() + shown_count(*self),
            all_valid(final(db).tables(), final(names).names@),
            s@ == pat_show(old(db).tables(), strings_of(old(db).tables(), old(names).names@), *self).0,
            strings_of(final(db).tables(), final(names).names@) == strings_of(
                old(db).tables(),
                old(names).names@,
            ) + pat_show(old(db).tables(), strings_of(old(db).tables(), old(names).names@), *self).1,
        decreases self,
    {
        let ghost t0 = db.tables();
        let ghost sc0 = strings_of(t0, names.names@);
        let ghost n0 = names.names@;
        proof {
            assert(extends(t0.names, t0.names));
        }
        match self {
            Pat::Any => {
                proof {
                    reveal_strlit("_");
                    assert(sc0 + Seq::<Seq<char>>::empty() =~= sc0);
                }
                String::from_str("_")
            },
            Pat::Var(n, _) => {
                let m = names.disamb(*n, db);
                let ghost t1 = db.tables();
                proof {
                    lemma_strings_grow(t0, t1, n0);
                }
                names.add(m);
                let r = m.get(db);
                proof {
                    assert(strings_of(t1, names.names@) =~= sc0 + seq![t1.names[m.0 as int]]);
                }
                r
            },
            Pat::Cons(id, ty, v) => {
                let (pre, _, _) = db.lookup_intern_def(*id);
                let pd = db.lookup_intern_predef(pre);
                let mut s = match pd.name() {
                    Some(n) => n.get(db),
                    None => vstd::pervasive::unreached(),
                };
                let mut i: usize = 0;
                proof {
                    reveal_strlit(" ");
                    assert(v@.subrange(0, 0) =~= Seq::<Pat>::empty());
                    assert(sc0 + Seq::<Seq<char>>::empty() =~= sc0);
                    assert(s@ + Seq::<char>::empty() =~= s@);
                }
                while i < v.len()
                    invariant
                        *self == Pat::Cons(*id, *ty, *v),
                        db.inv(),
                        t0 == old(db).tables(),
                        db.store() == old(db).store(),
                        db.tables() == (InternTables { names: db.tables().names, ..t0 }),
                        extends(t0.names, db.tables().names),
                        db.tables().names.len() <= t0.names.len() + shown_counts(v@.subrange(0, i as int)),
                        t0.names.len() + shown_counts(v@) < u32::MAX,
                        shown_count(*self) == shown_counts(v@),
                        pats_printable(t0, v@),
                        i <= v@.len(),
                        " "@ == seq![' '],
                        all_valid(db.tables(), names.names@),
                        sc0 == strings_of(t0, n0),
                        s@ == def_name(t0, *id) + pats_show(t0, sc0, v@.subrange(0, i as int)).0,
                        strings_of(db.tables(), names.names@) == sc0 + pats_show(t0, sc0, v@.subrange(0, i as int)).1,
                    decreases v@.len() - i,
                {
                    let ghost t1 = db.tables();
                    let ghost a = pats_show(t0, sc0, v@.subrange(0, i as int));
                    proof {
                        assert(decreases_to!(*self => (*self)->Cons_2));
                        assert(decreases_to!(*v => v@));
                        assert(decreases_to!(v@ => v@[i as int]));
                        lemma_pats_printable_elem(t0, v@, i as int);
                        lemma_printable_grow(t0, t1, v@[i as int]);
                        lemma_shown_counts_prefix(v@, i as int);
                        let pre = v@.subrange(0, i + 1);
                        assert(pre.subrange(0, pre.len() - 1) =~= v@.subrange(0, i as int));
                        assert(pre[pre.len() - 1] == v@[i as int]);
                    }
                    s.append(" ");
                    let r = v[i].pretty(db, names);
                    s.append(r.as_str());
                    proof {
                        let b = pat_show(t0, sc0 + a.1, v@[i as int]);
                        assert(pat_show(t1, sc0 + a.1, v@[i as int]) == b);
                        assert(s@ =~= def_name(t0, *id) + pats_show(t0, sc0, v@.subrange(0, i + 1)).0);
                        assert(strings_of(db.tables(), names.names@) =~= sc0 + pats_show(t0, sc0, v@.subrange(0, i + 1)).1);
                    }
                    i += 1;
                }
                proof {
                    assert(v@.subrange(0, v@.len() as int) =~= v@);
                }
                s
            },
            Pat::Or(x, y) => {
                let mut s = x.pretty(db, names);
                let ghost t1 = db.tables();
                let ghost a = pat_show(t0, sc0, **x);
                proof {
                    reveal_strlit(" | ");
                    lemma_printable_grow(t0, t1, **y);
                }
                s.append(" | ");
                let b = y.pretty(db, names);
                s.append(b.as_str());
                proof {
                    assert(pat_show(t1, sc0 + a.1, **y) == pat_show(t0, sc0 + a.1, **y));
                    assert(s@ =~= pat_show(t0, sc0, *self).0);
                    assert(strings_of(db.tables(), names.names@) =~= sc0 + pat_show(t0, sc0, *self).1);
                }
                s
            },
            Pat::Lit(x, _) => {
                proof {
                    assert(sc0 + Seq::<Seq<char>>::empty() =~= sc0);
                }
                x.pretty()
            },
            Pat::Bool(b) => {
                proof {
                    reveal_strlit("True");
                    reveal_strlit("False");
                    assert(sc0 + Seq::<Seq<char>>::empty() =~= sc0);
                }
                if *b {
                    String::from_str("True")
                } else {
                    String::from_str("False")
                }
            },
        }
    }
}

/// The parts `ps` joined by `; `.
pub open spec fn join_parts(ps: Seq<Seq<char>>) -> Seq<char>
    decreases ps.len(),
{
    if ps.len() == 0 {
        Seq::empty()
    } else if ps.len() == 1 {
        ps[0]
    } else {
        join_parts(ps.subrange(0, ps.len() - 1)) + seq![';', ' '] + ps[ps.len() - 1]
    }
}

/// ` _` written `n` times.
pub open spec fn holes(n: nat) -> Seq<char>
    decreases n,
{
    if n == 0 {
        Seq::empty()
    } else {
        holes((n - 1) as nat) + seq![' ', '_']
    }
}

/// Whether `v` has an entry for constructor `id`.
pub open spec fn mentions(v: Seq<(DefId, Seq<CovV>)>, id: DefId) -> bool {
    exists|j: int| 0 <= j < v.len() && (#[trigger] v[j]).0 == id
}

/// What covering `c` of the values of type `ty` leaves uncovered, as it is shown: for a
/// list of constructor entries, each entry that does not cover its constructor completely,
/// with what its arguments leave uncovered, then each candidate constructor without an
/// entry, with a hole for each argument, joined by `; `.
pub open spec fn rest_text(t: InternTables, c: CovV, ty: TyShape) -> Seq<char>
    decreases c,
{
    match c {
        CovV::All => seq!['<', 'n', 'o', 't', 'h', 'i', 'n', 'g', '>'],
        CovV::Nothing => seq!['_'],
        CovV::Lit(_) => seq!['_'],
        CovV::Bool(b) => if b {
            seq!['F', 'a', 'l', 's', 'e']
        } else {
            seq!['T', 'r', 'u', 'e']
        },
        CovV::Cons(v) => match ty {
            TyShape::Data(cands) => join_parts(
                covered_parts(t, v, cands@) + unmatched_parts(t, v, cands@),
            ),
            TyShape::Other => Seq::empty(),
        },
    }
}

/// The entries of `v` that do not cover their constructor completely, as they are shown.
pub open spec fn covered_parts(
    t: InternTables,
    v: Seq<(DefId, Seq<CovV>)>,
    cands: Seq<(DefId, bool, Vec<TyShape>)>,
) -> Seq<Seq<char>>
    decreases v,
{
    if v.len() == 0 {
        Seq::empty()
    } else {
        let e = v[v.len() - 1];
        let before = covered_parts(t, v.subrange(0, v.len() - 1), cands);
        if entry_complete(e) {
            before
        } else {
            before.push(
                def_name(t, e.0) + args_rest(t, e.1, cands[cand_index(cands, e.0, 0)->Some_0 as int].2@),
            )
        }
    }
}

/// What the coverings `xs` leave uncovered of the types `ts`, each after a space.
pub open spec fn args_rest(t: InternTables, xs: Seq<CovV>, ts: Seq<TyShape>) -> Seq<char>
    decreases xs,
{
    if xs.len() == 0 {
        Seq::empty()
    } else {
        args_rest(t, xs.subrange(0, xs.len() - 1), ts) + seq![' '] + rest_text(
            t,
            xs[xs.len() - 1],
            ts[xs.len() - 1],
        )
    }
}

/// The candidate constructors without an entry in `v`, each with a hole for each argument.
pub open spec fn unmatched_parts(
    t: InternTables,
    v: Seq<(DefId, Seq<CovV>)>,
    cands: Seq<(DefId, bool, Vec<TyShape>)>,
) -> Seq<Seq<char>>
    decreases cands.len(),
{
    if cands.len() == 0 {
        Seq::empty()
    } else {
        let c = cands[cands.len() - 1];
        let before = unmatched_parts(t, v, cands.subrange(0, cands.len() - 1));
        if !c.1 || mentions(v, c.0) {
            before
        } else {
            before.push(def_name(t, c.0) + holes(c.2@.len()))
        }
    }
}

/// Whether what covering `c` leaves uncovered of type `ty` can be shown: a list of
/// constructor entries is about a datatype, and each entry shown is for a constructor
/// whose argument types the type gives, with no more arguments than it, and names a
/// definition in the tables, as does each candidate without an entry.
pub open spec fn rest_showable(t: InternTables, c: CovV, ty: TyShape) -> bool
    decreases c,
{
    match c {
        CovV::Cons(v) => match ty {
            TyShape::Data(cands) => entries_showable(t, v, cands@) && forall|k: int|
                0 <= k < cands@.len() && cands@[k].1 && !mentions(v, #[trigger] cands@[k].0) ==> def_named(
                    t,
                    cands@[k].0,
                ),
            TyShape::Other => false,
        },
        _ => true,
    }
}

pub open spec fn entries_showable(
    t: InternTables,
    v: Seq<(DefId, Seq<CovV>)>,
    cands: Seq<(DefId, bool, Vec<TyShape>)>,
) -> bool
    decreases v,
{
    if v.len() == 0 {
        true
    } else {
        let e = v[v.len() - 1];
        &&& entries_showable(t, v.subrange(0, v.len() - 1), cands)
        &&& !entry_complete(e) ==> {
            &&& def_named(t, e.0)
            &&& cand_index(cands, e.0, 0) matches Some(k) && args_showable(
                t,
                e.1,
                cands[k as int].2@,
            )
        }
    }
}

pub open spec fn args_showable(t: InternTables, xs: Seq<CovV>, ts: Seq<TyShape>) -> bool
    decreases xs,
{
    if xs.len() > ts.len() {
        false
    } else if xs.len() == 0 {
        true
    } else {
        args_showable(t, xs.subrange(0, xs.len() - 1), ts) && rest_showable(
            t,
            xs[xs.len() - 1],
            ts[xs.len() - 1],
        )
    }
}

proof fn lemma_entries_showable_prefix(
    t: InternTables,
    v: Seq<(DefId, Seq<CovV>)>,
    cands: Seq<(DefId, bool, Vec<TyShape>)>,
    k: nat,
)
    requires
        entries_showable(t, v, cands),
        k <= v.len(),
    ensures
        entries_showable(t, v.subrange(0, k as int), cands),
    decreases v.len(),
{
    if k < v.len() {
        lemma_entries_showable_prefix(t, v.subrange(0, v.len() - 1), cands, k);
        assert(v.subrange(0, v.len() - 1).subrange(0, k as int) =~= v.subrange(0, k as int));
    } else {
        assert(v.subrange(0, k as int) =~= v);
    }
}

proof fn lemma_args_showable_prefix(t: InternTables, xs: Seq<CovV>, ts: Seq<TyShape>, k: nat)
    requires
        args_showable(t, xs, ts),
        k <= xs.len(),
    ensures
        args_showable(t, xs.subrange(0, k as int), ts),
    decreases xs.len(),
{
    if k < xs.len() {
        lemma_args_showable_prefix(t, xs.subrange(0, xs.len() - 1), ts, k);
        assert(xs.subrange(0, xs.len() - 1).subrange(0, k as int) =~= xs.subrange(0, k as int));
    } else {
        assert(xs.subrange(0, k as int) =~= xs);
    }
}

/// The name of definition `id`.
fn def_name_string<T: Interner>(db: &T, id: DefId) -> (s: String)
    requires
        db.inv(),
        def_named(db.tables(), id),
    ensures
        s@ == def_name(db.tables(), id),
{
    let (pre, _, _) = db.lookup_intern_def(id);
    let pd = db.lookup_intern_predef(pre);
    match pd.name() {
        Some(n) => n.get(db),
        None => vstd::pervasive::unreached(),
    }
}

/// Appends the parts joined so far and `part` to `out`, given whether `out` is empty of parts.
fn push_part(out: &mut String, first: bool, part: &String)
    ensures
        final(out)@ == if first {
            old(out)@ + part@
        } else {
            old(out)@ + seq![';', ' '] + part@
        },
{
    if !first {
        proof {
            reveal_strlit("; ");
        }
        out.append("; ");
    }
    out.append(part.as_str());
}

/// Whether every covering of `args` covers everything.
fn args_complete(args: &Vec<Cov>) -> (b: bool)
    ensures
        b == forall|i: int| 0 <= i < args@.len() ==> cov_view(#[trigger] args@[i]) is All,
{
    let mut a: usize = 0;
    while a < args.len() && matches!(args[a], Cov::All)
        invariant
            a <= args@.len(),
            forall|i: int| 0 <= i < a ==> cov_view(#[trigger] args@[i]) is All,
        decreases args@.len() - a,
    {
        a += 1;
    }
    a == args.len()
}

/// Whether `v` has an entry for constructor `id`.
fn mentioned(v: &Vec<(DefId, Vec<Cov>)>, id: DefId) -> (b: bool)
    ensures
        b == mentions(entries_view(v@), id),
{
    proof {
        lemma_entries_view(v@);
    }
    let mut j: usize = 0;
    while j < v.len()
        invariant
            j <= v@.len(),
            entries_view(v@).len() == v@.len(),
            forall|i: int| 0 <= i < v@.len() ==> #[trigger] entries_view(v@)[i] == (v@[i].0, covs_view(v@[i].1@)),
            forall|i: int| 0 <= i < j ==> v@[i].0 != id,
        decreases v@.len() - j,
    {
        if v[j].0 == id {
            assert(entries_view(v@)[j as int].0 == id);
            return true;
        }
        j += 1;
    }
    proof {
        assert forall|i: int| 0 <= i < entries_view(v@).len() implies (#[trigger] entries_view(v@)[i]).0 != id by {
            assert(entries_view(v@)[i].0 == v@[i].0);
        }
    }
    false
}

impl Cov {
    /// What the covering leaves uncovered of the values of type `ty`, as it is shown to the
    /// user of a `case` expression that is not exhaustive.
    pub fn pretty_rest<T: Interner>(&self, ty: &TyShape, db: &T) -> (s: String)
        requires
            db.inv(),
            rest_showable(db.tables(), cov_view(*self), *ty),
        ensures
            s@ == rest_text(db.tables(), cov_view(*self), *ty),
        decreases cov_size(cov_view(*self)),
    {
        match self {
            Cov::All => {
                proof {
                    reveal_strlit("<nothing>");
                }
                String::from_str("<nothing>")
            },
            Cov::Nothing | Cov::Lit(_) => {
                proof {
                    reveal_strlit("_");
                }
                String::from_str("_")
            },
            Cov::Bool(b) => {
                proof {
                    reveal_strlit("True");
                    reveal_strlit("False");
                }
                if *b {
                    String::from_str("False")
                } else {
                    String::from_str("True")
                }
            },
            Cov::Cons(covs) => match ty {
                TyShape::Data(cands) => {
                    let ghost t = db.tables();
                    let ghost ev = entries_view(covs@);
                    proof {
                        lemma_entries_view(covs@);
                        reveal_strlit(" ");
                        reveal_strlit(" _");
                        assert(ev.subrange(0, 0) =~= Seq::<(DefId, Seq<CovV>)>::empty());
                    }
                    let mut out = String::new();
                    let mut first = true;
                    let mut k: usize = 0;
                    while k < covs.len()
                        invariant
                            db.inv(),
                            t == db.tables(),
                            k <= covs@.len(),
                            ev == entries_view(covs@),
                            ev.len() == covs@.len(),
                            cov_view(*self) == CovV::Cons(ev),
                            *ty == TyShape::Data(*cands),
                            forall|i: int| 0 <= i < covs@.len() ==> #[trigger] ev[i] == (covs@[i].0, covs_view(covs@[i].1@)),
                            entries_showable(t, ev, cands@),
                            " "@ == seq![' '],
                            out@ == join_parts(covered_parts(t, ev.subrange(0, k as int), cands@)),
                            first == (covered_parts(t, ev.subrange(0, k as int), cands@).len() == 0),
                        decreases covs@.len() - k,
                    {
                        let ghost parts_old = covered_parts(t, ev.subrange(0, k as int), cands@);
                        proof {
                            lemma_entries_showable_prefix(t, ev, cands@, (k + 1) as nat);
                            let pre = ev.subrange(0, k + 1);
                            assert(pre.subrange(0, pre.len() - 1) =~= ev.subrange(0, k as int));
                            assert(pre[pre.len() - 1] == ev[k as int]);
                            lemma_entries_size_elem(ev, k as int);
                            lemma_covs_view(covs@[k as int].1@);
                        }
                        let args = &covs[k].1;
                        let complete = args_complete(args);
                        proof {
                            assert(complete == entry_complete(ev[k as int])) by {
                                if complete {
                                    assert forall|i: int| 0 <= i < ev[k as int].1.len() implies #[trigger] ev[k as int].1[i] is All by {
                                        assert(ev[k as int].1[i] == cov_view(args@[i]));
                                    }
                                } else {
                                    let i = choose|i: int| 0 <= i < args@.len() && !(cov_view(#[trigger] args@[i]) is All);
                                    assert(ev[k as int].1[i] == cov_view(args@[i]));
                                }
                            }
                        }
                        if !complete {
                            let id = covs[k].0;
                            let mut c: usize = 0;
                            while c < cands.len() && cands[c].0 != id
                                invariant
                                    c <= cands@.len(),
                                    forall|j: int| 0 <= j < c ==> cands@[j].0 != id,
                                decreases cands@.len() - c,
                            {
                                c += 1;
                            }
                            proof {
                                lemma_cand_skip(cands@, id, c as nat);
                                lemma_cand_index(cands@, id, 0);
                            }
                            let shapes = &cands[c].2;
                            let mut part = def_name_string(db, id);
                            let ghost head = part@;
                            let ghost xs = covs_view(args@);
                            proof {
                                assert(xs == ev[k as int].1);
                                assert(args_showable(t, xs, shapes@));
                                assert(xs.subrange(0, 0) =~= Seq::<CovV>::empty());
                                assert(head + Seq::<char>::empty() =~= head);
                            }
                            let mut i: usize = 0;
                            while i < args.len()
                                invariant
                                    db.inv(),
                                    t == db.tables(),
                                    i <= args@.len(),
                                    xs == covs_view(args@),
                                    xs.len() == args@.len(),
                                    forall|j: int| 0 <= j < args@.len() ==> #[trigger] xs[j] == cov_view(args@[j]),
                                    covs_size(xs) < entries_size(ev),
                                    cov_view(*self) == CovV::Cons(ev),
                                    args_showable(t, xs, shapes@),
                                    " "@ == seq![' '],
                                    part@ == head + args_rest(t, xs.subrange(0, i as int), shapes@),
                                decreases args@.len() - i,
                            {
                                proof {
                                    lemma_args_showable_prefix(t, xs, shapes@, (i + 1) as nat);
                                    let pre = xs.subrange(0, i + 1);
                                    assert(pre.subrange(0, pre.len() - 1) =~= xs.subrange(0, i as int));
                                    assert(pre[pre.len() - 1] == xs[i as int]);
                                    lemma_covs_size_elem(xs, i as int);
                                }
                                part.append(" ");
                                let r = args[i].pretty_rest(&shapes[i], db);
                                part.append(r.as_str());
                                proof {
                                    assert(part@ =~= head + args_rest(t, xs.subrange(0, i + 1), shapes@));
                                }
                                i += 1;
                            }
                            proof {
                                assert(xs.subrange(0, i as int) =~= xs);
                            }
                            push_part(&mut out, first, &part);
                            first = false;
                            proof {
                                let parts = covered_parts(t, ev.subrange(0, k + 1), cands@);
                                assert(parts == parts_old.push(part@));
                                assert(parts.subrange(0, parts.len() - 1) =~= parts_old);
                            }
                        }
                        k += 1;
                    }
                    let ghost cparts = covered_parts(t, ev, cands@);
                    proof {
                        assert(ev.subrange(0, k as int) =~= ev);
                        assert(cands@.subrange(0, 0) =~= Seq::<(DefId, bool, Vec<TyShape>)>::empty());
                        assert(cparts + Seq::<Seq<char>>::empty() =~= cparts);
                    }
                    let mut k: usize = 0;
                    while k < cands.len()
                        invariant
                            db.inv(),
                            t == db.tables(),
                            k <= cands@.len(),
                            ev == entries_view(covs@),
                            cov_view(*self) == CovV::Cons(ev),
                            *ty == TyShape::Data(*cands),
                            cparts == covered_parts(t, ev, cands@),
                            forall|j: int|
                                0 <= j < cands@.len() && cands@[j].1 && !mentions(ev, #[trigger] cands@[j].0) ==> def_named(
                                    t,
                                    cands@[j].0,
                                ),
                            " _"@ == seq![' ', '_'],
                            out@ == join_parts(cparts + unmatched_parts(t, ev, cands@.subrange(0, k as int))),
                            first == ((cparts + unmatched_parts(t, ev, cands@.subrange(0, k as int))).len() == 0),
                        decreases cands@.len() - k,
                    {
                        let ghost before = cparts + unmatched_parts(t, ev, cands@.subrange(0, k as int));
                        proof {
                            let pre = cands@.subrange(0, k + 1);
                            assert(pre.subrange(0, pre.len() - 1) =~= cands@.subrange(0, k as int));
                            assert(pre[pre.len() - 1] == cands@[k as int]);
                        }
                        let id = cands[k].0;
                        if cands[k].1 && !mentioned(covs, id) {
                            let mut part = def_name_string(db, id);
                            let ghost head = part@;
                            let n = cands[k].2.len();
                            let mut h: usize = 0;
                            while h < n
                                invariant
                                    h <= n,
                                    " _"@ == seq![' ', '_'],
                                    part@ == head + holes(h as nat),
                                decreases n - h,
                            {
                                part.append(" _");
                                h += 1;
                            }
                            push_part(&mut out, first, &part);
                            first = false;
                            proof {
                                let parts = cparts + unmatched_parts(t, ev, cands@.subrange(0, k + 1));
                                assert(parts =~= before.push(part@));
                                assert(parts.subrange(0, parts.len() - 1) =~= before);
                            }
                        } else {
                            proof {
                                assert(cparts + unmatched_parts(t, ev, cands@.subrange(0, k + 1)) =~= before);
                            }
                        }
                        k += 1;
                    }
                    proof {
                        assert(cands@.subrange(0, k as int) =~= cands@);
                    }
                    out
                },
                TyShape::Other => vstd::pervasive::unreached(),
            },
        }
    }
}

/// The variables a pattern binds, in order; alternatives bind none.
pub open spec fn pat_vars(p: Pat) -> Seq<Name>
    decreases p,
{
    match p {
        Pat::Var(n, _) => seq![n],
        Pat::Cons(_, _, ps) => pats_vars(ps@),
        _ => Seq::empty(),
    }
}

pub open spec fn pats_vars(s: Seq<Pat>) -> Seq<Name>
    decreases s,
{
    if s.len() == 0 {
        Seq::empty()
    } else {
        pats_vars(s.subrange(0, s.len() - 1)) + pat_vars(s[s.len() - 1])
    }
}

impl Pat {
    /// Brings the variables the pattern binds into scope in `names`, and
    /// returns the level past them, starting from level `l`.
    pub fn add_names(&self, l: Lvl, names: &mut Names) -> (r: Lvl)
        requires
            l.0 + pat_vars(*self).len() <= u32::MAX,
        ensures
            r.0 == l.0 + pat_vars(*self).len(),
            final(names).names@ == old(names).names@ + pat_vars(*self),
        decreases self,
    {
        match self {
            Pat::Any | Pat::Lit(_, _) | Pat::Bool(_) => {
                assert(old(names).names@ + Seq::<Name>::empty() =~= old(names).names@);
                l
            },
            Pat::Var(n, _) => {
                names.add(*n);
                l.inc()
            },
            Pat::Cons(id, ty, v) => {
                let mut l = l;
                let mut i: usize = 0;
                let ghost start = names.names@;
                let ghost l0 = l;
                proof {
                    assert(v@.subrange(0, 0) =~= Seq::<Pat>::empty());
                    assert(start + Seq::<Name>::empty() =~= start);
                }
                while i < v.len()
                    invariant
                        *self == Pat::Cons(*id, *ty, *v),
                        pat_vars(*self) == pats_vars(v@),
                        l0.0 + pats_vars(v@).len() <= u32::MAX,
                        i <= v@.len(),
                        names.names@ == start + pats_vars(v@.subrange(0, i as int)),
                        l.0 == l0.0 + pats_vars(v@.subrange(0, i as int)).len(),
                    decreases v@.len() - i,
                {
                    proof {
                        assert(decreases_to!(*self => (*self)->Cons_2));
                        assert(decreases_to!(*v => v@));
                        assert(decreases_to!(v@ => v@[i as int]));
                        assert(v@.subrange(0, i + 1).subrange(0, i as int) =~= v@.subrange(0, i as int));
                        lemma_pats_vars_prefix(v@, i as int);
                    }
                    l = v[i].add_names(l, names);
                    proof {
                        assert(names.names@ =~= start + pats_vars(v@.subrange(0, i + 1)));
                    }
                    i += 1;
                }
                proof {
                    assert(v@.subrange(0, v@.len() as int) =~= v@);
                }
                l
            },
            Pat::Or(_, _) => {
                assert(old(names).names@ + Seq::<Name>::empty() =~= old(names).names@);
                l
            },
        }
    }
}

/// The local variables a pattern binds, with their types, in order; alternatives bind none.
pub open spec fn pat_locals(p: Pat) -> Seq<(Name, VTy)>
    decreases p,
{
    match p {
        Pat::Var(n, ty) => seq![(n, *ty)],
        Pat::Cons(_, _, ps) => pats_locals(ps@),
        _ => Seq::empty(),
    }
}

pub open spec fn pats_locals(s: Seq<Pat>) -> Seq<(Name, VTy)>
    decreases s,
{
    if s.len() == 0 {
        Seq::empty()
    } else {
        pats_locals(s.subrange(0, s.len() - 1)) + pat_locals(s[s.len() - 1])
    }
}

/// The context entries, newest first, that defining the variables `s` as locals, in order,
/// puts in front of a context.
pub open spec fn local_entries(s: Seq<(Name, VTy)>) -> Seq<(Name, NameInfo)>
    decreases s.len(),
{
    if s.len() == 0 {
        Seq::empty()
    } else {
        seq![(s.last().0, NameInfo::Local(s.last().1))] + local_entries(s.drop_last())
    }
}

pub proof fn lemma_local_entries_append(a: Seq<(Name, VTy)>, b: Seq<(Name, VTy)>)
    ensures
        local_entries(a + b) == local_entries(b) + local_entries(a),
    decreases b.len(),
{
    if b.len() == 0 {
        assert(a + b =~= a);
        assert(local_entries(b) + local_entries(a) =~= local_entries(a));
    } else {
        lemma_local_entries_append(a, b.drop_last());
        assert((a + b).drop_last() =~= a + b.drop_last());
        assert((a + b).last() == b.last());
        assert(local_entries(a + b) =~= local_entries(b) + local_entries(a));
    }
}

proof fn lemma_local_entries_resolve(
    s: Seq<(Name, VTy)>,
    rest: Seq<(Name, NameInfo)>,
    k: int,
    ix: nat,
)
    requires
        0 <= k < s.len(),
        ix + s.len() <= u32::MAX,
        forall|j: int| k < j < s.len() ==> (#[trigger] s[j]).0 != s[k].0,
    ensures
        resolve_entries(local_entries(s) + rest, s[k].0, ix) == Binding::Local(
            Ix((ix + s.len() - 1 - k) as u32),
            s[k].1,
        ),
    decreases s.len(),
{
    let es = local_entries(s) + rest;
    assert(es[0] == (s.last().0, NameInfo::Local(s.last().1)));
    if k < s.len() - 1 {
        assert(s[s.len() - 1].0 != s[k].0);
        let init = s.drop_last();
        assert forall|j: int| k < j < init.len() implies (#[trigger] init[j]).0 != init[k].0 by {
            assert(init[j] == s[j]);
        }
        lemma_local_entries_resolve(init, rest, k, ix + 1);
        assert(es.subrange(1, es.len() as int) =~= local_entries(init) + rest);
    }
}

/// In a context whose newest entries are variables `s` defined as locals, in order (as
/// `Pat::add_locals` leaves it), variable `k` of `s`, unless a later one has its name, is
/// found as the local variable with index `s.len() - 1 - k`, of its type.
pub proof fn lemma_locals_resolve(
    cxts: Seq<MaybeEntry>,
    c: Cxt,
    s: Seq<(Name, VTy)>,
    rest: Seq<(Name, NameInfo)>,
    k: int,
)
    requires
        cxts_linked(cxts),
        c.0 < cxts.len(),
        chain(cxts, c) == local_entries(s) + rest,
        0 <= k < s.len(),
        s.len() <= u32::MAX,
        forall|j: int| k < j < s.len() ==> (#[trigger] s[j]).0 != s[k].0,
    ensures
        resolve(cxts, c, s[k].0, 0) == Binding::Local(Ix((s.len() - 1 - k) as u32), s[k].1),
{
    lemma_resolve_chain(cxts, c, s[k].0, 0);
    lemma_local_entries_resolve(s, rest, k, 0);
}

pub proof fn lemma_pats_locals_prefix(s: Seq<Pat>, i: int)
    requires
        0 <= i < s.len(),
    ensures
        pats_locals(s.subrange(0, i)).len() + pat_locals(s[i]).len() <= pats_locals(s).len(),
        pats_locals(s.subrange(0, i + 1)) == pats_locals(s.subrange(0, i)) + pat_locals(s[i]),
    decreases s.len(),
{
    assert(s.subrange(0, i + 1).subrange(0, i) =~= s.subrange(0, i));
    if i < s.len() - 1 {
        lemma_pats_locals_prefix(s.subrange(0, s.len() - 1), i);
        assert(s.subrange(0, s.len() - 1).subrange(0, i) =~= s.subrange(0, i));
        assert(s.subrange(0, s.len() - 1)[i] == s[i]);
    } else {
        assert(s.subrange(0, s.len() - 1) =~= s.subrange(0, i));
    }
}

impl Pat {
    /// Defines the variables the pattern binds, in order, as local variables of their types,
    /// extending the context `cxt`.
    pub fn add_locals<T: Interner>(&self, cxt: &mut Cxt, db: &mut T)
        requires
            old(db).inv(),
            old(cxt).0 < old(db).tables().cxts.len(),
            old(db).tables().cxts.len() + pat_locals(*self).len() <= u32::MAX,
            cxt_size(old(db).tables().cxts, *old(cxt)).0 + pat_locals(*self).len() <= u32::MAX,
        ensures
            final(db).inv(),
            final(db).store() == old(db).store(),
            final(db).tables() == (InternTables {
                cxts: final(db).tables().cxts,
                ..old(db).tables()
            }),
            extends(old(db).tables().cxts, final(db).tables().cxts),
            final(db).tables().cxts.len() <= old(db).tables().cxts.len() + pat_locals(*self).len(),
            final(cxt).0 < final(db).tables().cxts.len(),
            chain(final(db).tables().cxts, *final(cxt)) == local_entries(pat_locals(*self)) + chain(
                old(db).tables().cxts,
                *old(cxt),
            ),
            cxt_size(final(db).tables().cxts, *final(cxt)).0 == cxt_size(
                old(db).tables().cxts,
                *old(cxt),
            ).0 + pat_locals(*self).len(),
            cxt_file(final(db).tables().cxts, *final(cxt)) == cxt_file(
                old(db).tables().cxts,
                *old(cxt),
            ),
        decreases self,
    {
        let ghost t0 = db.tables();
        let ghost c0 = *cxt;
        match self {
            Pat::Var(n, ty) => {
                let c = cxt.define(*n, NameInfo::Local(ty.copy()), db);
                proof {
                    db.lemma_inv();
                    let info = NameInfo::Local(**ty);
                    lemma_interns_extends(
                        t0.cxts,
                        db.tables().cxts,
                        crate::query::defined_entry(t0.cxts, c0, *n, info),
                        c.0 as nat,
                    );
                    lemma_chain_define(t0.cxts, db.tables().cxts, c0, c, *n, info);
                    let l = pat_locals(*self);
                    assert(l.drop_last() =~= Seq::<(Name, VTy)>::empty());
                    assert(l.last() == (*n, **ty));
                    assert(local_entries(l.drop_last()) =~= Seq::<(Name, NameInfo)>::empty());
                    assert(local_entries(l) =~= seq![(*n, info)]);
                }
                *cxt = c;
            },
            Pat::Cons(id, ty, v) => {
                let mut i: usize = 0;
                proof {
                    assert(v@.subrange(0, 0) =~= Seq::<Pat>::empty());
                    assert(extends(t0.cxts, t0.cxts));
                    assert(local_entries(Seq::<(Name, VTy)>::empty()) + chain(t0.cxts, c0) =~= chain(
                        t0.cxts,
                        c0,
                    ));
                }
                while i < v.len()
                    invariant
                        *self == Pat::Cons(*id, *ty, *v),
                        pat_locals(*self) == pats_locals(v@),
                        i <= v@.len(),
                        c0.0 < t0.cxts.len(),
                        t0.cxts.len() + pats_locals(v@).len() <= u32::MAX,
                        cxt_size(t0.cxts, c0).0 + pats_locals(v@).len() <= u32::MAX,
                        db.inv(),
                        db.store() == old(db).store(),
                        t0 == old(db).tables(),
                        db.tables() == (InternTables { cxts: db.tables().cxts, ..t0 }),
                        extends(t0.cxts, db.tables().cxts),
                        db.tables().cxts.len() <= t0.cxts.len() + pats_locals(v@.subrange(0, i as int)).len(),
                        cxt.0 < db.tables().cxts.len(),
                        chain(db.tables().cxts, *cxt) == local_entries(pats_locals(v@.subrange(0, i as int)))
                            + chain(t0.cxts, c0),
                        cxt_size(db.tables().cxts, *cxt).0 == cxt_size(t0.cxts, c0).0 + pats_locals(
                            v@.subrange(0, i as int),
                        ).len(),
                        cxt_file(db.tables().cxts, *cxt) == cxt_file(t0.cxts, c0),
                    decreases v@.len() - i,
                {
                    let ghost t1 = db.tables();
                    let ghost c1 = *cxt;
                    proof {
                        assert(decreases_to!(*self => (*self)->Cons_2));
                        assert(decreases_to!(*v => v@));
                        assert(decreases_to!(v@ => v@[i as int]));
                        lemma_pats_locals_prefix(v@, i as int);
                    }
                    v[i].add_locals(cxt, db);
                    proof {
                        lemma_local_entries_append(
                            pats_locals(v@.subrange(0, i as int)),
                            pat_locals(v@[i as int]),
                        );
                        assert(extends(t0.cxts, db.tables().cxts));
                    }
                    i += 1;
                }
                proof {
                    assert(v@.subrange(0, v@.len() as int) =~= v@);
                }
            },
            _ => {
                proof {
                    assert(pat_locals(*self) =~= Seq::<(Name, VTy)>::empty());
                    assert(local_entries(pat_locals(*self)) + chain(t0.cxts, c0) =~= chain(t0.cxts, c0));
                    assert(extends(t0.cxts, t0.cxts));
                }
            },
        }
    }
}

/// Naming a pattern's variables for printing and defining them for elaboration bring the
/// same variables into scope, in the same order.
pub proof fn lemma_pat_names_match_locals(p: Pat)
    ensures
        pat_vars(p) == pat_locals(p).map_values(|b: (Name, VTy)| b.0),
    decreases p,
{
    match p {
        Pat::Cons(_, _, ps) => {
            assert(decreases_to!(ps => ps@));
            lemma_pats_names_match_locals(ps@);
        },
        Pat::Var(n, ty) => {
            assert(pat_locals(p).map_values(|b: (Name, VTy)| b.0) =~= seq![n]);
        },
        _ => {
            assert(pat_locals(p).map_values(|b: (Name, VTy)| b.0) =~= Seq::<Name>::empty());
        },
    }
}

pub proof fn lemma_pats_names_match_locals(s: Seq<Pat>)
    ensures
        pats_vars(s) == pats_locals(s).map_values(|b: (Name, VTy)| b.0),
    decreases s,
{
    if s.len() == 0 {
        assert(pats_locals(s).map_values(|b: (Name, VTy)| b.0) =~= Seq::<Name>::empty());
    } else {
        let init = s.subrange(0, s.len() - 1);
        assert(decreases_to!(s => init));
        assert(decreases_to!(s => s[s.len() - 1]));
        lemma_pats_names_match_locals(init);
        lemma_pat_names_match_locals(s[s.len() - 1]);
        assert(pats_locals(s).map_values(|b: (Name, VTy)| b.0) =~= pats_locals(init).map_values(
            |b: (Name, VTy)| b.0,
        ) + pat_locals(s[s.len() - 1]).map_values(|b: (Name, VTy)| b.0));
    }
}

/// The variables of a prefix of patterns are no more than those of all of them.
pub proof fn lemma_pats_vars_prefix(s: Seq<Pat>, i: int)
    requires
        0 <= i < s.len(),
    ensures
        pats_vars(s.subrange(0, i)).len() + pat_vars(s[i]).len() <= pats_vars(s).len(),
        pats_vars(s.subrange(0, i + 1)) == pats_vars(s.subrange(0, i)) + pat_vars(s[i]),
    decreases s.len(),
{
    assert(s.subrange(0, i + 1).subrange(0, i) =~= s.subrange(0, i));
    if i < s.len() - 1 {
        lemma_pats_vars_prefix(s.subrange(0, s.len() - 1), i);
        assert(s.subrange(0, s.len() - 1).subrange(0, i) =~= s.subrange(0, i));
        assert(s.subrange(0, s.len() - 1)[i] == s[i]);
    } else {
        assert(s.subrange(0, s.len() - 1) =~= s.subrange(0, i));
    }
}

/// Putting two coverings together does not depend on their order, unless both are lists
/// of constructor entries (whose merged list keeps the entries of the first one first).
pub proof fn lemma_cov_or_comm(a: CovV, b: CovV)
    requires
        !(a is Cons && b is Cons),
    ensures
        cov_or(a, b) == cov_or(b, a),
{
    match (a, b) {
        (CovV::Lit(s), CovV::Lit(t)) => {
            assert(s.union(t) =~= t.union(s));
        },
        _ => {},
    }
}

/// Whether no two entries of `v` are for the same constructor.
pub open spec fn distinct_cons(v: Seq<(DefId, Seq<CovV>)>) -> bool {
    forall|i: int, j: int| 0 <= i < v.len() && 0 <= j < v.len() && i != j ==> #[trigger] v[i].0 != #[trigger] v[j].0
}

/// Whether every list of constructor entries in `c`, at any depth, has one entry per
/// constructor, as the coverings of patterns have (`lemma_pat_cov_distinct`), and as putting
/// such coverings together keeps them (`lemma_cov_or_distinct`).
pub open spec fn cov_distinct(c: CovV) -> bool
    decreases c,
{
    match c {
        CovV::Cons(v) => distinct_cons(v) && entries_distinct(v),
        _ => true,
    }
}

pub open spec fn entries_distinct(s: Seq<(DefId, Seq<CovV>)>) -> bool
    decreases s,
{
    if s.len() == 0 {
        true
    } else {
        entries_distinct(s.subrange(0, s.len() - 1)) && covs_distinct(s[s.len() - 1].1)
    }
}

pub open spec fn covs_distinct(s: Seq<CovV>) -> bool
    decreases s,
{
    if s.len() == 0 {
        true
    } else {
        covs_distinct(s.subrange(0, s.len() - 1)) && cov_distinct(s[s.len() - 1])
    }
}

proof fn lemma_covs_distinct_elem(s: Seq<CovV>, k: int)
    requires
        covs_distinct(s),
        0 <= k < s.len(),
    ensures
        cov_distinct(s[k]),
    decreases s.len(),
{
    if k < s.len() - 1 {
        lemma_covs_distinct_elem(s.subrange(0, s.len() - 1), k);
    }
}

proof fn lemma_entries_distinct_elem(s: Seq<(DefId, Seq<CovV>)>, k: int)
    requires
        entries_distinct(s),
        0 <= k < s.len(),
    ensures
        covs_distinct(s[k].1),
    decreases s.len(),
{
    if k < s.len() - 1 {
        lemma_entries_distinct_elem(s.subrange(0, s.len() - 1), k);
    }
}

proof fn lemma_zip_or_self(xs: Seq<CovV>)
    requires
        forall|i: int| 0 <= i < xs.len() ==> cov_or(#[trigger] xs[i], xs[i]) == Some(xs[i]),
    ensures
        zip_or(xs, xs) == Some(xs),
    decreases xs.len(),
{
    if xs.len() > 0 {
        let rest = xs.subrange(1, xs.len() as int);
        assert forall|i: int| 0 <= i < rest.len() implies cov_or(#[trigger] rest[i], rest[i]) == Some(
            rest[i],
        ) by {
            assert(rest[i] == xs[i + 1]);
        }
        lemma_zip_or_self(rest);
        assert(cov_or(xs[0], xs[0]) == Some(xs[0]));
        assert(seq![xs[0]] + rest =~= xs);
    }
}

proof fn lemma_merge_self(v: Seq<(DefId, Seq<CovV>)>, k: nat)
    requires
        distinct_cons(v),
        k <= v.len(),
        forall|i: int| 0 <= i < v.len() ==> zip_or(#[trigger] v[i].1, v[i].1) == Some(v[i].1),
    ensures
        merge_entries(v, v.subrange(0, k as int)) == Some(v),
    decreases k,
{
    if k > 0 {
        let pre = v.subrange(0, k as int);
        assert(pre.subrange(0, pre.len() - 1) =~= v.subrange(0, k - 1));
        lemma_merge_self(v, (k - 1) as nat);
        let e = v[k - 1];
        assert(pre[pre.len() - 1] == e);
        assert forall|j: int| 0 <= j < k - 1 implies v[j].0 != e.0 by {
            assert(v[j].0 != v[k - 1].0);
        }
        lemma_find_cons_skip(v, e.0, (k - 1) as nat);
        assert(find_cons(v, e.0, (k - 1) as nat) == Some((k - 1) as nat));
        assert(zip_or(v[k - 1].1, e.1) == Some(v[k - 1].1));
        assert(v.update(k - 1, (e.0, v[k - 1].1)) =~= v);
        assert(find_cons(v, e.0, 0) == Some((k - 1) as nat));
        assert(merge_entry(v, e) == Some(v));
        assert(merge_entries(v, pre.subrange(0, pre.len() - 1)) == Some(v));
        assert(merge_entries(v, pre) == merge_entry(v, pre[pre.len() - 1]));
    } else {
        assert(v.subrange(0, 0) =~= Seq::<(DefId, Seq<CovV>)>::empty());
    }
}

/// Putting a covering together with itself gives it back, where each of its lists of
/// constructor entries has one entry per constructor.
pub proof fn lemma_cov_or_idempotent(c: CovV)
    requires
        cov_distinct(c),
    ensures
        cov_or(c, c) == Some(c),
    decreases cov_size(c),
{
    match c {
        CovV::Lit(s) => {
            assert(s.union(s) =~= s);
        },
        CovV::Cons(v) => {
            assert forall|k: int| 0 <= k < v.len() implies zip_or(#[trigger] v[k].1, v[k].1) == Some(
                v[k].1,
            ) by {
                lemma_entries_distinct_elem(v, k);
                lemma_entries_size_elem(v, k);
                let xs = v[k].1;
                assert forall|i: int| 0 <= i < xs.len() implies cov_or(#[trigger] xs[i], xs[i]) == Some(
                    xs[i],
                ) by {
                    lemma_covs_distinct_elem(xs, i);
                    lemma_covs_size_elem(xs, i);
                    lemma_cov_or_idempotent(xs[i]);
                }
                lemma_zip_or_self(xs);
            }
            lemma_merge_self(v, v.len());
            assert(v.subrange(0, v.len() as int) =~= v);
        },
        _ => {},
    }
}

/// Whether everything `a` covers, `b` covers the same way: for lists of constructor entries,
/// each entry of `a` has an entry in `b` for the same constructor whose arguments are
/// covered the same way, in whatever order the entries come.
pub open spec fn cov_within(a: CovV, b: CovV) -> bool
    decreases a,
{
    match a {
        CovV::Cons(v) => match b {
            CovV::Cons(w) => entries_within(v, w),
            _ => false,
        },
        _ => a == b,
    }
}

pub open spec fn entries_within(s: Seq<(DefId, Seq<CovV>)>, w: Seq<(DefId, Seq<CovV>)>) -> bool
    decreases s,
{
    if s.len() == 0 {
        true
    } else {
        &&& match find_cons(w, s[0].0, 0) {
            Some(j) => covs_within(s[0].1, w[j as int].1),
            None => false,
        }
        &&& entries_within(s.subrange(1, s.len() as int), w)
    }
}

pub open spec fn covs_within(xs: Seq<CovV>, ys: Seq<CovV>) -> bool
    decreases xs,
{
    &&& xs.len() == ys.len()
    &&& (xs.len() == 0 || (cov_within(xs[0], ys[0]) && covs_within(
        xs.subrange(1, xs.len() as int),
        ys.subrange(1, ys.len() as int),
    )))
}

proof fn lemma_entries_within_iff(s: Seq<(DefId, Seq<CovV>)>, w: Seq<(DefId, Seq<CovV>)>)
    ensures
        entries_within(s, w) <==> forall|i: int|
            0 <= i < s.len() ==> (match find_cons(w, #[trigger] s[i].0, 0) {
                Some(j) => covs_within(s[i].1, w[j as int].1),
                None => false,
            }),
    decreases s.len(),
{
    if s.len() > 0 {
        let rest = s.subrange(1, s.len() as int);
        lemma_entries_within_iff(rest, w);
        if forall|i: int|
            0 <= i < s.len() ==> (match find_cons(w, #[trigger] s[i].0, 0) {
                Some(j) => covs_within(s[i].1, w[j as int].1),
                None => false,
            }) {
            assert forall|i: int|
                0 <= i < rest.len() implies (match find_cons(w, #[trigger] rest[i].0, 0) {
                Some(j) => covs_within(rest[i].1, w[j as int].1),
                None => false,
            }) by {
                assert(rest[i] == s[i + 1]);
            }
            assert(s[0] == s[0]);
        }
        if entries_within(s, w) {
            assert forall|i: int|
                0 <= i < s.len() implies (match find_cons(w, #[trigger] s[i].0, 0) {
                Some(j) => covs_within(s[i].1, w[j as int].1),
                None => false,
            }) by {
                if i > 0 {
                    assert(rest[i - 1] == s[i]);
                }
            }
        }
    }
}

proof fn lemma_covs_within_iff(xs: Seq<CovV>, ys: Seq<CovV>)
    ensures
        covs_within(xs, ys) <==> (xs.len() == ys.len() && forall|i: int|
            0 <= i < xs.len() ==> cov_within(#[trigger] xs[i], ys[i])),
    decreases xs.len(),
{
    if xs.len() > 0 && xs.len() == ys.len() {
        let xr = xs.subrange(1, xs.len() as int);
        let yr = ys.subrange(1, ys.len() as int);
        lemma_covs_within_iff(xr, yr);
        if forall|i: int| 0 <= i < xs.len() ==> cov_within(#[trigger] xs[i], ys[i]) {
            assert forall|i: int| 0 <= i < xr.len() implies cov_within(#[trigger] xr[i], yr[i]) by {
                assert(xr[i] == xs[i + 1] && yr[i] == ys[i + 1]);
                assert(cov_within(xs[i + 1], ys[i + 1]));
            }
            assert(cov_within(xs[0], ys[0]));
        }
        if covs_within(xs, ys) {
            assert forall|i: int| 0 <= i < xs.len() implies cov_within(#[trigger] xs[i], ys[i]) by {
                if i > 0 {
                    assert(xr[i - 1] == xs[i] && yr[i - 1] == ys[i]);
                }
            }
        }
    }
}

/// What `find_cons` finds: the first entry, from position `i` on, for constructor `id`.
proof fn lemma_find_cons(v: Seq<(DefId, Seq<CovV>)>, id: DefId, i: nat)
    ensures
        find_cons(v, id, i) matches Some(k) ==> i <= k < v.len() && v[k as int].0 == id && forall|j: int|
            i <= j < k ==> v[j].0 != id,
        find_cons(v, id, i) is None ==> forall|j: int| i <= j < v.len() ==> v[j].0 != id,
    decreases v.len() - i,
{
    if i < v.len() && v[i as int].0 != id {
        lemma_find_cons(v, id, i + 1);
    }
}

/// In a list with one entry per constructor, an entry is the one `find_cons` finds.
proof fn lemma_find_cons_at(v: Seq<(DefId, Seq<CovV>)>, k: int)
    requires
        distinct_cons(v),
        0 <= k < v.len(),
    ensures
        find_cons(v, v[k].0, 0) == Some(k as nat),
{
    lemma_find_cons(v, v[k].0, 0);
    if let Some(k2) = find_cons(v, v[k].0, 0) {
        if k2 != k {
            assert(v[k2 as int].0 != v[k].0);
        }
    }
}

/// Whether entry `e` merges into `v` without failing.
pub open spec fn merges(v: Seq<(DefId, Seq<CovV>)>, e: (DefId, Seq<CovV>)) -> bool {
    match find_cons(v, e.0, 0) {
        Some(i) => zip_or(v[i as int].1, e.1) is Some,
        None => true,
    }
}

/// The arguments of entry `e` of `v` once the first `k` entries of `w` are merged in.
pub open spec fn merged_args(e: (DefId, Seq<CovV>), w: Seq<(DefId, Seq<CovV>)>, k: nat) -> Seq<CovV> {
    match find_cons(w, e.0, 0) {
        Some(j) => if j < k {
            zip_or(e.1, w[j as int].1)->Some_0
        } else {
            e.1
        },
        None => e.1,
    }
}

/// The shape of `r`, the entries `v` with the first `k` entries of `w` merged in.
pub open spec fn merged_shape(
    v: Seq<(DefId, Seq<CovV>)>,
    w: Seq<(DefId, Seq<CovV>)>,
    k: nat,
    r: Seq<(DefId, Seq<CovV>)>,
) -> bool {
    &&& distinct_cons(r)
    &&& v.len() <= r.len()
    &&& forall|i: int| 0 <= i < v.len() ==> #[trigger] r[i] == (v[i].0, merged_args(v[i], w, k))
    &&& forall|p: int|
        v.len() <= p < r.len() ==> {
            &&& find_cons(v, (#[trigger] r[p]).0, 0) is None
            &&& find_cons(w, r[p].0, 0) matches Some(j) && j < k && r[p] == w[j as int]
        }
    &&& forall|j: int| 0 <= j < k ==> find_cons(r, (#[trigger] w[j]).0, 0) is Some
}

proof fn lemma_merge_shape(v: Seq<(DefId, Seq<CovV>)>, w: Seq<(DefId, Seq<CovV>)>, k: nat)
    requires
        distinct_cons(v),
        distinct_cons(w),
        k <= w.len(),
    ensures
        (merge_entries(v, w.subrange(0, k as int)) is Some) <==> forall|j: int|
            0 <= j < k ==> merges(v, #[trigger] w[j]),
        merge_entries(v, w.subrange(0, k as int)) matches Some(r) ==> merged_shape(v, w, k, r),
    decreases k,
{
    let pre = w.subrange(0, k as int);
    if k == 0 {
        assert forall|i: int| 0 <= i < v.len() implies #[trigger] v[i] == (v[i].0, merged_args(
            v[i],
            w,
            0,
        )) by {}
    } else {
        assert(pre.subrange(0, pre.len() - 1) =~= w.subrange(0, k - 1));
        lemma_merge_shape(v, w, (k - 1) as nat);
        let e = w[k - 1];
        assert(pre[pre.len() - 1] == e);
        lemma_find_cons_at(w, k - 1);
        match merge_entries(v, w.subrange(0, k - 1)) {
            None => {},
            Some(r) => {
                lemma_find_cons(v, e.0, 0);
                lemma_find_cons(r, e.0, 0);
                match find_cons(v, e.0, 0) {
                    Some(i) => {
                        lemma_find_cons_at(r, i as int);
                        assert(find_cons(w, v[i as int].0, 0) == Some((k - 1) as nat));
                        assert(r[i as int].1 == v[i as int].1);
                        assert(find_cons(r, e.0, 0) == Some(i));
                        match zip_or(v[i as int].1, e.1) {
                            Some(z) => {
                                let r2 = r.update(i as int, (e.0, z));
                                assert(merge_entries(v, pre.subrange(0, pre.len() - 1)) == Some(r));
                                assert(zip_or(r[i as int].1, e.1) == Some(z));
                                assert(merge_entry(r, e) == Some(r2));
                                assert(merge_entries(v, pre) == Some(r2));
                                assert forall|a: int| 0 <= a < v.len() implies #[trigger] r2[a] == (
                                    v[a].0,
                                    merged_args(v[a], w, k),
                                ) by {
                                    if a != i {
                                        lemma_find_cons(w, v[a].0, 0);
                                        if let Some(j) = find_cons(w, v[a].0, 0) {
                                            if j == k - 1 {
                                                assert(v[a].0 == v[i as int].0);
                                            }
                                        }
                                    }
                                }
                                assert forall|p: int| v.len() <= p < r2.len() implies {
                                    &&& find_cons(v, (#[trigger] r2[p]).0, 0) is None
                                    &&& find_cons(w, r2[p].0, 0) matches Some(j) && j < k && r2[p]
                                        == w[j as int]
                                } by {
                                    assert(r2[p] == r[p]);
                                }
                                assert forall|j: int| 0 <= j < k implies find_cons(
                                    r2,
                                    (#[trigger] w[j]).0,
                                    0,
                                ) is Some by {
                                    if j < k - 1 {
                                        assert(find_cons(r, w[j].0, 0) is Some);
                                        lemma_find_cons(r, w[j].0, 0);
                                        let q = find_cons(r, w[j].0, 0)->Some_0;
                                        assert(r2[q as int].0 == w[j].0);
                                        lemma_find_cons_at(r2, q as int);
                                    } else {
                                        assert(r2[i as int].0 == e.0);
                                        lemma_find_cons_at(r2, i as int);
                                    }
                                }
                            },
                            None => {
                                assert(merge_entries(v, pre.subrange(0, pre.len() - 1)) == Some(r));
                                assert(zip_or(r[i as int].1, e.1) is None);
                                assert(merge_entry(r, e) is None);
                                assert(merge_entries(v, pre) is None);
                                assert(!merges(v, w[k - 1]));
                            },
                        }
                    },
                    None => {
                        assert forall|p: int| 0 <= p < r.len() implies r[p].0 != e.0 by {
                            if p >= v.len() {
                                let j = find_cons(w, r[p].0, 0)->Some_0;
                                lemma_find_cons(w, r[p].0, 0);
                                if r[p].0 == e.0 {
                                    assert(w[j as int].0 == w[k - 1].0);
                                }
                            } else {
                                assert(r[p].0 == v[p].0);
                            }
                        }
                        assert(find_cons(r, e.0, 0) is None);
                        let r2 = r.push(e);
                        assert(merge_entries(v, pre) == Some(r2));
                        assert forall|a: int| 0 <= a < v.len() implies #[trigger] r2[a] == (
                            v[a].0,
                            merged_args(v[a], w, k),
                        ) by {
                            assert(r2[a] == r[a]);
                            lemma_find_cons(w, v[a].0, 0);
                            if let Some(j) = find_cons(w, v[a].0, 0) {
                                if j == k - 1 {
                                    assert(v[a].0 != e.0);
                                }
                            }
                        }
                        assert forall|j: int| 0 <= j < k implies find_cons(
                            r2,
                            (#[trigger] w[j]).0,
                            0,
                        ) is Some by {
                            if j < k - 1 {
                                lemma_find_cons(r, w[j].0, 0);
                                let q = find_cons(r, w[j].0, 0)->Some_0;
                                assert(r2[q as int].0 == w[j].0);
                                lemma_find_cons_at(r2, q as int);
                            } else {
                                lemma_find_cons_at(r2, r.len() as int);
                            }
                        }
                    },
                }
            },
        }
    }
}

proof fn lemma_cov_within_refl(c: CovV)
    requires
        cov_distinct(c),
    ensures
        cov_within(c, c),
    decreases cov_size(c),
{
    if let CovV::Cons(v) = c {
        assert forall|i: int| 0 <= i < v.len() implies (match find_cons(v, #[trigger] v[i].0, 0) {
            Some(j) => covs_within(v[i].1, v[j as int].1),
            None => false,
        }) by {
            lemma_find_cons_at(v, i);
            lemma_entries_distinct_elem(v, i);
            lemma_entries_size_elem(v, i);
            let xs = v[i].1;
            assert forall|k: int| 0 <= k < xs.len() implies cov_within(#[trigger] xs[k], xs[k]) by {
                lemma_covs_distinct_elem(xs, k);
                lemma_covs_size_elem(xs, k);
                lemma_cov_within_refl(xs[k]);
            }
            lemma_covs_within_iff(xs, xs);
        }
        lemma_entries_within_iff(v, v);
    }
}

proof fn lemma_covs_within_refl(xs: Seq<CovV>)
    requires
        covs_distinct(xs),
    ensures
        covs_within(xs, xs),
{
    assert forall|k: int| 0 <= k < xs.len() implies cov_within(#[trigger] xs[k], xs[k]) by {
        lemma_covs_distinct_elem(xs, k);
        lemma_cov_within_refl(xs[k]);
    }
    lemma_covs_within_iff(xs, xs);
}

/// Whether `a` and `b` put together in either order succeed alike, and give coverings that
/// cover the same.
pub open spec fn or_commutes(a: CovV, b: CovV) -> bool {
    &&& (cov_or(a, b) is Some) == (cov_or(b, a) is Some)
    &&& cov_or(a, b) is Some ==> cov_within(cov_or(a, b)->Some_0, cov_or(b, a)->Some_0) && cov_within(
        cov_or(b, a)->Some_0,
        cov_or(a, b)->Some_0,
    )
}

pub open spec fn zip_commutes(xs: Seq<CovV>, ys: Seq<CovV>) -> bool {
    &&& (zip_or(xs, ys) is Some) == (zip_or(ys, xs) is Some)
    &&& zip_or(xs, ys) is Some ==> covs_within(zip_or(xs, ys)->Some_0, zip_or(ys, xs)->Some_0)
        && covs_within(zip_or(ys, xs)->Some_0, zip_or(xs, ys)->Some_0)
}

proof fn lemma_zip_or_comm(xs: Seq<CovV>, ys: Seq<CovV>)
    requires
        forall|i: int| 0 <= i < xs.len() && i < ys.len() ==> or_commutes(#[trigger] xs[i], ys[i]),
    ensures
        zip_commutes(xs, ys),
    decreases xs.len(),
{
    if xs.len() > 0 && ys.len() > 0 {
        let xr = xs.subrange(1, xs.len() as int);
        let yr = ys.subrange(1, ys.len() as int);
        assert forall|i: int| 0 <= i < xr.len() && i < yr.len() implies or_commutes(
            #[trigger] xr[i],
            yr[i],
        ) by {
            assert(xr[i] == xs[i + 1] && yr[i] == ys[i + 1]);
            assert(or_commutes(xs[i + 1], ys[i + 1]));
        }
        lemma_zip_or_comm(xr, yr);
        assert(or_commutes(xs[0], ys[0]));
        if zip_or(xs, ys) is Some {
            let z1 = zip_or(xs, ys)->Some_0;
            let z2 = zip_or(ys, xs)->Some_0;
            let r1 = zip_or(xr, yr)->Some_0;
            let r2 = zip_or(yr, xr)->Some_0;
            assert(z1.subrange(1, z1.len() as int) =~= r1);
            assert(z2.subrange(1, z2.len() as int) =~= r2);
        }
    } else {
        assert(covs_within(Seq::<CovV>::empty(), Seq::<CovV>::empty()));
    }
}

/// Merged one way, each entry is found merged the other way, covering the same.
proof fn lemma_merge_within(v: Seq<(DefId, Seq<CovV>)>, w: Seq<(DefId, Seq<CovV>)>)
    requires
        distinct_cons(v),
        distinct_cons(w),
        entries_distinct(v),
        entries_distinct(w),
        merge_entries(v, w) is Some,
        merge_entries(w, v) is Some,
        forall|i: int, j: int|
            0 <= i < v.len() && 0 <= j < w.len() && v[i].0 == w[j].0 ==> zip_commutes(
                #[trigger] v[i].1,
                #[trigger] w[j].1,
            ),
    ensures
        entries_within(merge_entries(v, w)->Some_0, merge_entries(w, v)->Some_0),
{
    assert(v.subrange(0, v.len() as int) =~= v);
    assert(w.subrange(0, w.len() as int) =~= w);
    lemma_merge_shape(v, w, w.len());
    lemma_merge_shape(w, v, v.len());
    let r1 = merge_entries(v, w)->Some_0;
    let r2 = merge_entries(w, v)->Some_0;
    assert forall|p: int| 0 <= p < r1.len() implies (match find_cons(r2, #[trigger] r1[p].0, 0) {
        Some(q) => covs_within(r1[p].1, r2[q as int].1),
        None => false,
    }) by {
        if p < v.len() {
            lemma_find_cons(w, v[p].0, 0);
            match find_cons(w, v[p].0, 0) {
                Some(j) => {
                    lemma_find_cons_at(v, p);
                    assert(r2[j as int] == (w[j as int].0, merged_args(w[j as int], v, v.len())));
                    lemma_find_cons_at(r2, j as int);
                    assert(zip_commutes(v[p].1, w[j as int].1));
                    assert(merges(v, w[j as int]));
                },
                None => {
                    assert(find_cons(r2, v[p].0, 0) is Some);
                    lemma_find_cons(r2, v[p].0, 0);
                    let q = find_cons(r2, v[p].0, 0)->Some_0;
                    if q < w.len() {
                        assert(r2[q as int] == (w[q as int].0, merged_args(w[q as int], v, v.len())));
                        assert(w[q as int].0 == v[p].0);
                    }
                    let j2 = find_cons(v, r2[q as int].0, 0)->Some_0;
                    lemma_find_cons_at(v, p);
                    assert(j2 == p);
                    lemma_entries_distinct_elem(v, p);
                    lemma_covs_within_refl(v[p].1);
                },
            }
        } else {
            let j = find_cons(w, r1[p].0, 0)->Some_0;
            lemma_find_cons(w, r1[p].0, 0);
            assert(r2[j as int] == (w[j as int].0, merged_args(w[j as int], v, v.len())));
            lemma_find_cons_at(r2, j as int);
            lemma_entries_distinct_elem(w, j as int);
            lemma_covs_within_refl(w[j as int].1);
        }
    }
    lemma_entries_within_iff(r1, r2);
}

/// Putting two coverings together in either order succeeds alike, and gives coverings that
/// cover the same: the same constructors with the same coverings of their arguments, the
/// entries of constructor lists in another order; where each list of constructor entries,
/// at any depth, has one entry per constructor.
pub proof fn lemma_cov_or_commutes(a: CovV, b: CovV)
    requires
        cov_distinct(a),
        cov_distinct(b),
    ensures
        or_commutes(a, b),
    decreases cov_size(a) + cov_size(b),
{
    match (a, b) {
        (CovV::Cons(v), CovV::Cons(w)) => {
            assert forall|i: int, j: int|
                0 <= i < v.len() && 0 <= j < w.len() && v[i].0 == w[j].0 implies zip_commutes(
                #[trigger] v[i].1,
                #[trigger] w[j].1,
            ) by {
                let xs = v[i].1;
                let ys = w[j].1;
                lemma_entries_distinct_elem(v, i);
                lemma_entries_distinct_elem(w, j);
                lemma_entries_size_elem(v, i);
                lemma_entries_size_elem(w, j);
                assert forall|k: int| 0 <= k < xs.len() && k < ys.len() implies or_commutes(
                    #[trigger] xs[k],
                    ys[k],
                ) by {
                    lemma_covs_distinct_elem(xs, k);
                    lemma_covs_distinct_elem(ys, k);
                    lemma_covs_size_elem(xs, k);
                    lemma_covs_size_elem(ys, k);
                    lemma_cov_or_commutes(xs[k], ys[k]);
                }
                lemma_zip_or_comm(xs, ys);
            }
            assert(v.subrange(0, v.len() as int) =~= v);
            assert(w.subrange(0, w.len() as int) =~= w);
            lemma_merge_shape(v, w, w.len());
            lemma_merge_shape(w, v, v.len());
            if merge_entries(v, w) is Some {
                assert forall|i: int| 0 <= i < v.len() implies merges(w, #[trigger] v[i]) by {
                    lemma_find_cons(w, v[i].0, 0);
                    if let Some(j) = find_cons(w, v[i].0, 0) {
                        lemma_find_cons_at(v, i);
                        assert(merges(v, w[j as int]));
                        assert(zip_commutes(v[i].1, w[j as int].1));
                    }
                }
            }
            if merge_entries(w, v) is Some {
                assert forall|j: int| 0 <= j < w.len() implies merges(v, #[trigger] w[j]) by {
                    lemma_find_cons(v, w[j].0, 0);
                    if let Some(i) = find_cons(v, w[j].0, 0) {
                        lemma_find_cons_at(w, j);
                        assert(merges(w, v[i as int]));
                        assert(zip_commutes(v[i as int].1, w[j].1));
                    }
                }
            }
            if merge_entries(v, w) is Some {
                lemma_merge_within(v, w);
                assert forall|j: int, i: int|
                    0 <= j < w.len() && 0 <= i < v.len() && w[j].0 == v[i].0 implies zip_commutes(
                    #[trigger] w[j].1,
                    #[trigger] v[i].1,
                ) by {
                    assert(zip_commutes(v[i].1, w[j].1));
                }
                lemma_merge_within(w, v);
            }
        },
        _ => {
            lemma_cov_or_comm(a, b);
            if cov_or(a, b) is Some {
                let r = cov_or(a, b)->Some_0;
                if a is Nothing {
                    lemma_cov_within_refl(b);
                } else if b is Nothing {
                    lemma_cov_within_refl(a);
                }
            }
        },
    }
}

proof fn lemma_covs_distinct_all(s: Seq<CovV>)
    requires
        forall|i: int| 0 <= i < s.len() ==> cov_distinct(#[trigger] s[i]),
    ensures
        covs_distinct(s),
    decreases s.len(),
{
    if s.len() > 0 {
        let init = s.subrange(0, s.len() - 1);
        assert forall|i: int| 0 <= i < init.len() implies cov_distinct(#[trigger] init[i]) by {
            assert(init[i] == s[i]);
        }
        lemma_covs_distinct_all(init);
    }
}

proof fn lemma_entries_distinct_all(s: Seq<(DefId, Seq<CovV>)>)
    requires
        forall|i: int| 0 <= i < s.len() ==> covs_distinct(#[trigger] s[i].1),
    ensures
        entries_distinct(s),
    decreases s.len(),
{
    if s.len() > 0 {
        let init = s.subrange(0, s.len() - 1);
        assert forall|i: int| 0 <= i < init.len() implies covs_distinct(#[trigger] init[i].1) by {
            assert(init[i] == s[i]);
        }
        lemma_entries_distinct_all(init);
    }
}

proof fn lemma_zip_or_elems(xs: Seq<CovV>, ys: Seq<CovV>)
    requires
        zip_or(xs, ys) is Some,
    ensures
        zip_or(xs, ys)->Some_0.len() == if xs.len() <= ys.len() {
            xs.len()
        } else {
            ys.len()
        },
        forall|i: int|
            0 <= i < zip_or(xs, ys)->Some_0.len() ==> cov_or(xs[i], ys[i]) == Some(
                #[trigger] zip_or(xs, ys)->Some_0[i],
            ),
    decreases xs.len(),
{
    if xs.len() > 0 && ys.len() > 0 {
        let xr = xs.subrange(1, xs.len() as int);
        let yr = ys.subrange(1, ys.len() as int);
        lemma_zip_or_elems(xr, yr);
        let z = zip_or(xs, ys)->Some_0;
        let r = zip_or(xr, yr)->Some_0;
        assert forall|i: int| 0 <= i < z.len() implies cov_or(xs[i], ys[i]) == Some(#[trigger] z[i]) by {
            if i > 0 {
                assert(z[i] == r[i - 1]);
                assert(xr[i - 1] == xs[i] && yr[i - 1] == ys[i]);
            }
        }
    }
}

/// Putting together coverings whose lists of constructor entries have one entry per
/// constructor gives such a covering.
pub proof fn lemma_cov_or_distinct(a: CovV, b: CovV)
    requires
        cov_distinct(a),
        cov_distinct(b),
        cov_or(a, b) is Some,
    ensures
        cov_distinct(cov_or(a, b)->Some_0),
    decreases cov_size(a) + cov_size(b),
{
    if let (CovV::Cons(v), CovV::Cons(w)) = (a, b) {
        assert(w.subrange(0, w.len() as int) =~= w);
        lemma_merge_shape(v, w, w.len());
        let r = merge_entries(v, w)->Some_0;
        assert forall|p: int| 0 <= p < r.len() implies covs_distinct(#[trigger] r[p].1) by {
            if p < v.len() {
                lemma_entries_distinct_elem(v, p);
                lemma_find_cons(w, v[p].0, 0);
                if let Some(j) = find_cons(w, v[p].0, 0) {
                    let xs = v[p].1;
                    let ys = w[j as int].1;
                    lemma_entries_distinct_elem(w, j as int);
                    lemma_find_cons_at(v, p);
                    assert(merges(v, w[j as int]));
                    lemma_zip_or_elems(xs, ys);
                    let z = zip_or(xs, ys)->Some_0;
                    lemma_entries_size_elem(v, p);
                    lemma_entries_size_elem(w, j as int);
                    assert forall|i: int| 0 <= i < z.len() implies cov_distinct(#[trigger] z[i]) by {
                        lemma_covs_distinct_elem(xs, i);
                        lemma_covs_distinct_elem(ys, i);
                        lemma_covs_size_elem(xs, i);
                        lemma_covs_size_elem(ys, i);
                        assert(cov_or(xs[i], ys[i]) == Some(z[i]));
                        lemma_cov_or_distinct(xs[i], ys[i]);
                    }
                    lemma_covs_distinct_all(z);
                }
            } else {
                let j = find_cons(w, r[p].0, 0)->Some_0;
                lemma_find_cons(w, r[p].0, 0);
                lemma_entries_distinct_elem(w, j as int);
            }
        }
        lemma_entries_distinct_all(r);
    }
}

/// What a pattern covers has one entry per constructor in each list of constructor entries.
pub proof fn lemma_pat_cov_distinct(p: Pat)
    requires
        pat_cov(p) is Some,
    ensures
        cov_distinct(pat_cov(p)->Some_0),
    decreases p,
{
    match p {
        Pat::Cons(id, _, ps) => {
            assert(decreases_to!(ps => ps@));
            lemma_pats_cov_distinct(ps@);
            let cs = pats_cov(ps@)->Some_0;
            let v = seq![(id, cs)];
            lemma_entries_distinct_all(v);
        },
        Pat::Or(x, y) => {
            lemma_pat_cov_distinct(*x);
            lemma_pat_cov_distinct(*y);
            lemma_cov_or_distinct(pat_cov(*x)->Some_0, pat_cov(*y)->Some_0);
        },
        _ => {},
    }
}

pub proof fn lemma_pats_cov_distinct(s: Seq<Pat>)
    requires
        pats_cov(s) is Some,
    ensures
        covs_distinct(pats_cov(s)->Some_0),
    decreases s,
{
    if s.len() > 0 {
        let init = s.subrange(0, s.len() - 1);
        assert(decreases_to!(s => init));
        assert(decreases_to!(s => s[s.len() - 1]));
        lemma_pats_cov_distinct(init);
        lemma_pat_cov_distinct(s[s.len() - 1]);
        let r = pats_cov(init)->Some_0;
        let c = pat_cov(s[s.len() - 1])->Some_0;
        assert(r.push(c).subrange(0, r.len() as int) =~= r);
    }
}

/// Covering everything absorbs any covering; covering nothing leaves a covering as it is;
/// both booleans cover all booleans, and one boolean twice covers it.
pub proof fn lemma_cov_or_units(c: CovV, b: bool)
    ensures
        cov_or(CovV::All, c) == Some(CovV::All),
        cov_or(c, CovV::All) == Some(CovV::All),
        cov_or(CovV::Nothing, c) == Some(c),
        cov_or(c, CovV::Nothing) == Some(c),
        cov_or(CovV::Bool(b), CovV::Bool(!b)) == Some(CovV::All),
        cov_or(CovV::Bool(b), CovV::Bool(b)) == Some(CovV::Bool(b)),
{
}

} // verus!
