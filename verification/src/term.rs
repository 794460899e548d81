//! Core syntax (`Term`) and semantic values (`Val`) of the language.
//!
//! Terms use de Bruijn indices (`Ix`, counted from the innermost binder),
//! values use de Bruijn levels (`Lvl`, counted from the outermost binder).
//! Environments and spines are persistent lists, newest element first.
use crate::query::{DefId, Name, PreDefId};
use vstd::prelude::*;
use vstd::string::StringExecFns;

verus! {

/// A de Bruijn level: the number of binders between the root and a variable's binder.
#[derive(Copy, Clone, PartialEq, Eq, Structural, Debug, Hash)]
pub struct Lvl(pub u32);

/// A de Bruijn index: the number of binders between a variable and its binder.
#[derive(Copy, Clone, PartialEq, Eq, Structural, Debug, Hash)]
pub struct Ix(pub u32);

impl Lvl {
    pub fn zero() -> (l: Lvl)
        ensures
            l.0 == 0,
    {
        Lvl(0)
    }

    pub fn inc(self) -> (l: Lvl)
        requires
            self.0 < u32::MAX,
        ensures
            l.0 == self.0 + 1,
    {
        Lvl(self.0 + 1)
    }

    pub open spec fn spec_to_ix(self, enclosing: Lvl) -> Ix {
        Ix((enclosing.0 - 1 - self.0) as u32)
    }

    /// The index under which the variable bound at level `self` is seen
    /// from inside `enclosing` binders.
    #[verifier::when_used_as_spec(spec_to_ix)]
    pub fn to_ix(self, enclosing: Lvl) -> (ix: Ix)
        requires
            self.0 < enclosing.0,
        ensures
            ix.0 == enclosing.0 - 1 - self.0,
            ix == self.spec_to_ix(enclosing),
    {
        Ix(enclosing.0 - 1 - self.0)
    }
}

impl Ix {
    pub fn zero() -> (ix: Ix)
        ensures
            ix.0 == 0,
    {
        Ix(0)
    }

    pub fn inc(self) -> (ix: Ix)
        requires
            self.0 < u32::MAX,
        ensures
            ix.0 == self.0 + 1,
    {
        Ix(self.0 + 1)
    }

    pub open spec fn spec_to_lvl(self, size: Lvl) -> Lvl {
        Lvl((size.0 - 1 - self.0) as u32)
    }

    /// The level of the variable that index `self` denotes inside `size` binders.
    #[verifier::when_used_as_spec(spec_to_lvl)]
    pub fn to_lvl(self, size: Lvl) -> (l: Lvl)
        requires
            self.0 < size.0,
        ensures
            l.0 == size.0 - 1 - self.0,
            l == self.spec_to_lvl(size),
    {
        Lvl(size.0 - 1 - self.0)
    }
}

/// Converting an index to a level and back, inside the same number of binders,
/// gives the index back; and converting a level to an index and back gives the level back.
pub proof fn lemma_ix_lvl_roundtrip(ix: Ix, l: Lvl, size: Lvl)
    requires
        ix.0 < size.0,
        l.0 < size.0,
    ensures
        ix.spec_to_lvl(size).0 < size.0,
        ix.spec_to_lvl(size).spec_to_ix(size) == ix,
        l.spec_to_ix(size).0 < size.0,
        l.spec_to_ix(size).spec_to_lvl(size) == l,
{
}

/// Whether an argument or binder is implicit or explicit.
#[derive(Copy, Clone, PartialEq, Eq, Structural, Debug, Hash)]
pub enum Icit {
    Impl,
    Expl,
}

/// A metavariable: a hole that unification may fill.
#[derive(Copy, Clone, PartialEq, Eq, Structural, Debug, Hash)]
pub enum Meta {
    /// A hole in the type of a global definition.
    Type(PreDefId),
    /// The `n`-th hole inside the body of a definition.
    Local(DefId, u16),
}

/// A primitive of the language.
#[derive(Copy, Clone, PartialEq, Eq, Structural, Debug, Hash)]
pub enum Builtin {
    I32,
    I64,
    Bool,
    True,
    False,
}

/// An integer literal.
#[derive(Copy, Clone, PartialEq, Eq, Structural, Debug, Hash)]
pub enum Literal {
    Positive(u64),
    Negative(i64),
}

impl Literal {
    pub open spec fn spec_to_usize(self) -> usize {
        match self {
            Literal::Positive(i) => i as usize,
            Literal::Negative(i) => i as usize,
        }
    }

    /// The literal's bits, as a `usize`.
    #[verifier::when_used_as_spec(spec_to_usize)]
    pub fn to_usize(self) -> (u: usize)
        ensures
            u == self.spec_to_usize(),
    {
        match self {
            Literal::Positive(i) => i as usize,
            Literal::Negative(i) => i as usize,
        }
    }
}

/// The width of an integer type.
#[derive(Copy, Clone, PartialEq, Eq, Structural, Debug, Hash)]
pub enum Width {
    W8,
    W16,
    W32,
    W64,
}

/// A variable, with locals represented by `L` (an `Ix` in terms, a `Lvl` in values).
#[derive(Copy, Clone, PartialEq, Eq, Structural, Debug, Hash)]
pub enum Var<L> {
    Local(L),
    Top(DefId),
    Rec(PreDefId),
    Meta(Meta),
    /// A datatype constructor.
    Cons(DefId),
    Builtin(Builtin),
}

/// Core terms.
#[derive(PartialEq, Eq, Hash, Debug)]
pub enum Term {
    Type,
    Var(Var<Ix>),
    Lam(Icit, Box<Term>),
    Pi(Icit, Box<Term>, Box<Term>),
    Fun(Box<Term>, Box<Term>),
    App(Icit, Box<Term>, Box<Term>),
    Lit(Literal, Width),
    Error,
}

/// Values: terms in weak head normal form, with closures for binders.
#[derive(PartialEq, Eq, Hash, Debug)]
pub enum Val {
    Type,
    /// A neutral application: a variable applied to a spine of arguments.
    App(Var<Lvl>, Spine),
    Lam(Icit, Clos),
    Pi(Icit, Box<Val>, Clos),
    Fun(Box<Val>, Box<Val>),
    Lit(Literal, Width),
    Error,
}

/// The arguments of a neutral application, the last argument first.
#[derive(PartialEq, Eq, Hash, Debug)]
pub enum Spine {
    Nil,
    Snoc(Box<Spine>, Icit, Box<Val>),
}

/// A body waiting for the value of its bound variable, with the environment it was made in.
#[derive(PartialEq, Eq, Hash, Debug)]
pub struct Clos(pub Box<Env>, pub Box<Term>);

/// The values of the variables in scope, the innermost first.
/// Variables past the end of `vals`, or whose entry is `None`, stand for themselves.
#[derive(PartialEq, Eq, Hash, Debug)]
pub struct Env {
    pub vals: Vals,
    pub size: Lvl,
}

#[derive(PartialEq, Eq, Hash, Debug)]
pub enum Vals {
    Nil,
    Cons(Option<Val>, Box<Vals>),
}

pub type VTy = Val;

/// The value held at position `i` of `vals` (the innermost variable is at 0), if there is one.
pub open spec fn vals_get(vals: Vals, i: nat) -> Option<Val>
    decreases vals,
{
    match vals {
        Vals::Nil => None,
        Vals::Cons(v, rest) => if i == 0 {
            v
        } else {
            vals_get(*rest, (i - 1) as nat)
        },
    }
}

impl Term {
    pub fn copy(&self) -> (r: Term)
        ensures
            r == *self,
        decreases self,
    {
        match self {
            Term::Type => Term::Type,
            Term::Var(v) => Term::Var(*v),
            Term::Lam(i, b) => Term::Lam(*i, Box::new(b.copy())),
            Term::Pi(i, a, b) => Term::Pi(*i, Box::new(a.copy()), Box::new(b.copy())),
            Term::Fun(a, b) => Term::Fun(Box::new(a.copy()), Box::new(b.copy())),
            Term::App(i, a, b) => Term::App(*i, Box::new(a.copy()), Box::new(b.copy())),
            Term::Lit(l, w) => Term::Lit(*l, *w),
            Term::Error => Term::Error,
        }
    }

    pub fn same(&self, other: &Term) -> (r: bool)
        ensures
            r == (*self == *other),
        decreases self,
    {
        match (self, other) {
            (Term::Type, Term::Type) => true,
            (Term::Var(a), Term::Var(b)) => *a == *b,
            (Term::Lam(i, a), Term::Lam(j, b)) => *i == *j && a.same(b),
            (Term::Pi(i, a, b), Term::Pi(j, c, d)) => *i == *j && a.same(c) && b.same(d),
            (Term::Fun(a, b), Term::Fun(c, d)) => a.same(c) && b.same(d),
            (Term::App(i, a, b), Term::App(j, c, d)) => *i == *j && a.same(c) && b.same(d),
            (Term::Lit(l, w), Term::Lit(l2, w2)) => *l == *l2 && *w == *w2,
            (Term::Error, Term::Error) => true,
            _ => false,
        }
    }
}

impl Val {
    pub open spec fn spec_local(l: Lvl) -> Val {
        Val::App(Var::Local(l), Spine::Nil)
    }

    /// The variable bound at level `l`, with no arguments.
    #[verifier::when_used_as_spec(spec_local)]
    pub fn local(l: Lvl) -> (v: Val)
        ensures
            v == Val::spec_local(l),
    {
        Val::App(Var::Local(l), Spine::Nil)
    }

    pub fn top(def: DefId) -> (v: Val)
        ensures
            v == Val::App(Var::Top(def), Spine::Nil),
    {
        Val::App(Var::Top(def), Spine::Nil)
    }

    pub fn rec(id: PreDefId) -> (v: Val)
        ensures
            v == Val::App(Var::Rec(id), Spine::Nil),
    {
        Val::App(Var::Rec(id), Spine::Nil)
    }

    pub fn meta(meta: Meta) -> (v: Val)
        ensures
            v == Val::App(Var::Meta(meta), Spine::Nil),
    {
        Val::App(Var::Meta(meta), Spine::Nil)
    }

    pub fn copy(&self) -> (r: Val)
        ensures
            r == *self,
        decreases self,
    {
        match self {
            Val::Type => Val::Type,
            Val::App(h, sp) => Val::App(*h, sp.copy()),
            Val::Lam(i, cl) => Val::Lam(*i, cl.copy()),
            Val::Pi(i, ty, cl) => Val::Pi(*i, Box::new(ty.copy()), cl.copy()),
            Val::Fun(a, b) => Val::Fun(Box::new(a.copy()), Box::new(b.copy())),
            Val::Lit(l, w) => Val::Lit(*l, *w),
            Val::Error => Val::Error,
        }
    }

    pub fn same(&self, other: &Val) -> (r: bool)
        ensures
            r == (*self == *other),
        decreases self,
    {
        match (self, other) {
            (Val::Type, Val::Type) => true,
            (Val::App(h, sp), Val::App(h2, sp2)) => *h == *h2 && sp.same(sp2),
            (Val::Lam(i, cl), Val::Lam(j, cl2)) => *i == *j && cl.same(cl2),
            (Val::Pi(i, a, cl), Val::Pi(j, b, cl2)) => *i == *j && a.same(b) && cl.same(cl2),
            (Val::Fun(a, b), Val::Fun(c, d)) => a.same(c) && b.same(d),
            (Val::Lit(l, w), Val::Lit(l2, w2)) => *l == *l2 && *w == *w2,
            (Val::Error, Val::Error) => true,
            _ => false,
        }
    }
}

impl Spine {
    /// The spine with one more argument at its end.
    pub fn push(self, icit: Icit, x: Val) -> (sp: Spine)
        ensures
            sp == Spine::Snoc(Box::new(self), icit, Box::new(x)),
    {
        Spine::Snoc(Box::new(self), icit, Box::new(x))
    }

    pub fn copy(&self) -> (r: Spine)
        ensures
            r == *self,
        decreases self,
    {
        match self {
            Spine::Nil => Spine::Nil,
            Spine::Snoc(rest, i, x) => Spine::Snoc(Box::new(rest.copy()), *i, Box::new(x.copy())),
        }
    }

    pub fn same(&self, other: &Spine) -> (r: bool)
        ensures
            r == (*self == *other),
        decreases self,
    {
        match (self, other) {
            (Spine::Nil, Spine::Nil) => true,
            (Spine::Snoc(r1, i, x1), Spine::Snoc(r2, j, x2)) => *i == *j && x1.same(x2) && r1.same(
                r2,
            ),
            _ => false,
        }
    }
}

impl Clos {
    pub fn copy(&self) -> (r: Clos)
        ensures
            r == *self,
        decreases self,
    {
        Clos(Box::new(self.0.copy()), Box::new(self.1.copy()))
    }

    pub fn same(&self, other: &Clos) -> (r: bool)
        ensures
            r == (*self == *other),
        decreases self,
    {
        self.0.same(&other.0) && self.1.same(&other.1)
    }
}

impl Vals {
    pub fn copy(&self) -> (r: Vals)
        ensures
            r == *self,
        decreases self,
    {
        match self {
            Vals::Nil => Vals::Nil,
            Vals::Cons(v, rest) => {
                let v2 = match v {
                    Some(x) => Some(x.copy()),
                    None => None,
                };
                Vals::Cons(v2, Box::new(rest.copy()))
            },
        }
    }

    pub fn same(&self, other: &Vals) -> (r: bool)
        ensures
            r == (*self == *other),
        decreases self,
    {
        match (self, other) {
            (Vals::Nil, Vals::Nil) => true,
            (Vals::Cons(v1, r1), Vals::Cons(v2, r2)) => {
                let head = match (v1, v2) {
                    (Some(a), Some(b)) => a.same(b),
                    (None, None) => true,
                    _ => false,
                };
                head && r1.same(r2)
            },
            _ => false,
        }
    }
}

impl Env {
    pub open spec fn spec_new(size: Lvl) -> Env {
        Env { vals: Vals::Nil, size }
    }

    /// The environment of `size` variables that all stand for themselves.
    #[verifier::when_used_as_spec(spec_new)]
    pub fn new(size: Lvl) -> (env: Env)
        ensures
            env == Env::spec_new(size),
    {
        Env { vals: Vals::Nil, size }
    }

    pub open spec fn spec_pushed(self, v: Option<Val>) -> Env {
        Env { vals: Vals::Cons(v, Box::new(self.vals)), size: Lvl((self.size.0 + 1) as u32) }
    }

    /// Binds one more variable, to `v`, or to itself where `v` is `None`.
    pub fn push(&mut self, v: Option<Val>)
        requires
            old(self).size.0 < u32::MAX,
        ensures
            *final(self) == old(self).spec_pushed(v),
    {
        let mut vals = Vals::Nil;
        std::mem::swap(&mut vals, &mut self.vals);
        self.vals = Vals::Cons(v, Box::new(vals));
        self.size = self.size.inc();
    }

    /// The value of the variable with index `ix`.
    pub open spec fn spec_val(&self, ix: Ix) -> Val {
        match vals_get(self.vals, ix.0 as nat) {
            Some(v) => v,
            None => Val::spec_local(ix.spec_to_lvl(self.size)),
        }
    }

    /// The value of the variable with index `ix`: the value it is bound to,
    /// or the variable itself, as a neutral value at its level.
    #[verifier::when_used_as_spec(spec_val)]
    pub fn val(&self, ix: Ix) -> (v: Val)
        requires
            ix.0 < self.size.0,
        ensures
            v == self.spec_val(ix),
    {
        let mut cur: &Vals = &self.vals;
        let mut k: u32 = ix.0;
        loop
            invariant
                vals_get(*cur, k as nat) == vals_get(self.vals, ix.0 as nat),
                ix.0 < self.size.0,
            decreases k,
        {
            match cur {
                Vals::Nil => {
                    return Val::local(ix.to_lvl(self.size));
                },
                Vals::Cons(v, rest) => {
                    if k == 0 {
                        return match v {
                            Some(x) => x.copy(),
                            None => Val::local(ix.to_lvl(self.size)),
                        };
                    }
                    k = k - 1;
                    cur = &**rest;
                },
            }
        }
    }

    pub fn copy(&self) -> (r: Env)
        ensures
            r == *self,
        decreases self,
    {
        Env { vals: self.vals.copy(), size: self.size }
    }

    pub fn same(&self, other: &Env) -> (r: bool)
        ensures
            r == (*self == *other),
        decreases self,
    {
        self.size == other.size && self.vals.same(&other.vals)
    }
}

/// A definition as the parser gives it, before elaboration.
/// Type annotations are carried as values where they are written out in full.
#[derive(PartialEq, Eq, Hash, Debug)]
pub enum PreDef {
    /// A function definition: its name, its given type, its body.
    Fun(Name, Option<VTy>, Term),
    /// A value definition: its name, its given type, its body.
    Val(Name, Option<VTy>, Term),
    /// A datatype definition: its name and the type of its type constructor.
    Type(Name, Option<VTy>),
    /// An implicit value, maybe named: its name, its type, its body.
    Impl(Option<Name>, Option<VTy>, Term),
    /// A top-level expression.
    Expr(Term),
    /// A function declaration: its name and its given type.
    FunDec(Name, Option<VTy>),
    /// A value declaration: its name and its given type.
    ValDec(Name, Option<VTy>),
    /// A datatype constructor: its name and its type.
    Cons(Name, VTy),
}

impl PreDef {
    pub open spec fn spec_name(&self) -> Option<Name> {
        match self {
            PreDef::Fun(n, _, _) => Some(*n),
            PreDef::Val(n, _, _) => Some(*n),
            PreDef::Type(n, _) => Some(*n),
            PreDef::Impl(n, _, _) => *n,
            PreDef::Expr(_) => None,
            PreDef::FunDec(n, _) => Some(*n),
            PreDef::ValDec(n, _) => Some(*n),
            PreDef::Cons(n, _) => Some(*n),
        }
    }

    /// The name the definition binds, if any.
    #[verifier::when_used_as_spec(spec_name)]
    pub fn name(&self) -> (n: Option<Name>)
        ensures
            n == self.spec_name(),
    {
        match self {
            PreDef::Fun(n, _, _) => Some(*n),
            PreDef::Val(n, _, _) => Some(*n),
            PreDef::Type(n, _) => Some(*n),
            PreDef::Impl(n, _, _) => *n,
            PreDef::Expr(_) => None,
            PreDef::FunDec(n, _) => Some(*n),
            PreDef::ValDec(n, _) => Some(*n),
            PreDef::Cons(n, _) => Some(*n),
        }
    }

    pub open spec fn spec_given_type(&self) -> Option<VTy> {
        match self {
            PreDef::Fun(_, t, _) => *t,
            PreDef::Val(_, t, _) => *t,
            PreDef::Type(_, t) => *t,
            PreDef::Impl(_, t, _) => *t,
            PreDef::Expr(_) => None,
            PreDef::FunDec(_, t) => *t,
            PreDef::ValDec(_, t) => *t,
            PreDef::Cons(_, t) => Some(*t),
        }
    }

    /// The type of the definition, where it is given without needing its body.
    #[verifier::when_used_as_spec(spec_given_type)]
    pub fn given_type(&self) -> (t: Option<VTy>)
        ensures
            t == self.spec_given_type(),
    {
        let t = match self {
            PreDef::Fun(_, t, _) => t,
            PreDef::Val(_, t, _) => t,
            PreDef::Type(_, t) => t,
            PreDef::Impl(_, t, _) => t,
            PreDef::Expr(_) => {
                return None;
            },
            PreDef::FunDec(_, t) => t,
            PreDef::ValDec(_, t) => t,
            PreDef::Cons(_, t) => {
                return Some(t.copy());
            },
        };
        match t {
            Some(v) => Some(v.copy()),
            None => None,
        }
    }

    /// Whether the definition must come after what precedes it in its block
    /// (values, implicits, expressions, constructors), as opposed to functions,
    /// datatypes and declarations, which may refer to each other in any order.
    pub open spec fn is_ordered(&self) -> bool {
        match self {
            PreDef::Val(..) | PreDef::Impl(..) | PreDef::Expr(..) | PreDef::Cons(..) => true,
            _ => false,
        }
    }

    pub fn copy(&self) -> (r: PreDef)
        ensures
            r == *self,
    {
        match self {
            PreDef::Fun(n, t, b) => PreDef::Fun(*n, copy_opt(t), b.copy()),
            PreDef::Val(n, t, b) => PreDef::Val(*n, copy_opt(t), b.copy()),
            PreDef::Type(n, t) => PreDef::Type(*n, copy_opt(t)),
            PreDef::Impl(n, t, b) => PreDef::Impl(*n, copy_opt(t), b.copy()),
            PreDef::Expr(b) => PreDef::Expr(b.copy()),
            PreDef::FunDec(n, t) => PreDef::FunDec(*n, copy_opt(t)),
            PreDef::ValDec(n, t) => PreDef::ValDec(*n, copy_opt(t)),
            PreDef::Cons(n, t) => PreDef::Cons(*n, t.copy()),
        }
    }

    pub fn same(&self, other: &PreDef) -> (r: bool)
        ensures
            r == (*self == *other),
    {
        match (self, other) {
            (PreDef::Fun(n, t, b), PreDef::Fun(n2, t2, b2)) => *n == *n2 && same_opt(t, t2) && b.same(
                b2,
            ),
            (PreDef::Val(n, t, b), PreDef::Val(n2, t2, b2)) => *n == *n2 && same_opt(t, t2) && b.same(
                b2,
            ),
            (PreDef::Type(n, t), PreDef::Type(n2, t2)) => *n == *n2 && same_opt(t, t2),
            (PreDef::Impl(n, t, b), PreDef::Impl(n2, t2, b2)) => *n == *n2 && same_opt(t, t2)
                && b.same(b2),
            (PreDef::Expr(b), PreDef::Expr(b2)) => b.same(b2),
            (PreDef::FunDec(n, t), PreDef::FunDec(n2, t2)) => *n == *n2 && same_opt(t, t2),
            (PreDef::ValDec(n, t), PreDef::ValDec(n2, t2)) => *n == *n2 && same_opt(t, t2),
            (PreDef::Cons(n, t), PreDef::Cons(n2, t2)) => *n == *n2 && t.same(t2),
            _ => false,
        }
    }
}

pub fn copy_opt(v: &Option<Val>) -> (r: Option<Val>)
    ensures
        r == *v,
{
    match v {
        Some(x) => Some(x.copy()),
        None => None,
    }
}

pub fn same_opt(a: &Option<Val>, b: &Option<Val>) -> (r: bool)
    ensures
        r == (*a == *b),
{
    match (a, b) {
        (Some(x), Some(y)) => x.same(y),
        (None, None) => true,
        _ => false,
    }
}

/// The character of decimal digit `d`.
pub open spec fn digit_char(d: nat) -> char {
    if d == 0 {
        '0'
    } else if d == 1 {
        '1'
    } else if d == 2 {
        '2'
    } else if d == 3 {
        '3'
    } else if d == 4 {
        '4'
    } else if d == 5 {
        '5'
    } else if d == 6 {
        '6'
    } else if d == 7 {
        '7'
    } else if d == 8 {
        '8'
    } else {
        '9'
    }
}

/// `n` written in decimal.
pub open spec fn decimal(n: nat) -> Seq<char>
    decreases n,
{
    if n < 10 {
        seq![digit_char(n)]
    } else {
        decimal(n / 10).push(digit_char(n % 10))
    }
}

/// A literal as it is written.
pub open spec fn lit_text(l: Literal) -> Seq<char> {
    match l {
        Literal::Positive(n) => decimal(n as nat),
        Literal::Negative(n) => if n < 0 {
            seq!['-'] + decimal((-n) as nat)
        } else {
            decimal(n as nat)
        },
    }
}

fn digit_str(d: u64) -> (s: &'static str)
    requires
        d < 10,
    ensures
        s@ == seq![digit_char(d as nat)],
{
    proof {
        reveal_strlit("0");
        reveal_strlit("1");
        reveal_strlit("2");
        reveal_strlit("3");
        reveal_strlit("4");
        reveal_strlit("5");
        reveal_strlit("6");
        reveal_strlit("7");
        reveal_strlit("8");
        reveal_strlit("9");
    }
    if d == 0 {
        "0"
    } else if d == 1 {
        "1"
    } else if d == 2 {
        "2"
    } else if d == 3 {
        "3"
    } else if d == 4 {
        "4"
    } else if d == 5 {
        "5"
    } else if d == 6 {
        "6"
    } else if d == 7 {
        "7"
    } else if d == 8 {
        "8"
    } else {
        "9"
    }
}

/// Appends `n`, in decimal, to `s`.
fn push_decimal(s: &mut String, n: u64)
    ensures
        final(s)@ == old(s)@ + decimal(n as nat),
    decreases n,
{
    if n < 10 {
        s.append(digit_str(n));
    } else {
        push_decimal(s, n / 10);
        s.append(digit_str(n % 10));
        proof {
            assert(decimal(n as nat) == decimal((n / 10) as nat).push(digit_char((n % 10) as nat)));
        }
    }
}

impl Literal {
    /// The literal as it is written.
    pub fn pretty(&self) -> (s: String)
        ensures
            s@ == lit_text(*self),
    {
        let mut s = String::new();
        match self {
            Literal::Positive(n) => push_decimal(&mut s, *n),
            Literal::Negative(n) => {
                if *n < 0 {
                    proof {
                        reveal_strlit("-");
                    }
                    s.append("-");
                    let m: u64 = (0i128 - *n as i128) as u64;
                    push_decimal(&mut s, m);
                } else {
                    push_decimal(&mut s, *n as u64);
                }
            },
        }
        s
    }
}

} // verus!
