//! Interned identifiers, name contexts and the compiler database.
//!
//! Every interned object is kept in a table and named by its position there:
//! interning a value already in the table gives back its old id, so equal values
//! always have equal ids. A context (`Cxt`) is a linked list of entries stored in
//! such a table, each entry naming the context it extends, which is always an
//! older entry.
use crate::elab::{res_view, type_error_view, PatElab, PrePat, TypeError, TypeErrorV};
use crate::error::{Error, FileId, Span};
use crate::term::{Builtin, Env, Ix, Lvl, PreDef, Spine, Term, VTy, Val, Var};
use vstd::string::StringExecFns;
use std::sync::Arc;
use vstd::prelude::*;

verus! {

/// An identifier, represented as an interned string.
#[derive(Copy, Clone, PartialEq, Eq, Structural, PartialOrd, Ord, Hash, Debug)]
pub struct Name(pub u32);

/// A reference to a definition and the context it is checked in.
#[derive(Copy, Clone, PartialEq, Eq, Structural, PartialOrd, Ord, Hash, Debug)]
pub struct DefId(pub u32);

/// A reference to a definition, without context.
/// This is needed for (mutually) recursive definitions, where the context of one definition requires the others.
#[derive(Copy, Clone, PartialEq, Eq, Structural, PartialOrd, Ord, Hash, Debug)]
pub struct PreDefId(pub u32);

/// A reference to a scope with members, for a datatype's associated module or a structure.
#[derive(Copy, Clone, PartialEq, Eq, Structural, PartialOrd, Ord, Hash, Debug)]
pub struct ScopeId(pub u32);

/// A reference to a datatype and its constructors, but not its associated module.
#[derive(Copy, Clone, PartialEq, Eq, Structural, PartialOrd, Ord, Hash, Debug)]
pub struct TypeId(pub u32);

/// The context for resolving names, represented as a linked list of definitions,
/// with the links stored in the database.
#[derive(Copy, Clone, PartialEq, Eq, Structural, PartialOrd, Ord, Hash, Debug)]
pub struct Cxt(pub u32);

/// The effects that may be performed where a definition stands, the innermost first.
#[derive(PartialEq, Eq, Hash, Debug)]
pub enum EffStack {
    Nil,
    Cons(Box<Val>, Box<EffStack>),
}

impl EffStack {
    pub fn copy(&self) -> (r: EffStack)
        ensures
            r == *self,
        decreases self,
    {
        match self {
            EffStack::Nil => EffStack::Nil,
            EffStack::Cons(e, rest) => EffStack::Cons(Box::new(e.copy()), Box::new(rest.copy())),
        }
    }

    pub fn same(&self, other: &EffStack) -> (r: bool)
        ensures
            r == (*self == *other),
        decreases self,
    {
        match (self, other) {
            (EffStack::Nil, EffStack::Nil) => true,
            (EffStack::Cons(e, r1), EffStack::Cons(e2, r2)) => e.same(e2) && r1.same(r2),
            _ => false,
        }
    }
}

/// A solution for a recursive definition's type, found while elaborating another definition.
#[derive(PartialEq, Eq, Hash, Debug)]
pub enum RecSolution {
    Defined(PreDefId, u16, Span, Val),
    Inferred(PreDefId, u16, Span, Val),
}

impl RecSolution {
    pub fn id(&self) -> (id: PreDefId)
        ensures
            id == match self {
                RecSolution::Defined(id, _, _, _) => *id,
                RecSolution::Inferred(id, _, _, _) => *id,
            },
    {
        match self {
            RecSolution::Defined(id, _, _, _) | RecSolution::Inferred(id, _, _, _) => *id,
        }
    }

    pub fn num(&self) -> (n: u16)
        ensures
            n == match self {
                RecSolution::Defined(_, n, _, _) => *n,
                RecSolution::Inferred(_, n, _, _) => *n,
            },
    {
        match self {
            RecSolution::Defined(_, n, _, _) | RecSolution::Inferred(_, n, _, _) => *n,
        }
    }

    pub fn val(&self) -> (v: &Val)
        ensures
            *v == match self {
                RecSolution::Defined(_, _, _, v) => *v,
                RecSolution::Inferred(_, _, _, v) => *v,
            },
    {
        match self {
            RecSolution::Defined(_, _, _, v) | RecSolution::Inferred(_, _, _, v) => v,
        }
    }
}

/// What a name in a context stands for.
#[derive(PartialEq, Eq, Hash, Debug)]
pub enum NameInfo {
    /// A definition.
    Def(DefId),
    /// A local variable, of this type.
    Local(VTy),
    /// A definition of the current block, not elaborated yet, of this type.
    Rec(PreDefId, VTy),
    /// Any other variable, of this type.
    Other(Var<Ix>, VTy),
}

impl NameInfo {
    pub fn copy(&self) -> (r: NameInfo)
        ensures
            r == *self,
    {
        match self {
            NameInfo::Def(id) => NameInfo::Def(*id),
            NameInfo::Local(ty) => NameInfo::Local(ty.copy()),
            NameInfo::Rec(id, ty) => NameInfo::Rec(*id, ty.copy()),
            NameInfo::Other(v, ty) => NameInfo::Other(*v, ty.copy()),
        }
    }

    pub fn same(&self, other: &NameInfo) -> (r: bool)
        ensures
            r == (*self == *other),
    {
        match (self, other) {
            (NameInfo::Def(a), NameInfo::Def(b)) => *a == *b,
            (NameInfo::Local(a), NameInfo::Local(b)) => a.same(b),
            (NameInfo::Rec(i, a), NameInfo::Rec(j, b)) => *i == *j && a.same(b),
            (NameInfo::Other(v, a), NameInfo::Other(w, b)) => *v == *w && a.same(b),
            _ => false,
        }
    }
}

/// One cell of the context linked list.
#[derive(PartialEq, Eq, Hash, Debug)]
pub struct CxtEntry {
    pub name: Name,
    pub info: NameInfo,
    pub file: FileId,
    /// The number of local variables in scope, this one included.
    pub size: Lvl,
    pub rest: Cxt,
}

#[derive(PartialEq, Eq, Hash, Debug)]
pub enum MaybeEntry {
    Yes(CxtEntry),
    /// The root of the contexts of a file.
    No(FileId),
}

impl MaybeEntry {
    pub fn copy(&self) -> (r: MaybeEntry)
        ensures
            r == *self,
    {
        match self {
            MaybeEntry::Yes(e) => MaybeEntry::Yes(
                CxtEntry {
                    name: e.name,
                    info: e.info.copy(),
                    file: e.file,
                    size: e.size,
                    rest: e.rest,
                },
            ),
            MaybeEntry::No(f) => MaybeEntry::No(*f),
        }
    }

    pub fn same(&self, other: &MaybeEntry) -> (r: bool)
        ensures
            r == (*self == *other),
    {
        match (self, other) {
            (MaybeEntry::Yes(a), MaybeEntry::Yes(b)) => a.name == b.name && a.file == b.file
                && a.size == b.size && a.rest == b.rest && a.info.same(&b.info),
            (MaybeEntry::No(a), MaybeEntry::No(b)) => *a == *b,
            _ => false,
        }
    }
}

/// The result of elaborating a definition.
#[derive(Clone, PartialEq, Eq, Hash, Debug)]
pub struct ElabInfo {
    pub term: Arc<crate::term::Term>,
    pub typ: Arc<VTy>,
    pub solved_globals: Arc<Vec<RecSolution>>,
    /// Only used for definitions in the associated namespace of a datatype
    pub children: Arc<Vec<DefId>>,
}

#[derive(Copy, Clone, Debug, Eq, PartialEq, Structural)]
pub enum DefError {
    /// This happens when we can't find a variable, or we try to get the value of a definition that doesn't have one, like a declaration.
    NoValue,
    ElabError(DefId),
}

// The interning tables.
/// What the interning tables hold, each object at the position of its id.
#[verifier::ext_equal]
pub struct InternTables {
    pub names: Seq<Seq<char>>,
    pub predefs: Seq<PreDef>,
    pub defs: Seq<(PreDefId, Cxt, Option<EffStack>)>,
    pub scopes: Seq<Seq<(Name, DefId)>>,
    pub types: Seq<Seq<(Name, DefId)>>,
    pub cxts: Seq<MaybeEntry>,
}

/// No value occurs twice in `s`.
pub open spec fn unique<K>(s: Seq<K>) -> bool {
    forall|i: int, j: int|
        0 <= i < s.len() && 0 <= j < s.len() && i != j ==> #[trigger] s[i] != #[trigger] s[j]
}

/// Table `new` is table `old` after `key` was interned, and `key` has id `id` in it.
pub open spec fn interns<K>(old: Seq<K>, new: Seq<K>, key: K, id: nat) -> bool {
    &&& id < new.len()
    &&& new[id as int] == key
    &&& if old.contains(key) {
        new == old
    } else {
        new == old.push(key)
    }
}

/// The entry of context table `cxts` at position `i` refers only to what is in the tables.
pub open spec fn cxt_entry_wf(t: InternTables, e: MaybeEntry, i: int) -> bool {
    match e {
        MaybeEntry::Yes(entry) => {
            &&& entry.rest.0 < i
            &&& (entry.info matches NameInfo::Def(id) ==> id.0 < t.defs.len())
        },
        MaybeEntry::No(_) => true,
    }
}

pub open spec fn tables_wf(t: InternTables) -> bool {
    &&& unique(t.names) && unique(t.predefs) && unique(t.defs)
    &&& unique(t.scopes) && unique(t.types) && unique(t.cxts)
    &&& t.names.len() <= u32::MAX && t.predefs.len() <= u32::MAX && t.defs.len() <= u32::MAX
    &&& t.scopes.len() <= u32::MAX && t.types.len() <= u32::MAX && t.cxts.len() <= u32::MAX
    &&& forall|i: int| 0 <= i < t.cxts.len() ==> cxt_entry_wf(t, #[trigger] t.cxts[i], i)
}

/// A value that can be interned: it has a key, which the table compares.
pub trait InternKey: Sized {
    type K;

    spec fn key(&self) -> Self::K;

    fn same_key(&self, other: &Self) -> (r: bool)
        ensures
            r == (self.key() == other.key()),
    ;
}

impl InternKey for String {
    type K = Seq<char>;

    open spec fn key(&self) -> Seq<char> {
        self@
    }

    fn same_key(&self, other: &Self) -> (r: bool) {
        *self == *other
    }
}

impl InternKey for PreDef {
    type K = PreDef;

    open spec fn key(&self) -> PreDef {
        *self
    }

    fn same_key(&self, other: &Self) -> (r: bool) {
        self.same(other)
    }
}

impl InternKey for (PreDefId, Cxt, Option<EffStack>) {
    type K = (PreDefId, Cxt, Option<EffStack>);

    open spec fn key(&self) -> (PreDefId, Cxt, Option<EffStack>) {
        *self
    }

    fn same_key(&self, other: &Self) -> (r: bool) {
        let effs = match (&self.2, &other.2) {
            (Some(a), Some(b)) => a.same(b),
            (None, None) => true,
            _ => false,
        };
        self.0 == other.0 && self.1 == other.1 && effs
    }
}

impl InternKey for Vec<(Name, DefId)> {
    type K = Seq<(Name, DefId)>;

    open spec fn key(&self) -> Seq<(Name, DefId)> {
        self@
    }

    fn same_key(&self, other: &Self) -> (r: bool) {
        if self.len() != other.len() {
            return false;
        }
        let mut i: usize = 0;
        while i < self.len()
            invariant
                self.len() == other.len(),
                i <= self.len(),
                forall|j: int| 0 <= j < i ==> self@[j] == other@[j],
            decreases self.len() - i,
        {
            if self[i].0 != other[i].0 || self[i].1 != other[i].1 {
                return false;
            }
            i += 1;
        }
        assert(self@ =~= other@);
        true
    }
}

impl InternKey for MaybeEntry {
    type K = MaybeEntry;

    open spec fn key(&self) -> MaybeEntry {
        *self
    }

    fn same_key(&self, other: &Self) -> (r: bool) {
        self.same(other)
    }
}

/// The keys of the values of a table, in order.
pub open spec fn keys<K: InternKey>(s: Seq<K>) -> Seq<K::K> {
    s.map_values(|x: K| x.key())
}

/// Interns `k` in `table`: returns the position of a value with the same key, or
/// adds `k` at the end and returns its position.
fn intern_in<K: InternKey>(table: &mut Vec<K>, k: K) -> (id: u32)
    requires
        old(table)@.len() < u32::MAX,
        unique(keys(old(table)@)),
    ensures
        interns(keys(old(table)@), keys(final(table)@), k.key(), id as nat),
        unique(keys(final(table)@)),
{
    let ghost old_keys = keys(table@);
    let mut i: usize = 0;
    while i < table.len()
        invariant
            i <= table@.len(),
            table@.len() < u32::MAX,
            table@ == old(table)@,
            old_keys == keys(table@),
            unique(old_keys),
            forall|j: int| 0 <= j < i ==> table@[j].key() != k.key(),
        decreases table@.len() - i,
    {
        if table[i].same_key(&k) {
            assert(old_keys[i as int] == k.key());
            assert(old_keys.contains(k.key()));
            return i as u32;
        }
        i += 1;
    }
    assert(!old_keys.contains(k.key())) by {
        if old_keys.contains(k.key()) {
            let j = choose|j: int| 0 <= j < old_keys.len() && old_keys[j] == k.key();
            assert(table@[j].key() == k.key());
        }
    }
    let id = table.len() as u32;
    let ghost kk = k.key();
    table.push(k);
    assert(keys(table@) =~= old_keys.push(kk));
    id
}

/// Interning of strings, definitions, scopes, datatypes and contexts.
pub trait Interner: Sized {
    /// What an implementation holds besides its tables, which interning leaves alone.
    type Store;

    spec fn tables(&self) -> InternTables;

    spec fn store(&self) -> Self::Store;

    /// What an implementation keeps true of itself.
    spec fn inv(&self) -> bool;

    proof fn lemma_inv(&self)
        requires
            self.inv(),
        ensures
            tables_wf(self.tables()),
    ;

    fn intern_name(&mut self, s: String) -> (n: Name)
        requires
            old(self).inv(),
            old(self).tables().names.len() < u32::MAX,
        ensures
            final(self).inv(),
            final(self).store() == old(self).store(),
            interns(old(self).tables().names, final(self).tables().names, s@, n.0 as nat),
            final(self).tables() == (InternTables {
                names: final(self).tables().names,
                ..old(self).tables()
            }),
    ;

    fn lookup_intern_name(&self, n: Name) -> (s: String)
        requires
            self.inv(),
            n.0 < self.tables().names.len(),
        ensures
            s@ == self.tables().names[n.0 as int],
    ;

    fn intern_predef(&mut self, def: PreDef) -> (id: PreDefId)
        requires
            old(self).inv(),
            old(self).tables().predefs.len() < u32::MAX,
        ensures
            final(self).inv(),
            final(self).store() == old(self).store(),
            interns(old(self).tables().predefs, final(self).tables().predefs, def, id.0 as nat),
            final(self).tables() == (InternTables {
                predefs: final(self).tables().predefs,
                ..old(self).tables()
            }),
    ;

    fn lookup_intern_predef(&self, id: PreDefId) -> (def: PreDef)
        requires
            self.inv(),
            id.0 < self.tables().predefs.len(),
        ensures
            def == self.tables().predefs[id.0 as int],
    ;

    fn intern_def(&mut self, def: PreDefId, cxt: Cxt, eff_stack: Option<EffStack>) -> (id: DefId)
        requires
            old(self).inv(),
            old(self).tables().defs.len() < u32::MAX,
        ensures
            final(self).inv(),
            final(self).store() == old(self).store(),
            interns(
                old(self).tables().defs,
                final(self).tables().defs,
                (def, cxt, eff_stack),
                id.0 as nat,
            ),
            final(self).tables() == (InternTables {
                defs: final(self).tables().defs,
                ..old(self).tables()
            }),
    ;

    fn lookup_intern_def(&self, id: DefId) -> (key: (PreDefId, Cxt, Option<EffStack>))
        requires
            self.inv(),
            id.0 < self.tables().defs.len(),
        ensures
            key == self.tables().defs[id.0 as int],
    ;

    fn intern_scope(&mut self, scope: Vec<(Name, DefId)>) -> (id: ScopeId)
        requires
            old(self).inv(),
            old(self).tables().scopes.len() < u32::MAX,
        ensures
            final(self).inv(),
            final(self).store() == old(self).store(),
            interns(old(self).tables().scopes, final(self).tables().scopes, scope@, id.0 as nat),
            final(self).tables() == (InternTables {
                scopes: final(self).tables().scopes,
                ..old(self).tables()
            }),
    ;

    fn lookup_intern_scope(&self, id: ScopeId) -> (scope: Vec<(Name, DefId)>)
        requires
            self.inv(),
            id.0 < self.tables().scopes.len(),
        ensures
            scope@ == self.tables().scopes[id.0 as int],
    ;

    fn intern_type(&mut self, constructors: Vec<(Name, DefId)>) -> (id: TypeId)
        requires
            old(self).inv(),
            old(self).tables().types.len() < u32::MAX,
        ensures
            final(self).inv(),
            final(self).store() == old(self).store(),
            interns(
                old(self).tables().types,
                final(self).tables().types,
                constructors@,
                id.0 as nat,
            ),
            final(self).tables() == (InternTables {
                types: final(self).tables().types,
                ..old(self).tables()
            }),
    ;

    fn lookup_intern_type(&self, id: TypeId) -> (constructors: Vec<(Name, DefId)>)
        requires
            self.inv(),
            id.0 < self.tables().types.len(),
        ensures
            constructors@ == self.tables().types[id.0 as int],
    ;

    /// The context is stored as a linked list, whose links are interned entries.
    fn cxt_entry(&mut self, key: MaybeEntry) -> (c: Cxt)
        requires
            old(self).inv(),
            old(self).tables().cxts.len() < u32::MAX,
            cxt_entry_wf(old(self).tables(), key, old(self).tables().cxts.len() as int),
        ensures
            final(self).inv(),
            final(self).store() == old(self).store(),
            interns(old(self).tables().cxts, final(self).tables().cxts, key, c.0 as nat),
            final(self).tables() == (InternTables {
                cxts: final(self).tables().cxts,
                ..old(self).tables()
            }),
    ;

    fn lookup_cxt_entry(&self, c: Cxt) -> (e: MaybeEntry)
        requires
            self.inv(),
            c.0 < self.tables().cxts.len(),
        ensures
            e == self.tables().cxts[c.0 as int],
    ;
}

/// Collects the diagnostics reported while compiling.
pub trait CompilerExt: Interner {
    spec fn errors(&self) -> Seq<Error>;

    /// The diagnostics are part of the store.
    proof fn lemma_errors_in_store(&self, other: &Self)
        requires
            self.store() == other.store(),
        ensures
            self.errors() == other.errors(),
    ;

    fn report_error(&mut self, error: Error)
        requires
            old(self).inv(),
        ensures
            final(self).inv(),
            final(self).tables() == old(self).tables(),
            final(self).errors() == old(self).errors().push(error),
    ;

    fn num_errors(&self) -> (n: usize)
        ensures
            n == self.errors().len(),
    ;

    /// Hands out the diagnostics reported so far, in the order they were reported, and forgets them.
    fn take_errors(&mut self) -> (errors: Vec<Error>)
        requires
            old(self).inv(),
        ensures
            final(self).inv(),
            final(self).tables() == old(self).tables(),
            errors@ == old(self).errors(),
            final(self).errors() == Seq::<Error>::empty(),
    ;
}

/// The queries of the compiler: the source files, and the elaboration of definitions.
pub trait Compiler: CompilerExt + Interner {
    /// The source text of `file`, where it was given.
    spec fn spec_file_source(&self, file: FileId) -> Option<Seq<char>>;

    /// The result of elaborating `def`, where it is known.
    spec fn spec_elaborate_def(&self, def: DefId) -> Option<Result<ElabInfo, DefError>>;

    /// The source files and the elaborations are part of the store, so interning,
    /// which leaves the store alone, keeps them.
    proof fn lemma_queries_in_store(&self, other: &Self)
        requires
            self.store() == other.store(),
        ensures
            forall|d: DefId| #[trigger] self.spec_elaborate_def(d) == other.spec_elaborate_def(d),
            forall|f: FileId| #[trigger] self.spec_file_source(f) == other.spec_file_source(f),
    ;

    fn file_source(&self, file: FileId) -> (s: String)
        requires
            self.spec_file_source(file) is Some,
        ensures
            Some(s@) == self.spec_file_source(file),
    ;

    fn elaborate_def(&self, def: DefId) -> (r: Result<ElabInfo, DefError>)
        requires
            self.spec_elaborate_def(def) is Some,
        ensures
            r == self.spec_elaborate_def(def)->Some_0,
    ;

    /// The type of a definition, as its elaboration gives it.
    fn def_type(&self, def: DefId) -> (r: Result<Arc<VTy>, DefError>)
        requires
            self.spec_elaborate_def(def) is Some,
        ensures
            r == match self.spec_elaborate_def(def)->Some_0 {
                Ok(info) => Ok(info.typ),
                Err(e) => Err(e),
            },
    {
        match self.elaborate_def(def) {
            Ok(info) => Ok(info.typ),
            Err(e) => Err(e),
        }
    }
}

/// `Arc::clone`: a new pointer to the same value.
#[verifier::external_body]
fn arc_clone<T>(a: &Arc<T>) -> (r: Arc<T>)
    ensures
        r == *a,
{
    Arc::clone(a)
}

impl ElabInfo {
    pub fn copy(&self) -> (r: ElabInfo)
        ensures
            r == *self,
    {
        ElabInfo {
            term: arc_clone(&self.term),
            typ: arc_clone(&self.typ),
            solved_globals: arc_clone(&self.solved_globals),
            children: arc_clone(&self.children),
        }
    }
}

// The database.
pub struct Database {
    names: Vec<String>,
    predefs: Vec<PreDef>,
    defs: Vec<(PreDefId, Cxt, Option<EffStack>)>,
    scopes: Vec<Vec<(Name, DefId)>>,
    types: Vec<Vec<(Name, DefId)>>,
    cxts: Vec<MaybeEntry>,
    sources: Vec<(FileId, String)>,
    elaborations: Vec<(DefId, Result<ElabInfo, DefError>)>,
    errors: Vec<Error>,
    infers: Vec<(PrePat, Cxt, Result<(Term, VTy), TypeError>)>,
    unifies: Vec<(VTy, VTy, Lvl, bool, Result<bool, TypeError>)>,
    arities: Vec<(VTy, usize)>,
}

pub open spec fn empty_tables() -> InternTables {
    InternTables {
        names: Seq::empty(),
        predefs: Seq::empty(),
        defs: Seq::empty(),
        scopes: Seq::empty(),
        types: Seq::empty(),
        cxts: Seq::empty(),
    }
}

impl Database {
    /// A database with nothing interned, no source files and no diagnostics.
    pub fn new() -> (db: Database)
        ensures
            db.inv(),
            db.tables() == empty_tables(),
            db.errors() == Seq::<Error>::empty(),
            forall|f: FileId| db.spec_file_source(f) is None,
            forall|d: DefId| db.spec_elaborate_def(d) is None,
    {
        let db = Database {
            names: Vec::new(),
            predefs: Vec::new(),
            defs: Vec::new(),
            scopes: Vec::new(),
            types: Vec::new(),
            cxts: Vec::new(),
            sources: Vec::new(),
            elaborations: Vec::new(),
            errors: Vec::new(),
            infers: Vec::new(),
            unifies: Vec::new(),
            arities: Vec::new(),
        };
        assert(db.tables() =~= empty_tables());
        db
    }

    /// Sets the source text of `file`.
    pub fn set_file_source(&mut self, file: FileId, source: String)
        ensures
            final(self).spec_file_source(file) == Some(source@),
            forall|f: FileId| f != file ==> final(self).spec_file_source(f) == old(self).spec_file_source(f),
            forall|d: DefId| final(self).spec_elaborate_def(d) == old(self).spec_elaborate_def(d),
            final(self).tables() == old(self).tables(),
            final(self).errors() == old(self).errors(),
            final(self).inv() == old(self).inv(),
    {
        let ghost old_sources = self.sources@;
        self.sources.push((file, source));
        assert(self.sources@.drop_last() =~= old_sources);
    }

    /// Records the result of elaborating `def`, for `elaborate_def` to give back.
    pub fn record_elaboration(&mut self, def: DefId, result: Result<ElabInfo, DefError>)
        ensures
            final(self).spec_elaborate_def(def) == Some(result),
            forall|d: DefId| d != def ==> final(self).spec_elaborate_def(d) == old(self).spec_elaborate_def(d),
            forall|f: FileId| final(self).spec_file_source(f) == old(self).spec_file_source(f),
            final(self).tables() == old(self).tables(),
            final(self).errors() == old(self).errors(),
            final(self).inv() == old(self).inv(),
    {
        let ghost old_elabs = self.elaborations@;
        self.elaborations.push((def, result));
        assert(self.elaborations@.drop_last() =~= old_elabs);
    }
}

/// The definitions of the results of `check_all`.
pub open spec fn checked_defs(r: Seq<(DefId, Option<Result<ElabInfo, DefError>>)>) -> Seq<DefId> {
    r.map_values(|e: (DefId, Option<Result<ElabInfo, DefError>>)| e.0)
}

impl Database {
    /// The result of elaborating `def`, where one is recorded.
    pub fn recorded_elaboration(&self, def: DefId) -> (r: Option<Result<ElabInfo, DefError>>)
        ensures
            r == self.spec_elaborate_def(def),
    {
        let mut i: usize = self.elaborations.len();
        assert(self.elaborations@.take(i as int) =~= self.elaborations@);
        while i > 0
            invariant
                i <= self.elaborations@.len(),
                last_elaboration(self.elaborations@.take(i as int), def) == last_elaboration(
                    self.elaborations@,
                    def,
                ),
            decreases i,
        {
            assert(self.elaborations@.take(i as int).drop_last() =~= self.elaborations@.take(i - 1));
            i -= 1;
            if self.elaborations[i].0 == def {
                return Some(
                    match &self.elaborations[i].1 {
                        Ok(info) => Ok(info.copy()),
                        Err(e) => Err(*e),
                    },
                );
            }
        }
        None
    }

    /// Puts the definitions of source file `file` in scope, given what parsing its text
    /// gave (`top_level`), and elaborates each of them: the definitions, each with its
    /// elaboration where one is recorded.
    pub fn check_all(&mut self, file: FileId, parsed: Result<Vec<PreDef>, Error>) -> (r: Vec<
        (DefId, Option<Result<ElabInfo, DefError>>),
    >)
        requires
            old(self).inv(),
            old(self).tables().cxts.len() + 6 < u32::MAX,
            old(self).tables().names.len() + 5 < u32::MAX,
            parsed is Ok ==> old(self).tables().predefs.len() + parsed->Ok_0@.len() < u32::MAX,
            parsed is Ok ==> old(self).tables().defs.len() + parsed->Ok_0@.len() < u32::MAX,
            parsed is Ok ==> old(self).tables().cxts.len() + 2 * parsed->Ok_0@.len() + 6 < u32::MAX,
        ensures
            final(self).inv(),
            forall|i: int| 0 <= i < r@.len() ==> #[trigger] r@[i].1 == final(self).spec_elaborate_def(r@[i].0),
            extends(old(self).tables().defs, final(self).tables().defs),
            exists|root: Cxt|
                #[trigger] file_root(final(self).tables(), root, file) && (parsed matches Ok(v) ==> forall|k: int|
                    0 <= k < v@.len() ==> #[trigger] block_def(
                        final(self).tables(),
                        final(self).tables().cxts,
                        v@,
                        block_pids(final(self).tables(), checked_defs(r@)),
                        checked_defs(r@),
                        root,
                        None,
                        k,
                    )),
            match parsed {
                Err(e) => {
                    &&& r@ == Seq::<(DefId, Option<Result<ElabInfo, DefError>>)>::empty()
                    &&& final(self).errors() == old(self).errors().push(e)
                },
                Ok(v) => {
                    &&& r@.len() == v@.len()
                    &&& final(self).errors() == old(self).errors()
                },
            },
    {
        let defs = top_level(self, file, parsed);
        let mut r: Vec<(DefId, Option<Result<ElabInfo, DefError>>)> = Vec::new();
        let mut i: usize = 0;
        while i < defs.len()
            invariant
                i <= defs@.len(),
                r@.len() == i,
                forall|j: int| 0 <= j < i ==> #[trigger] r@[j].0 == defs@[j],
                forall|j: int| 0 <= j < i ==> #[trigger] r@[j].1 == self.spec_elaborate_def(r@[j].0),
            decreases defs@.len() - i,
        {
            let e = self.recorded_elaboration(defs[i]);
            r.push((defs[i], e));
            i += 1;
        }
        assert(checked_defs(r@) =~= defs@);
        r
    }
}

/// The result last recorded for `def` in `elabs`.
pub closed spec fn last_elaboration(
    elabs: Seq<(DefId, Result<ElabInfo, DefError>)>,
    def: DefId,
) -> Option<Result<ElabInfo, DefError>>
    decreases elabs.len(),
{
    if elabs.len() == 0 {
        None
    } else if elabs.last().0 == def {
        Some(elabs.last().1)
    } else {
        last_elaboration(elabs.drop_last(), def)
    }
}

/// The text of the last source set for `file` in `sources`.
pub closed spec fn last_source(sources: Seq<(FileId, String)>, file: FileId) -> Option<Seq<char>>
    decreases sources.len(),
{
    if sources.len() == 0 {
        None
    } else if sources.last().0 == file {
        Some(sources.last().1@)
    } else {
        last_source(sources.drop_last(), file)
    }
}

impl Default for Database {
    fn default() -> (db: Database)
        ensures
            db.inv(),
            db.tables() == empty_tables(),
            db.errors() == Seq::<Error>::empty(),
            forall|f: FileId| db.spec_file_source(f) is None,
            forall|d: DefId| db.spec_elaborate_def(d) is None,
    {
        Database::new()
    }
}

impl Interner for Database {
    type Store = (
        Seq<(FileId, String)>,
        Seq<(DefId, Result<ElabInfo, DefError>)>,
        Seq<Error>,
        Seq<(PrePat, Cxt, Result<(Term, VTy), TypeError>)>,
        Seq<(VTy, VTy, Lvl, bool, Result<bool, TypeError>)>,
        Seq<(VTy, usize)>,
    );

    closed spec fn store(&self) -> Self::Store {
        (self.sources@, self.elaborations@, self.errors@, self.infers@, self.unifies@, self.arities@)
    }

    closed spec fn tables(&self) -> InternTables {
        InternTables {
            names: keys(self.names@),
            predefs: keys(self.predefs@),
            defs: keys(self.defs@),
            scopes: keys(self.scopes@),
            types: keys(self.types@),
            cxts: keys(self.cxts@),
        }
    }

    closed spec fn inv(&self) -> bool {
        tables_wf(self.tables())
    }

    proof fn lemma_inv(&self) {
    }

    fn intern_name(&mut self, s: String) -> (n: Name) {
        Name(intern_in(&mut self.names, s))
    }

    fn lookup_intern_name(&self, n: Name) -> (s: String) {
        self.names[n.0 as usize].clone()
    }

    fn intern_predef(&mut self, def: PreDef) -> (id: PreDefId) {
        PreDefId(intern_in(&mut self.predefs, def))
    }

    fn lookup_intern_predef(&self, id: PreDefId) -> (def: PreDef) {
        self.predefs[id.0 as usize].copy()
    }

    fn intern_def(&mut self, def: PreDefId, cxt: Cxt, eff_stack: Option<EffStack>) -> (id: DefId) {
        DefId(intern_in(&mut self.defs, (def, cxt, eff_stack)))
    }

    fn lookup_intern_def(&self, id: DefId) -> (key: (PreDefId, Cxt, Option<EffStack>)) {
        let k = &self.defs[id.0 as usize];
        let effs = match &k.2 {
            Some(e) => Some(e.copy()),
            None => None,
        };
        (k.0, k.1, effs)
    }

    fn intern_scope(&mut self, scope: Vec<(Name, DefId)>) -> (id: ScopeId) {
        ScopeId(intern_in(&mut self.scopes, scope))
    }

    fn lookup_intern_scope(&self, id: ScopeId) -> (scope: Vec<(Name, DefId)>) {
        copy_members(&self.scopes[id.0 as usize])
    }

    fn intern_type(&mut self, constructors: Vec<(Name, DefId)>) -> (id: TypeId) {
        TypeId(intern_in(&mut self.types, constructors))
    }

    fn lookup_intern_type(&self, id: TypeId) -> (constructors: Vec<(Name, DefId)>) {
        copy_members(&self.types[id.0 as usize])
    }

    fn cxt_entry(&mut self, key: MaybeEntry) -> (c: Cxt) {
        let ghost t = self.tables();
        let ghost k = key;
        let c = Cxt(intern_in(&mut self.cxts, key));
        assert(forall|i: int|
            0 <= i < self.tables().cxts.len() ==> cxt_entry_wf(
                self.tables(),
                #[trigger] self.tables().cxts[i],
                i,
            )) by {
            assert forall|i: int| 0 <= i < self.tables().cxts.len() implies cxt_entry_wf(
                self.tables(),
                #[trigger] self.tables().cxts[i],
                i,
            ) by {
                if i < t.cxts.len() {
                    assert(cxt_entry_wf(t, t.cxts[i], i));
                }
            }
        }
        c
    }

    fn lookup_cxt_entry(&self, c: Cxt) -> (e: MaybeEntry) {
        self.cxts[c.0 as usize].copy()
    }
}

fn copy_members(v: &Vec<(Name, DefId)>) -> (r: Vec<(Name, DefId)>)
    ensures
        r@ == v@,
{
    let mut r: Vec<(Name, DefId)> = Vec::new();
    let mut i: usize = 0;
    while i < v.len()
        invariant
            i <= v@.len(),
            r@ == v@.take(i as int),
        decreases v@.len() - i,
    {
        r.push((v[i].0, v[i].1));
        assert(v@.take(i + 1) =~= v@.take(i as int).push(v@[i as int]));
        i += 1;
    }
    assert(v@.take(v@.len() as int) =~= v@);
    r
}

impl CompilerExt for Database {
    closed spec fn errors(&self) -> Seq<Error> {
        self.errors@
    }

    proof fn lemma_errors_in_store(&self, other: &Self) {
    }

    fn report_error(&mut self, error: Error) {
        self.errors.push(error);
    }

    fn num_errors(&self) -> (n: usize) {
        self.errors.len()
    }

    fn take_errors(&mut self) -> (errors: Vec<Error>) {
        let mut errors = Vec::new();
        std::mem::swap(&mut errors, &mut self.errors);
        errors
    }
}

// Contexts.
/// The number of local variables in context `c`.
pub open spec fn cxt_size(cxts: Seq<MaybeEntry>, c: Cxt) -> Lvl {
    match cxts[c.0 as int] {
        MaybeEntry::Yes(e) => e.size,
        MaybeEntry::No(_) => Lvl(0),
    }
}

/// The file context `c` belongs to.
pub open spec fn cxt_file(cxts: Seq<MaybeEntry>, c: Cxt) -> FileId {
    match cxts[c.0 as int] {
        MaybeEntry::Yes(e) => e.file,
        MaybeEntry::No(file) => file,
    }
}

/// The entry that extends context `c` with `name`, standing for `info`.
pub open spec fn defined_entry(cxts: Seq<MaybeEntry>, c: Cxt, name: Name, info: NameInfo) -> MaybeEntry {
    let size = cxt_size(cxts, c);
    MaybeEntry::Yes(
        CxtEntry {
            name,
            info,
            file: cxt_file(cxts, c),
            size: if info is Local {
                Lvl((size.0 + 1) as u32)
            } else {
                size
            },
            rest: c,
        },
    )
}

/// What a name resolves to in a context.
pub enum Binding {
    /// The name is not bound.
    Unbound,
    /// A local variable, by its index, with its type.
    Local(Ix, VTy),
    /// Another variable, with its type.
    Var(Var<Ix>, VTy),
    /// A definition, whose type its elaboration gives.
    Def(DefId),
}

/// What a name defined as `info` resolves to, with `ix` local variables passed over.
pub open spec fn binding_of(info: NameInfo, ix: nat) -> Binding {
    match info {
        NameInfo::Def(id) => Binding::Def(id),
        NameInfo::Local(ty) => Binding::Local(Ix(ix as u32), ty),
        NameInfo::Rec(id, ty) => Binding::Var(Var::Rec(id), ty),
        NameInfo::Other(v, ty) => Binding::Var(v, ty),
    }
}

/// Every entry of `cxts` extends an older entry.
pub open spec fn cxts_linked(cxts: Seq<MaybeEntry>) -> bool {
    forall|i: int|
        0 <= i < cxts.len() ==> (#[trigger] cxts[i] matches MaybeEntry::Yes(e) ==> e.rest.0 < i)
}

/// What `sym` resolves to in context `c`, with `ix` local variables already passed over:
/// the most recent entry for `sym` decides.
pub open spec fn resolve(cxts: Seq<MaybeEntry>, c: Cxt, sym: Name, ix: nat) -> Binding
    decreases c.0,
{
    if c.0 >= cxts.len() {
        Binding::Unbound
    } else {
        match cxts[c.0 as int] {
            MaybeEntry::No(_) => Binding::Unbound,
            MaybeEntry::Yes(e) => if e.name == sym {
                binding_of(e.info, ix)
            } else if e.rest.0 < c.0 {
                resolve(cxts, e.rest, sym, if e.info is Local { ix + 1 } else { ix })
            } else {
                Binding::Unbound
            },
        }
    }
}

/// The result of looking up a name with binding `b`.
pub open spec fn lookup_outcome<T: Compiler>(db: &T, b: Binding) -> Result<(Var<Ix>, VTy), DefError> {
    match b {
        Binding::Unbound => Err(DefError::NoValue),
        Binding::Local(ix, ty) => Ok((Var::Local(ix), ty)),
        Binding::Var(v, ty) => Ok((v, ty)),
        Binding::Def(id) => match db.spec_elaborate_def(id)->Some_0 {
            Ok(info) => Ok((Var::Top(id), *info.typ)),
            Err(e) => Err(e),
        },
    }
}

/// The definition of the current block that the recursive definition `rec`
/// has become in context `c`, if it has been elaborated there.
pub open spec fn resolve_rec(t: InternTables, c: Cxt, rec: PreDefId) -> Option<DefId>
    decreases c.0,
{
    if c.0 >= t.cxts.len() {
        None
    } else {
        match t.cxts[c.0 as int] {
            MaybeEntry::No(_) => None,
            MaybeEntry::Yes(e) => {
                let next = if e.rest.0 < c.0 {
                    resolve_rec(t, e.rest, rec)
                } else {
                    None
                };
                match e.info {
                    NameInfo::Def(id) => if t.defs[id.0 as int].0 == rec {
                        Some(id)
                    } else {
                        next
                    },
                    NameInfo::Rec(id, _) => if id == rec {
                        None
                    } else {
                        next
                    },
                    _ => next,
                }
            },
        }
    }
}

impl Name {
    /// The string this name was interned from.
    pub fn get<T: Interner>(self, db: &T) -> (s: String)
        requires
            db.inv(),
            self.0 < db.tables().names.len(),
        ensures
            s@ == db.tables().names[self.0 as int],
    {
        db.lookup_intern_name(self)
    }
}

impl Cxt {
    pub fn size<T: Interner>(self, db: &T) -> (l: Lvl)
        requires
            db.inv(),
            self.0 < db.tables().cxts.len(),
        ensures
            l == cxt_size(db.tables().cxts, self),
    {
        match db.lookup_cxt_entry(self) {
            MaybeEntry::Yes(CxtEntry { size, .. }) => size,
            MaybeEntry::No(_) => Lvl::zero(),
        }
    }

    /// The environment of the context: each of its local variables stands for itself.
    pub fn env<T: Interner>(self, db: &T) -> (env: Env)
        requires
            db.inv(),
            self.0 < db.tables().cxts.len(),
        ensures
            env == Env::spec_new(cxt_size(db.tables().cxts, self)),
    {
        Env::new(self.size(db))
    }

    pub fn file<T: Interner>(self, db: &T) -> (f: FileId)
        requires
            db.inv(),
            self.0 < db.tables().cxts.len(),
        ensures
            f == cxt_file(db.tables().cxts, self),
    {
        match db.lookup_cxt_entry(self) {
            MaybeEntry::Yes(CxtEntry { file, .. }) => file,
            MaybeEntry::No(file) => file,
        }
    }

    /// Looks up `sym`: the variable it stands for, and its type.
    pub fn lookup<T: Compiler>(self, sym: Name, db: &T) -> (r: Result<(Var<Ix>, VTy), DefError>)
        requires
            db.inv(),
            self.0 < db.tables().cxts.len(),
            resolve(db.tables().cxts, self, sym, 0) matches Binding::Def(id) ==> db.spec_elaborate_def(
                id,
            ) is Some,
        ensures
            r == lookup_outcome(db, resolve(db.tables().cxts, self, sym, 0)),
    {
        let ghost cxts = db.tables().cxts;
        proof {
            db.lemma_inv();
        }
        let mut cxt = self;
        let mut ix = Ix::zero();
        loop
            invariant
                db.inv(),
                tables_wf(db.tables()),
                cxts == db.tables().cxts,
                cxt.0 < cxts.len(),
                ix.0 + cxt.0 <= self.0,
                resolve(cxts, cxt, sym, ix.0 as nat) == resolve(cxts, self, sym, 0),
                resolve(cxts, self, sym, 0) matches Binding::Def(id) ==> db.spec_elaborate_def(
                    id,
                ) is Some,
            decreases cxt.0,
        {
            assert(cxt_entry_wf(db.tables(), cxts[cxt.0 as int], cxt.0 as int));
            match db.lookup_cxt_entry(cxt) {
                MaybeEntry::Yes(CxtEntry { name, info, rest, .. }) => {
                    match info {
                        NameInfo::Def(id) => {
                            if name == sym {
                                return match db.def_type(id) {
                                    Ok(ty) => Ok((Var::Top(id), (*ty).copy())),
                                    Err(e) => Err(e),
                                };
                            }
                        },
                        NameInfo::Local(ty) => {
                            if name == sym {
                                return Ok((Var::Local(ix), ty));
                            } else {
                                ix = ix.inc();
                            }
                        },
                        NameInfo::Rec(id, ty) => {
                            if name == sym {
                                return Ok((Var::Rec(id), ty));
                            }
                        },
                        NameInfo::Other(v, ty) => {
                            if name == sym {
                                return Ok((v, ty));
                            }
                        },
                    }
                    cxt = rest;
                },
                MaybeEntry::No(_) => {
                    return Err(DefError::NoValue);
                },
            }
        }
    }

    /// The definition that the recursive definition `rec` of the current block has
    /// become, if it has been elaborated in this context; `None` where it is still
    /// only declared here, or not in scope.
    pub fn lookup_rec<T: Interner>(self, rec: PreDefId, db: &T) -> (r: Option<DefId>)
        requires
            db.inv(),
            self.0 < db.tables().cxts.len(),
        ensures
            r == resolve_rec(db.tables(), self, rec),
    {
        proof {
            db.lemma_inv();
        }
        let mut cxt = self;
        loop
            invariant
                db.inv(),
                tables_wf(db.tables()),
                cxt.0 < db.tables().cxts.len(),
                resolve_rec(db.tables(), cxt, rec) == resolve_rec(db.tables(), self, rec),
            decreases cxt.0,
        {
            assert(cxt_entry_wf(db.tables(), db.tables().cxts[cxt.0 as int], cxt.0 as int));
            match db.lookup_cxt_entry(cxt) {
                MaybeEntry::Yes(CxtEntry { info, rest, .. }) => {
                    match info {
                        NameInfo::Def(id) => {
                            if db.lookup_intern_def(id).0 == rec {
                                return Some(id);
                            }
                        },
                        NameInfo::Rec(id, _) => {
                            if id == rec {
                                return None;
                            }
                        },
                        NameInfo::Local(_) | NameInfo::Other(_, _) => {},
                    }
                    cxt = rest;
                },
                MaybeEntry::No(_) => {
                    return None;
                },
            }
        }
    }

    /// Extends the context with `name`, standing for `info`.
    #[must_use]
    pub fn define<T: Interner>(self, name: Name, info: NameInfo, db: &mut T) -> (c: Cxt)
        requires
            old(db).inv(),
            self.0 < old(db).tables().cxts.len(),
            old(db).tables().cxts.len() < u32::MAX,
            info is Local ==> cxt_size(old(db).tables().cxts, self).0 < u32::MAX,
            info matches NameInfo::Def(id) ==> id.0 < old(db).tables().defs.len(),
        ensures
            final(db).inv(),
        final(db).store() == old(db).store(),
            interns(
                old(db).tables().cxts,
                final(db).tables().cxts,
                defined_entry(old(db).tables().cxts, self, name, info),
                c.0 as nat,
            ),
            final(db).tables() == (InternTables {
                cxts: final(db).tables().cxts,
                ..old(db).tables()
            }),
    {
        let (file, size) = match db.lookup_cxt_entry(self) {
            MaybeEntry::Yes(CxtEntry { file, size, .. }) => (file, size),
            MaybeEntry::No(file) => (file, Lvl::zero()),
        };
        let next_size = match &info {
            NameInfo::Local(_) => size.inc(),
            _ => size,
        };
        db.cxt_entry(MaybeEntry::Yes(CxtEntry { name, info, file, size: next_size, rest: self }))
    }

    /// The root context of `file`: the builtins (`I32`, `I64`, `Bool`, `True`, `False`,
    /// in this order), each defined under its name as itself, of its type.
    pub fn new<T: Interner>(file: FileId, db: &mut T) -> (c: Cxt)
        requires
            old(db).inv(),
            old(db).tables().cxts.len() + 6 < u32::MAX,
            old(db).tables().names.len() + 5 < u32::MAX,
        ensures
            final(db).inv(),
            final(db).store() == old(db).store(),
            final(db).tables() == (InternTables {
                names: final(db).tables().names,
                cxts: final(db).tables().cxts,
                ..old(db).tables()
            }),
            extends(old(db).tables().names, final(db).tables().names),
            extends(old(db).tables().cxts, final(db).tables().cxts),
            final(db).tables().names.len() <= old(db).tables().names.len() + 5,
            final(db).tables().cxts.len() <= old(db).tables().cxts.len() + 6,
            file_root(final(db).tables(), c, file),
    {
        let ghost t0 = db.tables();
        let root = db.cxt_entry(MaybeEntry::No(file));
        let ghost t1 = db.tables();
        proof {
            lemma_interns_extends(t0.cxts, t1.cxts, MaybeEntry::No(file), root.0 as nat);
            lemma_built_root(t0.cxts, t1.cxts, file, root);
            assert(extends(t0.names, t1.names));
            assert(chain(t1.cxts, root) =~= Seq::<(Name, NameInfo)>::empty());
        }
        let (c1, n1) = define_builtin(root, Builtin::I32, db);
        let ghost t2 = db.tables();
        let (c2, n2) = define_builtin(c1, Builtin::I64, db);
        let ghost t3 = db.tables();
        let (c3, n3) = define_builtin(c2, Builtin::Bool, db);
        let ghost t4 = db.tables();
        let (c4, n4) = define_builtin(c3, Builtin::True, db);
        let ghost t5 = db.tables();
        let (c5, n5) = define_builtin(c4, Builtin::False, db);
        let ghost t6 = db.tables();
        proof {
            let es = chain(t6.cxts, c5);
            assert(es =~= seq![
                (n5, builtin_info(Builtin::False)),
                (n4, builtin_info(Builtin::True)),
                (n3, builtin_info(Builtin::Bool)),
                (n2, builtin_info(Builtin::I64)),
                (n1, builtin_info(Builtin::I32)),
            ]);
            assert(t6.names[n1.0 as int] == t2.names[n1.0 as int]);
            assert(t6.names[n2.0 as int] == t3.names[n2.0 as int]);
            assert(t6.names[n3.0 as int] == t4.names[n3.0 as int]);
            assert(t6.names[n4.0 as int] == t5.names[n4.0 as int]);
            assert(builtin_entries(t6, es));
            assert(extends(t0.names, t6.names));
            assert(extends(t0.cxts, t6.cxts));
        }
        c5
    }
}

// Laws of contexts and interning.
/// Adding entries to a context table changes nothing that the old entries resolve to.
pub proof fn lemma_resolve_extend(
    old: Seq<MaybeEntry>,
    new: Seq<MaybeEntry>,
    c: Cxt,
    sym: Name,
    ix: nat,
)
    requires
        old.len() <= new.len(),
        forall|i: int| 0 <= i < old.len() ==> new[i] == old[i],
        c.0 < old.len(),
    ensures
        resolve(new, c, sym, ix) == resolve(old, c, sym, ix),
    decreases c.0,
{
    match old[c.0 as int] {
        MaybeEntry::Yes(e) => {
            if e.name != sym && e.rest.0 < c.0 {
                lemma_resolve_extend(old, new, e.rest, sym, if e.info is Local {
                    ix + 1
                } else {
                    ix
                });
            }
        },
        _ => {},
    }
}

/// After `c` is extended with `name` standing for `info`, `name` resolves to `info`
/// (a local variable to index 0); every other name resolves as it did in `c`, a local
/// variable being seen past one more local variable where `info` is one.
pub proof fn lemma_lookup_after_define(
    old: Seq<MaybeEntry>,
    new: Seq<MaybeEntry>,
    c: Cxt,
    c2: Cxt,
    name: Name,
    info: NameInfo,
    sym: Name,
)
    requires
        cxts_linked(new),
        c.0 < old.len(),
        interns(old, new, defined_entry(old, c, name, info), c2.0 as nat),
    ensures
        sym == name ==> resolve(new, c2, sym, 0) == binding_of(info, 0),
        sym != name ==> resolve(new, c2, sym, 0) == resolve(old, c, sym, if info is Local {
            1nat
        } else {
            0nat
        }),
{
    assert(new[c2.0 as int] == defined_entry(old, c, name, info));
    if sym != name {
        lemma_resolve_extend(old, new, c, sym, if info is Local {
            1nat
        } else {
            0nat
        });
    }
}

/// A binding seen past one more local variable: a local variable moves one index out.
pub open spec fn shift_binding(b: Binding) -> Binding {
    match b {
        Binding::Local(i, ty) => Binding::Local(Ix((i.0 + 1) as u32), ty),
        other => other,
    }
}

/// Looking a name up after `Cxt::define` (database `db0` before, `db1` after): the name
/// just defined is found as what it was defined to be, a definition by the type its
/// elaboration gives, and every other name as before, a local variable one index further
/// out where the new name is a local. Defining keeps what the database knows of
/// elaborations, so a lookup that could be made before can be made after.
pub proof fn lemma_lookup_outcome_after_define<T: Compiler>(
    db0: &T,
    db1: &T,
    c: Cxt,
    c2: Cxt,
    name: Name,
    info: NameInfo,
    sym: Name,
)
    requires
        db0.inv(),
        db1.inv(),
        db1.store() == db0.store(),
        c.0 + 1 < u32::MAX,
        c.0 < db0.tables().cxts.len(),
        interns(
            db0.tables().cxts,
            db1.tables().cxts,
            defined_entry(db0.tables().cxts, c, name, info),
            c2.0 as nat,
        ),
    ensures
        forall|d: DefId| #[trigger] db1.spec_elaborate_def(d) == db0.spec_elaborate_def(d),
        sym == name ==> resolve(db1.tables().cxts, c2, sym, 0) == binding_of(info, 0),
        sym == name ==> lookup_outcome(db1, resolve(db1.tables().cxts, c2, sym, 0)) == lookup_outcome(
            db0,
            binding_of(info, 0),
        ),
        sym != name ==> resolve(db1.tables().cxts, c2, sym, 0) == if info is Local {
            shift_binding(resolve(db0.tables().cxts, c, sym, 0))
        } else {
            resolve(db0.tables().cxts, c, sym, 0)
        },
        sym != name ==> lookup_outcome(db1, resolve(db1.tables().cxts, c2, sym, 0)) == lookup_outcome(
            db0,
            if info is Local {
                shift_binding(resolve(db0.tables().cxts, c, sym, 0))
            } else {
                resolve(db0.tables().cxts, c, sym, 0)
            },
        ),
{
    db0.lemma_inv();
    db1.lemma_inv();
    db1.lemma_queries_in_store(db0);
    let old = db0.tables().cxts;
    let new = db1.tables().cxts;
    assert(cxts_linked(new)) by {
        assert forall|i: int| 0 <= i < new.len() implies (#[trigger] new[i] matches MaybeEntry::Yes(
            e,
        ) ==> e.rest.0 < i) by {
            assert(cxt_entry_wf(db1.tables(), new[i], i));
        }
    }
    assert(cxts_linked(old)) by {
        assert forall|i: int| 0 <= i < old.len() implies (#[trigger] old[i] matches MaybeEntry::Yes(
            e,
        ) ==> e.rest.0 < i) by {
            assert(cxt_entry_wf(db0.tables(), old[i], i));
        }
    }
    lemma_lookup_after_define(old, new, c, c2, name, info, sym);
    if sym != name && info is Local {
        lemma_resolve_shift(old, c, sym, 0);
    }
    let b1 = resolve(new, c2, sym, 0);
    match b1 {
        Binding::Def(id) => {
            assert(db1.spec_elaborate_def(id) == db0.spec_elaborate_def(id));
        },
        _ => {},
    }
}

/// Growing the tables changes nothing that an old context resolves a recursive definition to.
pub proof fn lemma_resolve_rec_extend(t0: InternTables, t1: InternTables, c: Cxt, rec: PreDefId)
    requires
        tables_wf(t0),
        extends(t0.cxts, t1.cxts),
        extends(t0.defs, t1.defs),
        c.0 < t0.cxts.len(),
    ensures
        resolve_rec(t1, c, rec) == resolve_rec(t0, c, rec),
    decreases c.0,
{
    assert(cxt_entry_wf(t0, t0.cxts[c.0 as int], c.0 as int));
    assert(t1.cxts[c.0 as int] == t0.cxts[c.0 as int]);
    match t0.cxts[c.0 as int] {
        MaybeEntry::Yes(e) => {
            if e.rest.0 < c.0 {
                lemma_resolve_rec_extend(t0, t1, e.rest, rec);
            }
            match e.info {
                NameInfo::Def(id) => {
                    assert(t1.defs[id.0 as int] == t0.defs[id.0 as int]);
                },
                _ => {},
            }
        },
        _ => {},
    }
}

/// Finding what a recursive definition `rec` has become, after `Cxt::define` (tables `t0`
/// before, `t1` after): a definition of `rec` answers it, a recursive entry for `rec`
/// (its declaration, not yet elaborated) answers that it has become nothing yet, and any
/// other entry leaves the answer of the context it extends.
pub proof fn lemma_lookup_rec_after_define(
    t0: InternTables,
    t1: InternTables,
    c: Cxt,
    c2: Cxt,
    name: Name,
    info: NameInfo,
    rec: PreDefId,
)
    requires
        tables_wf(t0),
        tables_wf(t1),
        t1 == (InternTables { cxts: t1.cxts, ..t0 }),
        c.0 < t0.cxts.len(),
        info matches NameInfo::Def(id) ==> id.0 < t0.defs.len(),
        interns(t0.cxts, t1.cxts, defined_entry(t0.cxts, c, name, info), c2.0 as nat),
    ensures
        resolve_rec(t1, c2, rec) == match info {
            NameInfo::Def(id) => if t0.defs[id.0 as int].0 == rec {
                Some(id)
            } else {
                resolve_rec(t0, c, rec)
            },
            NameInfo::Rec(id, _) => if id == rec {
                None
            } else {
                resolve_rec(t0, c, rec)
            },
            _ => resolve_rec(t0, c, rec),
        },
{
    lemma_interns_extends(t0.cxts, t1.cxts, defined_entry(t0.cxts, c, name, info), c2.0 as nat);
    assert(t1.cxts[c2.0 as int] == defined_entry(t0.cxts, c, name, info));
    assert(cxt_entry_wf(t1, t1.cxts[c2.0 as int], c2.0 as int));
    lemma_resolve_rec_extend(t0, t1, c, rec);
}

/// The number of local variables among `entries`.
pub open spec fn count_locals(entries: Seq<(Name, NameInfo)>) -> nat
    decreases entries.len(),
{
    if entries.len() == 0 {
        0
    } else {
        count_locals(entries.subrange(1, entries.len() as int)) + if entries[0].1 is Local {
            1nat
        } else {
            0nat
        }
    }
}

/// The file of the root that context `c` extends.
pub open spec fn root_file(cxts: Seq<MaybeEntry>, c: Cxt) -> Option<FileId>
    decreases c.0,
{
    if c.0 >= cxts.len() {
        None
    } else {
        match cxts[c.0 as int] {
            MaybeEntry::No(f) => Some(f),
            MaybeEntry::Yes(e) => if e.rest.0 < c.0 {
                root_file(cxts, e.rest)
            } else {
                None
            },
        }
    }
}

/// Whether context `c` was made from a root context by `Cxt::define` alone: each of its
/// entries is the one that `define` makes from the context it extends.
pub open spec fn built_by_define(cxts: Seq<MaybeEntry>, c: Cxt) -> bool
    decreases c.0,
{
    if c.0 >= cxts.len() {
        false
    } else {
        match cxts[c.0 as int] {
            MaybeEntry::No(_) => true,
            MaybeEntry::Yes(e) => {
                &&& e.rest.0 < c.0
                &&& cxts[c.0 as int] == defined_entry(cxts, e.rest, e.name, e.info)
                &&& (e.info is Local ==> cxt_size(cxts, e.rest).0 < u32::MAX)
                &&& built_by_define(cxts, e.rest)
            },
        }
    }
}

/// In a context made from a root by `Cxt::define` alone, the size is the number of local
/// variables among its entries, and every entry records the root's file.
pub proof fn lemma_built_size_file(cxts: Seq<MaybeEntry>, c: Cxt)
    requires
        built_by_define(cxts, c),
    ensures
        cxt_size(cxts, c).0 == count_locals(chain(cxts, c)),
        root_file(cxts, c) == Some(cxt_file(cxts, c)),
    decreases c.0,
{
    match cxts[c.0 as int] {
        MaybeEntry::Yes(e) => {
            lemma_built_size_file(cxts, e.rest);
            let es = chain(cxts, c);
            assert(es.subrange(1, es.len() as int) =~= chain(cxts, e.rest));
        },
        _ => {},
    }
}

/// Growing the table keeps an old context made by `Cxt::define` so.
pub proof fn lemma_built_extend(old: Seq<MaybeEntry>, new: Seq<MaybeEntry>, c: Cxt)
    requires
        extends(old, new),
        built_by_define(old, c),
    ensures
        built_by_define(new, c),
    decreases c.0,
{
    match old[c.0 as int] {
        MaybeEntry::Yes(e) => {
            lemma_built_extend(old, new, e.rest);
        },
        _ => {},
    }
}

/// The root context of a file is made by `Cxt::define` alone (by no call at all), and
/// `Cxt::define` keeps a context so.
pub proof fn lemma_built_new_define(
    old: Seq<MaybeEntry>,
    new: Seq<MaybeEntry>,
    c: Cxt,
    c2: Cxt,
    name: Name,
    info: NameInfo,
)
    requires
        cxts_linked(new),
        built_by_define(old, c),
        info is Local ==> cxt_size(old, c).0 < u32::MAX,
        interns(old, new, defined_entry(old, c, name, info), c2.0 as nat),
    ensures
        built_by_define(new, c2),
{
    lemma_interns_extends(old, new, defined_entry(old, c, name, info), c2.0 as nat);
    lemma_built_extend(old, new, c);
    assert(new[c2.0 as int] == defined_entry(old, c, name, info));
    assert(new[c2.0 as int] matches MaybeEntry::Yes(e) ==> e.rest.0 < c2.0);
}

pub proof fn lemma_built_root(old: Seq<MaybeEntry>, new: Seq<MaybeEntry>, file: FileId, c: Cxt)
    requires
        interns(old, new, MaybeEntry::No(file), c.0 as nat),
    ensures
        built_by_define(new, c),
        root_file(new, c) == Some(file),
        cxt_size(new, c).0 == 0,
{
}

/// How builtin `b` is written.
pub open spec fn builtin_name(b: Builtin) -> Seq<char> {
    match b {
        Builtin::I32 => seq!['I', '3', '2'],
        Builtin::I64 => seq!['I', '6', '4'],
        Builtin::Bool => seq!['B', 'o', 'o', 'l'],
        Builtin::True => seq!['T', 'r', 'u', 'e'],
        Builtin::False => seq!['F', 'a', 'l', 's', 'e'],
    }
}

/// The type of builtin `b`: the integer types and `Bool` are types, `True` and `False` are
/// of type `Bool`.
pub open spec fn builtin_type(b: Builtin) -> Val {
    match b {
        Builtin::True | Builtin::False => Val::App(Var::Builtin(Builtin::Bool), Spine::Nil),
        _ => Val::Type,
    }
}

/// What the name of builtin `b` stands for: the builtin itself, of its type.
pub open spec fn builtin_info(b: Builtin) -> NameInfo {
    NameInfo::Other(Var::Builtin(b), builtin_type(b))
}

/// The builtins, in the order a root context defines them.
pub open spec fn builtins() -> Seq<Builtin> {
    seq![Builtin::I32, Builtin::I64, Builtin::Bool, Builtin::True, Builtin::False]
}

/// Whether the entries `es`, newest first, are the builtins, each under its name.
pub open spec fn builtin_entries(t: InternTables, es: Seq<(Name, NameInfo)>) -> bool {
    &&& es.len() == builtins().len()
    &&& forall|k: int|
        0 <= k < es.len() ==> {
            let b = builtins()[builtins().len() - 1 - k];
            &&& (#[trigger] es[k]).0.0 < t.names.len()
            &&& t.names[es[k].0.0 as int] == builtin_name(b)
            &&& es[k].1 == builtin_info(b)
        }
}

/// Whether `c` is the root context of `file`: the builtins and nothing else, defined by
/// `Cxt::define` on the file's root entry.
pub open spec fn file_root(t: InternTables, c: Cxt, file: FileId) -> bool {
    &&& c.0 < t.cxts.len()
    &&& built_by_define(t.cxts, c)
    &&& root_file(t.cxts, c) == Some(file)
    &&& cxt_file(t.cxts, c) == file
    &&& cxt_size(t.cxts, c).0 == 0
    &&& builtin_entries(t, chain(t.cxts, c))
}

/// Growing the context table changes no old context's root file.
pub proof fn lemma_root_file_extend(old: Seq<MaybeEntry>, new: Seq<MaybeEntry>, c: Cxt)
    requires
        extends(old, new),
        c.0 < old.len(),
    ensures
        root_file(new, c) == root_file(old, c),
    decreases c.0,
{
    match old[c.0 as int] {
        MaybeEntry::Yes(e) => {
            if e.rest.0 < c.0 {
                lemma_root_file_extend(old, new, e.rest);
            }
        },
        _ => {},
    }
}

/// A root context stays one as the tables grow.
pub proof fn lemma_file_root_extend(t0: InternTables, t1: InternTables, c: Cxt, file: FileId)
    requires
        file_root(t0, c, file),
        extends(t0.names, t1.names),
        extends(t0.cxts, t1.cxts),
    ensures
        file_root(t1, c, file),
        chain(t1.cxts, c) == chain(t0.cxts, c),
{
    lemma_chain_extend(t0.cxts, t1.cxts, c);
    lemma_built_extend(t0.cxts, t1.cxts, c);
    lemma_root_file_extend(t0.cxts, t1.cxts, c);
    let es = chain(t0.cxts, c);
    assert forall|k: int| 0 <= k < es.len() implies t1.names[(#[trigger] es[k]).0.0 as int] == t0.names[es[k].0.0 as int] by {}
}

fn builtin_string(b: Builtin) -> (s: String)
    ensures
        s@ == builtin_name(b),
{
    proof {
        reveal_strlit("I32");
        reveal_strlit("I64");
        reveal_strlit("Bool");
        reveal_strlit("True");
        reveal_strlit("False");
    }
    match b {
        Builtin::I32 => String::from_str("I32"),
        Builtin::I64 => String::from_str("I64"),
        Builtin::Bool => String::from_str("Bool"),
        Builtin::True => String::from_str("True"),
        Builtin::False => String::from_str("False"),
    }
}

/// Defines builtin `b` under its name in context `c`.
fn define_builtin<T: Interner>(c: Cxt, b: Builtin, db: &mut T) -> (r: (Cxt, Name))
    requires
        old(db).inv(),
        c.0 < old(db).tables().cxts.len(),
        old(db).tables().cxts.len() < u32::MAX,
        old(db).tables().names.len() < u32::MAX,
        built_by_define(old(db).tables().cxts, c),
    ensures
        final(db).inv(),
        final(db).store() == old(db).store(),
        final(db).tables() == (InternTables {
            names: final(db).tables().names,
            cxts: final(db).tables().cxts,
            ..old(db).tables()
        }),
        extends(old(db).tables().names, final(db).tables().names),
        extends(old(db).tables().cxts, final(db).tables().cxts),
        final(db).tables().names.len() <= old(db).tables().names.len() + 1,
        final(db).tables().cxts.len() <= old(db).tables().cxts.len() + 1,
        r.0.0 < final(db).tables().cxts.len(),
        r.1.0 < final(db).tables().names.len(),
        final(db).tables().names[r.1.0 as int] == builtin_name(b),
        chain(final(db).tables().cxts, r.0) == seq![(r.1, builtin_info(b))] + chain(old(db).tables().cxts, c),
        cxt_size(final(db).tables().cxts, r.0) == cxt_size(old(db).tables().cxts, c),
        cxt_file(final(db).tables().cxts, r.0) == cxt_file(old(db).tables().cxts, c),
        built_by_define(final(db).tables().cxts, r.0),
        root_file(final(db).tables().cxts, r.0) == root_file(old(db).tables().cxts, c),
{
    let ghost t0 = db.tables();
    let s = builtin_string(b);
    let n = db.intern_name(s);
    let ghost t1 = db.tables();
    proof {
        lemma_interns_extends(t0.names, t1.names, builtin_name(b), n.0 as nat);
    }
    let ty = match b {
        Builtin::True | Builtin::False => Val::App(Var::Builtin(Builtin::Bool), Spine::Nil),
        _ => Val::Type,
    };
    let r = c.define(n, NameInfo::Other(Var::Builtin(b), ty), db);
    let ghost t2 = db.tables();
    proof {
        let info = builtin_info(b);
        db.lemma_inv();
        lemma_interns_extends(t1.cxts, t2.cxts, defined_entry(t1.cxts, c, n, info), r.0 as nat);
        assert(cxts_linked(t2.cxts)) by {
            assert forall|i: int| 0 <= i < t2.cxts.len() implies (#[trigger] t2.cxts[i] matches MaybeEntry::Yes(
                e,
            ) ==> e.rest.0 < i) by {
                assert(cxt_entry_wf(t2, t2.cxts[i], i));
            }
        }
        lemma_chain_define(t1.cxts, t2.cxts, c, r, n, info);
        lemma_define_size(t1.cxts, t2.cxts, c, r, n, info);
        lemma_built_new_define(t1.cxts, t2.cxts, c, r, n, info);
        lemma_root_file_extend(t1.cxts, t2.cxts, c);
        assert(t2.cxts[r.0 as int] == defined_entry(t1.cxts, c, n, info));
        assert(extends(t0.cxts, t2.cxts));
    }
    (r, n)
}

/// Seeing a context past one more local variable raises the index of every
/// local variable found in it by one.
pub proof fn lemma_resolve_shift(cxts: Seq<MaybeEntry>, c: Cxt, sym: Name, ix: nat)
    requires
        cxts_linked(cxts),
        c.0 < cxts.len(),
        ix + c.0 + 1 < u32::MAX,
    ensures
        resolve(cxts, c, sym, ix + 1) == match resolve(cxts, c, sym, ix) {
            Binding::Local(i, ty) => Binding::Local(Ix((i.0 + 1) as u32), ty),
            b => b,
        },
    decreases c.0,
{
    match cxts[c.0 as int] {
        MaybeEntry::Yes(e) => {
            if e.name != sym {
                lemma_resolve_shift(cxts, e.rest, sym, if e.info is Local {
                    ix + 1
                } else {
                    ix
                });
            }
        },
        _ => {},
    }
}

/// Extending a context with a local variable adds one to its size; extending it with
/// anything else keeps its size; either way the file stays the same.
pub proof fn lemma_define_size(
    old: Seq<MaybeEntry>,
    new: Seq<MaybeEntry>,
    c: Cxt,
    c2: Cxt,
    name: Name,
    info: NameInfo,
)
    requires
        c.0 < old.len(),
        info is Local ==> cxt_size(old, c).0 < u32::MAX,
        interns(old, new, defined_entry(old, c, name, info), c2.0 as nat),
    ensures
        cxt_size(new, c2).0 == cxt_size(old, c).0 + if info is Local {
            1int
        } else {
            0int
        },
        cxt_file(new, c2) == cxt_file(old, c),
{
}

/// A name is an interned string: interning a string gives a name whose string it is, and
/// two names with the same string are the same name.
pub proof fn lemma_name_is_interned_string(t0: InternTables, t1: InternTables, s: Seq<char>, n: Name, a: Name, b: Name)
    requires
        tables_wf(t1),
        interns(t0.names, t1.names, s, n.0 as nat),
        a.0 < t1.names.len(),
        b.0 < t1.names.len(),
    ensures
        t1.names[n.0 as int] == s,
        t1.names[a.0 as int] == t1.names[b.0 as int] ==> a == b,
{
    if a != b {
        assert(t1.names[a.0 as int] != t1.names[b.0 as int]);
    }
}

/// Interning keeps a table free of duplicates.
pub proof fn lemma_intern_unique<K>(old: Seq<K>, new: Seq<K>, k: K, id: nat)
    requires
        unique(old),
        interns(old, new, k, id),
    ensures
        unique(new),
{
    if !old.contains(k) {
        assert forall|i: int, j: int|
            0 <= i < new.len() && 0 <= j < new.len() && i != j implies #[trigger] new[i]
            != #[trigger] new[j] by {
            if i < old.len() && j < old.len() {
                assert(old[i] != old[j]);
            } else if i < old.len() {
                assert(new[i] == old[i]);
                assert(old.contains(old[i]));
            } else {
                assert(new[j] == old[j]);
                assert(old.contains(old[j]));
            }
        }
    }
}

/// Interning the same value twice gives the same id, and the second time the
/// table does not change.
pub proof fn lemma_intern_idempotent<K>(
    t0: Seq<K>,
    t1: Seq<K>,
    t2: Seq<K>,
    k: K,
    i: nat,
    j: nat,
)
    requires
        unique(t0),
        interns(t0, t1, k, i),
        interns(t1, t2, k, j),
    ensures
        i == j,
        t2 == t1,
{
    lemma_intern_unique(t0, t1, k, i);
    assert(t1.contains(k)) by {
        assert(t1[i as int] == k);
    }
}

/// Interning two different values gives them different ids.
pub proof fn lemma_intern_distinct<K>(
    t0: Seq<K>,
    t1: Seq<K>,
    t2: Seq<K>,
    k1: K,
    k2: K,
    i: nat,
    j: nat,
)
    requires
        interns(t0, t1, k1, i),
        interns(t1, t2, k2, j),
        k1 != k2,
    ensures
        i != j,
        t2[i as int] == k1,
{
    assert(t2[i as int] == t1[i as int]);
}

// Blocks of definitions.
/// The entries of context `c`, the most recent first: each name with what it stands for.
pub open spec fn chain(cxts: Seq<MaybeEntry>, c: Cxt) -> Seq<(Name, NameInfo)>
    decreases c.0,
{
    if c.0 >= cxts.len() {
        Seq::empty()
    } else {
        match cxts[c.0 as int] {
            MaybeEntry::No(_) => Seq::empty(),
            MaybeEntry::Yes(e) => seq![(e.name, e.info)] + if e.rest.0 < c.0 {
                chain(cxts, e.rest)
            } else {
                Seq::empty()
            },
        }
    }
}

/// The first position of the run of definitions that may refer to each other
/// (those that are not `is_ordered`) which ends just before position `k`.
pub open spec fn run_start(v: Seq<PreDef>, k: nat) -> nat
    decreases k,
{
    if k == 0 || k > v.len() || v[k - 1].is_ordered() {
        k
    } else {
        run_start(v, (k - 1) as nat)
    }
}

/// The position just past the run of definitions that may refer to each other
/// which starts at or continues through position `k`.
pub open spec fn run_end(v: Seq<PreDef>, k: nat) -> nat
    decreases v.len() - k,
{
    if k >= v.len() || v[k as int].is_ordered() {
        k
    } else {
        run_end(v, k + 1)
    }
}

/// The type a recursive definition is known by before it is elaborated.
pub open spec fn given_or_error(d: PreDef) -> Val {
    match d.spec_given_type() {
        Some(t) => t,
        None => Val::Error,
    }
}

/// The entries naming the definitions of `v[a..b]` as recursive definitions `pids`, the last first.
pub open spec fn rec_entries(v: Seq<PreDef>, pids: Seq<PreDefId>, a: nat, b: nat) -> Seq<
    (Name, NameInfo),
>
    decreases b,
{
    if b <= a {
        Seq::empty()
    } else {
        let k = (b - 1) as nat;
        let rest = rec_entries(v, pids, a, k);
        match v[k as int].spec_name() {
            Some(n) => seq![(n, NameInfo::Rec(pids[k as int], given_or_error(v[k as int])))] + rest,
            None => rest,
        }
    }
}

/// The entries naming the definitions of `v[a..b]` as the definitions `rv`, the last first.
pub open spec fn def_entries(v: Seq<PreDef>, rv: Seq<DefId>, a: nat, b: nat) -> Seq<(Name, NameInfo)>
    decreases b,
{
    if b <= a {
        Seq::empty()
    } else {
        let k = (b - 1) as nat;
        let rest = def_entries(v, rv, a, k);
        match v[k as int].spec_name() {
            Some(n) => seq![(n, NameInfo::Def(rv[k as int]))] + rest,
            None => rest,
        }
    }
}

pub proof fn lemma_run_start_le(v: Seq<PreDef>, k: nat)
    ensures
        run_start(v, k) <= k,
    decreases k,
{
    if !(k == 0 || k > v.len() || v[k - 1].is_ordered()) {
        lemma_run_start_le(v, (k - 1) as nat);
    }
}

/// The entries that the definitions of `v` before position `m` leave in the
/// context, the last first, where `m` ends a run: each run first names all its
/// definitions as recursive definitions, then each as the definition it became.
pub open spec fn block_entries(v: Seq<PreDef>, pids: Seq<PreDefId>, rv: Seq<DefId>, m: nat) -> Seq<
    (Name, NameInfo),
>
    decreases m,
{
    if m == 0 || m > v.len() {
        Seq::empty()
    } else if v[m - 1].is_ordered() {
        def_entries(v, rv, (m - 1) as nat, m) + block_entries(v, pids, rv, (m - 1) as nat)
    } else {
        let a = run_start(v, (m - 1) as nat);
        proof {
            lemma_run_start_le(v, (m - 1) as nat);
        }
        def_entries(v, rv, a, m) + rec_entries(v, pids, a, m) + block_entries(v, pids, rv, a)
    }
}

/// The entries that definition `k` of the block `v` sees in front of the context
/// of the block: those of all definitions before its run; then, where it is in
/// a run of definitions that may refer to each other, all the definitions of the
/// run as recursive definitions, and those before it in the run as definitions.
pub open spec fn visible(v: Seq<PreDef>, pids: Seq<PreDefId>, rv: Seq<DefId>, k: nat) -> Seq<
    (Name, NameInfo),
> {
    if v[k as int].is_ordered() {
        block_entries(v, pids, rv, k)
    } else {
        let a = run_start(v, k);
        def_entries(v, rv, a, k) + rec_entries(v, pids, a, run_end(v, k)) + block_entries(
            v,
            pids,
            rv,
            a,
        )
    }
}

/// Definition `k` of block `v`, interned as `rv[k]` from the recursive
/// definition `pids[k]`, sees what `visible` says in front of context `cxt`.
pub open spec fn block_def(
    t: InternTables,
    old_cxts: Seq<MaybeEntry>,
    v: Seq<PreDef>,
    pids: Seq<PreDefId>,
    rv: Seq<DefId>,
    cxt: Cxt,
    eff_stack: Option<EffStack>,
    k: int,
) -> bool {
    let key = t.defs[rv[k].0 as int];
    &&& rv[k].0 < t.defs.len()
    &&& key.0 == pids[k]
    &&& pids[k].0 < t.predefs.len()
    &&& t.predefs[pids[k].0 as int] == v[k]
    &&& key.2 == eff_stack
    &&& key.1.0 < t.cxts.len()
    &&& chain(t.cxts, key.1) == visible(v, pids, rv, k as nat) + chain(old_cxts, cxt)
    &&& cxt_size(t.cxts, key.1) == cxt_size(old_cxts, cxt)
    &&& cxt_file(t.cxts, key.1) == cxt_file(old_cxts, cxt)
}

/// The recursive definitions that the definitions `rv` were made from.
pub open spec fn block_pids(t: InternTables, rv: Seq<DefId>) -> Seq<PreDefId> {
    Seq::new(rv.len(), |k: int| t.defs[rv[k].0 as int].0)
}

pub proof fn lemma_run_end_ge(v: Seq<PreDef>, k: nat)
    ensures
        run_end(v, k) >= k,
        k < v.len() && !v[k as int].is_ordered() ==> run_end(v, k) > k,
        run_end(v, k) <= v.len() || run_end(v, k) == k,
    decreases v.len() - k,
{
    if !(k >= v.len() || v[k as int].is_ordered()) {
        lemma_run_end_ge(v, k + 1);
    }
}

/// Within a run that ends at `b` (at the end of `v`, or before an ordered
/// definition), every position's run ends at `b`.
pub proof fn lemma_run_end_in(v: Seq<PreDef>, k: nat, b: nat)
    requires
        k <= b <= v.len(),
        forall|j: int| k <= j < b ==> !(#[trigger] v[j]).is_ordered(),
        b == v.len() || v[b as int].is_ordered(),
    ensures
        run_end(v, k) == b,
    decreases b - k,
{
    if k < b {
        lemma_run_end_in(v, k + 1, b);
    }
}

/// Within a run that starts at `a` (at the start of `v`, or after an ordered
/// definition), every position's run starts at `a`.
pub proof fn lemma_run_start_in(v: Seq<PreDef>, a: nat, k: nat)
    requires
        a <= k <= v.len(),
        forall|j: int| a <= j < k ==> !(#[trigger] v[j]).is_ordered(),
        a == 0 || v[a - 1].is_ordered(),
    ensures
        run_start(v, k) == a,
    decreases k - a,
{
    if a < k {
        lemma_run_start_in(v, a, (k - 1) as nat);
    }
}

pub proof fn lemma_def_entries_agree(v: Seq<PreDef>, r1: Seq<DefId>, r2: Seq<DefId>, a: nat, b: nat)
    requires
        forall|j: int| a <= j < b ==> r1[j] == r2[j],
    ensures
        def_entries(v, r1, a, b) == def_entries(v, r2, a, b),
    decreases b,
{
    if b > a {
        lemma_def_entries_agree(v, r1, r2, a, (b - 1) as nat);
    }
}

pub proof fn lemma_rec_entries_agree(
    v: Seq<PreDef>,
    p1: Seq<PreDefId>,
    p2: Seq<PreDefId>,
    a: nat,
    b: nat,
)
    requires
        forall|j: int| a <= j < b ==> p1[j] == p2[j],
    ensures
        rec_entries(v, p1, a, b) == rec_entries(v, p2, a, b),
    decreases b,
{
    if b > a {
        lemma_rec_entries_agree(v, p1, p2, a, (b - 1) as nat);
    }
}

pub proof fn lemma_block_entries_agree(
    v: Seq<PreDef>,
    p1: Seq<PreDefId>,
    p2: Seq<PreDefId>,
    r1: Seq<DefId>,
    r2: Seq<DefId>,
    m: nat,
)
    requires
        forall|j: int| 0 <= j < m ==> p1[j] == p2[j],
        forall|j: int| 0 <= j < m ==> r1[j] == r2[j],
    ensures
        block_entries(v, p1, r1, m) == block_entries(v, p2, r2, m),
    decreases m,
{
    if m == 0 || m > v.len() {
    } else if v[m - 1].is_ordered() {
        lemma_def_entries_agree(v, r1, r2, (m - 1) as nat, m);
        lemma_block_entries_agree(v, p1, p2, r1, r2, (m - 1) as nat);
    } else {
        let a = run_start(v, (m - 1) as nat);
        lemma_run_start_le(v, (m - 1) as nat);
        lemma_def_entries_agree(v, r1, r2, a, m);
        lemma_rec_entries_agree(v, p1, p2, a, m);
        lemma_block_entries_agree(v, p1, p2, r1, r2, a);
    }
}

pub proof fn lemma_visible_agree(
    v: Seq<PreDef>,
    p1: Seq<PreDefId>,
    p2: Seq<PreDefId>,
    r1: Seq<DefId>,
    r2: Seq<DefId>,
    k: nat,
)
    requires
        k < v.len(),
        forall|j: int| 0 <= j < run_end(v, k) ==> p1[j] == p2[j],
        forall|j: int| 0 <= j < k ==> r1[j] == r2[j],
    ensures
        visible(v, p1, r1, k) == visible(v, p2, r2, k),
{
    lemma_run_end_ge(v, k);
    lemma_run_start_le(v, k);
    if v[k as int].is_ordered() {
        lemma_block_entries_agree(v, p1, p2, r1, r2, k);
    } else {
        let a = run_start(v, k);
        lemma_def_entries_agree(v, r1, r2, a, k);
        lemma_rec_entries_agree(v, p1, p2, a, run_end(v, k));
        lemma_block_entries_agree(v, p1, p2, r1, r2, a);
    }
}

/// Adding entries to a context table changes no old context's entries.
pub proof fn lemma_chain_extend(old: Seq<MaybeEntry>, new: Seq<MaybeEntry>, c: Cxt)
    requires
        old.len() <= new.len(),
        forall|i: int| 0 <= i < old.len() ==> new[i] == old[i],
        c.0 < old.len(),
    ensures
        chain(new, c) == chain(old, c),
    decreases c.0,
{
    match old[c.0 as int] {
        MaybeEntry::Yes(e) => {
            if e.rest.0 < c.0 {
                lemma_chain_extend(old, new, e.rest);
            }
        },
        _ => {},
    }
}

/// What `sym` resolves to among `entries`, the most recent first, with `ix` local
/// variables already passed over.
pub open spec fn resolve_entries(entries: Seq<(Name, NameInfo)>, sym: Name, ix: nat) -> Binding
    decreases entries.len(),
{
    if entries.len() == 0 {
        Binding::Unbound
    } else if entries[0].0 == sym {
        binding_of(entries[0].1, ix)
    } else {
        resolve_entries(
            entries.subrange(1, entries.len() as int),
            sym,
            if entries[0].1 is Local {
                ix + 1
            } else {
                ix
            },
        )
    }
}

/// What a name resolves to in a context depends only on the context's entries.
pub proof fn lemma_resolve_chain(cxts: Seq<MaybeEntry>, c: Cxt, sym: Name, ix: nat)
    requires
        cxts_linked(cxts),
        c.0 < cxts.len(),
    ensures
        resolve(cxts, c, sym, ix) == resolve_entries(chain(cxts, c), sym, ix),
    decreases c.0,
{
    match cxts[c.0 as int] {
        MaybeEntry::Yes(e) => {
            let es = chain(cxts, c);
            assert(es.subrange(1, es.len() as int) =~= chain(cxts, e.rest));
            if e.name != sym {
                lemma_resolve_chain(cxts, e.rest, sym, if e.info is Local {
                    ix + 1
                } else {
                    ix
                });
            }
        },
        _ => {},
    }
}

/// Extending context `c` with a name puts that name in front of its entries.
pub proof fn lemma_chain_define(
    old: Seq<MaybeEntry>,
    new: Seq<MaybeEntry>,
    c: Cxt,
    c2: Cxt,
    name: Name,
    info: NameInfo,
)
    requires
        cxts_linked(new),
        c.0 < old.len(),
        interns(old, new, defined_entry(old, c, name, info), c2.0 as nat),
    ensures
        chain(new, c2) == seq![(name, info)] + chain(old, c),
{
    assert(new[c2.0 as int] == defined_entry(old, c, name, info));
    lemma_chain_extend(old, new, c);
}

/// Table `new` holds all of table `old`, at the same positions.
pub open spec fn extends<K>(old: Seq<K>, new: Seq<K>) -> bool {
    &&& old.len() <= new.len()
    &&& forall|i: int| 0 <= i < old.len() ==> new[i] == old[i]
}

/// The tables `t1` hold all of `t0`, and the same strings, scopes and datatypes.
pub open spec fn tables_extend(t0: InternTables, t1: InternTables) -> bool {
    &&& t1.names == t0.names
    &&& t1.scopes == t0.scopes
    &&& t1.types == t0.types
    &&& extends(t0.predefs, t1.predefs)
    &&& extends(t0.defs, t1.defs)
    &&& extends(t0.cxts, t1.cxts)
}

pub proof fn lemma_interns_extends<K>(old: Seq<K>, new: Seq<K>, k: K, id: nat)
    requires
        interns(old, new, k, id),
    ensures
        extends(old, new),
        new.len() <= old.len() + 1,
{
}

/// A run of definitions that may refer to each other ends at the next ordered one.
pub proof fn lemma_run_end_le(v: Seq<PreDef>, k: nat, b: nat)
    requires
        k <= b < v.len(),
        v[b as int].is_ordered(),
    ensures
        run_end(v, k) <= b,
    decreases b - k,
{
    if k < b && !v[k as int].is_ordered() {
        lemma_run_end_le(v, k + 1, b);
    }
}

/// The entries a run `[a, m)` leaves: its definitions, over its recursive definitions,
/// over what the runs before it left.
pub proof fn lemma_block_entries_run(
    v: Seq<PreDef>,
    p: Seq<PreDefId>,
    r: Seq<DefId>,
    a: nat,
    m: nat,
)
    requires
        a <= m <= v.len(),
        a == 0 || v[a - 1].is_ordered(),
        forall|k: int| a <= k < m ==> !(#[trigger] v[k]).is_ordered(),
    ensures
        block_entries(v, p, r, m) == def_entries(v, r, a, m) + rec_entries(v, p, a, m)
            + block_entries(v, p, r, a),
{
    if a < m {
        lemma_run_start_in(v, a, (m - 1) as nat);
    } else {
        assert(def_entries(v, r, a, m) + rec_entries(v, p, a, m) + block_entries(v, p, r, a)
            =~= block_entries(v, p, r, a));
    }
}

/// What definitions of a block already interned see is kept when the tables grow
/// and the block's sequences are extended.
proof fn lemma_block_defs_extend(
    t: InternTables,
    t2: InternTables,
    old_cxts: Seq<MaybeEntry>,
    vs: Seq<PreDef>,
    p1: Seq<PreDefId>,
    p2: Seq<PreDefId>,
    r1: Seq<DefId>,
    r2: Seq<DefId>,
    c0: Cxt,
    eff: Option<EffStack>,
    n: nat,
    a: nat,
)
    requires
        tables_extend(t, t2),
        forall|k: int| 0 <= k < n ==> #[trigger] block_def(t, old_cxts, vs, p1, r1, c0, eff, k),
        n <= a <= vs.len(),
        a == 0 || vs[a - 1].is_ordered(),
        n <= r1.len(),
        n <= r2.len(),
        a <= p1.len(),
        a <= p2.len(),
        forall|j: int| 0 <= j < a ==> p1[j] == p2[j],
        forall|j: int| 0 <= j < n ==> r1[j] == r2[j],
    ensures
        forall|k: int| 0 <= k < n ==> #[trigger] block_def(t2, old_cxts, vs, p2, r2, c0, eff, k),
{
    assert forall|k: int| 0 <= k < n implies #[trigger] block_def(
        t2,
        old_cxts,
        vs,
        p2,
        r2,
        c0,
        eff,
        k,
    ) by {
        assert(block_def(t, old_cxts, vs, p1, r1, c0, eff, k));
        let key = t.defs[r1[k].0 as int];
        lemma_chain_extend(t.cxts, t2.cxts, key.1);
        lemma_run_end_le(vs, k as nat, (a - 1) as nat);
        lemma_visible_agree(vs, p1, p2, r1, r2, k as nat);
    }
}

/// The definitions of a run `[a, b)` that was just interned see the whole run
/// as recursive definitions and those of the run before them as definitions.
proof fn lemma_run_defs(
    t: InternTables,
    t1: InternTables,
    t2: InternTables,
    old_cxts: Seq<MaybeEntry>,
    vs: Seq<PreDef>,
    pids: Seq<PreDefId>,
    rv1: Seq<DefId>,
    rv2: Seq<DefId>,
    c_old: Cxt,
    c0: Cxt,
    eff: Option<EffStack>,
    a: nat,
    b: nat,
)
    requires
        a <= b <= vs.len(),
        b <= pids.len(),
        b <= rv1.len(),
        b <= rv2.len(),
        a == 0 || vs[a - 1].is_ordered(),
        forall|k: int| a <= k < b ==> !(#[trigger] vs[k]).is_ordered(),
        b == vs.len() || vs[b as int].is_ordered(),
        c_old.0 < t.cxts.len(),
        extends(t.cxts, t1.cxts),
        tables_extend(t1, t2),
        forall|j: int| 0 <= j < b ==> rv1[j] == rv2[j],
        forall|k: int|
            0 <= k < b ==> (#[trigger] pids[k]).0 < t2.predefs.len() && t2.predefs[pids[k].0 as int]
                == vs[k],
        chain(t.cxts, c_old) == rec_entries(vs, pids, a, b) + block_entries(vs, pids, rv1, a)
            + chain(old_cxts, c0),
        forall|j: int|
            0 <= j < b - a ==> {
                let d = #[trigger] rv1[a + j];
                let key = t1.defs[d.0 as int];
                &&& d.0 < t1.defs.len()
                &&& key.0 == pids[a + j]
                &&& key.2 == eff
                &&& key.1.0 < t1.cxts.len()
                &&& chain(t1.cxts, key.1) == def_entries(vs, rv1, a, (a + j) as nat) + chain(
                    t.cxts,
                    c_old,
                )
                &&& cxt_size(t1.cxts, key.1) == cxt_size(t.cxts, c_old)
                &&& cxt_file(t1.cxts, key.1) == cxt_file(t.cxts, c_old)
            },
        cxt_size(t.cxts, c_old) == cxt_size(old_cxts, c0),
        cxt_file(t.cxts, c_old) == cxt_file(old_cxts, c0),
    ensures
        forall|k: int| a <= k < b ==> #[trigger] block_def(t2, old_cxts, vs, pids, rv2, c0, eff, k),
{
    assert forall|k: int| a <= k < b implies #[trigger] block_def(
        t2,
        old_cxts,
        vs,
        pids,
        rv2,
        c0,
        eff,
        k,
    ) by {
        let j = k - a;
        assert(rv1[a + j] == rv2[k]);
        let key = t1.defs[rv1[a + j].0 as int];
        lemma_chain_extend(t1.cxts, t2.cxts, key.1);
        lemma_chain_extend(t.cxts, t1.cxts, c_old);
        lemma_run_start_in(vs, a, k as nat);
        lemma_run_end_in(vs, k as nat, b);
        lemma_def_entries_agree(vs, rv1, rv2, a, k as nat);
        lemma_block_entries_agree(vs, pids, pids, rv1, rv2, a);
        let x = def_entries(vs, rv1, a, k as nat);
        let y = rec_entries(vs, pids, a, b);
        let z = block_entries(vs, pids, rv1, a);
        let w = chain(old_cxts, c0);
        assert(x + (y + z + w) =~= x + y + z + w);
    }
}

fn copy_effs(eff_stack: &Option<EffStack>) -> (r: Option<EffStack>)
    ensures
        r == *eff_stack,
{
    match eff_stack {
        Some(e) => Some(e.copy()),
        None => None,
    }
}

fn is_ordered(def: &PreDef) -> (r: bool)
    ensures
        r == def.is_ordered(),
{
    match def {
        PreDef::Val(..) | PreDef::Impl(..) | PreDef::Expr(..) | PreDef::Cons(..) => true,
        _ => false,
    }
}

/// Interns each pending definition of a run, in order, in the context that holds
/// those before it, and names it there as the definition it became.
fn flush_pending<T: Interner>(
    pending: &Vec<(Option<Name>, PreDefId)>,
    db: &mut T,
    cxt: Cxt,
    eff_stack: &Option<EffStack>,
    rv: &mut Vec<DefId>,
    Ghost(v): Ghost<Seq<PreDef>>,
) -> (c: Cxt)
    requires
        old(db).inv(),
        cxt.0 < old(db).tables().cxts.len(),
        old(rv)@.len() + pending@.len() <= v.len(),
        forall|j: int|
            0 <= j < pending@.len() ==> (#[trigger] pending@[j]).0 == v[old(rv)@.len() + j].spec_name(),
        old(db).tables().defs.len() + pending@.len() < u32::MAX,
        old(db).tables().cxts.len() + pending@.len() < u32::MAX,
    ensures
        final(db).inv(),
        final(db).store() == old(db).store(),
        tables_extend(old(db).tables(), final(db).tables()),
        final(db).tables().predefs == old(db).tables().predefs,
        final(db).tables().defs.len() <= old(db).tables().defs.len() + pending@.len(),
        final(db).tables().cxts.len() <= old(db).tables().cxts.len() + pending@.len(),
        final(rv)@.len() == old(rv)@.len() + pending@.len(),
        forall|j: int| 0 <= j < old(rv)@.len() ==> final(rv)@[j] == old(rv)@[j],
        c.0 < final(db).tables().cxts.len(),
        chain(final(db).tables().cxts, c) == def_entries(
            v,
            final(rv)@,
            old(rv)@.len(),
            old(rv)@.len() + pending@.len(),
        ) + chain(old(db).tables().cxts, cxt),
        cxt_size(final(db).tables().cxts, c) == cxt_size(old(db).tables().cxts, cxt),
        cxt_file(final(db).tables().cxts, c) == cxt_file(old(db).tables().cxts, cxt),
        forall|j: int|
            0 <= j < pending@.len() ==> {
                let d = #[trigger] final(rv)@[old(rv)@.len() + j];
                let key = final(db).tables().defs[d.0 as int];
                &&& d.0 < final(db).tables().defs.len()
                &&& key.0 == pending@[j].1
                &&& key.2 == *eff_stack
                &&& key.1.0 < final(db).tables().cxts.len()
                &&& chain(final(db).tables().cxts, key.1) == def_entries(
                    v,
                    final(rv)@,
                    old(rv)@.len(),
                    (old(rv)@.len() + j) as nat,
                ) + chain(old(db).tables().cxts, cxt)
                &&& cxt_size(final(db).tables().cxts, key.1) == cxt_size(old(db).tables().cxts, cxt)
                &&& cxt_file(final(db).tables().cxts, key.1) == cxt_file(old(db).tables().cxts, cxt)
            },
{
    let ghost a = rv@.len();
    let ghost rv0 = rv@;
    let ghost t0 = db.tables();
    let ghost s0 = db.store();
    let mut c = cxt;
    let mut j: usize = 0;
    while j < pending.len()
        invariant
            j <= pending@.len(),
            db.inv(),
            db.store() == s0,
            tables_extend(t0, db.tables()),
            db.tables().predefs == t0.predefs,
            db.tables().defs.len() <= t0.defs.len() + j,
            db.tables().cxts.len() <= t0.cxts.len() + j,
            t0.defs.len() + pending@.len() < u32::MAX,
            t0.cxts.len() + pending@.len() < u32::MAX,
            a + pending@.len() <= v.len(),
            forall|i: int|
                0 <= i < pending@.len() ==> (#[trigger] pending@[i]).0 == v[a + i].spec_name(),
            rv@.len() == a + j,
            forall|i: int| 0 <= i < a ==> rv@[i] == rv0[i],
            c.0 < db.tables().cxts.len(),
            chain(db.tables().cxts, c) == def_entries(v, rv@, a, (a + j) as nat) + chain(
                t0.cxts,
                cxt,
            ),
            cxt.0 < t0.cxts.len(),
            cxt_size(db.tables().cxts, c) == cxt_size(t0.cxts, cxt),
            cxt_file(db.tables().cxts, c) == cxt_file(t0.cxts, cxt),
            forall|i: int|
                0 <= i < j ==> {
                    let d = #[trigger] rv@[a + i];
                    let key = db.tables().defs[d.0 as int];
                    &&& d.0 < db.tables().defs.len()
                    &&& key.0 == pending@[i].1
                    &&& key.2 == *eff_stack
                    &&& key.1.0 < db.tables().cxts.len()
                    &&& chain(db.tables().cxts, key.1) == def_entries(v, rv@, a, (a + i) as nat)
                        + chain(t0.cxts, cxt)
                    &&& cxt_size(db.tables().cxts, key.1) == cxt_size(t0.cxts, cxt)
                    &&& cxt_file(db.tables().cxts, key.1) == cxt_file(t0.cxts, cxt)
                },
        decreases pending@.len() - j,
    {
        let ghost t = db.tables();
        let ghost rv_before = rv@;
        let ghost c_old = c;
        let (name, pre) = pending[j];
        let id = db.intern_def(pre, c, copy_effs(eff_stack));
        let ghost t1 = db.tables();
        proof {
            lemma_interns_extends(t.defs, t1.defs, (pre, c, *eff_stack), id.0 as nat);
        }
        match name {
            Some(n) => {
                c = c.define(n, NameInfo::Def(id), db);
            },
            None => {},
        }
        let ghost t2 = db.tables();
        rv.push(id);
        proof {
            db.lemma_inv();
            assert(pending@[j as int].0 == v[a + j].spec_name());
            match name {
                Some(n) => {
                    lemma_interns_extends(
                        t1.cxts,
                        t2.cxts,
                        defined_entry(t1.cxts, c_old, n, NameInfo::Def(id)),
                        c.0 as nat,
                    );
                    lemma_chain_define(t1.cxts, t2.cxts, c_old, c, n, NameInfo::Def(id));
                },
                None => {},
            }
            lemma_def_entries_agree(v, rv_before, rv@, a, (a + j) as nat);
            assert(chain(t2.cxts, c) == def_entries(v, rv@, a, (a + j + 1) as nat) + chain(
                t0.cxts,
                cxt,
            ));
            assert forall|i: int| 0 <= i < j + 1 implies {
                let d = #[trigger] rv@[a + i];
                let key = t2.defs[d.0 as int];
                &&& d.0 < t2.defs.len()
                &&& key.0 == pending@[i].1
                &&& key.2 == *eff_stack
                &&& key.1.0 < t2.cxts.len()
                &&& chain(t2.cxts, key.1) == def_entries(v, rv@, a, (a + i) as nat) + chain(
                    t0.cxts,
                    cxt,
                )
                &&& cxt_size(t2.cxts, key.1) == cxt_size(t0.cxts, cxt)
                &&& cxt_file(t2.cxts, key.1) == cxt_file(t0.cxts, cxt)
            } by {
                lemma_def_entries_agree(v, rv_before, rv@, a, (a + i) as nat);
                if i < j {
                    let d = rv_before[a + i];
                    let key = t.defs[d.0 as int];
                    lemma_chain_extend(t.cxts, t2.cxts, key.1);
                } else {
                    lemma_chain_extend(t.cxts, t2.cxts, c_old);
                }
            }
        }
        j += 1;
    }
    c
}

/// Interns the definitions of a block, in order, and returns them.
///
/// Functions, datatypes and declarations may refer to each other in any order:
/// each run of them is first put in scope as recursive definitions (with their
/// given types, or `Error` where they have none), and each is interned when the
/// run ends, seeing the whole run and the definitions of the run before it.
/// Values, implicits, expressions and constructors are interned where they
/// stand, seeing everything before them.
#[verifier::rlimit(100)]
#[verifier::spinoff_prover]
pub fn intern_block<T: Interner>(v: Vec<PreDef>, db: &mut T, cxt: Cxt, eff_stack: Option<EffStack>) -> (rv: Vec<DefId>)
    requires
        old(db).inv(),
        cxt.0 < old(db).tables().cxts.len(),
        old(db).tables().predefs.len() + v@.len() < u32::MAX,
        old(db).tables().defs.len() + v@.len() < u32::MAX,
        old(db).tables().cxts.len() + 2 * v@.len() < u32::MAX,
    ensures
        final(db).inv(),
        final(db).store() == old(db).store(),
        tables_extend(old(db).tables(), final(db).tables()),
        rv@.len() == v@.len(),
        forall|k: int|
            0 <= k < v@.len() ==> block_def(
                final(db).tables(),
                old(db).tables().cxts,
                v@,
                block_pids(final(db).tables(), rv@),
                rv@,
                cxt,
                eff_stack,
                k,
            ),
{
    let ghost vs = v@;
    let ghost t0 = db.tables();
    let ghost s0 = db.store();
    let ghost c0 = cxt;
    let mut cxt = cxt;
    let mut rv: Vec<DefId> = Vec::new();
    // The definitions of the current run, with their names, waiting for its end.
    let mut temp: Vec<(Option<Name>, PreDefId)> = Vec::new();
    let ghost mut pids: Seq<PreDefId> = Seq::empty();
    let mut i: usize = 0;
    while i < v.len()
        invariant
            v@ == vs,
            i <= vs.len(),
            db.inv(),
            db.store() == s0,
            tables_extend(t0, db.tables()),
            db.tables().predefs.len() <= t0.predefs.len() + i,
            db.tables().defs.len() <= t0.defs.len() + rv@.len(),
            db.tables().cxts.len() <= t0.cxts.len() + i + rv@.len(),
            t0.predefs.len() + vs.len() < u32::MAX,
            t0.defs.len() + vs.len() < u32::MAX,
            t0.cxts.len() + 2 * vs.len() < u32::MAX,
            c0.0 < t0.cxts.len(),
            rv@.len() <= i,
            temp@.len() == i - rv@.len(),
            pids.len() == i,
            forall|k: int|
                0 <= k < i ==> (#[trigger] pids[k]).0 < db.tables().predefs.len()
                    && db.tables().predefs[pids[k].0 as int] == vs[k],
            forall|j: int|
                0 <= j < temp@.len() ==> #[trigger] temp@[j] == (
                    vs[rv@.len() + j].spec_name(),
                    pids[rv@.len() + j],
                ),
            forall|k: int| rv@.len() <= k < i ==> !(#[trigger] vs[k]).is_ordered(),
            rv@.len() == 0 || vs[rv@.len() - 1].is_ordered(),
            cxt.0 < db.tables().cxts.len(),
            chain(db.tables().cxts, cxt) == rec_entries(vs, pids, rv@.len(), i as nat)
                + block_entries(vs, pids, rv@, rv@.len()) + chain(t0.cxts, c0),
            cxt_size(db.tables().cxts, cxt) == cxt_size(t0.cxts, c0),
            cxt_file(db.tables().cxts, cxt) == cxt_file(t0.cxts, c0),
            forall|k: int|
                0 <= k < rv@.len() ==> #[trigger] block_def(
                    db.tables(),
                    t0.cxts,
                    vs,
                    pids,
                    rv@,
                    c0,
                    eff_stack,
                    k,
                ),
        decreases vs.len() - i,
    {
        let ghost t = db.tables();
        let ghost a = rv@.len();
        let ghost rv_before = rv@;
        let ghost pids_before = pids;
        let ghost c_old = cxt;
        let def = &v[i];
        if !is_ordered(def) {
            let name = def.name();
            let id = db.intern_predef(def.copy());
            let ghost t1 = db.tables();
            proof {
                lemma_interns_extends(t.predefs, t1.predefs, vs[i as int], id.0 as nat);
                pids = pids.push(id);
                db.lemma_inv();
            }
            match name {
                Some(n) => {
                    let ty = match def.given_type() {
                        Some(ty) => ty,
                        None => Val::Error,
                    };
                    cxt = cxt.define(n, NameInfo::Rec(id, ty), db);
                },
                None => {},
            }
            temp.push((name, id));
            let ghost t2 = db.tables();
            proof {
                db.lemma_inv();
                match name {
                    Some(n) => {
                        let info = NameInfo::Rec(id, given_or_error(vs[i as int]));
                        lemma_interns_extends(
                            t1.cxts,
                            t2.cxts,
                            defined_entry(t1.cxts, c_old, n, info),
                            cxt.0 as nat,
                        );
                        lemma_chain_define(t1.cxts, t2.cxts, c_old, cxt, n, info);
                    },
                    None => {},
                }
                lemma_rec_entries_agree(vs, pids_before, pids, a, i as nat);
                lemma_block_entries_agree(vs, pids_before, pids, rv@, rv@, a);
                assert(chain(t2.cxts, cxt) == rec_entries(vs, pids, a, (i + 1) as nat)
                    + block_entries(vs, pids, rv@, a) + chain(t0.cxts, c0));
                lemma_block_defs_extend(
                    t,
                    t2,
                    t0.cxts,
                    vs,
                    pids_before,
                    pids,
                    rv@,
                    rv@,
                    c0,
                    eff_stack,
                    a,
                    a,
                );
            }
        } else {
            cxt = flush_pending(&temp, db, cxt, &eff_stack, &mut rv, Ghost(vs));
            temp.clear();
            let ghost t1 = db.tables();
            let ghost rv1 = rv@;
            let ghost c1 = cxt;
            let name = def.name();
            let pre = db.intern_predef(def.copy());
            let ghost t2 = db.tables();
            proof {
                lemma_interns_extends(t1.predefs, t2.predefs, vs[i as int], pre.0 as nat);
                pids = pids.push(pre);
            }
            let id = db.intern_def(pre, cxt, copy_effs(&eff_stack));
            let ghost t3 = db.tables();
            proof {
                lemma_interns_extends(t2.defs, t3.defs, (pre, c1, eff_stack), id.0 as nat);
                db.lemma_inv();
            }
            match name {
                Some(n) => {
                    cxt = cxt.define(n, NameInfo::Def(id), db);
                },
                None => {},
            }
            rv.push(id);
            let ghost t4 = db.tables();
            proof {
                db.lemma_inv();
                match name {
                    Some(n) => {
                        lemma_interns_extends(
                            t3.cxts,
                            t4.cxts,
                            defined_entry(t3.cxts, c1, n, NameInfo::Def(id)),
                            cxt.0 as nat,
                        );
                        lemma_chain_define(t3.cxts, t4.cxts, c1, cxt, n, NameInfo::Def(id));
                    },
                    None => {},
                }
                // What the run that has just ended leaves in the context.
                if a < i {
                    assert(!vs[i - 1].is_ordered());
                }
                lemma_block_entries_run(vs, pids_before, rv_before, a, i as nat);
                lemma_block_entries_run(vs, pids, rv@, a, i as nat);
                lemma_def_entries_agree(vs, rv1, rv@, a, i as nat);
                lemma_rec_entries_agree(vs, pids_before, pids, a, i as nat);
                lemma_block_entries_agree(vs, pids_before, pids, rv_before, rv@, a);
                assert(chain(t1.cxts, c1) == block_entries(vs, pids, rv@, i as nat) + chain(
                    t0.cxts,
                    c0,
                ));
                lemma_chain_extend(t1.cxts, t4.cxts, c1);
                assert(vs[i as int].spec_name() == name);
                assert(rv@[i as int] == id);
                assert(def_entries(vs, rv@, i as nat, i as nat) =~= Seq::<(Name, NameInfo)>::empty());
                assert(def_entries(vs, rv@, i as nat, (i + 1) as nat) =~= match name {
                    Some(n) => seq![(n, NameInfo::Def(id))],
                    None => Seq::<(Name, NameInfo)>::empty(),
                });
                assert(chain(t4.cxts, cxt) == rec_entries(vs, pids, (i + 1) as nat, (i + 1) as nat)
                    + block_entries(vs, pids, rv@, (i + 1) as nat) + chain(t0.cxts, c0));
                lemma_block_defs_extend(
                    t,
                    t4,
                    t0.cxts,
                    vs,
                    pids_before,
                    pids,
                    rv_before,
                    rv@,
                    c0,
                    eff_stack,
                    a,
                    a,
                );
                lemma_rec_entries_agree(vs, pids_before, pids, a, i as nat);
                lemma_block_entries_agree(vs, pids_before, pids, rv_before, rv1, a);
                lemma_run_defs(
                    t,
                    t1,
                    t4,
                    t0.cxts,
                    vs,
                    pids,
                    rv1,
                    rv@,
                    c_old,
                    c0,
                    eff_stack,
                    a,
                    i as nat,
                );
                assert(t4.defs[id.0 as int] == (pre, c1, eff_stack));
                assert(block_def(t4, t0.cxts, vs, pids, rv@, c0, eff_stack, i as int));
            }
        }
        i += 1;
    }
    let ghost t = db.tables();
    let ghost a = rv@.len();
    let ghost rv_before = rv@;
    let ghost c_old = cxt;
    cxt = flush_pending(&temp, db, cxt, &eff_stack, &mut rv, Ghost(vs));
    let ghost t1 = db.tables();
    proof {
        lemma_block_defs_extend(
            t,
            t1,
            t0.cxts,
            vs,
            pids,
            pids,
            rv_before,
            rv@,
            c0,
            eff_stack,
            a,
            a,
        );
        lemma_block_entries_agree(vs, pids, pids, rv_before, rv@, a);
        lemma_run_defs(
            t,
            t1,
            t1,
            t0.cxts,
            vs,
            pids,
            rv@,
            rv@,
            c_old,
            c0,
            eff_stack,
            a,
            vs.len(),
        );
        assert forall|k: int| 0 <= k < vs.len() implies block_pids(t1, rv@)[k] == pids[k] by {
            assert(block_def(t1, t0.cxts, vs, pids, rv@, c0, eff_stack, k));
        }
        assert(block_pids(t1, rv@) =~= pids);
    }
    rv
}

/// The definitions of source file `file`, given what parsing its text gave. The root context
/// of the file (with the builtins) is made first; a parse error is reported and leaves no
/// definitions, and the definitions of a parsed file are put in scope in the root context,
/// as `intern_block` does with no effects in scope.
pub fn top_level<D: CompilerExt>(db: &mut D, file: FileId, parsed: Result<Vec<PreDef>, Error>) -> (defs: Vec<DefId>)
    requires
        old(db).inv(),
        old(db).tables().cxts.len() + 6 < u32::MAX,
        old(db).tables().names.len() + 5 < u32::MAX,
        parsed is Ok ==> old(db).tables().predefs.len() + parsed->Ok_0@.len() < u32::MAX,
        parsed is Ok ==> old(db).tables().defs.len() + parsed->Ok_0@.len() < u32::MAX,
        parsed is Ok ==> old(db).tables().cxts.len() + 2 * parsed->Ok_0@.len() + 6 < u32::MAX,
    ensures
        final(db).inv(),
        final(db).tables().scopes == old(db).tables().scopes,
        final(db).tables().types == old(db).tables().types,
        extends(old(db).tables().names, final(db).tables().names),
        extends(old(db).tables().predefs, final(db).tables().predefs),
        extends(old(db).tables().defs, final(db).tables().defs),
        extends(old(db).tables().cxts, final(db).tables().cxts),
        exists|root: Cxt|
            #[trigger] file_root(final(db).tables(), root, file) && (parsed matches Ok(v) ==> forall|k: int|
                0 <= k < v@.len() ==> block_def(
                    final(db).tables(),
                    final(db).tables().cxts,
                    v@,
                    block_pids(final(db).tables(), defs@),
                    defs@,
                    root,
                    None,
                    k,
                )),
        match parsed {
            Err(e) => {
                &&& defs@ == Seq::<DefId>::empty()
                &&& final(db).tables().predefs == old(db).tables().predefs
                &&& final(db).tables().defs == old(db).tables().defs
                &&& final(db).errors() == old(db).errors().push(e)
            },
            Ok(v) => {
                &&& defs@.len() == v@.len()
                &&& final(db).errors() == old(db).errors()
            },
        },
{
    let ghost t0 = db.tables();
    let cxt = Cxt::new(file, db);
    let ghost t1 = db.tables();
    let ghost mid = *db;
    match parsed {
        Ok(v) => {
            let defs = intern_block(v, db, cxt, None);
            let ghost t2 = db.tables();
            proof {
                db.lemma_errors_in_store(old(db));
                assert(extends(t1.names, t2.names));
                lemma_file_root_extend(t1, t2, cxt, file);
                assert(cxt_size(t2.cxts, cxt) == cxt_size(t1.cxts, cxt));
                assert(cxt_file(t2.cxts, cxt) == cxt_file(t1.cxts, cxt));
                assert forall|k: int|
                    0 <= k < v@.len() implies #[trigger] block_def(
                        t2,
                        t2.cxts,
                        v@,
                        block_pids(t2, defs@),
                        defs@,
                        cxt,
                        None,
                        k,
                    ) by {
                    assert(block_def(t2, t1.cxts, v@, block_pids(t2, defs@), defs@, cxt, None, k));
                }
                assert(file_root(t2, cxt, file));
            }
            defs
        },
        Err(e) => {
            proof {
                mid.lemma_errors_in_store(old(db));
            }
            db.report_error(e);
            proof {
                assert(db.tables() == t1);
                assert(file_root(db.tables(), cxt, file));
            }
            Vec::new()
        },
    }
}

impl Compiler for Database {
    closed spec fn spec_file_source(&self, file: FileId) -> Option<Seq<char>> {
        last_source(self.sources@, file)
    }

    closed spec fn spec_elaborate_def(&self, def: DefId) -> Option<Result<ElabInfo, DefError>> {
        last_elaboration(self.elaborations@, def)
    }

    proof fn lemma_queries_in_store(&self, other: &Self) {
    }

    /// The source text of `file`, as it was last set.
    fn file_source(&self, file: FileId) -> (s: String) {
        let mut i: usize = self.sources.len();
        assert(self.sources@.take(i as int) =~= self.sources@);
        while i > 0
            invariant
                i <= self.sources@.len(),
                last_source(self.sources@.take(i as int), file) == last_source(self.sources@, file),
            decreases i,
        {
            assert(self.sources@.take(i as int).drop_last() =~= self.sources@.take(i - 1));
            i -= 1;
            if self.sources[i].0 == file {
                return self.sources[i].1.clone();
            }
        }
        vstd::pervasive::unreached()
    }

    /// The result of elaborating `def`, as it was last recorded.
    fn elaborate_def(&self, def: DefId) -> (r: Result<ElabInfo, DefError>) {
        let mut i: usize = self.elaborations.len();
        assert(self.elaborations@.take(i as int) =~= self.elaborations@);
        while i > 0
            invariant
                i <= self.elaborations@.len(),
                last_elaboration(self.elaborations@.take(i as int), def) == last_elaboration(
                    self.elaborations@,
                    def,
                ),
            decreases i,
        {
            assert(self.elaborations@.take(i as int).drop_last() =~= self.elaborations@.take(i - 1));
            i -= 1;
            if self.elaborations[i].0 == def {
                return match &self.elaborations[i].1 {
                    Ok(info) => Ok(info.copy()),
                    Err(e) => Err(*e),
                };
            }
        }
        vstd::pervasive::unreached()
    }
}

/// The answer last recorded for `head` in context `c`.
pub closed spec fn last_infer(
    rs: Seq<(PrePat, Cxt, Result<(Term, VTy), TypeError>)>,
    head: PrePat,
    c: Cxt,
) -> Option<Result<(Term, VTy), TypeErrorV>>
    decreases rs.len(),
{
    if rs.len() == 0 {
        None
    } else if rs.last().0 == head && rs.last().1 == c {
        Some(res_view(rs.last().2))
    } else {
        last_infer(rs.drop_last(), head, c)
    }
}

/// The answer last recorded for unifying `a` with `b`.
pub closed spec fn last_unify(
    rs: Seq<(VTy, VTy, Lvl, bool, Result<bool, TypeError>)>,
    a: VTy,
    b: VTy,
    l: Lvl,
    local: bool,
) -> Option<Result<bool, TypeErrorV>>
    decreases rs.len(),
{
    if rs.len() == 0 {
        None
    } else if rs.last().0 == a && rs.last().1 == b && rs.last().2 == l && rs.last().3 == local {
        Some(res_view(rs.last().4))
    } else {
        last_unify(rs.drop_last(), a, b, l, local)
    }
}

/// The arity last recorded for `ty`.
pub closed spec fn last_arity(rs: Seq<(VTy, usize)>, ty: VTy) -> Option<usize>
    decreases rs.len(),
{
    if rs.len() == 0 {
        None
    } else if rs.last().0 == ty {
        Some(rs.last().1)
    } else {
        last_arity(rs.drop_last(), ty)
    }
}

impl Database {
    /// Records what inferring `head` in context `c` gives, for `infer_head` to give back.
    pub fn record_infer(&mut self, head: PrePat, c: Cxt, result: Result<(Term, VTy), TypeError>)
        ensures
            Database::infer_answer(final(self).store(), head, c) == Some(res_view(result)),
            final(self).tables() == old(self).tables(),
            final(self).inv() == old(self).inv(),
            final(self).errors() == old(self).errors(),
    {
        let ghost old_rs = self.infers@;
        self.infers.push((head, c, result));
        assert(self.infers@.drop_last() =~= old_rs);
    }

    /// Records what unifying `a` with `b` gives, for `unify` to give back.
    pub fn record_unify(&mut self, a: VTy, b: VTy, l: Lvl, local: bool, result: Result<bool, TypeError>)
        ensures
            Database::unify_answer(final(self).store(), a, b, l, local) == Some(res_view(result)),
            final(self).tables() == old(self).tables(),
            final(self).inv() == old(self).inv(),
            final(self).errors() == old(self).errors(),
    {
        let ghost old_rs = self.unifies@;
        self.unifies.push((a, b, l, local, result));
        assert(self.unifies@.drop_last() =~= old_rs);
    }

    /// Records the arity of `ty`, for `arity` to give back.
    pub fn record_arity(&mut self, ty: VTy, n: usize)
        ensures
            Database::arity_answer(final(self).store(), ty) == Some(n),
            final(self).tables() == old(self).tables(),
            final(self).inv() == old(self).inv(),
            final(self).errors() == old(self).errors(),
    {
        let ghost old_rs = self.arities@;
        self.arities.push((ty, n));
        assert(self.arities@.drop_last() =~= old_rs);
    }
}

fn copy_result_term(r: &Result<(Term, VTy), TypeError>) -> (c: Result<(Term, VTy), TypeError>)
    ensures
        res_view(c) == res_view(*r),
{
    match r {
        Ok((t, ty)) => Ok((t.copy(), ty.copy())),
        Err(e) => Err(e.copy()),
    }
}

fn copy_result_bool(r: &Result<bool, TypeError>) -> (c: Result<bool, TypeError>)
    ensures
        res_view(c) == res_view(*r),
{
    match r {
        Ok(b) => Ok(*b),
        Err(e) => Err(e.copy()),
    }
}

impl PatElab for Database {
    closed spec fn infer_answer(store: Self::Store, head: PrePat, c: Cxt) -> Option<Result<(Term, VTy), TypeErrorV>> {
        last_infer(store.3, head, c)
    }

    closed spec fn unify_answer(store: Self::Store, a: VTy, b: VTy, l: Lvl, local: bool) -> Option<Result<bool, TypeErrorV>> {
        last_unify(store.4, a, b, l, local)
    }

    closed spec fn arity_answer(store: Self::Store, ty: VTy) -> Option<usize> {
        last_arity(store.5, ty)
    }

    closed spec fn elab_answer(store: Self::Store, d: DefId) -> Option<Result<ElabInfo, DefError>> {
        last_elaboration(store.1, d)
    }

    proof fn lemma_elab_answer(&self) {
    }

    /// What was last recorded for `head` in context `c`.
    fn infer_head(&self, head: &PrePat, c: Cxt) -> (r: Result<(Term, VTy), TypeError>) {
        let mut i: usize = self.infers.len();
        assert(self.infers@.take(i as int) =~= self.infers@);
        while i > 0
            invariant
                i <= self.infers@.len(),
                last_infer(self.infers@.take(i as int), *head, c) == last_infer(self.infers@, *head, c),
            decreases i,
        {
            assert(self.infers@.take(i as int).drop_last() =~= self.infers@.take(i - 1));
            i -= 1;
            if self.infers[i].0.same(head) && self.infers[i].1 == c {
                return copy_result_term(&self.infers[i].2);
            }
        }
        vstd::pervasive::unreached()
    }

    /// What was last recorded for unifying `a` with `b`.
    fn unify(&self, a: &VTy, b: &VTy, l: Lvl, local: bool) -> (r: Result<bool, TypeError>) {
        let mut i: usize = self.unifies.len();
        assert(self.unifies@.take(i as int) =~= self.unifies@);
        while i > 0
            invariant
                i <= self.unifies@.len(),
                last_unify(self.unifies@.take(i as int), *a, *b, l, local) == last_unify(
                    self.unifies@,
                    *a,
                    *b,
                    l,
                    local,
                ),
            decreases i,
        {
            assert(self.unifies@.take(i as int).drop_last() =~= self.unifies@.take(i - 1));
            i -= 1;
            if self.unifies[i].0.same(a) && self.unifies[i].1.same(b) && self.unifies[i].2 == l
                && self.unifies[i].3 == local {
                return copy_result_bool(&self.unifies[i].4);
            }
        }
        vstd::pervasive::unreached()
    }

    /// What was last recorded as the arity of `ty`.
    fn arity(&self, ty: &VTy) -> (n: usize) {
        let mut i: usize = self.arities.len();
        assert(self.arities@.take(i as int) =~= self.arities@);
        while i > 0
            invariant
                i <= self.arities@.len(),
                last_arity(self.arities@.take(i as int), *ty) == last_arity(self.arities@, *ty),
            decreases i,
        {
            assert(self.arities@.take(i as int).drop_last() =~= self.arities@.take(i - 1));
            i -= 1;
            if self.arities[i].0.same(ty) {
                return self.arities[i].1;
            }
        }
        vstd::pervasive::unreached()
    }
}

} // verus!
