# pika

The core of the compiler of Pika, a small dependently typed ML, written in Verus
and verified.

- `src/term.rs`: core terms (de Bruijn indices), values (de Bruijn levels),
  closures, environments, and the definitions of a block before elaboration.
- `src/evaluate.rs`: normalisation by evaluation. `evaluate` turns a term into a
  value in an environment, `Val::app` and `Clos::apply` apply values, `inline`
  unfolds the global definitions heading a value, `quote` reads a value back as a
  term. Untyped terms may not terminate, so each
  operation's meaning is a spec function with fuel; an operation requires that
  some fuel suffices and returns what every sufficient fuel gives. Normal forms
  are fixed points of `quote` after `evaluate` (`lemma_quote_evaluate_normal`).
- `src/query.rs`: interned identifiers, the `Interner`, `CompilerExt` and
  `Compiler` traits, the `Database` that implements them, name contexts (`Cxt`)
  and their lookup (a file's root context holds the builtins), `intern_block`, which puts the definitions of a block in
  scope, and `top_level`, which does so for a parsed file in its root context. Interning gives equal values equal ids, and leaves the
  sources, elaborations and diagnostics alone (`lemma_queries_in_store`); a name
  looked up after `Cxt::define` is found as what it was defined to be, a definition
  included, and every other local variable moves one index out
  (`lemma_lookup_outcome_after_define`).
- `src/pattern.rs`: patterns, matching a value against a pattern
  (`Pat::match_with`), bringing a pattern's variables into scope (`Pat::add_locals`,
  `Pat::add_names`), showing a pattern (`Pat::pretty`, each variable under a name that clashes with none
  in scope, `Names::disamb`), and what a list of patterns
  covers (`Pat::cov`, `Cov::or`, `Cov::simplify`, `Cov::pretty_rest`), with the
  coverage decision of a `case` expression (`case_coverage`: which cases are
  redundant, whether the cases are exhaustive). Putting coverings together is
  idempotent and, up to the order of constructor entries, commutative; simplifying is
  idempotent. What the elaborator knows of the type being matched (which constructors
  are candidates, and the argument types of every constructor a covering may mention)
  is given as a `TyShape`; `data_shape` builds one for a datatype from its namespace,
  keeping the members whose elaboration is the constructor itself. Sets of literals are
  `bit_set::BitSet`s.
- `src/elab.rs`: elaborating patterns as written (`PrePat`) against the type expected
  (`elab_pat`, `elab_pat_app`): literals take the width of the integer type, `True` and
  `False` are booleans, names of constructors are constructor patterns, other names are
  new local variables, implicit parameters of constructors become unnamed variables,
  and a constructor given the wrong number of arguments, or of another type, is an
  error. `elab_case` elaborates the patterns of a `case` expression, each case's
  variables in scope in that case only, and decides coverage and redundancy. What the
  rest of the elaborator answers (inferring a pattern's head, unification, counting a
  type's parameters) comes through the `PatElab` trait, which `Database` implements
  from recorded answers. Each contract is exact, over `elab_pat_spec`; elaborating a
  pattern extends the context by one local per variable it binds
  (`lemma_elab_pat_binds`), in order, in front of what was in scope: the context that
  `Pat::add_locals` builds from the elaborated pattern (`lemma_elab_pat_scope`).
- `Database::check_all`: puts a parsed file's definitions in scope and gives each with
  its elaboration.
- `app/main.rs`: reads a source file into a database and checks it.
