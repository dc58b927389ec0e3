//! Terms, patterns and the match path.
//!
//! A term is the pattern-free lambda-calculus representation that the pass
//! produces.  A pattern is what a clause of a surface definition matches on;
//! this pass assumes that constructor sub-patterns are always plain variables.
//! A match path records, for each argument position already processed on one
//! decision-tree path, whether the position was skipped or branched on.

use vstd::prelude::*;

verus! {

/// The name of a term-level variable.  Surface variables are interned
/// identifiers; the synthesized dispatchers bind only positional variables
/// and one scrutinee variable, so generated binders can never capture a
/// surface variable.
#[derive(Debug, Clone, Copy, PartialEq, Eq)]
pub enum VarName {
    /// A variable of the surface program, interned to an integer.
    Source(u64),
    /// The positional parameter of a synthesized definition.
    Pos(usize),
    /// The scrutinee parameter of a synthesized branch dispatcher.
    Scrut,
}

/// A pattern-free lambda-calculus term.
#[derive(Debug, PartialEq, Eq)]
#[allow(inconsistent_fields)]
pub enum Term {
    /// A variable occurrence.
    Var { nam: VarName },
    /// A single-parameter function.
    Lam { nam: Option<VarName>, bod: Box<Term> },
    /// An application of a function to one argument.
    App { fun: Box<Term>, arg: Box<Term> },
    /// A non-owning reference to a definition of the book, by identifier.
    Ref { def_id: usize },
    /// An opaque erased placeholder.
    Era,
}

impl Clone for Term {
    fn clone(&self) -> (r: Term)
        ensures
            r == *self,
        decreases self,
    {
        match self {
            Term::Var { nam } => Term::Var { nam: *nam },
            Term::Lam { nam, bod } => Term::Lam { nam: *nam, bod: Box::new((**bod).clone()) },
            Term::App { fun, arg } => Term::App {
                fun: Box::new((**fun).clone()),
                arg: Box::new((**arg).clone()),
            },
            Term::Ref { def_id } => Term::Ref { def_id: *def_id },
            Term::Era => Term::Era,
        }
    }
}

/// One argument pattern of a clause.
#[derive(Debug, PartialEq, Eq)]
pub enum Pat {
    /// A variable pattern, matching anything.
    Var(VarName),
    /// A constructor pattern: the constructor's interned name and its
    /// sub-patterns, which this pass requires to be variable patterns.
    Ctr(u64, Vec<Pat>),
}

/// Whether every sub-pattern of a constructor pattern is a plain variable.
pub open spec fn pat_flat(p: Pat) -> bool {
    match p {
        Pat::Var(_) => true,
        Pat::Ctr(_, subs) => forall|s: int| 0 <= s < subs@.len() ==> subs@[s] is Var,
    }
}

/// One entry of the match path: the decision already taken for one argument
/// position on the current decision-tree path.
#[derive(Debug, Clone, Copy, PartialEq, Eq)]
pub enum PathEntry {
    /// The position was not discriminated here.
    Skip,
    /// The position was branched on and this constructor chosen; `arity` is
    /// the constructor's field count from the registry.
    Branch { ctr: u64, arity: usize },
}

/// One clause of a definition.
#[derive(Debug, PartialEq, Eq)]
pub struct Rule {
    pub pats: Vec<Pat>,
    pub body: Term,
}

/// How many positional parameters a path entry contributes to a synthesized
/// definition: a skipped position binds the whole argument, a branched
/// position binds one parameter per constructor field.
pub open spec fn entry_arity(e: PathEntry) -> nat {
    match e {
        PathEntry::Skip => 1,
        PathEntry::Branch { ctr: _, arity } => arity as nat,
    }
}

/// The number of positional parameters contributed by the first `j` entries
/// of the match path.
pub open spec fn path_vars(path: Seq<PathEntry>, j: int) -> nat
    decreases j,
{
    if j <= 0 {
        0
    } else {
        path_vars(path, j - 1) + entry_arity(path[j - 1])
    }
}

/// `path_vars` grows with the prefix length.
pub proof fn lemma_path_vars_mono(path: Seq<PathEntry>, i: int, j: int)
    requires
        i <= j,
    ensures
        path_vars(path, i) <= path_vars(path, j),
    decreases j - i,
{
    if i < j {
        lemma_path_vars_mono(path, i, j - 1);
    }
}

/// `path_vars` reads only the first `j` entries.
pub proof fn lemma_path_vars_push(path: Seq<PathEntry>, e: PathEntry, j: int)
    requires
        0 <= j <= path.len(),
    ensures
        path_vars(path.push(e), j) == path_vars(path, j),
    decreases j,
{
    if j > 0 {
        lemma_path_vars_push(path, e, j - 1);
    }
}

/// A lambda binding one named variable.
pub open spec fn mk_lam(v: VarName, t: Term) -> Term {
    Term::Lam { nam: Some(v), bod: Box::new(t) }
}

/// An application of `f` to `a`.
pub open spec fn mk_app(f: Term, a: Term) -> Term {
    Term::App { fun: Box::new(f), arg: Box::new(a) }
}

/// `t` applied, left to right, to the positional variables `i .. m`.
pub open spec fn apply_pos_range(t: Term, i: int, m: int) -> Term
    decreases m - i,
{
    if i >= m {
        t
    } else {
        mk_app(apply_pos_range(t, i, m - 1), Term::Var { nam: VarName::Pos((m - 1) as usize) })
    }
}

/// `t` wrapped in one lambda per listed positional variable, the first
/// listed bound outermost.
pub open spec fn bind_from(t: Term, s: Seq<usize>, i: int) -> Term
    decreases s.len() - i,
{
    if i >= s.len() {
        t
    } else {
        mk_lam(VarName::Pos(s[i]), bind_from(t, s, i + 1))
    }
}

/// The positional variables of match-path entry `j`, in order.
pub open spec fn block_vars(path: Seq<PathEntry>, j: int) -> Seq<usize> {
    Seq::new(entry_arity(path[j]), |a: int| (path_vars(path, j) + a) as usize)
}

/// The positional variables of the first `j` entries, in entry order,
/// leaving out entry `skip_j`.
pub open spec fn blocks_upto(path: Seq<PathEntry>, skip_j: int, j: int) -> Seq<usize>
    decreases j,
{
    if j <= 0 {
        Seq::empty()
    } else {
        let rest = blocks_upto(path, skip_j, j - 1);
        if j - 1 == skip_j {
            rest
        } else {
            rest + block_vars(path, j - 1)
        }
    }
}

/// The index of the last branched entry of the path, or `-1` when every
/// entry is a skip.
pub open spec fn last_branch(path: Seq<PathEntry>) -> int
    decreases path.len(),
{
    if path.len() == 0 {
        -1
    } else if path[path.len() - 1] is Branch {
        path.len() - 1
    } else {
        last_branch(path.drop_last())
    }
}

/// `last_branch` finds the greatest branched index.
pub proof fn lemma_last_branch_at(path: Seq<PathEntry>, l: int)
    requires
        0 <= l < path.len(),
        path[l] is Branch,
        forall|j: int| l < j < path.len() ==> !((#[trigger] path[j]) is Branch),
    ensures
        last_branch(path) == l,
    decreases path.len(),
{
    if l < path.len() - 1 {
        assert(!(path[path.len() - 1] is Branch));
        assert forall|j: int|
            l < j < path.drop_last().len() implies !(
        (#[trigger] path.drop_last()[j]) is Branch) by {
            assert(path.drop_last()[j] == path[j]);
        }
        lemma_last_branch_at(path.drop_last(), l);
    }
}

/// A path without branched entries has no last branched index.
pub proof fn lemma_last_branch_none(path: Seq<PathEntry>)
    requires
        forall|j: int| 0 <= j < path.len() ==> !((#[trigger] path[j]) is Branch),
    ensures
        last_branch(path) == -1,
    decreases path.len(),
{
    if path.len() > 0 {
        assert(!(path[path.len() - 1] is Branch));
        assert forall|j: int|
            0 <= j < path.drop_last().len() implies !(
        (#[trigger] path.drop_last()[j]) is Branch) by {
            assert(path.drop_last()[j] == path[j]);
        }
        lemma_last_branch_none(path.drop_last());
    }
}

/// The order in which a synthesized definition binds its positional
/// parameters: the fields of the last branched entry first — they are the
/// first arguments its caller hands it — then every other entry's variables
/// in entry order.
pub open spec fn proto_vars(path: Seq<PathEntry>) -> Seq<usize> {
    let lb = last_branch(path);
    if lb < 0 {
        blocks_upto(path, -1, path.len() as int)
    } else {
        block_vars(path, lb) + blocks_upto(path, lb, path.len() as int)
    }
}

/// `t` wrapped in one lambda per variable pattern of `subs`, the first
/// sub-pattern bound outermost.  Constructor sub-patterns do not occur in
/// well-formed input and are mapped to an erased term.
pub open spec fn wrap_sub_lams(subs: Seq<Pat>, t: Term) -> Term
    decreases subs.len(),
{
    if subs.len() == 0 {
        t
    } else {
        match subs[0] {
            Pat::Var(v) => mk_lam(v, wrap_sub_lams(subs.drop_first(), t)),
            Pat::Ctr(_, _) => Term::Era,
        }
    }
}

/// `t` wrapped in one lambda per variable bound by `pats`, in left-to-right
/// pattern order, each constructor pattern's sub-variables flattened into the
/// sequence at that point.
pub open spec fn wrap_pat_lams(pats: Seq<Pat>, t: Term) -> Term
    decreases pats.len(),
{
    if pats.len() == 0 {
        t
    } else {
        let rest = wrap_pat_lams(pats.drop_first(), t);
        match pats[0] {
            Pat::Var(v) => mk_lam(v, rest),
            Pat::Ctr(_, subs) => wrap_sub_lams(subs@, rest),
        }
    }
}

} // verus!
