//! Definition names.
//!
//! Synthesized definitions are named deterministically from the recursion's
//! structural position: the original definition's name, a clause index for an
//! extracted rule body, and a constructor suffix for each branch taken.  The
//! name type mirrors that scheme directly, so freshness of generated names is
//! a structural fact rather than a property of string mangling.

use vstd::prelude::*;

verus! {

/// The name of a definition in the program registry.
#[derive(Debug, PartialEq, Eq)]
pub enum Name {
    /// An identifier of the surface program, interned to an integer.
    Source(u64),
    /// The definition holding the extracted body of clause `1` of the
    /// definition named by field `0`.
    Rule(Box<Name>, usize),
    /// The sub-dispatcher of the dispatcher named by field `0` for the
    /// constructor interned as field `1`.
    Branch(Box<Name>, u64),
}

/// How many derivation steps separate `n` from a surface name.
pub open spec fn name_depth(n: Name) -> nat
    decreases n,
{
    match n {
        Name::Source(_) => 0,
        Name::Rule(base, _) => name_depth(*base) + 1,
        Name::Branch(base, _) => name_depth(*base) + 1,
    }
}

/// Whether `n` is derived from `base` by zero or more derivation steps.
pub open spec fn name_extends(n: Name, base: Name) -> bool
    decreases n,
{
    n == base || match n {
        Name::Source(_) => false,
        Name::Rule(b, _) => name_extends(*b, base),
        Name::Branch(b, _) => name_extends(*b, base),
    }
}

/// A derived name is at least as deep as its base, and strictly deeper when
/// the two differ.
pub proof fn lemma_extends_depth(n: Name, base: Name)
    requires
        name_extends(n, base),
    ensures
        name_depth(n) >= name_depth(base),
        n != base ==> name_depth(n) > name_depth(base),
    decreases n,
{
    if n != base {
        match n {
            Name::Source(_) => {}
            Name::Rule(b, _) => lemma_extends_depth(*b, base),
            Name::Branch(b, _) => lemma_extends_depth(*b, base),
        }
    }
}

/// Derivation is transitive.
pub proof fn lemma_extends_trans(a: Name, b: Name, c: Name)
    requires
        name_extends(a, b),
        name_extends(b, c),
    ensures
        name_extends(a, c),
    decreases a,
{
    if a != b {
        match a {
            Name::Source(_) => {}
            Name::Rule(x, _) => lemma_extends_trans(*x, b, c),
            Name::Branch(x, _) => lemma_extends_trans(*x, b, c),
        }
    }
}

/// Two bases of one name lie on one derivation chain.
pub proof fn lemma_extends_chain(x: Name, a: Name, b: Name)
    requires
        name_extends(x, a),
        name_extends(x, b),
    ensures
        name_extends(a, b) || name_extends(b, a),
    decreases x,
{
    if x != a && x != b {
        match x {
            Name::Source(_) => {}
            Name::Rule(m, _) => lemma_extends_chain(*m, a, b),
            Name::Branch(m, _) => lemma_extends_chain(*m, a, b),
        }
    }
}

/// Whether `n` is derived from `base` by constructor-branch steps alone:
/// the names a decision-tree synthesis rooted at `base` gives its
/// dispatchers.
pub open spec fn branch_extends(n: Name, base: Name) -> bool
    decreases n,
{
    n == base || match n {
        Name::Source(_) => false,
        Name::Rule(_, _) => false,
        Name::Branch(b, _) => branch_extends(*b, base),
    }
}

/// Branch derivation is a special case of derivation.
pub proof fn lemma_branch_to_extends(n: Name, base: Name)
    requires
        branch_extends(n, base),
    ensures
        name_extends(n, base),
    decreases n,
{
    if n != base {
        match n {
            Name::Branch(b, _) => lemma_branch_to_extends(*b, base),
            _ => {}
        }
    }
}

/// Branch derivation is transitive.
pub proof fn lemma_branch_extends_trans(a: Name, b: Name, c: Name)
    requires
        branch_extends(a, b),
        branch_extends(b, c),
    ensures
        branch_extends(a, c),
    decreases a,
{
    if a != b {
        match a {
            Name::Branch(x, _) => lemma_branch_extends_trans(*x, b, c),
            _ => {}
        }
    }
}

impl Clone for Name {
    fn clone(&self) -> (r: Name)
        ensures
            r == *self,
        decreases self,
    {
        match self {
            Name::Source(id) => Name::Source(*id),
            Name::Rule(b, i) => Name::Rule(Box::new((**b).clone()), *i),
            Name::Branch(b, c) => Name::Branch(Box::new((**b).clone()), *c),
        }
    }
}

/// Structural equality of two names.
pub fn name_eq(a: &Name, b: &Name) -> (r: bool)
    ensures
        r == (a == b),
    decreases a,
{
    match (a, b) {
        (Name::Source(x), Name::Source(y)) => *x == *y,
        (Name::Rule(ba, ia), Name::Rule(bb, ib)) => *ia == *ib && name_eq(ba, bb),
        (Name::Branch(ba, ca), Name::Branch(bb, cb)) => *ca == *cb && name_eq(ba, bb),
        _ => false,
    }
}

/// The name of the definition that stage one creates for clause `rule_idx`
/// of the definition named `def_name`.
pub fn make_rule_name(def_name: &Name, rule_idx: usize) -> (r: Name)
    ensures
        r == Name::Rule(Box::new(*def_name), rule_idx),
{
    Name::Rule(Box::new(def_name.clone()), rule_idx)
}

} // verus!
