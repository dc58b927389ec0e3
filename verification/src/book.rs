//! The program registry ("book"): the definitions, keyed by position, and
//! the algebraic-data-type registry.  Definitions are only ever inserted,
//! never deleted; inserting under an existing name overwrites that
//! definition's clauses in place.

use vstd::prelude::*;

use crate::names::Name;
use crate::term::Rule;

verus! {

/// One constructor of an algebraic type: its interned name and field count.
#[derive(Debug, Clone, Copy, PartialEq, Eq)]
pub struct Ctr {
    pub name: u64,
    pub arity: usize,
}

/// One algebraic type: its constructors, in declaration order.  That order
/// fixes the order in which branch handlers are threaded into a
/// Scott-encoded value.
#[derive(Debug, PartialEq, Eq)]
pub struct Adt {
    pub ctrs: Vec<Ctr>,
}

/// The type recorded for one argument position of a definition: either the
/// algebraic type it discriminates on, by index into the registry, or
/// opaque.
#[derive(Debug, Clone, Copy, PartialEq, Eq)]
pub enum Type {
    Opaque,
    Adt(usize),
}

/// One definition: its name and its ordered clauses.
#[derive(Debug, PartialEq, Eq)]
pub struct Def {
    pub name: Name,
    pub rules: Vec<Rule>,
}

/// The program registry.  A definition identifier is an index into `defs`.
#[derive(Debug, PartialEq, Eq)]
pub struct Book {
    pub defs: Vec<Def>,
    pub adts: Vec<Adt>,
}

/// The position of the first definition named `name`, if any.
pub open spec fn find_name(defs: Seq<Def>, name: Name) -> Option<int>
    decreases defs.len(),
{
    if defs.len() == 0 {
        None
    } else if defs[0].name == name {
        Some(0)
    } else {
        match find_name(defs.drop_first(), name) {
            Some(i) => Some(i + 1),
            None => None,
        }
    }
}

/// What `find_name` returns: the first position bearing the name, or nothing
/// when no position does.
pub proof fn lemma_find_name_props(defs: Seq<Def>, name: Name)
    ensures
        match find_name(defs, name) {
            Some(i) => 0 <= i < defs.len() && defs[i].name == name && forall|j: int|
                0 <= j < i ==> defs[j].name != name,
            None => forall|j: int| 0 <= j < defs.len() ==> defs[j].name != name,
        },
    decreases defs.len(),
{
    if defs.len() > 0 && defs[0].name != name {
        lemma_find_name_props(defs.drop_first(), name);
        assert forall|j: int| 1 <= j < defs.len() implies defs.drop_first()[j - 1] == defs[j] by {}
    }
}

/// A position bearing the name makes the search succeed.
pub proof fn lemma_find_name_some(defs: Seq<Def>, name: Name, i: int)
    requires
        0 <= i < defs.len(),
        defs[i].name == name,
    ensures
        find_name(defs, name) is Some,
    decreases defs.len(),
{
    if defs[0].name != name {
        lemma_find_name_some(defs.drop_first(), name, i - 1);
    }
}

/// The search is unmoved by changes that keep every existing position's name
/// and only add positions at the end.
pub proof fn lemma_find_name_stable(old_defs: Seq<Def>, new_defs: Seq<Def>, name: Name)
    requires
        old_defs.len() <= new_defs.len(),
        forall|d: int| 0 <= d < old_defs.len() ==> new_defs[d].name == old_defs[d].name,
        find_name(old_defs, name) is Some,
    ensures
        find_name(new_defs, name) == find_name(old_defs, name),
    decreases old_defs.len(),
{
    if old_defs[0].name != name {
        lemma_find_name_stable(old_defs.drop_first(), new_defs.drop_first(), name);
    }
}

/// The position of the first constructor named `name`, if any.
pub open spec fn find_ctr(ctrs: Seq<Ctr>, name: u64) -> Option<int>
    decreases ctrs.len(),
{
    if ctrs.len() == 0 {
        None
    } else if ctrs[0].name == name {
        Some(0)
    } else {
        match find_ctr(ctrs.drop_first(), name) {
            Some(i) => Some(i + 1),
            None => None,
        }
    }
}

/// What `find_ctr` returns.
pub proof fn lemma_find_ctr_props(ctrs: Seq<Ctr>, name: u64)
    ensures
        match find_ctr(ctrs, name) {
            Some(i) => 0 <= i < ctrs.len() && ctrs[i].name == name && forall|j: int|
                0 <= j < i ==> ctrs[j].name != name,
            None => forall|j: int| 0 <= j < ctrs.len() ==> ctrs[j].name != name,
        },
    decreases ctrs.len(),
{
    if ctrs.len() > 0 && ctrs[0].name != name {
        lemma_find_ctr_props(ctrs.drop_first(), name);
        assert forall|j: int| 1 <= j < ctrs.len() implies ctrs.drop_first()[j - 1] == ctrs[j] by {}
    }
}

/// With pairwise-distinct constructor names, the search finds exactly the
/// position that bears the name.
pub proof fn lemma_find_ctr_at(ctrs: Seq<Ctr>, i: int)
    requires
        0 <= i < ctrs.len(),
        forall|x: int, y: int| 0 <= x < y < ctrs.len() ==> ctrs[x].name != ctrs[y].name,
    ensures
        find_ctr(ctrs, ctrs[i].name) == Some(i),
    decreases ctrs.len(),
{
    if i > 0 {
        lemma_find_ctr_at(ctrs.drop_first(), i - 1);
    }
}

/// No two definitions of the book bear one name.
pub open spec fn names_distinct(defs: Seq<Def>) -> bool {
    forall|i: int, j: int| 0 <= i < j < defs.len() ==> defs[i].name != defs[j].name
}

/// An algebraic type has at least one constructor and no two of its
/// constructors share a name.
pub open spec fn adt_wf(a: Adt) -> bool {
    &&& a.ctrs@.len() >= 1
    &&& forall|x: int, y: int| 0 <= x < y < a.ctrs@.len() ==> a.ctrs@[x].name != a.ctrs@[y].name
}

/// Every constructor of the registry has a definition in the book under its
/// own surface name, to be referenced when a value is reconstructed.
pub open spec fn ctr_defs_present(book: Book) -> bool {
    forall|t: int, c: int|
        0 <= t < book.adts@.len() && 0 <= c < book.adts@[t].ctrs@.len() ==> find_name(
            book.defs@,
            Name::Source(book.adts@[t].ctrs@[c].name),
        ) is Some
}

/// Well-formedness of the book: distinct definition names, well-formed
/// algebraic types, and a definition behind every constructor.
pub open spec fn book_wf(book: Book) -> bool {
    &&& names_distinct(book.defs@)
    &&& forall|t: int| 0 <= t < book.adts@.len() ==> adt_wf(book.adts@[t])
    &&& ctr_defs_present(book)
}

impl Book {
    /// The identifier of the first definition named `name`, if any.
    pub fn find_def(&self, name: &Name) -> (r: Option<usize>)
        ensures
            match r {
                Some(i) => find_name(self.defs@, *name) == Some(i as int),
                None => find_name(self.defs@, *name) is None,
            },
    {
        let n = self.defs.len();
        let mut i: usize = 0;
        while i < n
            invariant
                n == self.defs@.len(),
                i <= n,
                forall|j: int| 0 <= j < i ==> self.defs@[j].name != *name,
            decreases n - i,
        {
            if crate::names::name_eq(&self.defs[i].name, name) {
                proof {
                    lemma_find_name_props(self.defs@, *name);
                    lemma_find_name_some(self.defs@, *name, i as int);
                }
                return Some(i);
            }
            i += 1;
        }
        proof {
            lemma_find_name_props(self.defs@, *name);
        }
        None
    }

    /// Registers `rules` as the clauses of the definition named `name`:
    /// overwrites the clauses of the existing definition of that name, or
    /// appends a new definition.
    pub fn insert_def(&mut self, name: Name, rules: Vec<Rule>)
        ensures
            match find_name(old(self).defs@, name) {
                Some(i) => final(self).defs@ == old(self).defs@.update(i, Def { name, rules }),
                None => final(self).defs@ == old(self).defs@.push(Def { name, rules }),
            },
            final(self).adts == old(self).adts,
            names_distinct(old(self).defs@) ==> names_distinct(final(self).defs@),
    {
        proof {
            lemma_find_name_props(self.defs@, name);
        }
        let found = self.find_def(&name);
        match found {
            Some(i) => {
                self.defs[i] = Def { name, rules };
            }
            None => {
                self.defs.push(Def { name, rules });
            }
        }
    }
}

} // verus!
