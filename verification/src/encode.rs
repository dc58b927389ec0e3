//! The pass: rule-body extraction and decision-tree synthesis.
//!
//! Stage one lifts every clause body into a pattern-free definition of its
//! own.  Stage two synthesizes, per definition, a tree of pattern-free
//! dispatcher definitions that branch argument by argument over the
//! constructors of the discriminated positions, terminating each path in a
//! call of the first still-applicable clause's extracted body.

use vstd::prelude::*;

use crate::book::{
    adt_wf, book_wf, find_ctr, find_name, lemma_find_ctr_at, lemma_find_ctr_props,
    lemma_find_name_props, lemma_find_name_some, lemma_find_name_stable, names_distinct, Adt, Book,
    Ctr, Def, Type,
};
use crate::names::{
    branch_extends, lemma_branch_extends_trans, lemma_branch_to_extends, lemma_extends_chain,
    lemma_extends_depth, lemma_extends_trans, make_rule_name, name_depth, name_extends, Name,
};
use crate::term::{
    apply_pos_range, bind_from, block_vars, blocks_upto, entry_arity, lemma_last_branch_at,
    lemma_last_branch_none, lemma_path_vars_mono, lemma_path_vars_push, mk_app, pat_flat,
    path_vars, proto_vars, wrap_pat_lams, wrap_sub_lams, Pat, PathEntry, Rule, Term, VarName,
};

verus! {

// ---------------------------------------------------------------------------
// Well-formedness of a definition against the type table and the registry.
// ---------------------------------------------------------------------------

/// The patterns of one clause of a definition whose argument positions have
/// the types `types`: one pattern per position, and every constructor
/// pattern names a constructor of the position's algebraic type, carries
/// that constructor's registry arity, and binds only plain variables.
pub open spec fn pat_wf_at(p: Pat, ty: Type, adts: Seq<Adt>) -> bool {
    match p {
        Pat::Var(_) => true,
        Pat::Ctr(c, subs) => match ty {
            Type::Opaque => false,
            Type::Adt(t) => {
                &&& t < adts.len()
                &&& match find_ctr(adts[t as int].ctrs@, c) {
                    Some(ci) => subs@.len() == adts[t as int].ctrs@[ci].arity,
                    None => false,
                }
                &&& forall|s: int| 0 <= s < subs@.len() ==> subs@[s] is Var
            }
        },
    }
}

/// Every algebraic-type index of the type table points into the registry.
pub open spec fn types_wf(types: Seq<Type>, adts: Seq<Adt>) -> bool {
    forall|k: int|
        0 <= k < types.len() ==> (#[trigger] types[k] matches Type::Adt(t) ==> t < adts.len())
}

/// Well-formedness of one clause's pattern list.
pub open spec fn pats_wf(pats: Seq<Pat>, types: Seq<Type>, adts: Seq<Adt>) -> bool {
    &&& pats.len() == types.len()
    &&& forall|k: int| 0 <= k < pats.len() ==> pat_wf_at(#[trigger] pats[k], types[k], adts)
}

/// A choice assigns to each argument position a constructor of its algebraic
/// type, by index into the registry entry; positions of opaque type are
/// unconstrained.
pub open spec fn valid_choice(choice: Seq<int>, types: Seq<Type>, adts: Seq<Adt>) -> bool {
    &&& choice.len() == types.len()
    &&& forall|k: int|
        0 <= k < types.len() ==> (#[trigger] types[k] matches Type::Adt(t) ==> 0 <= choice[k]
            < adts[t as int].ctrs@.len())
}

/// Whether a clause's patterns match every value shaped by `choice`.
pub open spec fn rule_selects(pats: Seq<Pat>, choice: Seq<int>, types: Seq<Type>, adts: Seq<Adt>) -> bool {
    forall|k: int|
        0 <= k < pats.len() ==> (#[trigger] pats[k] matches Pat::Ctr(c, _) ==> (
        types[k] matches Type::Adt(t) && adts[t as int].ctrs@[choice[k]].name == c))
}

/// Exhaustiveness: every choice of constructors is matched by some clause.
pub open spec fn exhaustive(rules: Seq<Rule>, types: Seq<Type>, adts: Seq<Adt>) -> bool {
    forall|choice: Seq<int>|
        #[trigger] valid_choice(choice, types, adts) ==> exists|r: int|
            0 <= r < rules.len() && rule_selects(rules[r].pats@, choice, types, adts)
}

/// The largest constructor arity of a registry entry, at least one.
pub open spec fn max_arity1(ctrs: Seq<Ctr>) -> nat
    decreases ctrs.len(),
{
    if ctrs.len() == 0 {
        1
    } else {
        let rest = max_arity1(ctrs.drop_first());
        if ctrs[0].arity >= rest {
            ctrs[0].arity as nat
        } else {
            rest
        }
    }
}

/// Every arity of the entry is bounded by `max_arity1`, which is positive.
pub proof fn lemma_max_arity1(ctrs: Seq<Ctr>)
    ensures
        max_arity1(ctrs) >= 1,
        forall|c: int| 0 <= c < ctrs.len() ==> (#[trigger] ctrs[c].arity) <= max_arity1(ctrs),
    decreases ctrs.len(),
{
    if ctrs.len() > 0 {
        lemma_max_arity1(ctrs.drop_first());
        assert forall|c: int| 0 <= c < ctrs.len() implies (#[trigger] ctrs[c].arity) <= max_arity1(
            ctrs,
        ) by {
            if c > 0 {
                assert(ctrs.drop_first()[c - 1] == ctrs[c]);
            }
        }
    }
}

/// An upper bound on the parameters one match-path entry at this position
/// can contribute.
pub open spec fn pos_weight(ty: Type, adts: Seq<Adt>) -> nat {
    match ty {
        Type::Opaque => 1,
        Type::Adt(t) => max_arity1(adts[t as int].ctrs@),
    }
}

/// An upper bound on the parameters of a dispatcher whose match path covers
/// the first `j` positions.
pub open spec fn sum_weights(types: Seq<Type>, adts: Seq<Adt>, j: int) -> nat
    decreases j,
{
    if j <= 0 {
        0
    } else {
        sum_weights(types, adts, j - 1) + pos_weight(types[j - 1], adts)
    }
}

/// Well-formedness of a definition's clause set against its type table: at
/// least one clause, one well-formed pattern per position in each clause,
/// exhaustive coverage, and a bounded total parameter count.
pub open spec fn def_rules_wf(rules: Seq<Rule>, types: Seq<Type>, adts: Seq<Adt>) -> bool {
    &&& rules.len() >= 1
    &&& types_wf(types, adts)
    &&& forall|r: int| 0 <= r < rules.len() ==> pats_wf(#[trigger] rules[r].pats@, types, adts)
    &&& exhaustive(rules, types, adts)
    &&& sum_weights(types, adts, types.len() as int) <= usize::MAX
}

// ---------------------------------------------------------------------------
// The match path and the candidate clause set.
// ---------------------------------------------------------------------------

/// A match-path entry fits its position: a branched entry names a
/// constructor of the position's algebraic type and carries its arity.
pub open spec fn entry_wf_at(e: PathEntry, ty: Type, adts: Seq<Adt>) -> bool {
    match e {
        PathEntry::Skip => true,
        PathEntry::Branch { ctr, arity } => match ty {
            Type::Opaque => false,
            Type::Adt(t) => {
                &&& t < adts.len()
                &&& match find_ctr(adts[t as int].ctrs@, ctr) {
                    Some(ci) => adts[t as int].ctrs@[ci].arity == arity,
                    None => false,
                }
            }
        },
    }
}

/// Well-formedness of the match path.
pub open spec fn path_wf(path: Seq<PathEntry>, types: Seq<Type>, adts: Seq<Adt>) -> bool {
    &&& path.len() <= types.len()
    &&& forall|j: int| 0 <= j < path.len() ==> entry_wf_at(#[trigger] path[j], types[j], adts)
}

/// A clause is compatible with one decision already taken: at a skipped
/// position it binds a variable; at a branched position it binds a variable
/// or matches exactly the chosen constructor, with the branched arity.
pub open spec fn pair_compat(e: PathEntry, p: Pat) -> bool {
    match e {
        PathEntry::Skip => p is Var,
        PathEntry::Branch { ctr, arity } => match p {
            Pat::Var(_) => true,
            Pat::Ctr(c, subs) => c == ctr && subs@.len() == arity,
        },
    }
}

/// A clause is compatible with every decision of the match path.
pub open spec fn rule_compat(pats: Seq<Pat>, path: Seq<PathEntry>) -> bool {
    forall|j: int| 0 <= j < path.len() ==> pair_compat(#[trigger] path[j], pats[j])
}

/// A clause survives every branch of the match path: wherever the path
/// chose a constructor, the clause binds a variable there or matches
/// exactly that constructor.
pub open spec fn passes_path(pats: Seq<Pat>, path: Seq<PathEntry>) -> bool {
    forall|j: int|
        0 <= j < path.len() ==> ((#[trigger] path[j]) matches PathEntry::Branch { ctr, .. } ==> (
        pats[j] is Var || (pats[j] matches Pat::Ctr(c, _) && c == ctr)))
}

/// Every clause that survives the match path is still a candidate: first-match
/// semantics rest on the candidate set losing only clauses that a branch
/// ruled out.
pub open spec fn candidates_complete(crnt: Seq<usize>, rules: Seq<Rule>, path: Seq<PathEntry>) -> bool {
    forall|i: int|
        0 <= i < rules.len() && passes_path(#[trigger] rules[i].pats@, path) ==> crnt.contains(
            i as usize,
        )
}

/// The candidate clause set: nonempty, in declaration order, within bounds,
/// and compatible with the match path.
pub open spec fn candidates_wf(crnt: Seq<usize>, rules: Seq<Rule>, path: Seq<PathEntry>) -> bool {
    &&& crnt.len() >= 1
    &&& forall|x: int| 0 <= x < crnt.len() ==> (#[trigger] crnt[x]) < rules.len()
    &&& forall|x: int, y: int| 0 <= x < y < crnt.len() ==> crnt[x] < crnt[y]
    &&& forall|x: int|
        0 <= x < crnt.len() ==> rule_compat(rules[#[trigger] crnt[x] as int].pats@, path)
}

/// A choice agrees with the decisions of the match path.
pub open spec fn choice_consistent(
    choice: Seq<int>,
    path: Seq<PathEntry>,
    types: Seq<Type>,
    adts: Seq<Adt>,
) -> bool {
    forall|j: int|
        0 <= j < path.len() ==> (#[trigger] path[j] matches PathEntry::Branch { ctr, .. } ==> (
        types[j] matches Type::Adt(t) && adts[t as int].ctrs@[choice[j]].name == ctr))
}

/// The candidate set still covers every value reachable along the match
/// path: any valid choice consistent with the path is matched by some
/// candidate.
pub open spec fn covers(
    crnt: Seq<usize>,
    rules: Seq<Rule>,
    path: Seq<PathEntry>,
    types: Seq<Type>,
    adts: Seq<Adt>,
) -> bool {
    forall|choice: Seq<int>|
        valid_choice(choice, types, adts) && #[trigger] choice_consistent(choice, path, types, adts)
            ==> exists|x: int|
            0 <= x < crnt.len() && rule_selects(rules[crnt[x] as int].pats@, choice, types, adts)
}

/// The clause is a variable pattern from position `k` on, so it matches
/// whatever remains and wins immediately.
pub open spec fn is_irrefutable_from(pats: Seq<Pat>, k: int) -> bool {
    forall|j: int| k <= j < pats.len() ==> pats[j] is Var
}

// ---------------------------------------------------------------------------
// The shapes of the synthesized bodies.
// ---------------------------------------------------------------------------

/// The identifier under which the book holds the definition named `name`;
/// meaningful only when that definition exists.
pub open spec fn id_of(defs: Seq<Def>, name: Name) -> usize {
    match find_name(defs, name) {
        Some(i) => i as usize,
        None => 0,
    }
}

/// The argument applications of a leaf body, over the first `j` match-path
/// entries: a skipped position passes its parameter through; a branched
/// position either passes the constructor's field parameters through, when
/// the winning clause matched the constructor itself, or reconstructs a
/// fresh application of the constructor's reference to the field parameters,
/// when the winning clause bound only a variable there.
pub open spec fn leaf_apps(
    defs: Seq<Def>,
    rid: usize,
    path: Seq<PathEntry>,
    pats: Seq<Pat>,
    j: int,
) -> Term
    decreases j,
{
    if j <= 0 {
        Term::Ref { def_id: rid }
    } else {
        let t = leaf_apps(defs, rid, path, pats, j - 1);
        let c = path_vars(path, j - 1) as int;
        match path[j - 1] {
            PathEntry::Skip => mk_app(t, Term::Var { nam: VarName::Pos(c as usize) }),
            PathEntry::Branch { ctr, arity } => match pats[j - 1] {
                Pat::Ctr(_, _) => apply_pos_range(t, c, c + arity),
                Pat::Var(_) => mk_app(
                    t,
                    apply_pos_range(Term::Ref { def_id: id_of(defs, Name::Source(ctr)) }, c, c + arity),
                ),
            },
        }
    }
}

/// The body of a leaf definition: the applications of the winning clause's
/// extracted body reference, wrapped in one lambda per match-path parameter.
pub open spec fn leaf_body(
    defs: Seq<Def>,
    rid: usize,
    path: Seq<PathEntry>,
    pats: Seq<Pat>,
) -> Term {
    bind_from(leaf_apps(defs, rid, path, pats, path.len() as int), proto_vars(path), 0)
}

/// The scrutinee applied to the sub-dispatcher of each of the first `j`
/// constructors, in registry order.
pub open spec fn handler_apps(defs: Seq<Def>, base: Name, ctrs: Seq<Ctr>, j: int) -> Term
    decreases j,
{
    if j <= 0 {
        Term::Var { nam: VarName::Scrut }
    } else {
        mk_app(
            handler_apps(defs, base, ctrs, j - 1),
            Term::Ref { def_id: id_of(defs, Name::Branch(Box::new(base), ctrs[j - 1].name)) },
        )
    }
}

/// The body of a branch dispatcher: one lambda for the scrutinee and one per
/// already-matched parameter, around the scrutinee applied first to every
/// constructor's sub-dispatcher in registry order and then to the carried
/// parameters.
pub open spec fn branch_body(defs: Seq<Def>, base: Name, ctrs: Seq<Ctr>, path: Seq<PathEntry>, m: int) -> Term {
    bind_from(
        Term::Lam {
            nam: Some(VarName::Scrut),
            bod: Box::new(
                apply_pos_range(handler_apps(defs, base, ctrs, ctrs.len() as int), 0, m),
            ),
        },
        proto_vars(path),
        0,
    )
}

// ---------------------------------------------------------------------------
// How one insertion, and one whole sub-synthesis, changes the book.
// ---------------------------------------------------------------------------

/// A definition with exactly one clause and no patterns.
pub open spec fn one_rule_no_pats(d: Def) -> bool {
    d.rules@.len() == 1 && d.rules@[0].pats@.len() == 0
}

/// `d` is the single-clause, pattern-free definition `name = body`.
pub open spec fn single_rule_def(name: Name, body: Term, d: Def) -> bool {
    &&& d.name == name
    &&& d.rules@.len() == 1
    &&& d.rules@[0].pats@.len() == 0
    &&& d.rules@[0].body == body
}

/// The book `b1` is `b0` with `name = body` registered: overwritten in place
/// when the name existed, appended otherwise.
pub open spec fn inserted(b0: Book, b1: Book, name: Name, body: Term) -> bool {
    &&& b1.adts == b0.adts
    &&& match find_name(b0.defs@, name) {
        Some(i) => {
            &&& b1.defs@.len() == b0.defs@.len()
            &&& forall|d: int| 0 <= d < b0.defs@.len() && d != i ==> b1.defs@[d] == b0.defs@[d]
            &&& single_rule_def(name, body, b1.defs@[i])
        },
        None => {
            &&& b1.defs@.len() == b0.defs@.len() + 1
            &&& forall|d: int| 0 <= d < b0.defs@.len() ==> b1.defs@[d] == b0.defs@[d]
            &&& single_rule_def(name, body, b1.defs@[b0.defs@.len() as int])
        },
    }
}

/// What a sub-synthesis rooted at `base` may do to the book: keep the
/// registry, keep every definition's name, and insert only single-clause,
/// pattern-free dispatchers under branch-derived names of `base`.
pub open spec fn pass_frame(b0: Book, b1: Book, base: Name) -> bool {
    &&& b1.adts == b0.adts
    &&& b1.defs@.len() >= b0.defs@.len()
    &&& forall|d: int| 0 <= d < b0.defs@.len() ==> b1.defs@[d].name == b0.defs@[d].name
    &&& forall|d: int|
        0 <= d < b0.defs@.len() && !branch_extends(b0.defs@[d].name, base) ==> b1.defs@[d]
            == b0.defs@[d]
    &&& forall|d: int|
        0 <= d < b0.defs@.len() && b1.defs@[d] != b0.defs@[d] ==> branch_extends(
            b1.defs@[d].name,
            base,
        ) && one_rule_no_pats(b1.defs@[d])
    &&& forall|d: int|
        b0.defs@.len() <= d < b1.defs@.len() ==> branch_extends(
            #[trigger] b1.defs@[d].name,
            base,
        ) && one_rule_no_pats(b1.defs@[d])
}

/// The book named `name` holds a single-clause, pattern-free definition.
pub open spec fn dispatcher_at(b: Book, name: Name) -> bool {
    match find_name(b.defs@, name) {
        Some(i) => one_rule_no_pats(b.defs@[i]),
        None => false,
    }
}

/// The body of the single clause of the definition named `name`.
pub open spec fn body_at(b: Book, name: Name) -> Term {
    match find_name(b.defs@, name) {
        Some(i) => b.defs@[i].rules@[0].body,
        None => Term::Era,
    }
}

/// An insertion is one permitted step of a sub-synthesis rooted at the
/// inserted name, and leaves the inserted definition in place.
pub proof fn lemma_inserted_frame(b0: Book, b1: Book, name: Name, body: Term)
    requires
        inserted(b0, b1, name, body),
    ensures
        pass_frame(b0, b1, name),
        dispatcher_at(b1, name),
        body_at(b1, name) == body,
        find_name(b1.defs@, name) is Some,
{
    lemma_find_name_props(b0.defs@, name);
    match find_name(b0.defs@, name) {
        Some(i) => {
            assert forall|d: int| 0 <= d < b0.defs@.len() implies b1.defs@[d].name
                == b0.defs@[d].name by {}
            lemma_find_name_stable(b0.defs@, b1.defs@, name);
        }
        None => {
            lemma_find_name_some(b1.defs@, name, b0.defs@.len() as int);
            lemma_find_name_props(b1.defs@, name);
        }
    }
}

/// An insertion preserves the book's well-formedness.
pub proof fn lemma_inserted_wf(b0: Book, b1: Book, name: Name, body: Term)
    requires
        book_wf(b0),
        inserted(b0, b1, name, body),
    ensures
        book_wf(b1),
{
    lemma_find_name_props(b0.defs@, name);
    assert forall|t: int, c: int|
        0 <= t < b1.adts@.len() && 0 <= c < b1.adts@[t].ctrs@.len() implies find_name(
        b1.defs@,
        Name::Source(b1.adts@[t].ctrs@[c].name),
    ) is Some by {
        let cn = Name::Source(b1.adts@[t].ctrs@[c].name);
        assert(find_name(b0.defs@, cn) is Some);
        lemma_find_name_stable(b0.defs@, b1.defs@, cn);
    }
}

/// Permitted steps compose: a sub-synthesis rooted at a derived name is a
/// permitted step of the synthesis rooted at the base.
pub proof fn lemma_frame_trans(b0: Book, b1: Book, b2: Book, base: Name, mid: Name)
    requires
        pass_frame(b0, b1, base),
        pass_frame(b1, b2, mid),
        branch_extends(mid, base),
    ensures
        pass_frame(b0, b2, base),
{
    assert forall|d: int|
        0 <= d < b0.defs@.len() && !branch_extends(b0.defs@[d].name, base) implies b2.defs@[d]
        == b0.defs@[d] by {
        if branch_extends(b0.defs@[d].name, mid) {
            lemma_branch_extends_trans(b0.defs@[d].name, mid, base);
        }
        assert(b1.defs@[d] == b0.defs@[d]);
    }
    assert forall|d: int|
        0 <= d < b0.defs@.len() && b2.defs@[d] != b0.defs@[d] implies branch_extends(
        b2.defs@[d].name,
        base,
    ) && one_rule_no_pats(b2.defs@[d]) by {
        if b2.defs@[d] == b1.defs@[d] {
        } else {
            lemma_branch_extends_trans(b2.defs@[d].name, mid, base);
        }
    }
    assert forall|d: int|
        b0.defs@.len() <= d < b2.defs@.len() implies branch_extends(
        #[trigger] b2.defs@[d].name,
        base,
    ) && one_rule_no_pats(b2.defs@[d]) by {
        if d < b1.defs@.len() {
            if b2.defs@[d] != b1.defs@[d] {
                lemma_branch_extends_trans(b2.defs@[d].name, mid, base);
            }
        } else {
            lemma_branch_extends_trans(b2.defs@[d].name, mid, base);
        }
    }
}

// ---------------------------------------------------------------------------
// Helpers.
// ---------------------------------------------------------------------------

/// An element-wise copy of a vector of plain values.
pub fn copy_vec<T: Copy>(v: &Vec<T>) -> (r: Vec<T>)
    ensures
        r@ == v@,
{
    let mut r: Vec<T> = Vec::new();
    let mut i: usize = 0;
    while i < v.len()
        invariant
            i <= v@.len(),
            r@ == v@.subrange(0, i as int),
        decreases v@.len() - i,
    {
        r.push(v[i]);
        proof {
            assert(r@ =~= v@.subrange(0, i + 1 as int));
        }
        i += 1;
    }
    proof {
        assert(v@.subrange(0, v@.len() as int) =~= v@);
    }
    r
}

/// The names of the sub-dispatchers that a branch over `ctrs` creates for
/// the dispatcher named `crnt_name`, in registry order.
pub fn get_next_fn_names(crnt_name: &Name, ctrs: &Vec<Ctr>) -> (r: Vec<Name>)
    ensures
        r@.len() == ctrs@.len(),
        forall|j: int|
            0 <= j < ctrs@.len() ==> r@[j] == Name::Branch(Box::new(*crnt_name), ctrs@[j].name),
{
    let mut r: Vec<Name> = Vec::new();
    let mut i: usize = 0;
    while i < ctrs.len()
        invariant
            i <= ctrs@.len(),
            r@.len() == i,
            forall|j: int|
                0 <= j < i ==> r@[j] == Name::Branch(Box::new(*crnt_name), ctrs@[j].name),
        decreases ctrs@.len() - i,
    {
        r.push(Name::Branch(Box::new(crnt_name.clone()), ctrs[i].name));
        i += 1;
    }
    r
}

/// The number of positional parameters contributed by the first `upto`
/// match-path entries.
fn prefix_vars(path: &Vec<PathEntry>, upto: usize) -> (c: usize)
    requires
        upto <= path@.len(),
        path_vars(path@, path@.len() as int) <= usize::MAX,
    ensures
        c == path_vars(path@, upto as int),
{
    let mut c: usize = 0;
    let mut j: usize = 0;
    while j < upto
        invariant
            j <= upto <= path@.len(),
            path_vars(path@, path@.len() as int) <= usize::MAX,
            c == path_vars(path@, j as int),
        decreases upto - j,
    {
        proof {
            lemma_path_vars_mono(path@, j + 1 as int, path@.len() as int);
        }
        let a = match path[j] {
            PathEntry::Skip => 1,
            PathEntry::Branch { ctr: _, arity } => arity,
        };
        c += a;
        j += 1;
    }
    c
}

/// Computes the order in which a synthesized definition binds its
/// positional parameters.
fn proto_order(path: &Vec<PathEntry>) -> (r: Vec<usize>)
    requires
        path_vars(path@, path@.len() as int) <= usize::MAX,
    ensures
        r@ == proto_vars(path@),
{
    let mut lb: usize = 0;
    let mut lb_found = false;
    let mut j: usize = 0;
    while j < path.len()
        invariant
            j <= path@.len(),
            lb_found ==> lb < j && path@[lb as int] is Branch && forall|j2: int|
                lb < j2 < j ==> !((#[trigger] path@[j2]) is Branch),
            !lb_found ==> forall|j2: int| 0 <= j2 < j ==> !((#[trigger] path@[j2]) is Branch),
        decreases path@.len() - j,
    {
        match path[j] {
            PathEntry::Branch { .. } => {
                lb = j;
                lb_found = true;
            }
            PathEntry::Skip => {}
        }
        j += 1;
    }
    proof {
        if lb_found {
            lemma_last_branch_at(path@, lb as int);
        } else {
            lemma_last_branch_none(path@);
        }
    }
    let mut r: Vec<usize> = Vec::new();
    if lb_found {
        let st = prefix_vars(path, lb);
        let arity = match path[lb] {
            PathEntry::Branch { ctr: _, arity } => arity,
            PathEntry::Skip => 0,
        };
        proof {
            lemma_path_vars_mono(path@, lb + 1 as int, path@.len() as int);
            assert(path_vars(path@, lb + 1 as int) == path_vars(path@, lb as int) + arity);
        }
        let mut a: usize = 0;
        while a < arity
            invariant
                a <= arity,
                st == path_vars(path@, lb as int),
                st + arity <= usize::MAX,
                lb < path@.len(),
                arity == entry_arity(path@[lb as int]),
                r@.len() == a,
                forall|a2: int| 0 <= a2 < a ==> r@[a2] == (st + a2) as usize,
            decreases arity - a,
        {
            r.push(st + a);
            a += 1;
        }
        proof {
            assert(r@ =~= block_vars(path@, lb as int));
        }
    }
    let ghost base = r@;
    let ghost skip_j: int = if lb_found { lb as int } else { -1 };
    let mut c: usize = 0;
    let mut j2: usize = 0;
    while j2 < path.len()
        invariant
            j2 <= path@.len(),
            path_vars(path@, path@.len() as int) <= usize::MAX,
            c == path_vars(path@, j2 as int),
            skip_j == (if lb_found { lb as int } else { -1int }),
            lb_found ==> lb < path@.len(),
            r@ == base + blocks_upto(path@, skip_j, j2 as int),
        decreases path@.len() - j2,
    {
        proof {
            lemma_path_vars_mono(path@, j2 + 1 as int, path@.len() as int);
        }
        let arity_e = match path[j2] {
            PathEntry::Skip => 1,
            PathEntry::Branch { ctr: _, arity } => arity,
        };
        if lb_found && j2 == lb {
            c += arity_e;
        } else {
            let ghost r_pre = r@;
            let ghost c0 = c as int;
            let mut a: usize = 0;
            while a < arity_e
                invariant
                    a <= arity_e,
                    c == c0 + a,
                    c0 + arity_e <= usize::MAX,
                    r@.len() == r_pre.len() + a,
                    forall|y: int| 0 <= y < r_pre.len() ==> r@[y] == r_pre[y],
                    forall|a2: int| 0 <= a2 < a ==> #[trigger] r@[r_pre.len() + a2] == (c0 + a2) as usize,
                decreases arity_e - a,
            {
                r.push(c);
                c += 1;
                a += 1;
            }
            proof {
                assert(r_pre == base + blocks_upto(path@, skip_j, j2 as int));
                assert(blocks_upto(path@, skip_j, j2 + 1 as int) == blocks_upto(
                    path@,
                    skip_j,
                    j2 as int,
                ) + block_vars(path@, j2 as int));
                assert(block_vars(path@, j2 as int).len() == arity_e);
                assert forall|y: int|
                    0 <= y < r@.len() implies r@[y] == (r_pre + block_vars(path@, j2 as int))[y] by {
                    if y >= r_pre.len() {
                        assert(r@[r_pre.len() + (y - r_pre.len())] == (c0 + (y - r_pre.len())) as usize);
                        assert(block_vars(path@, j2 as int)[y - r_pre.len()] == (path_vars(
                            path@,
                            j2 as int,
                        ) + (y - r_pre.len())) as usize);
                    }
                }
                assert(r@ =~= r_pre + block_vars(path@, j2 as int));
                assert(r@ =~= base + blocks_upto(path@, skip_j, j2 + 1 as int));
            }
        }
        j2 += 1;
    }
    proof {
        if lb_found {
            assert(r@ == proto_vars(path@));
        } else {
            assert(base =~= Seq::<usize>::empty());
            assert(r@ =~= proto_vars(path@));
        }
    }
    r
}

// ---------------------------------------------------------------------------
// Stage one: rule-body extraction.
// ---------------------------------------------------------------------------

/// Wraps a clause body in one nested single-parameter function per variable
/// bound by the clause's patterns, in left-to-right order, flattening each
/// constructor pattern's sub-variables into the sequence at that point.
pub fn make_rule_body(body: Term, pats: &Vec<Pat>) -> (r: Term)
    requires
        forall|k: int| 0 <= k < pats@.len() ==> pat_flat(#[trigger] pats@[k]),
    ensures
        r == wrap_pat_lams(pats@, body),
{
    let ghost orig = body;
    let mut term = body;
    let mut j: usize = pats.len();
    while j > 0
        invariant
            j <= pats@.len(),
            forall|k: int| 0 <= k < pats@.len() ==> pat_flat(#[trigger] pats@[k]),
            term == wrap_pat_lams(pats@.subrange(j as int, pats@.len() as int), orig),
        decreases j,
    {
        j -= 1;
        let ghost tail = pats@.subrange(j + 1, pats@.len() as int);
        let ghost cur = pats@.subrange(j as int, pats@.len() as int);
        proof {
            assert(cur[0] == pats@[j as int]);
            assert(cur.drop_first() =~= tail);
        }
        match &pats[j] {
            Pat::Var(v) => {
                term = Term::Lam { nam: Some(*v), bod: Box::new(term) };
            }
            Pat::Ctr(_, subs) => {
                let ghost inner = term;
                let mut s: usize = subs.len();
                proof {
                    assert(subs@.subrange(s as int, subs@.len() as int) =~= Seq::<Pat>::empty());
                    assert(pat_flat(pats@[j as int]));
                }
                while s > 0
                    invariant
                        s <= subs@.len(),
                        forall|x: int| 0 <= x < subs@.len() ==> subs@[x] is Var,
                        term == wrap_sub_lams(subs@.subrange(s as int, subs@.len() as int), inner),
                    decreases s,
                {
                    s -= 1;
                    let ghost scur = subs@.subrange(s as int, subs@.len() as int);
                    proof {
                        assert(scur[0] == subs@[s as int]);
                        assert(scur.drop_first() =~= subs@.subrange(s + 1, subs@.len() as int));
                    }
                    match &subs[s] {
                        Pat::Var(v) => {
                            term = Term::Lam { nam: Some(*v), bod: Box::new(term) };
                        }
                        Pat::Ctr(_, _) => {
                            proof {
                                assert(false);
                            }
                        }
                    }
                }
                proof {
                    assert(subs@.subrange(0, subs@.len() as int) =~= subs@);
                }
            }
        }
    }
    proof {
        assert(pats@.subrange(0, pats@.len() as int) =~= pats@);
    }
    term
}

// ---------------------------------------------------------------------------
// Stage two, leaves: calling the winning clause's extracted body.
// ---------------------------------------------------------------------------

/// The patterns of clause `r` of definition `d`.
pub open spec fn rule_pats(b: Book, d: int, r: int) -> Seq<Pat> {
    b.defs@[d].rules@[r].pats@
}

/// Builds and registers the definition that ends one decision-tree path by
/// calling the winning clause's extracted rule body, reconstructing a
/// constructor application for every position that the path branched on but
/// the winning clause left as a variable.
pub fn make_leaf_pattern_matching_case(
    book: &mut Book,
    new_def_name: Name,
    rule_def_id: usize,
    def_id: usize,
    rule_idx: usize,
    match_path: Vec<PathEntry>,
)
    requires
        book_wf(*old(book)),
        def_id < old(book).defs@.len(),
        rule_idx < old(book).defs@[def_id as int].rules@.len(),
        match_path@.len() <= rule_pats(*old(book), def_id as int, rule_idx as int).len(),
        forall|j: int|
            0 <= j < match_path@.len() ==> pair_compat(
                #[trigger] match_path@[j],
                rule_pats(*old(book), def_id as int, rule_idx as int)[j],
            ),
        forall|j: int|
            0 <= j < match_path@.len() ==> (#[trigger] match_path@[j] matches PathEntry::Branch {
                ctr,
                ..
            } ==> find_name(old(book).defs@, Name::Source(ctr)) is Some),
        path_vars(match_path@, match_path@.len() as int) <= usize::MAX,
    ensures
        inserted(
            *old(book),
            *final(book),
            new_def_name,
            leaf_body(
                old(book).defs@,
                rule_def_id,
                match_path@,
                rule_pats(*old(book), def_id as int, rule_idx as int),
            ),
        ),
        book_wf(*final(book)),
{
    let ghost pats = rule_pats(*old(book), def_id as int, rule_idx as int);
    let ghost path = match_path@;
    let mut term = Term::Ref { def_id: rule_def_id };
    let mut c: usize = 0;
    let mut j: usize = 0;
    while j < match_path.len()
        invariant
            *book == *old(book),
            book_wf(*book),
            def_id < book.defs@.len(),
            rule_idx < book.defs@[def_id as int].rules@.len(),
            pats == rule_pats(*book, def_id as int, rule_idx as int),
            path == match_path@,
            path.len() <= pats.len(),
            forall|jj: int| 0 <= jj < path.len() ==> pair_compat(#[trigger] path[jj], pats[jj]),
            forall|jj: int|
                0 <= jj < path.len() ==> (#[trigger] path[jj] matches PathEntry::Branch {
                    ctr,
                    ..
                } ==> find_name(book.defs@, Name::Source(ctr)) is Some),
            path_vars(path, path.len() as int) <= usize::MAX,
            j <= path.len(),
            c == path_vars(path, j as int),
            term == leaf_apps(old(book).defs@, rule_def_id, path, pats, j as int),
        decreases path.len() - j,
    {
        proof {
            lemma_path_vars_mono(path, j + 1 as int, path.len() as int);
        }
        let e = match_path[j];
        match e {
            PathEntry::Skip => {
                term = Term::App {
                    fun: Box::new(term),
                    arg: Box::new(Term::Var { nam: VarName::Pos(c) }),
                };
                c += 1;
            }
            PathEntry::Branch { ctr, arity } => {
                let ghost c0 = c as int;
                let own_is_ctr = match &book.defs[def_id].rules[rule_idx].pats[j] {
                    Pat::Ctr(_, _) => true,
                    Pat::Var(_) => false,
                };
                if own_is_ctr {
                    let mut a: usize = 0;
                    let ghost t0 = term;
                    while a < arity
                        invariant
                            a <= arity,
                            c == c0 + a,
                            c0 + arity <= usize::MAX,
                            term == apply_pos_range(t0, c0, c0 + a),
                        decreases arity - a,
                    {
                        term = Term::App {
                            fun: Box::new(term),
                            arg: Box::new(Term::Var { nam: VarName::Pos(c) }),
                        };
                        c += 1;
                        a += 1;
                    }
                } else {
                    let cid = match book.find_def(&Name::Source(ctr)) {
                        Some(i) => i,
                        None => vstd::pervasive::unreached(),
                    };
                    let mut ctr_term = Term::Ref { def_id: cid };
                    let mut a: usize = 0;
                    while a < arity
                        invariant
                            a <= arity,
                            c == c0 + a,
                            c0 + arity <= usize::MAX,
                            ctr_term == apply_pos_range(
                                Term::Ref { def_id: cid },
                                c0,
                                c0 + a,
                            ),
                        decreases arity - a,
                    {
                        ctr_term = Term::App {
                            fun: Box::new(ctr_term),
                            arg: Box::new(Term::Var { nam: VarName::Pos(c) }),
                        };
                        c += 1;
                        a += 1;
                    }
                    proof {
                        assert(cid == id_of(old(book).defs@, Name::Source(ctr)));
                    }
                    term = Term::App { fun: Box::new(term), arg: Box::new(ctr_term) };
                }
            }
        }
        j += 1;
    }
    let ghost apps = term;
    let order = proto_order(&match_path);
    let mut i = order.len();
    while i > 0
        invariant
            i <= order@.len(),
            order@ == proto_vars(path),
            path == match_path@,
            term == bind_from(apps, order@, i as int),
        decreases i,
    {
        i -= 1;
        term = Term::Lam { nam: Some(VarName::Pos(order[i])), bod: Box::new(term) };
    }
    let mut rules_v: Vec<Rule> = Vec::new();
    rules_v.push(Rule { pats: Vec::new(), body: term });
    let ghost b0 = *book;
    proof {
        assert(term == leaf_body(old(book).defs@, rule_def_id, path, pats));
    }
    book.insert_def(new_def_name, rules_v);
    proof {
        lemma_find_name_props(b0.defs@, new_def_name);
        assert(inserted(
            b0,
            *book,
            new_def_name,
            leaf_body(old(book).defs@, rule_def_id, path, pats),
        ));
        lemma_inserted_wf(
            b0,
            *book,
            new_def_name,
            leaf_body(old(book).defs@, rule_def_id, path, pats),
        );
    }
}

// ---------------------------------------------------------------------------
// Stage two, branching: auxiliary facts.
// ---------------------------------------------------------------------------

/// The parameter bound grows with the prefix length.
pub proof fn lemma_sum_weights_mono(types: Seq<Type>, adts: Seq<Adt>, i: int, j: int)
    requires
        i <= j,
    ensures
        sum_weights(types, adts, i) <= sum_weights(types, adts, j),
    decreases j - i,
{
    if i < j {
        lemma_sum_weights_mono(types, adts, i, j - 1);
    }
}

/// The constructor index a path entry decided, for building one witness
/// choice.
pub open spec fn entry_choice(e: PathEntry, ty: Type, adts: Seq<Adt>) -> int {
    match e {
        PathEntry::Skip => 0,
        PathEntry::Branch { ctr, .. } => match ty {
            Type::Opaque => 0,
            Type::Adt(t) => match find_ctr(adts[t as int].ctrs@, ctr) {
                Some(ci) => ci,
                None => 0,
            },
        },
    }
}

/// One concrete choice consistent with the match path: the decided
/// constructor at branched positions, the first constructor elsewhere.
pub open spec fn default_choice(path: Seq<PathEntry>, types: Seq<Type>, adts: Seq<Adt>) -> Seq<int> {
    Seq::new(
        types.len(),
        |kk: int|
            if 0 <= kk < path.len() {
                entry_choice(path[kk], types[kk], adts)
            } else {
                0
            },
    )
}

/// Along a well-formed path there is always a valid consistent choice.
pub proof fn lemma_default_choice(path: Seq<PathEntry>, types: Seq<Type>, adts: Seq<Adt>)
    requires
        path_wf(path, types, adts),
        types_wf(types, adts),
        forall|t: int| 0 <= t < adts.len() ==> adt_wf(#[trigger] adts[t]),
    ensures
        valid_choice(default_choice(path, types, adts), types, adts),
        choice_consistent(default_choice(path, types, adts), path, types, adts),
{
    let choice = default_choice(path, types, adts);
    assert forall|k: int|
        0 <= k < types.len() implies (#[trigger] types[k] matches Type::Adt(t) ==> 0 <= choice[k]
        < adts[t as int].ctrs@.len()) by {
        match types[k] {
            Type::Adt(t) => {
                assert(adt_wf(adts[t as int]));
                if 0 <= k < path.len() {
                    assert(entry_wf_at(path[k], types[k], adts));
                    match path[k] {
                        PathEntry::Branch { ctr, .. } => {
                            lemma_find_ctr_props(adts[t as int].ctrs@, ctr);
                        }
                        PathEntry::Skip => {}
                    }
                }
            }
            Type::Opaque => {}
        }
    }
    assert forall|j: int|
        0 <= j < path.len() implies (#[trigger] path[j] matches PathEntry::Branch { ctr, .. } ==> (
    types[j] matches Type::Adt(t) && adts[t as int].ctrs@[choice[j]].name == ctr)) by {
        assert(entry_wf_at(path[j], types[j], adts));
        match path[j] {
            PathEntry::Branch { ctr, .. } => {
                match types[j] {
                    Type::Adt(t) => {
                        lemma_find_ctr_props(adts[t as int].ctrs@, ctr);
                    }
                    Type::Opaque => {}
                }
            }
            PathEntry::Skip => {}
        }
    }
}

/// The handler chain depends on the book only through the identifiers of the
/// sub-dispatchers.
pub proof fn lemma_handler_apps_congr(
    d1: Seq<Def>,
    d2: Seq<Def>,
    base: Name,
    ctrs: Seq<Ctr>,
    j: int,
)
    requires
        forall|cj: int|
            0 <= cj < j ==> id_of(d1, Name::Branch(Box::new(base), #[trigger] ctrs[cj].name))
                == id_of(d2, Name::Branch(Box::new(base), ctrs[cj].name)),
    ensures
        handler_apps(d1, base, ctrs, j) == handler_apps(d2, base, ctrs, j),
    decreases j,
{
    if j > 0 {
        lemma_handler_apps_congr(d1, d2, base, ctrs, j - 1);
    }
}

/// A clause passes the filter for a branch over `ctr` when its pattern at
/// the branched position is a variable or exactly that constructor.
pub open spec fn rule_passes(rules: Seq<Rule>, i: int, k: int, ctr: u64) -> bool {
    match rules[i].pats@[k] {
        Pat::Var(_) => true,
        Pat::Ctr(c, _) => c == ctr,
    }
}

/// Filters the candidate clause set, in order, to the clauses whose pattern
/// at position `k` is a variable or the constructor `ctr`.
fn filter_rules(rules: &Vec<Rule>, crnt: &Vec<usize>, k: usize, ctr: u64) -> (r: Vec<usize>)
    requires
        forall|x: int| 0 <= x < crnt@.len() ==> (#[trigger] crnt@[x]) < rules@.len(),
        forall|x: int|
            0 <= x < crnt@.len() ==> k < rules@[#[trigger] crnt@[x] as int].pats@.len(),
        forall|x: int, y: int| 0 <= x < y < crnt@.len() ==> crnt@[x] < crnt@[y],
    ensures
        forall|y: int| 0 <= y < r@.len() ==> crnt@.contains(#[trigger] r@[y]),
        forall|y: int|
            0 <= y < r@.len() ==> (#[trigger] r@[y]) < rules@.len() && rule_passes(
                rules@,
                r@[y] as int,
                k as int,
                ctr,
            ),
        forall|x: int|
            0 <= x < crnt@.len() && rule_passes(rules@, #[trigger] crnt@[x] as int, k as int, ctr)
                ==> r@.contains(crnt@[x]),
        forall|x: int, y: int| 0 <= x < y < r@.len() ==> r@[x] < r@[y],
    decreases crnt@.len(),
{
    let mut r: Vec<usize> = Vec::new();
    let mut x: usize = 0;
    while x < crnt.len()
        invariant
            x <= crnt@.len(),
            forall|x0: int| 0 <= x0 < crnt@.len() ==> (#[trigger] crnt@[x0]) < rules@.len(),
            forall|x0: int|
                0 <= x0 < crnt@.len() ==> k < rules@[#[trigger] crnt@[x0] as int].pats@.len(),
            forall|x0: int, y0: int| 0 <= x0 < y0 < crnt@.len() ==> crnt@[x0] < crnt@[y0],
            forall|y: int| #![trigger r@[y]]
                0 <= y < r@.len() ==> exists|x0: int| 0 <= x0 < x && (#[trigger] crnt@[x0]) == r@[y],
            forall|y: int|
                0 <= y < r@.len() ==> (#[trigger] r@[y]) < rules@.len() && rule_passes(
                    rules@,
                    r@[y] as int,
                    k as int,
                    ctr,
                ),
            forall|x0: int|
                0 <= x0 < x && rule_passes(rules@, #[trigger] crnt@[x0] as int, k as int, ctr)
                    ==> r@.contains(crnt@[x0]),
            forall|x0: int, y0: int| 0 <= x0 < y0 < r@.len() ==> r@[x0] < r@[y0],
        decreases crnt@.len() - x,
    {
        let idx = crnt[x];
        let keep = match &rules[idx].pats[k] {
            Pat::Var(_) => true,
            Pat::Ctr(c, _) => *c == ctr,
        };
        let ghost r_old = r@;
        if keep {
            r.push(idx);
            proof {
                assert forall|x0: int, y0: int| 0 <= x0 < y0 < r@.len() implies r@[x0]
                    < r@[y0] by {
                    if y0 == r@.len() - 1 {
                        let w = choose|w: int| 0 <= w < x && crnt@[w] == r_old[x0];
                        assert(crnt@[w] < crnt@[x as int]);
                    }
                }
                assert forall|x0: int|
                    0 <= x0 < x + 1 && rule_passes(
                        rules@,
                        #[trigger] crnt@[x0] as int,
                        k as int,
                        ctr,
                    ) implies r@.contains(crnt@[x0]) by {
                    if x0 < x {
                        let w = choose|w: int| 0 <= w < r_old.len() && r_old[w] == crnt@[x0];
                        assert(r@[w] == crnt@[x0]);
                    } else {
                        assert(r@[r@.len() - 1] == crnt@[x0]);
                    }
                }
            }
        } else {
            proof {
                assert forall|x0: int|
                    0 <= x0 < x + 1 && rule_passes(
                        rules@,
                        #[trigger] crnt@[x0] as int,
                        k as int,
                        ctr,
                    ) implies r@.contains(crnt@[x0]) by {
                    if x0 < x {
                    } else {
                        assert(!rule_passes(rules@, crnt@[x0] as int, k as int, ctr));
                    }
                }
            }
        }
        x += 1;
    }
    proof {
        assert forall|y: int| 0 <= y < r@.len() implies crnt@.contains(#[trigger] r@[y]) by {
            let w = choose|w: int| 0 <= w < x && (#[trigger] crnt@[w]) == r@[y];
            assert(crnt@[w] == r@[y]);
        }
    }
    r
}

/// What every recursive step of the decision-tree synthesis assumes of the
/// book, the type table, the candidate set and the match path.
pub open spec fn driver_pre(
    b: Book,
    types: Seq<Type>,
    def_id: usize,
    crnt_name: Name,
    crnt: Seq<usize>,
    path: Seq<PathEntry>,
) -> bool {
    &&& book_wf(b)
    &&& def_id < b.defs@.len()
    &&& def_rules_wf(b.defs@[def_id as int].rules@, types, b.adts@)
    &&& name_extends(crnt_name, b.defs@[def_id as int].name)
    &&& candidates_wf(crnt, b.defs@[def_id as int].rules@, path)
    &&& candidates_complete(crnt, b.defs@[def_id as int].rules@, path)
    &&& covers(crnt, b.defs@[def_id as int].rules@, path, types, b.adts@)
    &&& path_wf(path, types, b.adts@)
    &&& path_vars(path, path.len() as int) <= sum_weights(types, b.adts@, path.len() as int)
    &&& forall|i: usize|
        i < b.defs@[def_id as int].rules@.len() ==> find_name(
            b.defs@,
            Name::Rule(Box::new(b.defs@[def_id as int].name), i),
        ) is Some
}

// ---------------------------------------------------------------------------
// Stage two: the decision-tree driver and the branch builder.
// ---------------------------------------------------------------------------

/// One node of the decision-tree synthesis for definition `def_id`: builds a
/// leaf calling the first candidate clause's extracted body when that clause
/// no longer discriminates, branches over the constructors of the current
/// position when some candidate matches on it, and otherwise skips the
/// position, absorbing it into the same dispatcher.
///
/// First-match semantics: the candidate set holds every clause that
/// survives the decisions of the match path, in declaration order, so no
/// clause before the one a leaf invokes could still have matched — the
/// third postcondition states this of the first candidate.
pub fn make_pattern_matching_case(
    book: &mut Book,
    def_type: &Vec<Type>,
    def_id: usize,
    crnt_name: &Name,
    crnt_rules: Vec<usize>,
    match_path: Vec<PathEntry>,
)
    requires
        driver_pre(*old(book), def_type@, def_id, *crnt_name, crnt_rules@, match_path@),
    ensures
        book_wf(*final(book)),
        pass_frame(*old(book), *final(book), *crnt_name),
        dispatcher_at(*final(book), *crnt_name),
        forall|i: int|
            0 <= i < crnt_rules@[0] ==> !passes_path(
                #[trigger] old(book).defs@[def_id as int].rules@[i].pats@,
                match_path@,
            ),
        is_irrefutable_from(
            rule_pats(*old(book), def_id as int, crnt_rules@[0] as int),
            match_path@.len() as int,
        ) ==> body_at(*final(book), *crnt_name) == leaf_body(
            old(book).defs@,
            id_of(
                old(book).defs@,
                Name::Rule(Box::new(old(book).defs@[def_id as int].name), crnt_rules@[0]),
            ),
            match_path@,
            rule_pats(*old(book), def_id as int, crnt_rules@[0] as int),
        ),
        !is_irrefutable_from(
            rule_pats(*old(book), def_id as int, crnt_rules@[0] as int),
            match_path@.len() as int,
        ) && (exists|x: int|
            0 <= x < crnt_rules@.len() && rule_pats(
                *old(book),
                def_id as int,
                #[trigger] crnt_rules@[x] as int,
            )[match_path@.len() as int] is Ctr) ==> (def_type@[match_path@.len() as int]
            matches Type::Adt(t) ==> body_at(*final(book), *crnt_name) == branch_body(
            final(book).defs@,
            *crnt_name,
            old(book).adts@[t as int].ctrs@,
            match_path@,
            path_vars(match_path@, match_path@.len() as int) as int,
        )),
    decreases def_type@.len() - match_path@.len(), 1int,
{
    let ghost b_in = *book;
    let ghost types = def_type@;
    let ghost adts = b_in.adts@;
    let ghost rules = b_in.defs@[def_id as int].rules@;
    let ghost path = match_path@;
    let ghost dn = b_in.defs@[def_id as int].name;
    proof {
        assert(crnt_rules@[0] < rules.len());
        assert(pats_wf(rules[crnt_rules@[0] as int].pats@, types, adts));
        // no clause before the first candidate survives the match path
        assert forall|i: int|
            0 <= i < crnt_rules@[0] implies !passes_path(
            #[trigger] rules[i].pats@,
            path,
        ) by {
            if passes_path(rules[i].pats@, path) {
                assert(crnt_rules@.contains(i as usize));
                let x = choose|x: int| 0 <= x < crnt_rules@.len() && crnt_rules@[x] == i as usize;
                if x > 0 {
                    assert(crnt_rules@[0] < crnt_rules@[x]);
                }
                assert(false);
            }
        }
    }
    let fst = crnt_rules[0];
    let ghost fpats = rules[fst as int].pats@;
    let k = match_path.len();
    let arity = book.defs[def_id].rules[fst].pats.len();
    let mut irref = true;
    let mut jj = k;
    while jj < arity
        invariant
            *book == b_in,
            k <= jj <= arity,
            def_id < book.defs@.len(),
            fst < book.defs@[def_id as int].rules@.len(),
            fpats == book.defs@[def_id as int].rules@[fst as int].pats@,
            arity == fpats.len(),
            irref ==> forall|j: int| k <= j < jj ==> fpats[j] is Var,
            !irref ==> exists|j: int| k <= j < jj && !(#[trigger] fpats[j] is Var),
        decreases arity - jj,
    {
        match &book.defs[def_id].rules[fst].pats[jj] {
            Pat::Ctr(_, _) => {
                irref = false;
            }
            Pat::Var(_) => {}
        }
        jj += 1;
    }
    if irref {
        proof {
            assert(is_irrefutable_from(fpats, k as int));
            assert(find_name(b_in.defs@, Name::Rule(Box::new(dn), fst)) is Some);
        }
        let rule_name = make_rule_name(&book.defs[def_id].name, fst);
        let rid = match book.find_def(&rule_name) {
            Some(i) => i,
            None => vstd::pervasive::unreached(),
        };
        proof {
            assert(rule_compat(fpats, path));
            assert forall|j: int|
                0 <= j < path.len() implies (#[trigger] path[j] matches PathEntry::Branch {
                ctr,
                ..
            } ==> find_name(b_in.defs@, Name::Source(ctr)) is Some) by {
                match path[j] {
                    PathEntry::Branch { ctr, .. } => {
                        assert(entry_wf_at(path[j], types[j], adts));
                        match types[j] {
                            Type::Adt(t) => {
                                lemma_find_ctr_props(adts[t as int].ctrs@, ctr);
                                match find_ctr(adts[t as int].ctrs@, ctr) {
                                    Some(ci) => {
                                        assert(adts[t as int].ctrs@[ci].name == ctr);
                                        assert(find_name(
                                            b_in.defs@,
                                            Name::Source(adts[t as int].ctrs@[ci].name),
                                        ) is Some);
                                    }
                                    None => {}
                                }
                            }
                            Type::Opaque => {}
                        }
                    }
                    PathEntry::Skip => {}
                }
            }
            lemma_sum_weights_mono(types, adts, k as int, types.len() as int);
        }
        make_leaf_pattern_matching_case(book, crnt_name.clone(), rid, def_id, fst, match_path);
        proof {
            lemma_inserted_frame(b_in, *book, *crnt_name, leaf_body(b_in.defs@, rid, path, fpats));
            assert(rid == id_of(b_in.defs@, Name::Rule(Box::new(dn), fst)));
        }
    } else {
        proof {
            assert(k < arity);
            assert(arity == types.len());
        }
        let mut matching = false;
        let mut x: usize = 0;
        while x < crnt_rules.len()
            invariant
                *book == b_in,
                x <= crnt_rules@.len(),
                k < types.len(),
                def_id < book.defs@.len(),
                rules == book.defs@[def_id as int].rules@,
                candidates_wf(crnt_rules@, rules, path),
                def_rules_wf(rules, types, adts),
                matching ==> exists|y: int|
                    0 <= y < crnt_rules@.len() && rules[#[trigger] crnt_rules@[y] as int].pats@[k as int] is Ctr,
                !matching ==> forall|y: int|
                    0 <= y < x ==> !(rules[#[trigger] crnt_rules@[y] as int].pats@[k as int] is Ctr),
            decreases crnt_rules@.len() - x,
        {
            proof {
                assert(crnt_rules@[x as int] < rules.len());
                assert(pats_wf(rules[crnt_rules@[x as int] as int].pats@, types, adts));
            }
            match &book.defs[def_id].rules[crnt_rules[x]].pats[k] {
                Pat::Ctr(_, _) => {
                    matching = true;
                }
                Pat::Var(_) => {}
            }
            x += 1;
        }
        proof {
            let wj = choose|j: int| k <= j < arity && !(#[trigger] fpats[j] is Var);
            assert(!is_irrefutable_from(fpats, k as int));
        }
        if matching {
            make_branch_pattern_matching_case(
                book,
                def_type,
                def_id,
                crnt_name,
                crnt_rules,
                match_path,
            );
        } else {
            let mut path2 = match_path;
            path2.push(PathEntry::Skip);
            proof {
                let cpath = path.push(PathEntry::Skip);
                assert(path2@ == cpath);
                assert forall|x0: int|
                    0 <= x0 < crnt_rules@.len() implies rule_compat(
                    rules[#[trigger] crnt_rules@[x0] as int].pats@,
                    cpath,
                ) by {
                    let ps = rules[crnt_rules@[x0] as int].pats@;
                    assert(rule_compat(ps, path));
                    assert forall|j: int| 0 <= j < cpath.len() implies pair_compat(
                        #[trigger] cpath[j],
                        ps[j],
                    ) by {
                        if j < k {
                            assert(cpath[j] == path[j]);
                            assert(pair_compat(path[j], ps[j]));
                        } else {
                            assert(!(ps[k as int] is Ctr));
                        }
                    }
                }
                assert forall|choice: Seq<int>|
                    valid_choice(choice, types, adts) && #[trigger] choice_consistent(
                        choice,
                        cpath,
                        types,
                        adts,
                    ) implies exists|x0: int|
                    0 <= x0 < crnt_rules@.len() && rule_selects(
                        rules[crnt_rules@[x0] as int].pats@,
                        choice,
                        types,
                        adts,
                    ) by {
                    assert forall|j: int|
                        0 <= j < path.len() implies (#[trigger] path[j] matches PathEntry::Branch {
                        ctr,
                        ..
                    } ==> (types[j] matches Type::Adt(t) && adts[t as int].ctrs@[choice[j]].name
                        == ctr)) by {
                        assert(cpath[j] == path[j]);
                        assert(choice_consistent(choice, cpath, types, adts));
                    }
                    assert(choice_consistent(choice, path, types, adts));
                    assert(covers(crnt_rules@, rules, path, types, adts));
                }
                assert forall|i: int|
                    0 <= i < rules.len() && passes_path(#[trigger] rules[i].pats@, cpath) implies
                    crnt_rules@.contains(i as usize) by {
                    assert forall|j: int|
                        0 <= j < path.len() implies (#[trigger] path[j] matches PathEntry::Branch {
                        ctr,
                        ..
                    } ==> (rules[i].pats@[j] is Var || (rules[i].pats@[j] matches Pat::Ctr(c, _)
                        && c == ctr))) by {
                        assert(cpath[j] == path[j]);
                        assert(passes_path(rules[i].pats@, cpath));
                    }
                    assert(passes_path(rules[i].pats@, path));
                }
                assert(candidates_complete(crnt_rules@, rules, cpath));
                lemma_path_vars_push(path, PathEntry::Skip, k as int);
                match types[k as int] {
                    Type::Adt(t2) => {
                        lemma_max_arity1(adts[t2 as int].ctrs@);
                    }
                    Type::Opaque => {}
                }
                assert(path_vars(cpath, k + 1 as int) == path_vars(path, k as int) + 1);
                assert(sum_weights(types, adts, k + 1 as int) == sum_weights(types, adts, k as int)
                    + pos_weight(types[k as int], adts));
                assert(driver_pre(*book, types, def_id, *crnt_name, crnt_rules@, cpath));
            }
            make_pattern_matching_case(book, def_type, def_id, crnt_name, crnt_rules, path2);
        }
    }
}

/// Builds the branch dispatcher for the current argument position:
/// synthesizes one sub-dispatcher per constructor of the position's
/// algebraic type, in registry order, then registers a definition whose body
/// applies the scrutinee to every sub-dispatcher's reference and then to the
/// already-matched arguments.
pub fn make_branch_pattern_matching_case(
    book: &mut Book,
    def_type: &Vec<Type>,
    def_id: usize,
    crnt_name: &Name,
    crnt_rules: Vec<usize>,
    match_path: Vec<PathEntry>,
)
    requires
        driver_pre(*old(book), def_type@, def_id, *crnt_name, crnt_rules@, match_path@),
        exists|x: int|
            0 <= x < crnt_rules@.len() && rule_pats(
                *old(book),
                def_id as int,
                #[trigger] crnt_rules@[x] as int,
            )[match_path@.len() as int] is Ctr,
        match_path@.len() < def_type@.len(),
    ensures
        book_wf(*final(book)),
        pass_frame(*old(book), *final(book), *crnt_name),
        dispatcher_at(*final(book), *crnt_name),
        def_type@[match_path@.len() as int] matches Type::Adt(t) ==> body_at(
            *final(book),
            *crnt_name,
        ) == branch_body(
            final(book).defs@,
            *crnt_name,
            old(book).adts@[t as int].ctrs@,
            match_path@,
            path_vars(match_path@, match_path@.len() as int) as int,
        ),
    decreases def_type@.len() - match_path@.len(), 0int,
{
    let ghost b_in = *book;
    let ghost types = def_type@;
    let ghost adts = b_in.adts@;
    let ghost rules = b_in.defs@[def_id as int].rules@;
    let ghost path = match_path@;
    let ghost dn = b_in.defs@[def_id as int].name;
    let k = match_path.len();
    proof {
        let x = choose|x: int|
            0 <= x < crnt_rules@.len() && rule_pats(
                b_in,
                def_id as int,
                #[trigger] crnt_rules@[x] as int,
            )[k as int] is Ctr;
        assert(crnt_rules@[x] < rules.len());
        assert(pats_wf(rules[crnt_rules@[x] as int].pats@, types, adts));
        assert(pat_wf_at(rules[crnt_rules@[x] as int].pats@[k as int], types[k as int], adts));
    }
    let t = match def_type[k] {
        Type::Adt(t) => t,
        Type::Opaque => vstd::pervasive::unreached(),
    };
    let ctrs = copy_vec(&book.adts[t].ctrs);
    let names = get_next_fn_names(crnt_name, &ctrs);
    let n_rules = book.defs[def_id].rules.len();
    let mut ci: usize = 0;
    while ci < ctrs.len()
        invariant
            types == def_type@,
            path == match_path@,
            k == path.len(),
            k < types.len(),
            types[k as int] == Type::Adt(t),
            t < adts.len(),
            ctrs@ == adts[t as int].ctrs@,
            names@.len() == ctrs@.len(),
            forall|cj: int|
                0 <= cj < ctrs@.len() ==> names@[cj] == Name::Branch(
                    Box::new(*crnt_name),
                    ctrs@[cj].name,
                ),
            book_wf(*book),
            pass_frame(b_in, *book, *crnt_name),
            book.adts@ == adts,
            def_id < book.defs@.len(),
            book.defs@[def_id as int] == b_in.defs@[def_id as int],
            rules == book.defs@[def_id as int].rules@,
            dn == book.defs@[def_id as int].name,
            candidates_wf(crnt_rules@, rules, path),
            candidates_complete(crnt_rules@, rules, path),
            rules.len() == n_rules,
            covers(crnt_rules@, rules, path, types, adts),
            path_wf(path, types, adts),
            path_vars(path, k as int) <= sum_weights(types, adts, k as int),
            def_rules_wf(rules, types, adts),
            name_extends(*crnt_name, dn),
            forall|i: usize|
                i < rules.len() ==> find_name(book.defs@, Name::Rule(Box::new(dn), i)) is Some,
            ci <= ctrs@.len(),
            forall|cj: int| 0 <= cj < ci ==> find_name(book.defs@, #[trigger] names@[cj]) is Some,
        decreases ctrs@.len() - ci,
    {
        let ghost b_pre = *book;
        let ghost cname = names@[ci as int];
        let ghost ctr = ctrs@[ci as int].name;
        let ghost car = ctrs@[ci as int].arity;
        proof {
            assert forall|x0: int|
                0 <= x0 < crnt_rules@.len() implies k < rules[#[trigger] crnt_rules@[x0] as int].pats@.len() by {
                assert(pats_wf(rules[crnt_rules@[x0] as int].pats@, types, adts));
            }
        }
        let child_rules = filter_rules(&book.defs[def_id].rules, &crnt_rules, k, ctrs[ci].name);
        let mut child_path = copy_vec(&match_path);
        child_path.push(PathEntry::Branch { ctr: ctrs[ci].name, arity: ctrs[ci].arity });
        proof {
            let cpath = path.push(PathEntry::Branch { ctr, arity: car as usize });
            assert(child_path@ == cpath);
            assert(adt_wf(adts[t as int]));
            lemma_find_ctr_at(ctrs@, ci as int);
            // the new entry is well formed
            assert(entry_wf_at(cpath[k as int], types[k as int], adts));
            assert forall|j: int|
                0 <= j < cpath.len() implies entry_wf_at(#[trigger] cpath[j], types[j], adts) by {
                if j < k {
                    assert(cpath[j] == path[j]);
                    assert(entry_wf_at(path[j], types[j], adts));
                }
            }
            assert(path_wf(cpath, types, adts));
            // the filtered candidates are compatible with the extended path
            assert forall|y: int|
                0 <= y < child_rules@.len() implies rule_compat(
                rules[#[trigger] child_rules@[y] as int].pats@,
                cpath,
            ) by {
                let v = child_rules@[y];
                let w = choose|w: int| 0 <= w < crnt_rules@.len() && (#[trigger] crnt_rules@[w]) == v;
                let ps = rules[v as int].pats@;
                assert(rule_compat(ps, path));
                assert(pats_wf(ps, types, adts));
                assert(rule_passes(rules, v as int, k as int, ctr));
                assert forall|j: int|
                    0 <= j < cpath.len() implies pair_compat(#[trigger] cpath[j], ps[j]) by {
                    if j < k {
                        assert(cpath[j] == path[j]);
                        assert(pair_compat(path[j], ps[j]));
                    } else {
                        match ps[k as int] {
                            Pat::Var(_) => {}
                            Pat::Ctr(c, subs) => {
                                assert(c == ctr);
                                assert(pat_wf_at(ps[k as int], types[k as int], adts));
                                assert(subs@.len() == car);
                            }
                        }
                    }
                }
            }
            // the filtered candidates still cover the extended path
            assert forall|choice: Seq<int>|
                valid_choice(choice, types, adts) && #[trigger] choice_consistent(
                    choice,
                    cpath,
                    types,
                    adts,
                ) implies exists|y: int|
                0 <= y < child_rules@.len() && rule_selects(
                    rules[child_rules@[y] as int].pats@,
                    choice,
                    types,
                    adts,
                ) by {
                assert forall|j: int|
                    0 <= j < path.len() implies (#[trigger] path[j] matches PathEntry::Branch {
                    ctr: c2,
                    ..
                } ==> (types[j] matches Type::Adt(t2) && adts[t2 as int].ctrs@[choice[j]].name
                    == c2)) by {
                    assert(cpath[j] == path[j]);
                    assert(choice_consistent(choice, cpath, types, adts));
                }
                assert(choice_consistent(choice, path, types, adts));
                assert(covers(crnt_rules@, rules, path, types, adts));
                let x0 = choose|x0: int|
                    0 <= x0 < crnt_rules@.len() && rule_selects(
                        rules[#[trigger] crnt_rules@[x0] as int].pats@,
                        choice,
                        types,
                        adts,
                    );
                let v = crnt_rules@[x0];
                let ps = rules[v as int].pats@;
                assert(pats_wf(ps, types, adts));
                // the selecting clause passes the filter for this constructor
                match ps[k as int] {
                    Pat::Var(_) => {}
                    Pat::Ctr(c, _) => {
                        assert(rule_selects(ps, choice, types, adts));
                        assert(ps[k as int] matches Pat::Ctr(c3, _) && c3 == c);
                        assert(adts[t as int].ctrs@[choice[k as int]].name == c);
                        assert(adts[t as int].ctrs@[choice[k as int]].name == ctr);
                    }
                }
                assert(rule_passes(rules, v as int, k as int, ctr));
                assert(child_rules@.contains(v));
                let y = choose|y: int| 0 <= y < child_rules@.len() && child_rules@[y] == v;
                assert(rule_selects(rules[child_rules@[y] as int].pats@, choice, types, adts));
            }
            // every clause surviving the extended path is kept by the filter
            assert forall|i: int|
                0 <= i < rules.len() && passes_path(#[trigger] rules[i].pats@, cpath) implies
                child_rules@.contains(i as usize) by {
                assert forall|j: int|
                    0 <= j < path.len() implies (#[trigger] path[j] matches PathEntry::Branch {
                    ctr: c4,
                    ..
                } ==> (rules[i].pats@[j] is Var || (rules[i].pats@[j] matches Pat::Ctr(c5, _)
                    && c5 == c4))) by {
                    assert(cpath[j] == path[j]);
                    assert(passes_path(rules[i].pats@, cpath));
                }
                assert(passes_path(rules[i].pats@, path));
                assert(crnt_rules@.contains(i as usize));
                let x = choose|x: int|
                    0 <= x < crnt_rules@.len() && (#[trigger] crnt_rules@[x]) == i as usize;
                assert(cpath[k as int] matches PathEntry::Branch { ctr: c6, .. } && c6 == ctr);
                assert(0 <= k && k < cpath.len());
                assert((#[trigger] cpath[k as int]) matches PathEntry::Branch { ctr: c6, .. } ==> (
                rules[i].pats@[k as int] is Var || (rules[i].pats@[k as int] matches Pat::Ctr(
                    c7,
                    _,
                ) && c7 == c6)));
                assert(rules[i].pats@[k as int] is Var || (rules[i].pats@[k as int]
                    matches Pat::Ctr(c8, _) && c8 == ctr));
                assert(crnt_rules@[x] == i as usize);
                assert(rule_passes(rules, crnt_rules@[x] as int, k as int, ctr));
                assert(child_rules@.contains(crnt_rules@[x]));
            }
            assert(candidates_complete(child_rules@, rules, cpath));
            // the filtered candidate set is nonempty
            lemma_default_choice(cpath, types, adts);
            assert(choice_consistent(default_choice(cpath, types, adts), cpath, types, adts));
            assert(child_rules@.len() >= 1);
            // bound on the parameters of the extended path
            lemma_path_vars_push(path, PathEntry::Branch { ctr, arity: car as usize }, k as int);
            lemma_max_arity1(ctrs@);
            assert(path_vars(cpath, k + 1 as int) == path_vars(path, k as int) + car);
            assert(sum_weights(types, adts, k + 1 as int) == sum_weights(types, adts, k as int)
                + pos_weight(types[k as int], adts));
            assert(pos_weight(types[k as int], adts) == max_arity1(ctrs@));
            // the child dispatcher's name derives from the definition's
            assert(name_extends(*crnt_name, *crnt_name));
            assert(name_extends(cname, *crnt_name)) by {
                reveal_with_fuel(name_extends, 2);
            }
            lemma_extends_trans(cname, *crnt_name, dn);
            assert(driver_pre(*book, types, def_id, cname, child_rules@, cpath));
        }
        make_pattern_matching_case(book, def_type, def_id, &names[ci], child_rules, child_path);
        proof {
            assert(branch_extends(cname, *crnt_name)) by {
                reveal_with_fuel(branch_extends, 2);
            }
            lemma_frame_trans(b_in, b_pre, *book, *crnt_name, cname);
            // the definition under synthesis is untouched by the child
            assert(name_depth(cname) == name_depth(*crnt_name) + 1);
            if branch_extends(dn, cname) {
                lemma_branch_to_extends(dn, cname);
                lemma_extends_depth(dn, cname);
                lemma_extends_depth(*crnt_name, dn);
                assert(false);
            }
            assert(book.defs@[def_id as int] == b_pre.defs@[def_id as int]);
            // names looked up so far stay in place
            assert forall|i: usize|
                i < rules.len() implies find_name(book.defs@, Name::Rule(Box::new(dn), i)) is Some by {
                lemma_find_name_stable(b_pre.defs@, book.defs@, Name::Rule(Box::new(dn), i));
            }
            assert forall|cj: int|
                0 <= cj < ci + 1 implies find_name(book.defs@, #[trigger] names@[cj]) is Some by {
                if cj < ci {
                    lemma_find_name_stable(b_pre.defs@, book.defs@, names@[cj]);
                }
            }
        }
        ci += 1;
    }
    // the dispatcher body: the scrutinee applied to every sub-dispatcher in
    // registry order, then to the already-matched arguments
    let ghost b_mid = *book;
    let mut term = Term::Var { nam: VarName::Scrut };
    let mut ci2: usize = 0;
    while ci2 < ctrs.len()
        invariant
            *book == b_mid,
            names@.len() == ctrs@.len(),
            forall|cj: int|
                0 <= cj < ctrs@.len() ==> names@[cj] == Name::Branch(
                    Box::new(*crnt_name),
                    ctrs@[cj].name,
                ),
            forall|cj: int| 0 <= cj < ctrs@.len() ==> find_name(book.defs@, #[trigger] names@[cj]) is Some,
            ci2 <= ctrs@.len(),
            term == handler_apps(b_mid.defs@, *crnt_name, ctrs@, ci2 as int),
        decreases ctrs@.len() - ci2,
    {
        let hid = match book.find_def(&names[ci2]) {
            Some(i) => i,
            None => vstd::pervasive::unreached(),
        };
        proof {
            assert(hid == id_of(b_mid.defs@, Name::Branch(Box::new(*crnt_name), ctrs@[ci2 as int].name)));
        }
        term = Term::App { fun: Box::new(term), arg: Box::new(Term::Ref { def_id: hid }) };
        ci2 += 1;
    }
    let ghost handlers = term;
    let mut c: usize = 0;
    let mut j: usize = 0;
    proof {
        lemma_sum_weights_mono(types, adts, k as int, types.len() as int);
    }
    while j < match_path.len()
        invariant
            *book == b_mid,
            path == match_path@,
            j <= path.len(),
            c == path_vars(path, j as int),
            path_vars(path, path.len() as int) <= usize::MAX,
            term == apply_pos_range(handlers, 0, c as int),
        decreases path.len() - j,
    {
        proof {
            lemma_path_vars_mono(path, j + 1 as int, path.len() as int);
        }
        let e = match_path[j];
        match e {
            PathEntry::Skip => {
                term = Term::App {
                    fun: Box::new(term),
                    arg: Box::new(Term::Var { nam: VarName::Pos(c) }),
                };
                c += 1;
            }
            PathEntry::Branch { ctr: _, arity } => {
                let ghost c0 = c as int;
                let mut a: usize = 0;
                while a < arity
                    invariant
                        a <= arity,
                        c == c0 + a,
                        c0 + arity <= usize::MAX,
                        term == apply_pos_range(handlers, 0, c as int),
                    decreases arity - a,
                {
                    term = Term::App {
                        fun: Box::new(term),
                        arg: Box::new(Term::Var { nam: VarName::Pos(c) }),
                    };
                    c += 1;
                    a += 1;
                }
            }
        }
        j += 1;
    }
    let m = c;
    term = Term::Lam { nam: Some(VarName::Scrut), bod: Box::new(term) };
    let ghost apps = term;
    let order = proto_order(&match_path);
    let mut i = order.len();
    while i > 0
        invariant
            i <= order@.len(),
            order@ == proto_vars(path),
            path == match_path@,
            term == bind_from(apps, order@, i as int),
        decreases i,
    {
        i -= 1;
        term = Term::Lam { nam: Some(VarName::Pos(order[i])), bod: Box::new(term) };
    }
    let ghost body = branch_body(b_mid.defs@, *crnt_name, ctrs@, path, m as int);
    proof {
        assert(term == body);
    }
    let mut rules_v: Vec<Rule> = Vec::new();
    rules_v.push(Rule { pats: Vec::new(), body: term });
    book.insert_def(crnt_name.clone(), rules_v);
    proof {
        lemma_find_name_props(b_mid.defs@, *crnt_name);
        assert(inserted(b_mid, *book, *crnt_name, body));
        lemma_inserted_frame(b_mid, *book, *crnt_name, body);
        lemma_inserted_wf(b_mid, *book, *crnt_name, body);
        lemma_frame_trans(b_in, b_mid, *book, *crnt_name, *crnt_name);
        // the dispatcher body reads the same sub-dispatcher identifiers in
        // the final book
        assert forall|cj: int|
            0 <= cj < ctrs@.len() implies id_of(
            b_mid.defs@,
            Name::Branch(Box::new(*crnt_name), #[trigger] ctrs@[cj].name),
        ) == id_of(book.defs@, Name::Branch(Box::new(*crnt_name), ctrs@[cj].name)) by {
            assert(find_name(b_mid.defs@, names@[cj]) is Some);
            lemma_find_name_stable(b_mid.defs@, book.defs@, names@[cj]);
        }
        lemma_handler_apps_congr(b_mid.defs@, book.defs@, *crnt_name, ctrs@, ctrs@.len() as int);
        assert(branch_body(book.defs@, *crnt_name, ctrs@, path, m as int) == body);
    }
}

// ---------------------------------------------------------------------------
// Exhaustive branch coverage.
// ---------------------------------------------------------------------------

/// The arguments of a chain of applications, left to right.
pub open spec fn app_args(t: Term) -> Seq<Term>
    decreases t,
{
    match t {
        Term::App { fun, arg } => app_args(*fun).push(*arg),
        _ => Seq::empty(),
    }
}

/// The head of a chain of applications.
pub open spec fn app_head(t: Term) -> Term
    decreases t,
{
    match t {
        Term::App { fun, arg: _ } => app_head(*fun),
        _ => t,
    }
}

proof fn lemma_handler_apps_spine(defs: Seq<Def>, base: Name, ctrs: Seq<Ctr>, j: int)
    requires
        0 <= j <= ctrs.len(),
    ensures
        app_head(handler_apps(defs, base, ctrs, j)) == (Term::Var { nam: VarName::Scrut }),
        app_args(handler_apps(defs, base, ctrs, j)).len() == j,
        forall|jj: int|
            0 <= jj < j ==> app_args(handler_apps(defs, base, ctrs, j))[jj] == (Term::Ref {
                def_id: id_of(defs, Name::Branch(Box::new(base), ctrs[jj].name)),
            }),
    decreases j,
{
    if j > 0 {
        lemma_handler_apps_spine(defs, base, ctrs, j - 1);
    }
}

/// Exhaustive branch coverage: the handler chain inside a branch
/// dispatcher's body applies the scrutinee to exactly one handler slot per
/// constructor of the discriminated type, and slot `j` holds the reference
/// to the sub-dispatcher named for the type's `j`-th constructor — the
/// registry's declaration order, regardless of the order constructors
/// appear across clauses.
pub proof fn lemma_branch_handler_coverage(defs: Seq<Def>, base: Name, ctrs: Seq<Ctr>)
    ensures
        app_head(handler_apps(defs, base, ctrs, ctrs.len() as int)) == (Term::Var {
            nam: VarName::Scrut,
        }),
        app_args(handler_apps(defs, base, ctrs, ctrs.len() as int)).len() == ctrs.len(),
        forall|j: int|
            0 <= j < ctrs.len() ==> app_args(handler_apps(defs, base, ctrs, ctrs.len() as int))[j]
                == (Term::Ref {
                def_id: id_of(defs, Name::Branch(Box::new(base), ctrs[j].name)),
            }),
{
    lemma_handler_apps_spine(defs, base, ctrs, ctrs.len() as int);
}

// ---------------------------------------------------------------------------
// Per-definition orchestration and the whole pass.
// ---------------------------------------------------------------------------

/// The names that compiling one definition named `base` may create or
/// overwrite: branch-derived dispatcher names, and the extracted clause
/// bodies' names.
pub open spec fn derived_of(n: Name, base: Name) -> bool {
    branch_extends(n, base) || (n matches Name::Rule(b, _) && *b == base)
}

/// A name that compiling `base` may touch derives from `base`.
pub proof fn lemma_derived_to_extends(n: Name, base: Name)
    requires
        derived_of(n, base),
    ensures
        name_extends(n, base),
{
    if branch_extends(n, base) {
        lemma_branch_to_extends(n, base);
    } else {
        assert(name_extends(base, base));
    }
}

/// Compiles one definition: extracts every clause body into a pattern-free
/// definition of its own, then synthesizes the definition's decision tree,
/// overwriting the definition in place with its root dispatcher.
fn encode_def(book: &mut Book, def_type: &Vec<Type>, def_id: usize)
    requires
        book_wf(*old(book)),
        def_id < old(book).defs@.len(),
        def_rules_wf(old(book).defs@[def_id as int].rules@, def_type@, old(book).adts@),
    ensures
        book_wf(*final(book)),
        final(book).adts == old(book).adts,
        final(book).defs@.len() >= old(book).defs@.len(),
        forall|e: int|
            0 <= e < old(book).defs@.len() ==> final(book).defs@[e].name == old(
                book,
            ).defs@[e].name,
        forall|e: int|
            0 <= e < old(book).defs@.len() && final(book).defs@[e] != old(book).defs@[e]
                ==> derived_of(
                final(book).defs@[e].name,
                old(book).defs@[def_id as int].name,
            ) && one_rule_no_pats(final(book).defs@[e]),
        forall|e: int|
            old(book).defs@.len() <= e < final(book).defs@.len() ==> derived_of(
                #[trigger] final(book).defs@[e].name,
                old(book).defs@[def_id as int].name,
            ) && one_rule_no_pats(final(book).defs@[e]),
        dispatcher_at(*final(book), old(book).defs@[def_id as int].name),
        old(book).defs@[def_id as int].rules@.len() == 1 && is_irrefutable_from(
            old(book).defs@[def_id as int].rules@[0].pats@,
            0,
        ) ==> (find_name(
            final(book).defs@,
            Name::Rule(Box::new(old(book).defs@[def_id as int].name), 0usize),
        ) matches Some(r) && body_at(*final(book), old(book).defs@[def_id as int].name)
            == Term::Ref { def_id: r as usize } && single_rule_def(
            Name::Rule(Box::new(old(book).defs@[def_id as int].name), 0usize),
            wrap_pat_lams(
                old(book).defs@[def_id as int].rules@[0].pats@,
                old(book).defs@[def_id as int].rules@[0].body,
            ),
            final(book).defs@[r],
        )),
{
    let ghost b_in = *book;
    let ghost types = def_type@;
    let ghost adts = b_in.adts@;
    let ghost rules = b_in.defs@[def_id as int].rules@;
    let ghost dn = b_in.defs@[def_id as int].name;
    let n_rules = book.defs[def_id].rules.len();

    // stage one: extract every clause body
    let mut i: usize = 0;
    while i < n_rules
        invariant
            book_wf(*book),
            def_id < book.defs@.len(),
            book.adts == b_in.adts,
            book.defs@.len() >= b_in.defs@.len(),
            forall|e: int| 0 <= e < b_in.defs@.len() ==> book.defs@[e].name == b_in.defs@[e].name,
            book.defs@[def_id as int] == b_in.defs@[def_id as int],
            types == def_type@,
            adts == b_in.adts@,
            rules == b_in.defs@[def_id as int].rules@,
            dn == b_in.defs@[def_id as int].name,
            n_rules == rules.len(),
            i <= n_rules,
            def_rules_wf(rules, types, adts),
            forall|e: int|
                0 <= e < b_in.defs@.len() && book.defs@[e] != b_in.defs@[e] ==> derived_of(
                    book.defs@[e].name,
                    dn,
                ) && one_rule_no_pats(book.defs@[e]),
            forall|e: int|
                b_in.defs@.len() <= e < book.defs@.len() ==> derived_of(
                    #[trigger] book.defs@[e].name,
                    dn,
                ) && one_rule_no_pats(book.defs@[e]),
            forall|i2: usize| #![trigger find_name(book.defs@, Name::Rule(Box::new(dn), i2))]
                i2 < i ==> (find_name(book.defs@, Name::Rule(Box::new(dn), i2)) matches Some(s)
                    && single_rule_def(
                    Name::Rule(Box::new(dn), i2),
                    wrap_pat_lams(rules[i2 as int].pats@, rules[i2 as int].body),
                    book.defs@[s],
                )),
        decreases n_rules - i,
    {
        proof {
            assert(pats_wf(rules[i as int].pats@, types, adts));
            assert forall|kk: int|
                0 <= kk < rules[i as int].pats@.len() implies pat_flat(
                #[trigger] rules[i as int].pats@[kk],
            ) by {
                assert(pat_wf_at(rules[i as int].pats@[kk], types[kk], adts));
                match rules[i as int].pats@[kk] {
                    Pat::Var(_) => {}
                    Pat::Ctr(_, _) => {}
                }
            }
        }
        let rn = make_rule_name(&book.defs[def_id].name, i);
        let body_c = book.defs[def_id].rules[i].body.clone();
        let wrapped = make_rule_body(body_c, &book.defs[def_id].rules[i].pats);
        let mut rv: Vec<Rule> = Vec::new();
        rv.push(Rule { pats: Vec::new(), body: wrapped });
        let ghost b_pre = *book;
        book.insert_def(rn, rv);
        proof {
            assert(rn == Name::Rule(Box::new(dn), i));
            assert(wrapped == wrap_pat_lams(rules[i as int].pats@, rules[i as int].body));
            assert(rv@.len() == 1);
            assert(rv@[0].pats@.len() == 0);
            assert(rv@[0].body == wrapped);
            assert(book.adts == b_pre.adts);
            lemma_find_name_props(b_pre.defs@, rn);
            match find_name(b_pre.defs@, rn) {
                Some(i0) => {
                    assert(book.defs@ == b_pre.defs@.update(i0, Def { name: rn, rules: rv }));
                    assert(book.defs@.len() == b_pre.defs@.len());
                    assert(book.defs@[i0] == Def { name: rn, rules: rv });
                    assert(single_rule_def(rn, wrapped, book.defs@[i0]));
                }
                None => {
                    assert(book.defs@ == b_pre.defs@.push(Def { name: rn, rules: rv }));
                    assert(single_rule_def(rn, wrapped, book.defs@[b_pre.defs@.len() as int]));
                }
            }
            assert(inserted(b_pre, *book, rn, wrap_pat_lams(rules[i as int].pats@, rules[i as int].body)));
            lemma_inserted_frame(b_pre, *book, rn, wrap_pat_lams(rules[i as int].pats@, rules[i as int].body));
            lemma_inserted_wf(b_pre, *book, rn, wrap_pat_lams(rules[i as int].pats@, rules[i as int].body));
            lemma_find_name_props(b_pre.defs@, rn);
            // the definition itself keeps its clauses: its name is not the
            // extracted body's name
            assert(name_depth(rn) == name_depth(dn) + 1);
            // earlier extracted bodies keep their slots: their names differ
            // in the clause index
            assert forall|i2: usize| #![trigger find_name(book.defs@, Name::Rule(Box::new(dn), i2))]
                i2 < i + 1 implies (find_name(book.defs@, Name::Rule(Box::new(dn), i2)) matches Some(
                s,
            ) && single_rule_def(
                Name::Rule(Box::new(dn), i2),
                wrap_pat_lams(rules[i2 as int].pats@, rules[i2 as int].body),
                book.defs@[s],
            )) by {
                if i2 < i {
                    let n2 = Name::Rule(Box::new(dn), i2);
                    lemma_find_name_stable(b_pre.defs@, book.defs@, n2);
                    lemma_find_name_props(b_pre.defs@, n2);
                } else {
                    lemma_find_name_props(book.defs@, rn);
                }
            }
        }
        i += 1;
    }

    // stage two: synthesize the decision tree from the first position
    let mut crnt: Vec<usize> = Vec::new();
    let mut x: usize = 0;
    while x < n_rules
        invariant
            x <= n_rules,
            crnt@.len() == x,
            forall|y: int| 0 <= y < x ==> crnt@[y] == y,
        decreases n_rules - x,
    {
        crnt.push(x);
        x += 1;
    }
    let name_c = book.defs[def_id].name.clone();
    let ghost b1 = *book;
    proof {
        // every constructor choice is covered by the full candidate set
        assert forall|choice: Seq<int>|
            valid_choice(choice, types, adts) && #[trigger] choice_consistent(
                choice,
                Seq::<PathEntry>::empty(),
                types,
                adts,
            ) implies exists|y: int|
            0 <= y < crnt@.len() && rule_selects(
                rules[crnt@[y] as int].pats@,
                choice,
                types,
                adts,
            ) by {
            assert(exhaustive(rules, types, adts));
            let r = choose|r: int|
                0 <= r < rules.len() && rule_selects(rules[r].pats@, choice, types, adts);
            assert(crnt@[r] == r);
            assert(rule_selects(rules[crnt@[r] as int].pats@, choice, types, adts));
        }
        assert(name_extends(dn, dn));
        assert(path_vars(Seq::<PathEntry>::empty(), 0) == 0);
        assert(sum_weights(types, adts, 0) == 0);
        assert(candidates_wf(crnt@, rules, Seq::<PathEntry>::empty()));
        assert forall|i: int|
            0 <= i < rules.len() && passes_path(
                #[trigger] rules[i].pats@,
                Seq::<PathEntry>::empty(),
            ) implies crnt@.contains(i as usize) by {
            assert(crnt@[i] == i as usize);
        }
        assert(candidates_complete(crnt@, rules, Seq::<PathEntry>::empty()));
        assert(path_wf(Seq::<PathEntry>::empty(), types, adts));
        assert(driver_pre(b1, types, def_id, dn, crnt@, Seq::<PathEntry>::empty()));
    }
    let empty_path: Vec<PathEntry> = Vec::new();
    make_pattern_matching_case(book, def_type, def_id, &name_c, crnt, empty_path);
    proof {
        // compose the two stages' changes
        assert forall|e: int|
            0 <= e < b_in.defs@.len() && book.defs@[e] != b_in.defs@[e] implies derived_of(
            book.defs@[e].name,
            dn,
        ) && one_rule_no_pats(book.defs@[e]) by {
            if book.defs@[e] == b1.defs@[e] {
            } else {
                assert(branch_extends(book.defs@[e].name, dn));
            }
        }
        assert forall|e: int|
            b_in.defs@.len() <= e < book.defs@.len() implies derived_of(
            #[trigger] book.defs@[e].name,
            dn,
        ) && one_rule_no_pats(book.defs@[e]) by {
            if e < b1.defs@.len() {
                if book.defs@[e] != b1.defs@[e] {
                    assert(branch_extends(book.defs@[e].name, dn));
                }
            } else {
                assert(branch_extends(book.defs@[e].name, dn));
            }
        }
        // the single-clause identity shape
        if rules.len() == 1 && is_irrefutable_from(rules[0].pats@, 0) {
            let rn0 = Name::Rule(Box::new(dn), 0usize);
            assert(rule_pats(b1, def_id as int, crnt@[0] as int) == rules[0].pats@);
            assert(body_at(*book, dn) == leaf_body(
                b1.defs@,
                id_of(b1.defs@, rn0),
                Seq::<PathEntry>::empty(),
                rules[0].pats@,
            ));
            assert(leaf_apps(
                b1.defs@,
                id_of(b1.defs@, rn0),
                Seq::<PathEntry>::empty(),
                rules[0].pats@,
                0,
            ) == Term::Ref { def_id: id_of(b1.defs@, rn0) });
            assert(leaf_body(
                b1.defs@,
                id_of(b1.defs@, rn0),
                Seq::<PathEntry>::empty(),
                rules[0].pats@,
            ) == Term::Ref { def_id: id_of(b1.defs@, rn0) });
            // the extracted body's definition is still in place in the
            // final book
            assert(find_name(b1.defs@, rn0) matches Some(s) && single_rule_def(
                rn0,
                wrap_pat_lams(rules[0].pats@, rules[0].body),
                b1.defs@[s],
            ));
            lemma_find_name_stable(b1.defs@, book.defs@, rn0);
            lemma_find_name_props(b1.defs@, rn0);
            let s = find_name(b1.defs@, rn0)->Some_0;
            assert(0 <= s < b1.defs@.len());
            assert(b1.defs@[s].name == rn0);
            assert(name_c == dn);
            assert(name_depth(rn0) == name_depth(dn) + 1);
            assert(!branch_extends(b1.defs@[s].name, dn));
            assert(book.defs@[s] == b1.defs@[s]);
        }
    }
}

impl Book {
    /// The pass: rewrites every definition that still has patterns or more
    /// than one clause into an equivalent family of single-clause,
    /// pattern-free definitions; definitions that are already single-clause
    /// and pattern-free are left untouched.
    pub fn encode_pattern_matching_functions(&mut self, def_types: &Vec<Vec<Type>>)
        requires
            book_wf(*old(self)),
            def_types@.len() == old(self).defs@.len(),
            forall|d: int|
                0 <= d < old(self).defs@.len() ==> one_rule_no_pats(#[trigger] old(self).defs@[d])
                    || def_rules_wf(old(self).defs@[d].rules@, def_types@[d]@, old(self).adts@),
            forall|d: int, e: int|
                0 <= d < old(self).defs@.len() && 0 <= e < old(self).defs@.len() && d != e
                    && !one_rule_no_pats(old(self).defs@[d]) ==> !name_extends(
                    #[trigger] old(self).defs@[e].name,
                    #[trigger] old(self).defs@[d].name,
                ),
        ensures
            book_wf(*final(self)),
            final(self).adts == old(self).adts,
            final(self).defs@.len() >= old(self).defs@.len(),
            forall|e: int|
                0 <= e < old(self).defs@.len() ==> final(self).defs@[e].name == old(
                    self,
                ).defs@[e].name,
            forall|e: int|
                0 <= e < final(self).defs@.len() ==> one_rule_no_pats(
                    #[trigger] final(self).defs@[e],
                ),
            (forall|e: int|
                0 <= e < old(self).defs@.len() ==> one_rule_no_pats(#[trigger] old(self).defs@[e]))
                ==> final(self).defs@ == old(self).defs@,
            forall|e: int|
                0 <= e < old(self).defs@.len() && !one_rule_no_pats(old(self).defs@[e]) && old(
                    self,
                ).defs@[e].rules@.len() == 1 && is_irrefutable_from(
                    #[trigger] old(self).defs@[e].rules@[0].pats@,
                    0,
                ) ==> (find_name(
                    final(self).defs@,
                    Name::Rule(Box::new(old(self).defs@[e].name), 0usize),
                ) matches Some(r) && body_at(*final(self), old(self).defs@[e].name) == Term::Ref {
                    def_id: r as usize,
                } && single_rule_def(
                    Name::Rule(Box::new(old(self).defs@[e].name), 0usize),
                    wrap_pat_lams(
                        old(self).defs@[e].rules@[0].pats@,
                        old(self).defs@[e].rules@[0].body,
                    ),
                    final(self).defs@[r],
                )),
    {
        let n = self.defs.len();
        let mut d: usize = 0;
        while d < n
            invariant
                n == old(self).defs@.len(),
                def_types@.len() == n,
                d <= n,
                book_wf(*self),
                self.adts == old(self).adts,
                self.defs@.len() >= n,
                forall|e: int|
                    0 <= e < n ==> self.defs@[e].name == old(self).defs@[e].name,
                forall|e: int| d <= e < n ==> self.defs@[e] == old(self).defs@[e],
                forall|e: int| 0 <= e < d ==> one_rule_no_pats(#[trigger] self.defs@[e]),
                forall|e: int|
                    n <= e < self.defs@.len() ==> one_rule_no_pats(#[trigger] self.defs@[e]),
                forall|e: int|
                    0 <= e < n ==> one_rule_no_pats(#[trigger] old(self).defs@[e]) || def_rules_wf(
                        old(self).defs@[e].rules@,
                        def_types@[e]@,
                        old(self).adts@,
                    ),
                forall|d2: int, e: int|
                    0 <= d2 < n && 0 <= e < n && d2 != e && !one_rule_no_pats(old(self).defs@[d2])
                        ==> !name_extends(
                        #[trigger] old(self).defs@[e].name,
                        #[trigger] old(self).defs@[d2].name,
                    ),
                (forall|e: int| 0 <= e < n ==> one_rule_no_pats(#[trigger] old(self).defs@[e]))
                    ==> self.defs@ == old(self).defs@,
                forall|e: int|
                    0 <= e < d && !one_rule_no_pats(old(self).defs@[e]) && old(
                        self,
                    ).defs@[e].rules@.len() == 1 && is_irrefutable_from(
                        #[trigger] old(self).defs@[e].rules@[0].pats@,
                        0,
                    ) ==> (find_name(
                        self.defs@,
                        Name::Rule(Box::new(old(self).defs@[e].name), 0usize),
                    ) matches Some(r) && body_at(*self, old(self).defs@[e].name) == Term::Ref {
                        def_id: r as usize,
                    } && single_rule_def(
                        Name::Rule(Box::new(old(self).defs@[e].name), 0usize),
                        wrap_pat_lams(
                            old(self).defs@[e].rules@[0].pats@,
                            old(self).defs@[e].rules@[0].body,
                        ),
                        self.defs@[r],
                    )),
            decreases n - d,
        {
            let skip = self.defs[d].rules.len() == 1 && self.defs[d].rules[0].pats.len() == 0;
            if !skip {
                let ghost b_pre = *self;
                let ghost dn = old(self).defs@[d as int].name;
                proof {
                    assert(self.defs@[d as int] == old(self).defs@[d as int]);
                    assert(!one_rule_no_pats(old(self).defs@[d as int]));
                    assert(def_rules_wf(
                        old(self).defs@[d as int].rules@,
                        def_types@[d as int]@,
                        old(self).adts@,
                    ));
                }
                encode_def(self, &def_types[d], d);
                proof {
                    // a compiled definition's helpers never displace another
                    // definition that still awaits its turn, nor the output
                    // of an earlier turn
                    assert forall|e: int|
                        0 <= e < n && e != d && b_pre.defs@[e] == old(self).defs@[e] implies
                        self.defs@[e] == old(self).defs@[e] by {
                        if self.defs@[e] != b_pre.defs@[e] {
                            assert(derived_of(self.defs@[e].name, dn));
                            lemma_derived_to_extends(self.defs@[e].name, dn);
                            assert(name_extends(old(self).defs@[e].name, dn));
                            assert(false);
                        }
                    }
                    // the compiled definition itself is now a single
                    // pattern-free dispatcher
                    assert(dispatcher_at(*self, dn));
                    lemma_find_name_props(self.defs@, dn);
                    match find_name(self.defs@, dn) {
                        Some(ii) => {
                            assert(self.defs@[ii].name == dn);
                            if ii != d {
                                assert(self.defs@[d as int].name == dn);
                                assert(names_distinct(self.defs@));
                                assert(false);
                            }
                        }
                        None => {
                            lemma_find_name_some(self.defs@, dn, d as int);
                            assert(false);
                        }
                    }
                    assert(one_rule_no_pats(self.defs@[d as int]));
                    // earlier identity shapes survive this turn
                    assert forall|e: int|
                        0 <= e < d && !one_rule_no_pats(old(self).defs@[e]) && old(
                            self,
                        ).defs@[e].rules@.len() == 1 && is_irrefutable_from(
                            #[trigger] old(self).defs@[e].rules@[0].pats@,
                            0,
                        ) implies (find_name(
                            self.defs@,
                            Name::Rule(Box::new(old(self).defs@[e].name), 0usize),
                        ) matches Some(r) && body_at(*self, old(self).defs@[e].name) == Term::Ref {
                            def_id: r as usize,
                        } && single_rule_def(
                            Name::Rule(Box::new(old(self).defs@[e].name), 0usize),
                            wrap_pat_lams(
                                old(self).defs@[e].rules@[0].pats@,
                                old(self).defs@[e].rules@[0].body,
                            ),
                            self.defs@[r],
                        )) by {
                        let en = old(self).defs@[e].name;
                        let rn0 = Name::Rule(Box::new(en), 0usize);
                        lemma_find_name_stable(b_pre.defs@, self.defs@, rn0);
                        lemma_find_name_props(b_pre.defs@, rn0);
                        let r = find_name(b_pre.defs@, rn0)->Some_0;
                        assert(0 <= r < b_pre.defs@.len());
                        assert(b_pre.defs@[r].name == rn0);
                        assert(b_pre.defs@[d as int].name == dn);
                        // the extracted body's slot is untouched: its name
                        // derives from `en`, not from `dn`
                        if self.defs@[r] != b_pre.defs@[r] {
                            if r < n {
                                assert(derived_of(self.defs@[r].name, dn));
                            } else {
                                assert(derived_of(self.defs@[r].name, dn));
                            }
                            lemma_derived_to_extends(rn0, dn);
                            assert(name_extends(rn0, en)) by {
                                reveal_with_fuel(name_extends, 2);
                            }
                            lemma_extends_chain(rn0, en, dn);
                            if name_extends(en, dn) {
                                assert(false);
                            }
                            if name_extends(dn, en) {
                                assert(false);
                            }
                            assert(false);
                        }
                        // the dispatcher's slot keeps its compiled body: its
                        // name is `en`, underived from `dn`
                        assert(b_pre.defs@[e].name == en);
                        lemma_find_name_some(b_pre.defs@, en, e);
                        lemma_find_name_stable(b_pre.defs@, self.defs@, en);
                        lemma_find_name_props(b_pre.defs@, en);
                        let ei = find_name(b_pre.defs@, en)->Some_0;
                        assert(0 <= ei < b_pre.defs@.len());
                        assert(b_pre.defs@[ei].name == en);
                        if self.defs@[ei] != b_pre.defs@[ei] {
                            assert(derived_of(self.defs@[ei].name, dn));
                            assert(self.defs@[ei].name == en);
                            lemma_derived_to_extends(en, dn);
                            assert(false);
                        }
                    }
                }
            }
            d += 1;
        }
    }
}

} // verus!
