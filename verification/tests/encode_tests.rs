//! Tests for the pattern-matching encoder: structural checks on the
//! synthesized definitions, and behavioral checks that reduce the compiled
//! program with a small normalizer.

use scott_encode::book::{Adt, Book, Ctr, Def, Type};
use scott_encode::names::Name;
use scott_encode::term::{Pat, Rule, Term, VarName};

// ----- term construction helpers -----

fn v(n: u64) -> Term {
    Term::Var { nam: VarName::Source(n) }
}

fn lam(n: u64, b: Term) -> Term {
    Term::Lam { nam: Some(VarName::Source(n)), bod: Box::new(b) }
}

fn app(f: Term, a: Term) -> Term {
    Term::App { fun: Box::new(f), arg: Box::new(a) }
}

fn rf(id: usize) -> Term {
    Term::Ref { def_id: id }
}

// ----- a small call-by-name normalizer over the book -----

fn subst(t: &Term, var: VarName, val: &Term) -> Term {
    match t {
        Term::Var { nam } => {
            if *nam == var {
                val.clone()
            } else {
                Term::Var { nam: *nam }
            }
        }
        Term::Lam { nam, bod } => {
            if *nam == Some(var) {
                Term::Lam { nam: *nam, bod: bod.clone() }
            } else {
                Term::Lam { nam: *nam, bod: Box::new(subst(bod, var, val)) }
            }
        }
        Term::App { fun, arg } => app(subst(fun, var, val), subst(arg, var, val)),
        Term::Ref { def_id } => rf(*def_id),
        Term::Era => Term::Era,
    }
}

fn norm(book: &Book, t: &Term, fuel: &mut u32) -> Term {
    assert!(*fuel > 0, "normalization ran out of fuel");
    *fuel -= 1;
    match t {
        Term::App { fun, arg } => {
            let f = norm(book, fun, fuel);
            match f {
                Term::Lam { nam, bod } => {
                    let reduced = match nam {
                        Some(x) => subst(&bod, x, arg),
                        None => (*bod).clone(),
                    };
                    norm(book, &reduced, fuel)
                }
                other => {
                    let a = norm(book, arg, fuel);
                    app(other, a)
                }
            }
        }
        Term::Ref { def_id } => {
            let d = &book.defs[*def_id];
            if d.rules.len() == 1 && d.rules[0].pats.is_empty() {
                let body = d.rules[0].body.clone();
                norm(book, &body, fuel)
            } else {
                rf(*def_id)
            }
        }
        Term::Lam { nam, bod } => Term::Lam { nam: *nam, bod: Box::new(norm(book, bod, fuel)) },
        Term::Var { nam } => Term::Var { nam: *nam },
        Term::Era => Term::Era,
    }
}

fn nf(book: &Book, t: Term) -> Term {
    let mut fuel = 100_000u32;
    norm(book, &t, &mut fuel)
}

// ----- books used across the tests -----

const ZERO: u64 = 10;
const SUCC: u64 = 11;
const NIL: u64 = 30;
const CONS: u64 = 31;

/// The Scott encodings of the constructors of a natural-number type.
fn nat_ctor_defs() -> Vec<Def> {
    // Zero = \z.\s. z
    let zero = Def {
        name: Name::Source(ZERO),
        rules: vec![Rule { pats: vec![], body: lam(1, lam(2, v(1))) }],
    };
    // Succ = \n.\z.\s. (s n)
    let succ = Def {
        name: Name::Source(SUCC),
        rules: vec![Rule { pats: vec![], body: lam(3, lam(1, lam(2, app(v(2), v(3))))) }],
    };
    vec![zero, succ]
}

fn nat_adts() -> Vec<Adt> {
    vec![Adt { ctrs: vec![Ctr { name: ZERO, arity: 0 }, Ctr { name: SUCC, arity: 1 }] }]
}

fn zero_val() -> Term {
    rf(0)
}

fn succ_val(n: Term) -> Term {
    app(rf(1), n)
}

// ----- structural facts -----

#[test]
fn rule_names_are_indexed() {
    let n = scott_encode::names::make_rule_name(&Name::Source(7), 3);
    assert_eq!(n, Name::Rule(Box::new(Name::Source(7)), 3));
    assert_ne!(n, Name::Rule(Box::new(Name::Source(7)), 4));
    assert!(scott_encode::names::name_eq(&n, &Name::Rule(Box::new(Name::Source(7)), 3)));
    assert!(!scott_encode::names::name_eq(&n, &Name::Source(7)));
}

#[test]
fn next_fn_names_follow_registry_order() {
    let ctrs = vec![Ctr { name: ZERO, arity: 0 }, Ctr { name: SUCC, arity: 1 }];
    let names = scott_encode::encode::get_next_fn_names(&Name::Source(20), &ctrs);
    assert_eq!(names.len(), 2);
    assert_eq!(names[0], Name::Branch(Box::new(Name::Source(20)), ZERO));
    assert_eq!(names[1], Name::Branch(Box::new(Name::Source(20)), SUCC));
}

#[test]
fn rule_body_flattens_constructor_variables() {
    // patterns (Cons h t) y wrap the body as \h.\t.\y. body
    let pats = vec![
        Pat::Ctr(CONS, vec![Pat::Var(VarName::Source(40)), Pat::Var(VarName::Source(41))]),
        Pat::Var(VarName::Source(42)),
    ];
    let wrapped = scott_encode::encode::make_rule_body(v(99), &pats);
    assert_eq!(wrapped, lam(40, lam(41, lam(42, v(99)))));
}

#[test]
fn insert_def_overwrites_by_name_and_appends_otherwise() {
    let mut book = Book { defs: nat_ctor_defs(), adts: nat_adts() };
    assert_eq!(book.find_def(&Name::Source(ZERO)), Some(0));
    assert_eq!(book.find_def(&Name::Source(99)), None);
    book.insert_def(Name::Source(99), vec![Rule { pats: vec![], body: v(1) }]);
    assert_eq!(book.defs.len(), 3);
    assert_eq!(book.find_def(&Name::Source(99)), Some(2));
    book.insert_def(Name::Source(99), vec![Rule { pats: vec![], body: v(2) }]);
    assert_eq!(book.defs.len(), 3);
    assert_eq!(book.defs[2].rules[0].body, v(2));
}

// ----- the whole pass -----

#[test]
fn output_is_pattern_free() {
    let mut defs = nat_ctor_defs();
    defs.push(Def {
        name: Name::Source(20),
        rules: vec![
            Rule { pats: vec![Pat::Ctr(ZERO, vec![])], body: v(100) },
            Rule { pats: vec![Pat::Var(VarName::Source(5))], body: v(101) },
        ],
    });
    let mut book = Book { defs, adts: nat_adts() };
    let types = vec![vec![], vec![], vec![Type::Adt(0)]];
    book.encode_pattern_matching_functions(&types);
    for d in &book.defs {
        assert_eq!(d.rules.len(), 1);
        assert!(d.rules[0].pats.is_empty());
    }
}

#[test]
fn single_clause_identity() {
    // g x y = x y compiles to g = Ref(g$0), g$0 = \x.\y. x y
    let mut defs = nat_ctor_defs();
    defs.push(Def {
        name: Name::Source(21),
        rules: vec![Rule {
            pats: vec![Pat::Var(VarName::Source(50)), Pat::Var(VarName::Source(51))],
            body: app(v(50), v(51)),
        }],
    });
    let mut book = Book { defs, adts: nat_adts() };
    let types = vec![vec![], vec![], vec![Type::Opaque, Type::Opaque]];
    book.encode_pattern_matching_functions(&types);
    let g = book.find_def(&Name::Source(21)).unwrap();
    let body = &book.defs[g].rules[0].body;
    let rule_def = book
        .find_def(&Name::Rule(Box::new(Name::Source(21)), 0))
        .expect("extracted rule body is registered");
    assert_eq!(*body, rf(rule_def));
    assert_eq!(book.defs[rule_def].rules[0].body, lam(50, lam(51, app(v(50), v(51)))));
    // behaviorally the compiled definition binds its variables positionally
    let got = nf(&book, app(app(rf(g), v(60)), v(61)));
    assert_eq!(got, app(v(60), v(61)));
}

#[test]
fn first_match_wins_over_catch_all() {
    // f Zero = A ; f x = B — applied to Zero must reduce to A, not B
    let mut defs = nat_ctor_defs();
    defs.push(Def {
        name: Name::Source(20),
        rules: vec![
            Rule { pats: vec![Pat::Ctr(ZERO, vec![])], body: v(100) },
            Rule { pats: vec![Pat::Var(VarName::Source(5))], body: v(101) },
        ],
    });
    let mut book = Book { defs, adts: nat_adts() };
    let types = vec![vec![], vec![], vec![Type::Adt(0)]];
    book.encode_pattern_matching_functions(&types);
    let f = book.find_def(&Name::Source(20)).unwrap();
    assert_eq!(nf(&book, app(rf(f), zero_val())), v(100));
    assert_eq!(nf(&book, app(rf(f), succ_val(zero_val()))), v(101));
}

#[test]
fn branch_handlers_cover_constructors_in_registry_order() {
    // clauses list Succ before Zero; the dispatcher must still thread the
    // Zero handler first, as the registry declares
    let mut defs = nat_ctor_defs();
    defs.push(Def {
        name: Name::Source(22),
        rules: vec![
            Rule { pats: vec![Pat::Ctr(SUCC, vec![Pat::Var(VarName::Source(70))])], body: v(140) },
            Rule { pats: vec![Pat::Ctr(ZERO, vec![])], body: v(141) },
        ],
    });
    let mut book = Book { defs, adts: nat_adts() };
    let types = vec![vec![], vec![], vec![Type::Adt(0)]];
    book.encode_pattern_matching_functions(&types);
    let f = book.find_def(&Name::Source(22)).unwrap();
    match &book.defs[f].rules[0].body {
        Term::Lam { nam, bod } => {
            assert_eq!(*nam, Some(VarName::Scrut));
            match &**bod {
                Term::App { fun, arg } => {
                    // outermost application holds the last handler: Succ
                    let succ_handler = match &**arg {
                        Term::Ref { def_id } => *def_id,
                        other => panic!("expected a handler reference, got {:?}", other),
                    };
                    assert_eq!(
                        book.defs[succ_handler].name,
                        Name::Branch(Box::new(Name::Source(22)), SUCC)
                    );
                    match &**fun {
                        Term::App { fun: fun2, arg: arg2 } => {
                            let zero_handler = match &**arg2 {
                                Term::Ref { def_id } => *def_id,
                                other => panic!("expected a handler reference, got {:?}", other),
                            };
                            assert_eq!(
                                book.defs[zero_handler].name,
                                Name::Branch(Box::new(Name::Source(22)), ZERO)
                            );
                            assert_eq!(**fun2, Term::Var { nam: VarName::Scrut });
                        }
                        other => panic!("expected two handler slots, got {:?}", other),
                    }
                }
                other => panic!("expected applications of the scrutinee, got {:?}", other),
            }
        }
        other => panic!("expected a scrutinee lambda, got {:?}", other),
    }
    // and each handler is reached by its own constructor
    assert_eq!(nf(&book, app(rf(f), zero_val())), v(141));
    assert_eq!(nf(&book, app(rf(f), succ_val(zero_val()))), v(140));
}

fn list_book() -> (Book, usize) {
    // Nil = \cn.\cc. cn ; Cons = \h.\t.\cn.\cc. cc h t
    let nil = Def {
        name: Name::Source(NIL),
        rules: vec![Rule { pats: vec![], body: lam(1, lam(2, v(1))) }],
    };
    let cons = Def {
        name: Name::Source(CONS),
        rules: vec![Rule {
            pats: vec![],
            body: lam(3, lam(4, lam(1, lam(2, app(app(v(2), v(3)), v(4)))))),
        }],
    };
    // f (Cons h t) = A h t ; f y = B y
    let f = Def {
        name: Name::Source(23),
        rules: vec![
            Rule {
                pats: vec![Pat::Ctr(
                    CONS,
                    vec![Pat::Var(VarName::Source(40)), Pat::Var(VarName::Source(41))],
                )],
                body: app(app(v(130), v(40)), v(41)),
            },
            Rule { pats: vec![Pat::Var(VarName::Source(42))], body: app(v(131), v(42)) },
        ],
    };
    let mut book = Book {
        defs: vec![nil, cons, f],
        adts: vec![Adt { ctrs: vec![Ctr { name: NIL, arity: 0 }, Ctr { name: CONS, arity: 2 }] }],
    };
    let types = vec![vec![], vec![], vec![Type::Adt(0)]];
    book.encode_pattern_matching_functions(&types);
    let f_id = book.find_def(&Name::Source(23)).unwrap();
    (book, f_id)
}

#[test]
fn matched_fields_are_passed_through() {
    // f (Cons 1 2) reduces as A 1 2
    let (book, f) = list_book();
    let cons_12 = app(app(rf(1), v(201)), v(202));
    let got = nf(&book, app(rf(f), cons_12));
    assert_eq!(got, app(app(v(130), v(201)), v(202)));
}

#[test]
fn unmatched_constructor_is_reconstructed() {
    // f Nil reduces as B Nil, with a freshly rebuilt Nil value
    let (book, f) = list_book();
    let got = nf(&book, app(rf(f), rf(0)));
    let expected = nf(&book, app(v(131), rf(0)));
    assert_eq!(got, expected);
    // the argument handed to B is a whole Scott-encoded Nil, not a raw field
    match got {
        Term::App { fun, arg } => {
            assert_eq!(*fun, v(131));
            assert_eq!(*arg, lam(1, lam(2, v(1))));
        }
        other => panic!("expected an application of B, got {:?}", other),
    }
}

#[test]
fn full_application_reaches_exactly_one_rule_body() {
    // f x Zero = x ; f x (Succ n) = n — a skipped position followed by a
    // branched one; fully applied, the compiled definition leaves no
    // partially applied dispatcher behind
    let mut defs = nat_ctor_defs();
    defs.push(Def {
        name: Name::Source(24),
        rules: vec![
            Rule {
                pats: vec![Pat::Var(VarName::Source(80)), Pat::Ctr(ZERO, vec![])],
                body: v(80),
            },
            Rule {
                pats: vec![
                    Pat::Var(VarName::Source(80)),
                    Pat::Ctr(SUCC, vec![Pat::Var(VarName::Source(81))]),
                ],
                body: v(81),
            },
        ],
    });
    let mut book = Book { defs, adts: nat_adts() };
    let types = vec![vec![], vec![], vec![Type::Opaque, Type::Adt(0)]];
    book.encode_pattern_matching_functions(&types);
    let f = book.find_def(&Name::Source(24)).unwrap();
    let got = nf(&book, app(app(rf(f), v(300)), zero_val()));
    assert_eq!(got, v(300));
    let got2 = nf(&book, app(app(rf(f), v(300)), succ_val(zero_val())));
    assert_eq!(got2, nf(&book, zero_val()));
}

#[test]
fn nested_branches_respect_first_match() {
    // f Zero Zero = A ; f Zero (Succ n) = B ; f (Succ m) y = C
    let mut defs = nat_ctor_defs();
    defs.push(Def {
        name: Name::Source(25),
        rules: vec![
            Rule { pats: vec![Pat::Ctr(ZERO, vec![]), Pat::Ctr(ZERO, vec![])], body: v(150) },
            Rule {
                pats: vec![
                    Pat::Ctr(ZERO, vec![]),
                    Pat::Ctr(SUCC, vec![Pat::Var(VarName::Source(82))]),
                ],
                body: v(151),
            },
            Rule {
                pats: vec![
                    Pat::Ctr(SUCC, vec![Pat::Var(VarName::Source(83))]),
                    Pat::Var(VarName::Source(84)),
                ],
                body: v(152),
            },
        ],
    });
    let mut book = Book { defs, adts: nat_adts() };
    let types = vec![vec![], vec![], vec![Type::Adt(0), Type::Adt(0)]];
    book.encode_pattern_matching_functions(&types);
    let f = book.find_def(&Name::Source(25)).unwrap();
    let z = zero_val;
    assert_eq!(nf(&book, app(app(rf(f), z()), z())), v(150));
    assert_eq!(nf(&book, app(app(rf(f), z()), succ_val(z()))), v(151));
    assert_eq!(nf(&book, app(app(rf(f), succ_val(z())), z())), v(152));
    assert_eq!(nf(&book, app(app(rf(f), succ_val(z())), succ_val(z()))), v(152));
}

#[test]
fn catch_all_is_carried_into_every_branch() {
    // a three-constructor type; the catch-all clause must be reachable
    // through the two branches whose constructors no clause names
    const RED: u64 = 50;
    const GREEN: u64 = 51;
    const BLUE: u64 = 52;
    let mk_ctor = |name: u64| Def {
        name: Name::Source(name),
        rules: vec![Rule { pats: vec![], body: lam(1, lam(2, lam(3, v(1 + name - RED)))) }],
    };
    // f Green = A ; f x = B x
    let f = Def {
        name: Name::Source(28),
        rules: vec![
            Rule { pats: vec![Pat::Ctr(GREEN, vec![])], body: v(170) },
            Rule { pats: vec![Pat::Var(VarName::Source(95))], body: app(v(171), v(95)) },
        ],
    };
    let mut book = Book {
        defs: vec![mk_ctor(RED), mk_ctor(GREEN), mk_ctor(BLUE), f],
        adts: vec![Adt {
            ctrs: vec![
                Ctr { name: RED, arity: 0 },
                Ctr { name: GREEN, arity: 0 },
                Ctr { name: BLUE, arity: 0 },
            ],
        }],
    };
    let types = vec![vec![], vec![], vec![], vec![Type::Adt(0)]];
    book.encode_pattern_matching_functions(&types);
    let f = book.find_def(&Name::Source(28)).unwrap();
    assert_eq!(nf(&book, app(rf(f), rf(1))), v(170));
    let red = nf(&book, app(rf(f), rf(0)));
    let blue = nf(&book, app(rf(f), rf(2)));
    assert_eq!(red, nf(&book, app(v(171), rf(0))));
    assert_eq!(blue, nf(&book, app(v(171), rf(2))));
}

#[test]
fn pass_is_idempotent_on_compiled_programs() {
    // a book whose definitions are all single-clause and pattern-free is
    // left exactly as it is
    let make = || {
        let mut defs = nat_ctor_defs();
        defs.push(Def {
            name: Name::Source(26),
            rules: vec![Rule { pats: vec![], body: app(rf(0), v(1)) }],
        });
        Book { defs, adts: nat_adts() }
    };
    let mut book = make();
    let types = vec![vec![], vec![], vec![]];
    book.encode_pattern_matching_functions(&types);
    assert_eq!(book, make());
    // and running the pass on its own output changes nothing further
    let mut defs = nat_ctor_defs();
    defs.push(Def {
        name: Name::Source(20),
        rules: vec![
            Rule { pats: vec![Pat::Ctr(ZERO, vec![])], body: v(100) },
            Rule { pats: vec![Pat::Var(VarName::Source(5))], body: v(101) },
        ],
    });
    let mut book = Book { defs, adts: nat_adts() };
    let types = vec![vec![], vec![], vec![Type::Adt(0)]];
    book.encode_pattern_matching_functions(&types);
    let first = format!("{:?}", book);
    let n = book.defs.len();
    let types2: Vec<Vec<Type>> = (0..n).map(|_| vec![]).collect();
    book.encode_pattern_matching_functions(&types2);
    assert_eq!(format!("{:?}", book), first);
}

#[test]
fn skipped_positions_share_one_dispatcher() {
    // f a b Zero = A ; f a b (Succ n) = B — the two leading opaque
    // positions are absorbed into the root dispatcher, which still takes
    // all three arguments
    let mut defs = nat_ctor_defs();
    defs.push(Def {
        name: Name::Source(27),
        rules: vec![
            Rule {
                pats: vec![
                    Pat::Var(VarName::Source(90)),
                    Pat::Var(VarName::Source(91)),
                    Pat::Ctr(ZERO, vec![]),
                ],
                body: app(v(160), v(90)),
            },
            Rule {
                pats: vec![
                    Pat::Var(VarName::Source(90)),
                    Pat::Var(VarName::Source(91)),
                    Pat::Ctr(SUCC, vec![Pat::Var(VarName::Source(92))]),
                ],
                body: app(v(161), v(91)),
            },
        ],
    });
    let mut book = Book { defs, adts: nat_adts() };
    let types = vec![vec![], vec![], vec![Type::Opaque, Type::Opaque, Type::Adt(0)]];
    book.encode_pattern_matching_functions(&types);
    let f = book.find_def(&Name::Source(27)).unwrap();
    let got = nf(&book, app(app(app(rf(f), v(301)), v(302)), zero_val()));
    assert_eq!(got, app(v(160), v(301)));
    let got2 = nf(&book, app(app(app(rf(f), v(301)), v(302)), succ_val(zero_val())));
    assert_eq!(got2, app(v(161), v(302)));
}
