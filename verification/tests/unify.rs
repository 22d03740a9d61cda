use sniffer::ast::Term;
use sniffer::identifiers::Identifier;
use sniffer::unify::UnificationGraph;

fn var(i: usize) -> Term<Identifier> {
    Term::Variable { symbol: Identifier::Variable(i) }
}

fn fun(i: usize, parameters: Vec<Term<Identifier>>) -> Term<Identifier> {
    Term::Function { symbol: Identifier::Function(i), parameters }
}

#[test]
fn contains_test() {
    let test_var_term = Term::Variable {
        symbol: Identifier::Variable(0),
    };
    let test_fun_term = Term::Function {
        symbol: Identifier::Function(0),
        parameters: vec![
            Term::Variable {
                symbol: Identifier::Variable(1),
            },
            Term::Function {
                symbol: Identifier::Function(1),
                parameters: vec![Term::Variable {
                    symbol: Identifier::Variable(0),
                }],
            },
            Term::Variable {
                symbol: Identifier::Variable(3),
            },
        ],
    };

    let mut context = UnificationGraph::default();

    assert!(test_var_term.contains(
        &Term::Variable {
            symbol: Identifier::Variable(0)
        },
        &mut context
    ));
    assert!(!test_var_term.contains(
        &Term::Variable {
            symbol: Identifier::Variable(12)
        },
        &mut context
    ));

    assert!(test_fun_term.contains(
        &Term::Variable {
            symbol: Identifier::Variable(1)
        },
        &mut context
    ));
    assert!(test_fun_term.contains(
        &Term::Variable {
            symbol: Identifier::Variable(0)
        },
        &mut context
    ));
    assert!(test_fun_term.contains(
        &Term::Variable {
            symbol: Identifier::Variable(3)
        },
        &mut context
    ));
    assert!(!test_fun_term.contains(
        &Term::Variable {
            symbol: Identifier::Variable(12)
        },
        &mut context
    ));
}

#[test]
fn unify_tautology_const_test() {
    let var = Term::Function {
        symbol: Identifier::Function(0),
        parameters: vec![],
    };
    let var_copy = var.clone();

    assert!(var.unify(&var_copy).is_some());
}

#[test]
fn unify_tautology_var_test() {
    let var = Term::Variable {
        symbol: Identifier::Variable(0),
    };
    let var_copy = var.clone();

    let mut _context = UnificationGraph::default();
    assert!(var.unify(&var_copy).is_some());
}

#[test]
fn unify_diff_const_test() {
    let x = Term::Function {
        symbol: Identifier::Function(0),
        parameters: vec![],
    };
    let y = Term::Function {
        symbol: Identifier::Function(1),
        parameters: vec![],
    };
    assert!(x.unify(&y).is_none())
}

#[test]
fn unify_const_assign_test() {
    let var = Term::Variable {
        symbol: Identifier::Variable(0),
    };
    let cst = Term::Function {
        symbol: Identifier::Function(0),
        parameters: vec![],
    };

    let bindings = var.unify(&cst);
    assert!(bindings.is_some());
    assert_eq!(
        bindings.unwrap().get(&Term::Variable {
            symbol: Identifier::Variable(0)
        }),
        Some(&Term::Function {
            symbol: Identifier::Function(0),
            parameters: vec![]
        })
    );
}

#[test]
fn unify_aliasing_test() {
    let x = Term::Variable {
        symbol: Identifier::Variable(0),
    };
    let y = Term::Variable {
        symbol: Identifier::Variable(1),
    };

    let bindings = x.unify(&y);
    assert!(bindings.is_some());
    assert_eq!(
        bindings.unwrap().get(&Term::Variable {
            symbol: Identifier::Variable(0)
        }),
        Some(&Term::Variable {
            symbol: Identifier::Variable(1)
        })
    );
}

#[test]
fn unify_function_test() {
    let complete_fun = Term::Function {
        symbol: Identifier::Function(0),
        parameters: vec![
            Term::Function {
                symbol: Identifier::Function(1),
                parameters: vec![],
            },
            Term::Function {
                symbol: Identifier::Function(2),
                parameters: vec![],
            },
        ],
    };
    let incomplete_fun = Term::Function {
        symbol: Identifier::Function(0),
        parameters: vec![
            Term::Function {
                symbol: Identifier::Function(1),
                parameters: vec![],
            },
            Term::Variable {
                symbol: Identifier::Variable(0),
            },
        ],
    };

    let bindings = incomplete_fun.unify(&complete_fun);
    assert!(bindings.is_some());
    assert_eq!(
        bindings.unwrap().get(&Term::Variable {
            symbol: Identifier::Variable(0)
        }),
        Some(&Term::Function {
            symbol: Identifier::Function(2),
            parameters: vec![]
        })
    );
}

#[test]
fn unify_diff_function_test() {
    let x = Term::Function {
        symbol: Identifier::Function(0),
        parameters: vec![Term::Function {
            symbol: Identifier::Function(1),
            parameters: vec![],
        }],
    };
    let y = Term::Function {
        symbol: Identifier::Function(2),
        parameters: vec![Term::Function {
            symbol: Identifier::Function(1),
            parameters: vec![],
        }],
    };

    assert!(x.unify(&y).is_none());
}

#[test]
fn unify_function_param_aliasing_test() {
    let x = Term::Function {
        symbol: Identifier::Function(0),
        parameters: vec![Term::Variable {
            symbol: Identifier::Variable(0),
        }],
    };
    let y = Term::Function {
        symbol: Identifier::Function(0),
        parameters: vec![Term::Variable {
            symbol: Identifier::Variable(1),
        }],
    };

    let bindings = x.unify(&y);
    assert!(bindings.is_some());
    assert_eq!(
        bindings.unwrap().get(&Term::Variable {
            symbol: Identifier::Variable(0)
        }),
        Some(&Term::Variable {
            symbol: Identifier::Variable(1)
        })
    );
}

#[test]
fn unify_function_diff_arity_test() {
    let unary_fun = Term::Function {
        symbol: Identifier::Function(0),
        parameters: vec![Term::Variable {
            symbol: Identifier::Variable(0),
        }],
    };
    let binary_fun = Term::Function {
        symbol: Identifier::Function(0),
        parameters: vec![
            Term::Variable {
                symbol: Identifier::Variable(1),
            },
            Term::Variable {
                symbol: Identifier::Variable(2),
            },
        ],
    };

    assert!(unary_fun.unify(&binary_fun).is_none());
}

#[test]
fn unify_inner_function_test() {
    let nested_fun = Term::Function {
        symbol: Identifier::Function(0),
        parameters: vec![Term::Function {
            symbol: Identifier::Function(1),
            parameters: vec![Term::Variable {
                symbol: Identifier::Variable(0),
            }],
        }],
    };
    let fun = Term::Function {
        symbol: Identifier::Function(0),
        parameters: vec![Term::Variable {
            symbol: Identifier::Variable(1),
        }],
    };

    let bindings = nested_fun.unify(&fun);
    assert!(bindings.is_some());
    assert_eq!(
        bindings.unwrap().get(&Term::Variable {
            symbol: Identifier::Variable(1)
        }),
        Some(&Term::Function {
            symbol: Identifier::Function(1),
            parameters: vec![Term::Variable {
                symbol: Identifier::Variable(0)
            }]
        })
    );
}

#[test]
fn unify_same_term_binds_nothing() {
    let t = fun(0, vec![var(0), fun(1, vec![var(1)])]);
    let bindings = t.unify(&t.clone()).unwrap();
    assert_eq!(bindings.len(), 0);
}

#[test]
fn unify_occurs_check_fails() {
    let x = var(0);
    let fx = fun(0, vec![var(0)]);
    assert!(x.unify(&fx).is_none());
    assert!(fx.unify(&x).is_none());
    // the variable sits two applications of the same symbol deep
    let ffx = fun(0, vec![fun(0, vec![var(0)])]);
    assert!(x.unify(&ffx).is_none());
}

#[test]
fn unify_head_mismatch_fails() {
    assert!(fun(0, vec![var(0)]).unify(&fun(1, vec![var(0)])).is_none());
}

#[test]
fn unifier_makes_both_sides_equal_and_is_idempotent() {
    // f(X, g(Y), Z) with f(g(Y), X, h(X))
    let s = fun(0, vec![var(0), fun(1, vec![var(1)]), var(2)]);
    let t = fun(0, vec![fun(1, vec![var(1)]), var(0), fun(2, vec![var(0)])]);
    let sigma = s.unify(&t).unwrap();
    let s1 = s.apply(&sigma);
    let t1 = t.apply(&sigma);
    assert_eq!(s1, t1);
    assert_eq!(s1.apply(&sigma), s1);
    let g_y = fun(1, vec![var(1)]);
    assert_eq!(s1, fun(0, vec![g_y.clone(), g_y.clone(), fun(2, vec![g_y])]));
}

#[test]
fn every_unifier_is_an_instance_of_the_computed_one() {
    // f(X, g(Y)) with f(Z, Z): the computed unifier binds Z and X to g(Y)
    let s = fun(0, vec![var(0), fun(1, vec![var(1)])]);
    let t = fun(0, vec![var(2), var(2)]);
    let sigma = s.unify(&t).unwrap();
    // tau makes Y a constant as well
    let c = fun(7, vec![]);
    let g_c = fun(1, vec![c.clone()]);
    let mut graph = UnificationGraph::default();
    assert!(graph.bind(Identifier::Variable(1), c));
    assert!(graph.bind(Identifier::Variable(0), g_c.clone()));
    assert!(graph.bind(Identifier::Variable(2), g_c));
    let tau = graph.bindings();
    assert_eq!(s.apply(&tau), t.apply(&tau));
    // applying sigma first makes no difference to tau
    for x in 0..3 {
        assert_eq!(var(x).apply(&sigma).apply(&tau), var(x).apply(&tau));
    }
}

#[test]
fn variables_bound_to_one_another_are_told_apart_from_others() {
    // f(X, X, Z, Z) with f(Y, Y, X, Y): the second and the fourth pair
    // are of variables that stand for the same term already
    let s = fun(0, vec![var(0), var(0), var(2), var(2)]);
    let t = fun(0, vec![var(1), var(1), var(0), var(1)]);
    let sigma = s.unify(&t).unwrap();
    assert_eq!(s.apply(&sigma), t.apply(&sigma));
    let image = var(0).apply(&sigma);
    assert_eq!(var(1).apply(&sigma), image);
    assert_eq!(var(2).apply(&sigma), image);
    assert_eq!(sigma.len(), 2);
    // a graph tells the same
    let mut graph = UnificationGraph::default();
    graph.union(var(5), var(6));
    graph.union(var(7), var(6));
    graph.union(var(5), var(7));
    assert_eq!(graph.deref(&var(5)), var(6));
    assert_eq!(graph.deref(&var(7)), var(6));
    assert_eq!(graph.bindings().len(), 2);
}
