use term_rewriting::boolean_rules::boolean_rules;
use term_rewriting::rewriter::Rewriter;
use term_rewriting::term::{Rule, Term};

fn assert_rewrites_to(initial_term: Term<'static>, expected: Term<'static>) {
    let rules = boolean_rules();
    let mut rewriter = Rewriter::new(initial_term, rules);
    rewriter.do_traversal();
    assert_eq!(rewriter.term, expected);
}

#[test]
fn boolean_rules_initialization() {
    // // not(or(false, and(true,not(false))))  ->>  false
    let initial_term = Term::Node {
        operator: "not",
        children: vec![Term::Node {
            operator: "or",
            children: vec![
                Term::Leaf("false"),
                Term::Node {
                    operator: "and",
                    children: vec![
                        Term::Leaf("true"),
                        Term::Node {
                            operator: "not",
                            children: vec![Term::Leaf("false")],
                        },
                    ],
                },
            ],
        }],
    };

    let expected = Term::Leaf("false");
    assert_rewrites_to(initial_term, expected);
}

#[test]
fn boolean_rules_and_false_not_true() {
    // and(false, not(true))
    let initial_term = Term::Node {
        operator: "and",
        children: vec![
            Term::Leaf("false"),
            Term::Node {
                operator: "not",
                children: vec![Term::Leaf("true")],
            },
        ],
    };

    let expected = Term::Leaf("false");
    assert_rewrites_to(initial_term, expected);
}

#[test]
fn boolean_rules_simple_or_and_not_cases() {
    // or(false, true) = true
    let or_ft = Term::Node {
        operator: "or",
        children: vec![Term::Leaf("false"), Term::Leaf("true")],
    };
    assert_rewrites_to(or_ft, Term::Leaf("true"));

    // and(true, false) = false
    let and_tf = Term::Node {
        operator: "and",
        children: vec![Term::Leaf("true"), Term::Leaf("false")],
    };
    assert_rewrites_to(and_tf, Term::Leaf("false"));

    // not(false) = true
    let not_f = Term::Node {
        operator: "not",
        children: vec![Term::Leaf("false")],
    };
    assert_rewrites_to(not_f, Term::Leaf("true"));
}

#[test]
fn boolean_rules_nested_or_and_not_1() {
    // or(and(true, false), not(false))  ==>  or(false, true)  ==>  true
    let initial_term = Term::Node {
        operator: "or",
        children: vec![
            Term::Node {
                operator: "and",
                children: vec![Term::Leaf("true"), Term::Leaf("false")],
            },
            Term::Node {
                operator: "not",
                children: vec![Term::Leaf("false")],
            },
        ],
    };

    assert_rewrites_to(initial_term, Term::Leaf("true"));
}

#[test]
fn boolean_rules_nested_or_and_not_2() {
    // not(and(or(true, false), not(false)))
    // or(true, false)  ==>  true
    // not(false)       ==>  true
    // and(true, true)  ==>  true
    // not(true)        ==>  false
    let initial_term = Term::Node {
        operator: "not",
        children: vec![Term::Node {
            operator: "and",
            children: vec![
                Term::Node {
                    operator: "or",
                    children: vec![Term::Leaf("true"), Term::Leaf("false")],
                },
                Term::Node {
                    operator: "not",
                    children: vec![Term::Leaf("false")],
                },
            ],
        }],
    };

    assert_rewrites_to(initial_term, Term::Leaf("false"));
}

#[test]
fn boolean_rules_nested_or_and_not_3() {
    // and(or(false, false), not(or(false, false)))
    // or(false, false)      ==> false
    // not(or(false, false)) ==> not(false) ==> true
    // and(false, true)      ==> false
    let initial_term = Term::Node {
        operator: "and",
        children: vec![
            Term::Node {
                operator: "or",
                children: vec![Term::Leaf("false"), Term::Leaf("false")],
            },
            Term::Node {
                operator: "not",
                children: vec![Term::Node {
                    operator: "or",
                    children: vec![Term::Leaf("false"), Term::Leaf("false")],
                }],
            },
        ],
    };

    assert_rewrites_to(initial_term, Term::Leaf("false"));
}

#[test]
fn arithmetic_rules_initialization() {
    // add(S(0), S(S(0)))
    let initial_term = Term::Node {
        operator: "add",
        children: vec![
            Term::Node {
                operator: "succ",
                children: vec![Term::Leaf("0")],
            },
            Term::Node {
                operator: "succ",
                children: vec![Term::Node {
                    operator: "succ",
                    children: vec![Term::Leaf("0")],
                }],
            },
        ],
    };

    // add(S(X), Y) -> S(add(X, Y))
    let rule_1 = Rule {
        lhs: Term::Node {
            operator: "add",
            children: vec![
                Term::Node {
                    operator: "succ",
                    children: vec![Term::Leaf("$X")],
                },
                Term::Leaf("Y"),
            ],
        },
        rhs: Term::Node {
            operator: "succ",
            children: vec![Term::Node {
                operator: "add",
                children: vec![Term::Leaf("$X"), Term::Leaf("$Y")],
            }],
        },
    };

    // add(0, X) -> X
    let rule_2 = Rule {
        lhs: Term::Node {
            operator: "add",
            // NOTE: "0" - is a constant here
            children: vec![Term::Leaf("0"), Term::Leaf("$X")],
        },
        rhs: Term::Leaf("X"),
    };

    let rules = vec![rule_1, rule_2];

    let _rewriter = Rewriter::new(initial_term, rules);
}
