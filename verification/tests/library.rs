use term_rewriting::boolean_rules::boolean_rules;
use term_rewriting::rewriter::{do_rewrite_step, Rewriter};
use term_rewriting::term::{Rule, Term};
use term_rewriting::text::str_eq;

fn leaf(name: &'static str) -> Term<'static> {
    Term::Leaf(name)
}

fn node(operator: &'static str, children: Vec<Term<'static>>) -> Term<'static> {
    Term::Node { operator, children }
}

fn rule(lhs: Term<'static>, rhs: Term<'static>) -> Rule<'static> {
    Rule { lhs, rhs }
}

fn evaluate(term: Term<'static>) -> Term<'static> {
    let mut rewriter = Rewriter::new(term, boolean_rules());
    rewriter.do_traversal();
    rewriter.term
}

#[test]
fn str_eq_compares_characters() {
    assert!(str_eq("true", "true"));
    assert!(!str_eq("true", "false"));
    assert!(!str_eq("and", "not"));
    assert!(!str_eq("or", "ord"));
    assert!(str_eq("", ""));
    assert!(str_eq("é", "é"));
    assert!(!str_eq("é", "e"));
}

#[test]
fn arity_of_leaf_and_node() {
    assert_eq!(leaf("x").arity(), 1);
    assert_eq!(node("f", vec![]).arity(), 0);
    assert_eq!(node("f", vec![leaf("a"), leaf("b")]).arity(), 2);
}

#[test]
fn arity_is_narrowed_to_a_byte() {
    let mut children = Vec::new();
    for _ in 0..300 {
        children.push(leaf("a"));
    }
    assert_eq!(node("f", children).arity(), 44);
}

#[test]
fn equivalent_compares_leaves_only() {
    assert!(leaf("true").equivalent(&leaf("true")));
    assert!(!leaf("true").equivalent(&leaf("false")));
    assert!(!leaf("true").equivalent(&node("not", vec![leaf("true")])));
    assert!(!node("not", vec![leaf("true")]).equivalent(&leaf("true")));
}

#[test]
fn extract_key_is_the_operator_of_the_left_hand_side() {
    let r = rule(node("add", vec![leaf("0"), leaf("$X")]), leaf("X"));
    assert_eq!(r.extract_key(), "add");
}

#[test]
fn duplicate_and_clone_keep_the_term() {
    let t = node("or", vec![leaf("true"), node("not", vec![leaf("false")])]);
    assert_eq!(t.duplicate(), t);
    assert_eq!(t.clone(), t);
    let r = rule(node("not", vec![leaf("true")]), leaf("false"));
    let c = r.duplicate();
    assert_eq!(c.lhs, r.lhs);
    assert_eq!(c.rhs, r.rhs);
}

#[test]
fn a_leaf_has_no_step() {
    let rewriter = Rewriter::new(leaf("true"), boolean_rules());
    assert_eq!(rewriter.try_rewrite(leaf("true")), None);
}

#[test]
fn a_matching_rule_gives_its_right_hand_side() {
    let rewriter = Rewriter::new(leaf("true"), boolean_rules());
    let t = node("and", vec![leaf("true"), leaf("false")]);
    assert_eq!(rewriter.try_rewrite(t), Some(leaf("false")));
    let t = node("or", vec![leaf("false"), leaf("true")]);
    assert_eq!(rewriter.try_rewrite(t), Some(leaf("true")));
    let t = node("not", vec![leaf("false")]);
    assert_eq!(rewriter.try_rewrite(t), Some(leaf("true")));
}

#[test]
fn without_a_match_each_child_takes_one_step() {
    let rewriter = Rewriter::new(leaf("true"), boolean_rules());
    let t = node(
        "and",
        vec![node("not", vec![leaf("false")]), node("or", vec![leaf("false"), leaf("false")])],
    );
    let expected = node("and", vec![leaf("true"), leaf("false")]);
    assert_eq!(rewriter.try_rewrite(t), Some(expected));
    let t = node("not", vec![node("and", vec![leaf("true"), node("not", vec![leaf("true")])])]);
    let expected = node("not", vec![node("and", vec![leaf("true"), leaf("false")])]);
    assert_eq!(rewriter.try_rewrite(t), Some(expected));
}

#[test]
fn unknown_leaves_leave_the_term_unchanged() {
    let rewriter = Rewriter::new(leaf("true"), boolean_rules());
    let t = node("or", vec![leaf("yes"), leaf("no")]);
    assert_eq!(rewriter.try_rewrite(t), Some(node("or", vec![leaf("yes"), leaf("no")])));
}

#[test]
fn the_first_matching_rule_wins() {
    let rules = vec![
        rule(node("g", vec![leaf("b")]), leaf("1")),
        rule(node("f", vec![leaf("a")]), leaf("2")),
        rule(node("g", vec![leaf("a")]), leaf("3")),
        rule(node("g", vec![leaf("a")]), leaf("4")),
    ];
    let rewriter = Rewriter::new(leaf("a"), rules);
    assert_eq!(rewriter.try_rewrite(node("g", vec![leaf("a")])), Some(leaf("3")));
    assert_eq!(rewriter.try_rewrite(node("g", vec![leaf("b")])), Some(leaf("1")));
    assert_eq!(rewriter.try_rewrite(node("f", vec![leaf("a")])), Some(leaf("2")));
}

#[test]
fn a_rule_is_compared_over_the_children_of_the_term() {
    // The term has fewer children than the rule's left-hand side; only the
    // term's children are compared.
    let rules = vec![rule(node("and", vec![leaf("true"), leaf("false")]), leaf("false"))];
    let rewriter = Rewriter::new(leaf("a"), rules);
    assert_eq!(rewriter.try_rewrite(node("and", vec![leaf("true")])), Some(leaf("false")));
    assert_eq!(rewriter.try_rewrite(node("and", vec![])), Some(leaf("false")));
}

#[test]
fn traversal_stops_at_a_leaf() {
    let mut rewriter = Rewriter::new(leaf("done"), boolean_rules());
    rewriter.do_traversal();
    assert_eq!(rewriter.term, leaf("done"));
}

#[test]
fn boolean_rules_give_the_truth_tables() {
    let value = |b: bool| if b { leaf("true") } else { leaf("false") };
    let name = |b: bool| if b { "true" } else { "false" };
    for x in [true, false] {
        assert_eq!(evaluate(node("not", vec![leaf(name(x))])), value(!x));
        for y in [true, false] {
            assert_eq!(evaluate(node("and", vec![leaf(name(x)), leaf(name(y))])), value(x && y));
            assert_eq!(evaluate(node("or", vec![leaf(name(x)), leaf(name(y))])), value(x || y));
        }
    }
}

#[test]
fn boolean_rules_evaluate_a_deep_expression() {
    // not(and(or(not(true), and(true, true)), not(or(false, not(true)))))
    let t = node(
        "not",
        vec![node(
            "and",
            vec![
                node("or", vec![node("not", vec![leaf("true")]), node("and", vec![leaf("true"), leaf("true")])]),
                node("not", vec![node("or", vec![leaf("false"), node("not", vec![leaf("true")])])]),
            ],
        )],
    );
    assert_eq!(evaluate(t), leaf("false"));
}

#[test]
fn boolean_rules_are_the_ten_rules_in_order() {
    let rules = boolean_rules();
    assert_eq!(rules.len(), 10);
    assert_eq!(rules[0].lhs, node("or", vec![leaf("true"), leaf("true")]));
    assert_eq!(rules[0].rhs, leaf("true"));
    assert_eq!(rules[3].lhs, node("or", vec![leaf("false"), leaf("false")]));
    assert_eq!(rules[3].rhs, leaf("false"));
    assert_eq!(rules[5].lhs, node("and", vec![leaf("true"), leaf("false")]));
    assert_eq!(rules[5].rhs, leaf("false"));
    assert_eq!(rules[8].lhs, node("not", vec![leaf("true")]));
    assert_eq!(rules[8].rhs, leaf("false"));
    assert_eq!(rules[9].lhs, node("not", vec![leaf("false")]));
    assert_eq!(rules[9].rhs, leaf("true"));
}

#[test]
fn rewrite_step_sketch_changes_nothing() {
    do_rewrite_step(
        node("add", vec![leaf("0"), leaf("0")]),
        node("add", vec![leaf("0"), leaf("$X")]),
        leaf("$X"),
    );
}
