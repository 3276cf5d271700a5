//! The rewrite rules of boolean logic over the constants `true` and `false`.
use vstd::prelude::*;

use crate::rewriter::rule_models;
use crate::term::{Rule, RuleModel, Term, TermModel};

verus! {

/// The rule `op(a, b) -> r` over leaves.
pub open spec fn binary_rule_model(op: Seq<char>, a: Seq<char>, b: Seq<char>, r: Seq<char>) -> RuleModel {
    RuleModel {
        lhs: TermModel::Node(op, seq![TermModel::Leaf(a), TermModel::Leaf(b)]),
        rhs: TermModel::Leaf(r),
    }
}

/// The rule `op(a) -> r` over leaves.
pub open spec fn unary_rule_model(op: Seq<char>, a: Seq<char>, r: Seq<char>) -> RuleModel {
    RuleModel { lhs: TermModel::Node(op, seq![TermModel::Leaf(a)]), rhs: TermModel::Leaf(r) }
}

/// The rules for `or`: or(true, true) = true, or(true, false) = true,
/// or(false, true) = true, or(false, false) = false.
pub open spec fn or_rule_models() -> Seq<RuleModel> {
    seq![
        binary_rule_model("or"@, "true"@, "true"@, "true"@),
        binary_rule_model("or"@, "true"@, "false"@, "true"@),
        binary_rule_model("or"@, "false"@, "true"@, "true"@),
        binary_rule_model("or"@, "false"@, "false"@, "false"@),
    ]
}

/// The rules for `and`: and(true, true) = true, and(true, false) = false,
/// and(false, true) = false, and(false, false) = false.
pub open spec fn and_rule_models() -> Seq<RuleModel> {
    seq![
        binary_rule_model("and"@, "true"@, "true"@, "true"@),
        binary_rule_model("and"@, "true"@, "false"@, "false"@),
        binary_rule_model("and"@, "false"@, "true"@, "false"@),
        binary_rule_model("and"@, "false"@, "false"@, "false"@),
    ]
}

/// The rules for `not`: not(true) = false, not(false) = true.
pub open spec fn not_rule_models() -> Seq<RuleModel> {
    seq![unary_rule_model("not"@, "true"@, "false"@), unary_rule_model("not"@, "false"@, "true"@)]
}

/// The ten boolean rules, in order: those for `or`, then `and`, then `not`.
pub open spec fn boolean_rule_models() -> Seq<RuleModel> {
    or_rule_models() + and_rule_models() + not_rule_models()
}

fn binary_rule(op: &'static str, a: &'static str, b: &'static str, r: &'static str) -> (rule: Rule<
    'static,
>)
    ensures
        rule@ == binary_rule_model(op@, a@, b@, r@),
        rule.lhs is Node,
{
    let mut children: Vec<Term<'static>> = Vec::new();
    children.push(Term::Leaf(a));
    children.push(Term::Leaf(b));
    assert(children@[0]@ == TermModel::Leaf(a@));
    assert(children@[1]@ == TermModel::Leaf(b@));
    let rule = Rule { lhs: Term::Node { operator: op, children }, rhs: Term::Leaf(r) };
    assert(rule@.lhs.children() =~= seq![TermModel::Leaf(a@), TermModel::Leaf(b@)]);
    rule
}

fn unary_rule(op: &'static str, a: &'static str, r: &'static str) -> (rule: Rule<'static>)
    ensures
        rule@ == unary_rule_model(op@, a@, r@),
        rule.lhs is Node,
{
    let mut children: Vec<Term<'static>> = Vec::new();
    children.push(Term::Leaf(a));
    assert(children@[0]@ == TermModel::Leaf(a@));
    let rule = Rule { lhs: Term::Node { operator: op, children }, rhs: Term::Leaf(r) };
    assert(rule@.lhs.children() =~= seq![TermModel::Leaf(a@)]);
    rule
}

/// Boolean rewrite rules:
/// - [or1] or(true, true) = true
/// - [or2] or(true, false) = true
/// - [or3] or(false, true) = true
/// - [or4] or(false, false) = false
/// - [and1] and(true, true) = true
/// - [and2] and(true, false) = false
/// - [and3] and(false, true) = false
/// - [and4] and(false, false) = false
/// - [not1] not(true) = false
/// - [not2] not(false) = true
pub fn boolean_rules() -> (rules: Vec<Rule<'static>>)
    ensures
        rule_models(rules@) == boolean_rule_models(),
        forall|i: int| 0 <= i < rules@.len() ==> (#[trigger] rules@[i]).lhs is Node,
{
    // [or1] or(true, true) = true
    let or_1 = binary_rule("or", "true", "true", "true");
    // [or2] or(true, false) = true
    let or_2 = binary_rule("or", "true", "false", "true");
    // [or3] or(false, true) = true
    let or_3 = binary_rule("or", "false", "true", "true");
    // [or4] or(false, false) = false
    let or_4 = binary_rule("or", "false", "false", "false");
    // [and1] and(true, true) = true
    let and_1 = binary_rule("and", "true", "true", "true");
    // [and2] and(true, false) = false
    let and_2 = binary_rule("and", "true", "false", "false");
    // [and3] and(false, true) = false
    let and_3 = binary_rule("and", "false", "true", "false");
    // [and4] and(false, false) = false
    let and_4 = binary_rule("and", "false", "false", "false");
    // [not1] not(true) = false
    let not_1 = unary_rule("not", "true", "false");
    // [not2] not(false) = true
    let not_2 = unary_rule("not", "false", "true");

    let rules = vec![or_1, or_2, or_3, or_4, and_1, and_2, and_3, and_4, not_1, not_2];
    assert(rule_models(rules@) =~= boolean_rule_models());
    rules
}

} // verus!
