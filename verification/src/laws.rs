//! What the boolean rules do to boolean expressions.
use vstd::prelude::*;

use crate::boolean_rules::{and_rule_models, boolean_rule_models, not_rule_models, or_rule_models};
use crate::semantics::{
    is_first_match, lemma_normal_form_fuel, lemma_rule_table_at, lemma_step_on_match,
    lemma_step_on_no_match, lhs_comparable, lhs_matches, normal_form, reaches_leaf, rewrite_step,
    rule_table, rules_for, scan_defined, step_defined,
};
use crate::term::{same_leaf, RuleModel, TermModel};

verus! {

/// The table a rewriter builds from the boolean rules.
#[verifier::opaque]
pub open spec fn boolean_table() -> Map<Seq<char>, Seq<RuleModel>> {
    rule_table(boolean_rule_models())
}

proof fn lemma_rules_for_uniform(s: Seq<RuleModel>, op: Seq<char>)
    ensures
        (forall|i: int| 0 <= i < s.len() ==> (#[trigger] s[i]).lhs.root() == op) ==> rules_for(s, op)
            == s,
        (forall|i: int| 0 <= i < s.len() ==> (#[trigger] s[i]).lhs.root() != op) ==> rules_for(s, op)
            == Seq::<RuleModel>::empty(),
    decreases s.len(),
{
    reveal_with_fuel(Seq::filter, 1);
    if s.len() > 0 {
        lemma_rules_for_uniform(s.drop_last(), op);
        if forall|i: int| 0 <= i < s.len() ==> (#[trigger] s[i]).lhs.root() == op {
            assert(forall|i: int| 0 <= i < s.drop_last().len() ==> (#[trigger] s.drop_last()[i]).lhs.root() == op) by {
                assert(forall|i: int| 0 <= i < s.drop_last().len() ==> s.drop_last()[i] == s[i]);
            }
            assert(s.drop_last().push(s.last()) =~= s);
        }
        if forall|i: int| 0 <= i < s.len() ==> (#[trigger] s[i]).lhs.root() != op {
            assert(forall|i: int| 0 <= i < s.drop_last().len() ==> (#[trigger] s.drop_last()[i]).lhs.root() != op) by {
                assert(forall|i: int| 0 <= i < s.drop_last().len() ==> s.drop_last()[i] == s[i]);
            }
        }
    }
}

proof fn lemma_literals()
    ensures
        "or"@ != "and"@,
        "or"@ != "not"@,
        "and"@ != "not"@,
        "true"@ != "false"@,
{
    reveal_strlit("or");
    reveal_strlit("and");
    reveal_strlit("not");
    reveal_strlit("true");
    reveal_strlit("false");
    assert("or"@.len() != "and"@.len());
    assert("or"@.len() != "not"@.len());
    assert("and"@[0] != "not"@[0]);
    assert("true"@.len() != "false"@.len());
}

proof fn lemma_rules_for_blocks(op: Seq<char>)
    requires
        op == "or"@ || op == "and"@ || op == "not"@,
    ensures
        op == "or"@ ==> rules_for(boolean_rule_models(), op) == or_rule_models(),
        op == "and"@ ==> rules_for(boolean_rule_models(), op) == and_rule_models(),
        op == "not"@ ==> rules_for(boolean_rule_models(), op) == not_rule_models(),
{
    lemma_literals();
    let a = or_rule_models();
    let b = and_rule_models();
    let c = not_rule_models();
    assert(forall|i: int| 0 <= i < a.len() ==> (#[trigger] a[i]).lhs.root() == "or"@);
    assert(forall|i: int| 0 <= i < b.len() ==> (#[trigger] b[i]).lhs.root() == "and"@);
    assert(forall|i: int| 0 <= i < c.len() ==> (#[trigger] c[i]).lhs.root() == "not"@);
    lemma_rules_for_uniform(a, op);
    lemma_rules_for_uniform(b, op);
    lemma_rules_for_uniform(c, op);
    Seq::filter_distributes_over_add(a + b, c, |r: RuleModel| r.lhs.root() == op);
    Seq::filter_distributes_over_add(a, b, |r: RuleModel| r.lhs.root() == op);
    if op == "or"@ {
        assert(a + Seq::<RuleModel>::empty() + Seq::<RuleModel>::empty() =~= a);
    } else if op == "and"@ {
        assert(Seq::<RuleModel>::empty() + b + Seq::<RuleModel>::empty() =~= b);
    } else {
        assert(Seq::<RuleModel>::empty() + Seq::<RuleModel>::empty() + c =~= c);
    }
}

proof fn lemma_table_entry(op: Seq<char>)
    requires
        op == "or"@ || op == "and"@ || op == "not"@,
    ensures
        boolean_table().contains_key(op),
        op == "or"@ ==> boolean_table()[op] == or_rule_models(),
        op == "and"@ ==> boolean_table()[op] == and_rule_models(),
        op == "not"@ ==> boolean_table()[op] == not_rule_models(),
{
    reveal(boolean_table);
    lemma_rules_for_blocks(op);
    assert(or_rule_models().len() == 4);
    assert(and_rule_models().len() == 4);
    assert(not_rule_models().len() == 2);
    lemma_rule_table_at(boolean_rule_models(), op);
}

proof fn lemma_boolean_table()
    ensures
        boolean_table().contains_key("or"@),
        boolean_table().contains_key("and"@),
        boolean_table().contains_key("not"@),
        boolean_table()["or"@] == or_rule_models(),
        boolean_table()["and"@] == and_rule_models(),
        boolean_table()["not"@] == not_rule_models(),
{
    lemma_table_entry("or"@);
    lemma_table_entry("and"@);
    lemma_table_entry("not"@);
}

/// The leaf that stands for a truth value.
pub open spec fn truth_leaf(b: bool) -> TermModel {
    TermModel::Leaf(if b { "true"@ } else { "false"@ })
}

/// A boolean expression: `true`, `false`, `not(e)`, `and(e1, e2)` or
/// `or(e1, e2)` over boolean expressions.
pub open spec fn is_boolean_term(t: TermModel) -> bool
    decreases t,
{
    match t {
        TermModel::Leaf(v) => v == "true"@ || v == "false"@,
        TermModel::Node(op, ch) => {
            if op == "not"@ {
                ch.len() == 1 && is_boolean_term(ch[0])
            } else if op == "and"@ || op == "or"@ {
                ch.len() == 2 && is_boolean_term(ch[0]) && is_boolean_term(ch[1])
            } else {
                false
            }
        },
    }
}

/// The truth value of a boolean expression.
pub open spec fn boolean_value(t: TermModel) -> bool
    decreases t,
{
    match t {
        TermModel::Leaf(v) => v == "true"@,
        TermModel::Node(op, ch) => {
            if ch.len() == 0 {
                false
            } else if op == "not"@ {
                !boolean_value(ch[0])
            } else if ch.len() < 2 {
                false
            } else if op == "and"@ {
                boolean_value(ch[0]) && boolean_value(ch[1])
            } else {
                boolean_value(ch[0]) || boolean_value(ch[1])
            }
        },
    }
}

/// The number of nodes and leaves of a boolean expression.
pub open spec fn boolean_size(t: TermModel) -> nat
    decreases t,
{
    match t {
        TermModel::Leaf(_) => 1,
        TermModel::Node(_, ch) => 1 + (if ch.len() > 0 {
            boolean_size(ch[0])
        } else {
            0
        }) + (if ch.len() > 1 {
            boolean_size(ch[1])
        } else {
            0
        }),
    }
}

/// Every boolean rule has a node with leaf children as its left-hand side:
/// two children for `or` and `and`, one for `not`.
proof fn lemma_rule_shapes()
    ensures
        forall|i: int|
            0 <= i < or_rule_models().len() ==> {
                let lhs = (#[trigger] or_rule_models()[i]).lhs;
                &&& lhs is Node
                &&& lhs.children().len() == 2
                &&& lhs.children()[0] is Leaf
                &&& lhs.children()[1] is Leaf
            },
        forall|i: int|
            0 <= i < and_rule_models().len() ==> {
                let lhs = (#[trigger] and_rule_models()[i]).lhs;
                &&& lhs is Node
                &&& lhs.children().len() == 2
                &&& lhs.children()[0] is Leaf
                &&& lhs.children()[1] is Leaf
            },
        forall|i: int|
            0 <= i < not_rule_models().len() ==> {
                let lhs = (#[trigger] not_rule_models()[i]).lhs;
                &&& lhs is Node
                &&& lhs.children().len() == 1
                &&& lhs.children()[0] is Leaf
            },
{
}

/// `op(x, y)` over truth leaves steps to the leaf of its value, by the rule
/// for exactly that pair of leaves.
proof fn lemma_binary_leaf_step(op: Seq<char>, x: bool, y: bool)
    requires
        op == "or"@ || op == "and"@,
    ensures
        step_defined(boolean_table(), TermModel::Node(op, seq![truth_leaf(x), truth_leaf(y)])),
        rewrite_step(boolean_table(), TermModel::Node(op, seq![truth_leaf(x), truth_leaf(y)]))
            == Some(truth_leaf(if op == "and"@ { x && y } else { x || y })),
{
    lemma_boolean_table();
    lemma_literals();
    lemma_rule_shapes();
    let table = boolean_table();
    let cands = table[op];
    let ch = seq![truth_leaf(x), truth_leaf(y)];
    let idx: int = (if x { 0int } else { 2int }) + (if y { 0int } else { 1int });
    assert(is_first_match(cands, ch, idx)) by {
        assert(lhs_matches(cands[idx].lhs, ch));
        assert forall|j: int| 0 <= j < idx implies !lhs_matches(#[trigger] cands[j].lhs, ch) by {
            if !same_leaf(ch[0], cands[j].lhs.children()[0]) {
            } else {
                assert(!same_leaf(ch[1], cands[j].lhs.children()[1]));
            }
        }
    }
    assert(scan_defined(cands, ch));
    lemma_step_on_match(table, op, ch, idx);
}

/// `not(x)` over a truth leaf steps to the leaf of its negation.
proof fn lemma_unary_leaf_step(x: bool)
    ensures
        step_defined(boolean_table(), TermModel::Node("not"@, seq![truth_leaf(x)])),
        rewrite_step(boolean_table(), TermModel::Node("not"@, seq![truth_leaf(x)])) == Some(
            truth_leaf(!x),
        ),
{
    lemma_boolean_table();
    lemma_literals();
    lemma_rule_shapes();
    let table = boolean_table();
    let cands = table["not"@];
    let ch = seq![truth_leaf(x)];
    let idx: int = if x { 0int } else { 1int };
    assert(is_first_match(cands, ch, idx)) by {
        assert(lhs_matches(cands[idx].lhs, ch));
        assert forall|j: int| 0 <= j < idx implies !lhs_matches(#[trigger] cands[j].lhs, ch) by {
            assert(!same_leaf(ch[0], cands[j].lhs.children()[0]));
        }
    }
    assert(scan_defined(cands, ch));
    lemma_step_on_match(table, "not"@, ch, idx);
}

/// The rules for a boolean operator: at least one, each with a node of
/// leaves as its left-hand side, with as many leaves as the operator takes.
proof fn lemma_candidates(op: Seq<char>)
    requires
        op == "or"@ || op == "and"@ || op == "not"@,
    ensures
        boolean_table().contains_key(op),
        boolean_table()[op].len() > 0,
        forall|i: int|
            0 <= i < boolean_table()[op].len() ==> {
                let lhs = (#[trigger] boolean_table()[op][i]).lhs;
                &&& lhs is Node
                &&& lhs.children().len() == if op == "not"@ { 1int } else { 2int }
                &&& forall|k: int| 0 <= k < lhs.children().len() ==> (#[trigger] lhs.children()[k]) is Leaf
            },
{
    lemma_boolean_table();
    lemma_literals();
    lemma_rule_shapes();
}

/// A truth leaf is a boolean expression of size 1 with that value.
proof fn lemma_truth_leaf(b: bool)
    ensures
        is_boolean_term(truth_leaf(b)),
        boolean_value(truth_leaf(b)) == b,
        boolean_size(truth_leaf(b)) == 1,
{
    lemma_literals();
}

/// A leaf that is a boolean expression is the truth leaf of its value.
proof fn lemma_leaf_is_truth_leaf(l: TermModel)
    requires
        is_boolean_term(l),
        l is Leaf,
    ensures
        l == truth_leaf(boolean_value(l)),
{
    lemma_literals();
}

/// One step on a boolean expression that is not a leaf is defined, gives a
/// boolean expression with the same value, and makes it smaller.
proof fn lemma_boolean_step(t: TermModel)
    requires
        is_boolean_term(t),
        t is Node,
    ensures
        step_defined(boolean_table(), t),
        rewrite_step(boolean_table(), t) is Some,
        is_boolean_term(rewrite_step(boolean_table(), t)->0),
        boolean_value(rewrite_step(boolean_table(), t)->0) == boolean_value(t),
        boolean_size(rewrite_step(boolean_table(), t)->0) < boolean_size(t),
    decreases t,
{
    lemma_literals();
    let table = boolean_table();
    let op = t.root();
    let ch = t.children();
    assert(t == TermModel::Node(op, ch));
    lemma_candidates(op);
    if forall|j: int| 0 <= j < ch.len() ==> (#[trigger] ch[j]) is Leaf {
        if op == "not"@ {
            let x = boolean_value(ch[0]);
            lemma_leaf_is_truth_leaf(ch[0]);
            assert(ch =~= seq![truth_leaf(x)]);
            lemma_unary_leaf_step(x);
            lemma_truth_leaf(!x);
        } else {
            let x = boolean_value(ch[0]);
            let y = boolean_value(ch[1]);
            lemma_leaf_is_truth_leaf(ch[0]);
            lemma_leaf_is_truth_leaf(ch[1]);
            assert(ch =~= seq![truth_leaf(x), truth_leaf(y)]);
            lemma_binary_leaf_step(op, x, y);
            lemma_truth_leaf(if op == "and"@ { x && y } else { x || y });
        }
    } else {
        let k0 = choose|j: int| 0 <= j < ch.len() && !((#[trigger] ch[j]) is Leaf);
        let cands = table[op];
        assert forall|i: int| 0 <= i < cands.len() implies !lhs_matches(#[trigger] cands[i].lhs, ch) by {
            assert(!same_leaf(ch[k0], cands[i].lhs.children()[k0]));
        }
        assert forall|i: int| 0 <= i < cands.len() implies lhs_comparable(#[trigger] cands[i].lhs, ch) by {
            assert forall|k: int| 0 <= k < ch.len() implies !(#[trigger] ch[k] is Node && cands[i].lhs.children()[k] is Node) by {
                assert(cands[i].lhs.children()[k] is Leaf);
            }
        }
        if ch[0] is Node {
            lemma_boolean_step(ch[0]);
        }
        if ch.len() > 1 && ch[1] is Node {
            lemma_boolean_step(ch[1]);
        }
        assert forall|j: int| 0 <= j < ch.len() implies step_defined(table, #[trigger] ch[j]) by {
            if j == 0 && ch[0] is Node {
            } else if j == 1 && ch[1] is Node {
            }
        }
        lemma_step_on_no_match(table, op, ch);
        let u = rewrite_step(table, t)->0;
        let nch = u.children();
        assert(nch.len() == ch.len());
        assert(is_boolean_term(nch[0]) && boolean_value(nch[0]) == boolean_value(ch[0])
            && boolean_size(nch[0]) <= boolean_size(ch[0]));
        if ch.len() > 1 {
            assert(is_boolean_term(nch[1]) && boolean_value(nch[1]) == boolean_value(ch[1])
                && boolean_size(nch[1]) <= boolean_size(ch[1]));
        }
        if k0 == 0 {
            assert(boolean_size(nch[0]) < boolean_size(ch[0]));
        } else {
            assert(boolean_size(nch[1]) < boolean_size(ch[1]));
        }
    }
}

/// With at least as many steps as its size, a boolean expression is
/// rewritten to the leaf of its value.
proof fn lemma_boolean_reaches(t: TermModel, n: nat)
    requires
        is_boolean_term(t),
        n >= boolean_size(t),
    ensures
        reaches_leaf(boolean_table(), t, n),
        normal_form(boolean_table(), t, n) == truth_leaf(boolean_value(t)),
    decreases boolean_size(t),
{
    if t is Leaf {
        lemma_leaf_is_truth_leaf(t);
    } else {
        lemma_boolean_step(t);
        let u = rewrite_step(boolean_table(), t)->0;
        lemma_boolean_reaches(u, (n - 1) as nat);
    }
}

/// The boolean rules evaluate boolean expressions: from every expression
/// built from `true` and `false` with `not`, `and` and `or`, rewriting with
/// the boolean rules reaches a leaf, and that leaf is `true` or `false`
/// according to the value of the expression.
pub proof fn lemma_boolean_rules_evaluate(t: TermModel)
    requires
        is_boolean_term(t),
    ensures
        exists|n: nat| reaches_leaf(rule_table(boolean_rule_models()), t, n),
        forall|n: nat|
            reaches_leaf(rule_table(boolean_rule_models()), t, n) ==> normal_form(
                rule_table(boolean_rule_models()),
                t,
                n,
            ) == truth_leaf(boolean_value(t)),
{
    reveal(boolean_table);
    lemma_boolean_reaches(t, boolean_size(t));
    assert forall|n: nat| reaches_leaf(rule_table(boolean_rule_models()), t, n) implies normal_form(
        rule_table(boolean_rule_models()),
        t,
        n,
    ) == truth_leaf(boolean_value(t)) by {
        lemma_normal_form_fuel(boolean_table(), t, n, boolean_size(t));
    }
}

} // verus!
