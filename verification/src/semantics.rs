//! What one rewriting step does to a term, when it is defined, and where
//! repeated steps lead.
use vstd::prelude::*;

use crate::term::{same_leaf, RuleModel, TermModel};

verus! {

/// The rules among `rules` whose left-hand side has root `op`, in their order.
pub open spec fn rules_for(rules: Seq<RuleModel>, op: Seq<char>) -> Seq<RuleModel> {
    rules.filter(|r: RuleModel| r.lhs.root() == op)
}

/// The rule table built from a list of rules: each operator that heads the
/// left-hand side of some rule is mapped to all such rules, in their order.
pub open spec fn rule_table(rules: Seq<RuleModel>) -> Map<Seq<char>, Seq<RuleModel>> {
    Map::new(|op: Seq<char>| rules_for(rules, op).len() > 0, |op: Seq<char>| rules_for(rules, op))
}

/// An operator with rules is in the table, with those rules.
pub proof fn lemma_rule_table_at(rules: Seq<RuleModel>, op: Seq<char>)
    requires
        rules_for(rules, op).len() > 0,
    ensures
        rule_table(rules).contains_key(op),
        rule_table(rules)[op] == rules_for(rules, op),
{
}

/// A left-hand side matches the children `ch` of a term when it is a node
/// and, position by position over `ch`, each child is the same leaf as the
/// left-hand side's child there.
pub open spec fn lhs_matches(lhs: TermModel, ch: Seq<TermModel>) -> bool {
    &&& lhs is Node
    &&& forall|k: int| 0 <= k < ch.len() ==> same_leaf(#[trigger] ch[k], lhs.children()[k])
}

/// Comparing a left-hand side against the children `ch` is defined: it is a
/// node with at least as many children, and no position holds a node on both
/// sides.
pub open spec fn lhs_comparable(lhs: TermModel, ch: Seq<TermModel>) -> bool {
    &&& lhs is Node
    &&& ch.len() <= lhs.children().len()
    &&& forall|k: int| 0 <= k < ch.len() ==> !(#[trigger] ch[k] is Node && lhs.children()[k] is Node)
}

/// No rule before position `i` of `cands` matches the children `ch`.
pub open spec fn none_match_before(cands: Seq<RuleModel>, ch: Seq<TermModel>, i: int) -> bool {
    forall|j: int| 0 <= j < i ==> !lhs_matches(#[trigger] cands[j].lhs, ch)
}

/// Rule `i` is the first of `cands` that matches the children `ch`.
pub open spec fn is_first_match(cands: Seq<RuleModel>, ch: Seq<TermModel>, i: int) -> bool {
    &&& 0 <= i < cands.len()
    &&& none_match_before(cands, ch, i)
    &&& lhs_matches(cands[i].lhs, ch)
}

/// Every rule that is tried against the children `ch` (each one up to and
/// including the first that matches) can be compared with them.
pub open spec fn scan_defined(cands: Seq<RuleModel>, ch: Seq<TermModel>) -> bool {
    forall|i: int|
        0 <= i < cands.len() && none_match_before(cands, ch, i) ==> lhs_comparable(
            #[trigger] cands[i].lhs,
            ch,
        )
}

/// One rewriting step on `t` with the rules of `table`.
///
/// A leaf is already normal: there is no step. At a node the rules for its
/// operator are tried in order against its children; the first one that
/// matches gives its right-hand side. When none matches, every child is
/// rewritten by one step (a child without a step stays as it is).
/// A node whose operator has no entry in the table has no defined step.
pub open spec fn rewrite_step(table: Map<Seq<char>, Seq<RuleModel>>, t: TermModel) -> Option<
    TermModel,
>
    decreases t,
{
    match t {
        TermModel::Leaf(_) => None,
        TermModel::Node(op, ch) => {
            if !table.contains_key(op) {
                None
            } else {
                let cands = table[op];
                if exists|i: int| is_first_match(cands, ch, i) {
                    Some(cands[choose|i: int| is_first_match(cands, ch, i)].rhs)
                } else if cands.len() == 0 {
                    Some(t)
                } else {
                    Some(
                        TermModel::Node(
                            op,
                            Seq::new(
                                ch.len(),
                                |j: int|
                                    if 0 <= j < ch.len() {
                                        match rewrite_step(table, ch[j]) {
                                            Some(u) => u,
                                            None => ch[j],
                                        }
                                    } else {
                                        ch[j]
                                    },
                            ),
                        ),
                    )
                }
            }
        },
    }
}

/// A rewriting step on `t` runs to its end: every node that it visits has
/// rules for its operator, and every comparison it makes is defined.
pub open spec fn step_defined(table: Map<Seq<char>, Seq<RuleModel>>, t: TermModel) -> bool
    decreases t,
{
    match t {
        TermModel::Leaf(_) => true,
        TermModel::Node(op, ch) => {
            &&& table.contains_key(op)
            &&& scan_defined(table[op], ch)
            &&& (!(exists|i: int| is_first_match(table[op], ch, i)) && table[op].len() > 0)
                ==> (forall|j: int|
                0 <= j < ch.len() ==> step_defined(table, #[trigger] ch[j]))
        },
    }
}

/// Starting from `t`, at most `n` defined steps reach a leaf.
pub open spec fn reaches_leaf(table: Map<Seq<char>, Seq<RuleModel>>, t: TermModel, n: nat) -> bool
    decreases n,
{
    if t is Leaf {
        true
    } else if n == 0 {
        false
    } else {
        &&& step_defined(table, t)
        &&& rewrite_step(table, t) is Some
        &&& reaches_leaf(table, rewrite_step(table, t)->0, (n - 1) as nat)
    }
}

/// The term reached from `t` by steps, stopping at a leaf or after `n` steps.
pub open spec fn normal_form(table: Map<Seq<char>, Seq<RuleModel>>, t: TermModel, n: nat) -> TermModel
    decreases n,
{
    if t is Leaf || n == 0 {
        t
    } else {
        match rewrite_step(table, t) {
            Some(u) => normal_form(table, u, (n - 1) as nat),
            None => t,
        }
    }
}

/// A defined step exists from every node and from no leaf.
pub proof fn lemma_step_defined_has_step(table: Map<Seq<char>, Seq<RuleModel>>, t: TermModel)
    requires
        step_defined(table, t),
    ensures
        rewrite_step(table, t) is Some <==> t is Node,
{
}

/// A left-hand side agrees with the children `ch` of a term when it is a
/// node whose child at every position of `ch` is that very child, a leaf.
pub open spec fn agrees_with(lhs: TermModel, ch: Seq<TermModel>) -> bool {
    &&& lhs is Node
    &&& forall|k: int| 0 <= k < ch.len() ==> (#[trigger] ch[k]) is Leaf && lhs.children()[k] == ch[k]
}

/// Rule `i` of `cands` is the first that agrees with the children `ch`.
pub open spec fn first_agreeing(cands: Seq<RuleModel>, ch: Seq<TermModel>, i: int) -> bool {
    &&& 0 <= i < cands.len()
    &&& agrees_with(cands[i].lhs, ch)
    &&& forall|j: int| 0 <= j < i ==> !agrees_with(#[trigger] cands[j].lhs, ch)
}

proof fn lemma_matches_iff_agrees(lhs: TermModel, ch: Seq<TermModel>)
    ensures
        lhs_matches(lhs, ch) <==> agrees_with(lhs, ch),
{
    if lhs_matches(lhs, ch) {
        assert forall|k: int| 0 <= k < ch.len() implies (#[trigger] ch[k]) is Leaf && lhs.children()[k]
            == ch[k] by {
            assert(same_leaf(ch[k], lhs.children()[k]));
        }
    }
    if agrees_with(lhs, ch) {
        assert forall|k: int| 0 <= k < ch.len() implies same_leaf(#[trigger] ch[k], lhs.children()[k]) by {
            assert(ch[k] is Leaf && lhs.children()[k] == ch[k]);
        }
    }
}

/// The law of a step at a node: the first rule for its operator whose
/// left-hand side agrees with the node's children at every position gives
/// the result, its right-hand side. When no rule agrees, the node keeps its
/// operator and number of children, every leaf child stays as it is and
/// every node child takes one step.
pub proof fn law_step_at_node(table: Map<Seq<char>, Seq<RuleModel>>, op: Seq<char>, ch: Seq<TermModel>)
    requires
        step_defined(table, TermModel::Node(op, ch)),
    ensures
        forall|i: int|
            #[trigger] first_agreeing(table[op], ch, i) ==> rewrite_step(table, TermModel::Node(op, ch))
                == Some(table[op][i].rhs),
        (table[op].len() > 0 && forall|i: int|
            0 <= i < table[op].len() ==> !agrees_with(#[trigger] table[op][i].lhs, ch)) ==> {
            let u = rewrite_step(table, TermModel::Node(op, ch));
            &&& u is Some
            &&& u->0 == TermModel::Node(op, u->0.children())
            &&& u->0.children().len() == ch.len()
            &&& forall|j: int|
                0 <= j < ch.len() ==> (#[trigger] ch[j] is Leaf ==> u->0.children()[j] == ch[j])
            &&& forall|j: int|
                0 <= j < ch.len() ==> (#[trigger] ch[j] is Node ==> rewrite_step(table, ch[j]) is Some
                    && u->0.children()[j] == rewrite_step(table, ch[j])->0)
        },
{
    let cands = table[op];
    assert forall|i: int| 0 <= i < cands.len() implies (lhs_matches(#[trigger] cands[i].lhs, ch)
        <==> agrees_with(cands[i].lhs, ch)) by {
        lemma_matches_iff_agrees(cands[i].lhs, ch);
    }
    assert forall|i: int| #[trigger] first_agreeing(cands, ch, i) implies rewrite_step(
        table,
        TermModel::Node(op, ch),
    ) == Some(cands[i].rhs) by {
        assert(is_first_match(cands, ch, i));
        lemma_first_match_unique(cands, ch, i);
    }
    if cands.len() > 0 && forall|i: int| 0 <= i < cands.len() ==> !agrees_with(#[trigger] cands[i].lhs, ch) {
        assert(!(exists|i: int| is_first_match(cands, ch, i)));
        let u = rewrite_step(table, TermModel::Node(op, ch));
        assert forall|j: int| 0 <= j < ch.len() && #[trigger] ch[j] is Node implies rewrite_step(table, ch[j]) is Some by {
            lemma_step_defined_children(table, op, ch, j);
            lemma_step_defined_has_step(table, ch[j]);
        }
        assert forall|j: int| 0 <= j < ch.len() && #[trigger] ch[j] is Leaf implies u->0.children()[j] == ch[j] by {
            assert(rewrite_step(table, ch[j]) is None);
        }
    }
}

/// At most one rule is the first to match.
pub proof fn lemma_first_match_unique(cands: Seq<RuleModel>, ch: Seq<TermModel>, i: int)
    requires
        is_first_match(cands, ch, i),
    ensures
        (choose|j: int| is_first_match(cands, ch, j)) == i,
{
    let j = choose|j: int| is_first_match(cands, ch, j);
    if j < i {
        assert(!lhs_matches(cands[j].lhs, ch));
    }
    if j > i {
        assert(!lhs_matches(cands[i].lhs, ch));
    }
}

/// Extending a list of rules by one more rule extends the rules for its
/// operator by that rule and leaves the rules for every other operator alone.
pub proof fn lemma_rules_for_take(rules: Seq<RuleModel>, i: int, op: Seq<char>)
    requires
        0 <= i < rules.len(),
    ensures
        rules_for(rules.take(i + 1), op) == if rules[i].lhs.root() == op {
            rules_for(rules.take(i), op).push(rules[i])
        } else {
            rules_for(rules.take(i), op)
        },
{
    reveal_with_fuel(Seq::filter, 1);
    assert(rules.take(i + 1).drop_last() =~= rules.take(i));
}

/// At a node whose first matching rule is rule `i`, and whose rules up to
/// it can be compared, the step is defined and gives that rule's right-hand
/// side.
pub proof fn lemma_step_on_match(
    table: Map<Seq<char>, Seq<RuleModel>>,
    op: Seq<char>,
    ch: Seq<TermModel>,
    i: int,
)
    requires
        table.contains_key(op),
        is_first_match(table[op], ch, i),
        scan_defined(table[op], ch),
    ensures
        step_defined(table, TermModel::Node(op, ch)),
        rewrite_step(table, TermModel::Node(op, ch)) == Some(table[op][i].rhs),
{
    lemma_first_match_unique(table[op], ch, i);
}

/// At a node where no rule matches, whose rules can all be compared, the
/// step rewrites each child by one step; it is defined when the steps of the
/// children are.
pub proof fn lemma_step_on_no_match(
    table: Map<Seq<char>, Seq<RuleModel>>,
    op: Seq<char>,
    ch: Seq<TermModel>,
)
    requires
        table.contains_key(op),
        table[op].len() > 0,
        forall|i: int| 0 <= i < table[op].len() ==> !lhs_matches(#[trigger] table[op][i].lhs, ch),
        forall|i: int| 0 <= i < table[op].len() ==> lhs_comparable(#[trigger] table[op][i].lhs, ch),
    ensures
        step_defined(table, TermModel::Node(op, ch)) <==> (forall|j: int|
            0 <= j < ch.len() ==> step_defined(table, #[trigger] ch[j])),
        rewrite_step(table, TermModel::Node(op, ch)) is Some,
        rewrite_step(table, TermModel::Node(op, ch))->0 is Node,
        rewrite_step(table, TermModel::Node(op, ch))->0.root() == op,
        rewrite_step(table, TermModel::Node(op, ch))->0.children().len() == ch.len(),
        forall|j: int|
            0 <= j < ch.len() ==> (#[trigger] rewrite_step(table, TermModel::Node(op, ch))->0.children()[j])
                == match rewrite_step(table, ch[j]) {
                Some(u) => u,
                None => ch[j],
            },
{
    assert(!(exists|i: int| is_first_match(table[op], ch, i)));
    assert(scan_defined(table[op], ch));
}

/// When no rule matches at a node whose step is defined, the steps of its
/// children are defined too.
pub proof fn lemma_step_defined_children(
    table: Map<Seq<char>, Seq<RuleModel>>,
    op: Seq<char>,
    ch: Seq<TermModel>,
    j: int,
)
    requires
        step_defined(table, TermModel::Node(op, ch)),
        !(exists|i: int| is_first_match(table[op], ch, i)),
        table[op].len() > 0,
        0 <= j < ch.len(),
    ensures
        step_defined(table, ch[j]),
{
}

/// Once a leaf is reachable, the number of steps allowed does not change
/// where rewriting ends.
pub proof fn lemma_normal_form_fuel(
    table: Map<Seq<char>, Seq<RuleModel>>,
    t: TermModel,
    n: nat,
    m: nat,
)
    requires
        reaches_leaf(table, t, n),
        reaches_leaf(table, t, m),
    ensures
        normal_form(table, t, n) == normal_form(table, t, m),
        normal_form(table, t, n) is Leaf,
    decreases n,
{
    if t is Node {
        lemma_normal_form_fuel(table, rewrite_step(table, t)->0, (n - 1) as nat, (m - 1) as nat);
    }
}

} // verus!
