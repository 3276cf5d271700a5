//! A rewriter: a term together with a table of rules keyed by operator.
use vstd::prelude::*;

use crate::semantics::{
    agrees_with, first_agreeing, law_step_at_node,
    is_first_match, lemma_first_match_unique, lemma_normal_form_fuel, lemma_rules_for_take,
    lemma_step_defined_children, lemma_step_defined_has_step, none_match_before, normal_form,
    reaches_leaf, rewrite_step, rule_table, rules_for, step_defined,
};
use crate::term::{same_leaf, Rule, RuleModel, Term, TermModel};
use crate::text::str_eq;

verus! {

/// The values of a list of rules.
pub open spec fn rule_models<'a>(rs: Seq<Rule<'a>>) -> Seq<RuleModel> {
    rs.map_values(|r: Rule<'a>| r@)
}

/// The value of an optional term.
pub open spec fn option_model<'a>(o: Option<Term<'a>>) -> Option<TermModel> {
    match o {
        Some(t) => Some(t@),
        None => None,
    }
}

/// Holds the term being rewritten and the rules, grouped by the operator at
/// the root of their left-hand side. Each group keeps its rules in the order
/// in which they were given, and is tried in that order.
pub struct Rewriter<'a> {
    pub term: Term<'a>,
    keys: Vec<&'a str>,
    groups: Vec<Vec<Rule<'a>>>,
    // Variable bindings of a rewriting step; every step starts from none.
    bindings: Vec<(&'a str, Term<'a>)>,
}

/// The position of the first key equal to `op`, if any.
fn position_of(keys: &Vec<&str>, op: &str) -> (r: Option<usize>)
    ensures
        match r {
            Some(b) => b < keys@.len() && keys@[b as int]@ == op@,
            None => forall|c: int| 0 <= c < keys@.len() ==> (#[trigger] keys@[c])@ != op@,
        },
{
    let mut b: usize = 0;
    while b < keys.len()
        invariant
            b <= keys@.len(),
            forall|c: int| 0 <= c < b ==> (#[trigger] keys@[c])@ != op@,
        decreases keys@.len() - b,
    {
        if str_eq(keys[b], op) {
            return Some(b);
        }
        b = b + 1;
    }
    None
}

impl<'a> Rewriter<'a> {
    /// A rewriter for `initial_term` whose table holds `rules`, grouped by
    /// the operator at the root of their left-hand side. Every rule must have
    /// a node as its left-hand side.
    pub fn new(initial_term: Term<'a>, rules: Vec<Rule<'a>>) -> (r: Self)
        requires
            forall|i: int| 0 <= i < rules@.len() ==> (#[trigger] rules@[i]).lhs is Node,
        ensures
            r.wf(),
            r.current() == initial_term,
            r.table() == rule_table(rule_models(rules@)),
            r.binding_count() == 0,
    {
        let ghost src = rule_models(rules@);
        let mut keys: Vec<&'a str> = Vec::new();
        let mut groups: Vec<Vec<Rule<'a>>> = Vec::new();
        let mut i: usize = 0;
        while i < rules.len()
            invariant
                i <= rules@.len(),
                src == rule_models(rules@),
                forall|i: int| 0 <= i < rules@.len() ==> (#[trigger] rules@[i]).lhs is Node,
                keys@.len() == groups@.len(),
                forall|b: int, c: int|
                    0 <= b < keys@.len() && 0 <= c < keys@.len() && b != c ==> (
                    #[trigger] keys@[b])@ != (#[trigger] keys@[c])@,
                forall|b: int| 0 <= b < groups@.len() ==> (#[trigger] groups@[b])@.len() > 0,
                forall|b: int|
                    0 <= b < groups@.len() ==> rule_models((#[trigger] groups@[b])@) == rules_for(
                        src.take(i as int),
                        keys@[b]@,
                    ),
                forall|op: Seq<char>|
                    #![trigger rules_for(src.take(i as int), op)]
                    rules_for(src.take(i as int), op).len() > 0 ==> exists|b: int|
                        0 <= b < keys@.len() && (#[trigger] keys@[b])@ == op,
            decreases rules@.len() - i,
        {
            let key = rules[i].extract_key();
            let rule = rules[i].duplicate();
            let ghost old_keys = keys@;
            let ghost old_groups = groups@;
            proof {
                assert forall|op: Seq<char>| true implies rules_for(src.take(i + 1), op) == if src[i as int].lhs.root() == op {
                    rules_for(src.take(i as int), op).push(src[i as int])
                } else {
                    rules_for(src.take(i as int), op)
                } by {
                    lemma_rules_for_take(src, i as int, op);
                }
            }
            match position_of(&keys, key) {
                Some(b) => {
                    groups[b].push(rule);
                    assert(rule_models(groups@[b as int]@) =~= rule_models(old_groups[b as int]@).push(src[i as int]));
                },
                None => {
                    keys.push(key);
                    let mut g: Vec<Rule<'a>> = Vec::new();
                    g.push(rule);
                    groups.push(g);
                    assert(rule_models(groups@[old_groups.len() as int]@) =~= seq![src[i as int]]);
                    assert(rules_for(src.take(i as int), key@).len() == 0);
                    assert(rules_for(src.take(i as int), key@) =~= Seq::empty());
                    assert(keys@[old_keys.len() as int]@ == key@);
                },
            }
            proof {
                assert forall|op: Seq<char>|
                    #[trigger] rules_for(src.take(i + 1), op).len() > 0 implies exists|b: int|
                        0 <= b < keys@.len() && (#[trigger] keys@[b])@ == op by {
                    if op != key@ {
                        assert(rules_for(src.take(i as int), op).len() > 0);
                        let b = choose|b: int| 0 <= b < old_keys.len() && (#[trigger] old_keys[b])@ == op;
                        assert(keys@[b] == old_keys[b]);
                    } else {
                        let b = choose|b: int| 0 <= b < keys@.len() && (#[trigger] keys@[b])@ == key@;
                    }
                }
            }
            i = i + 1;
        }
        let r = Rewriter { term: initial_term, keys, groups, bindings: Vec::new() };
        assert(src.take(rules@.len() as int) =~= src);
        assert forall|op: Seq<char>| #[trigger] r.table().contains_key(op) == rule_table(src).contains_key(op) by {
            if r.table().contains_key(op) {
                let b = choose|b: int| 0 <= b < r.keys@.len() && (#[trigger] r.keys@[b])@ == op;
                assert(rule_models(r.groups@[b]@) == rules_for(src, op));
            }
        }
        assert forall|op: Seq<char>| #[trigger] r.table().contains_key(op) implies r.table()[op] == rule_table(src)[op] by {
            let b = choose|b: int| 0 <= b < r.keys@.len() && (#[trigger] r.keys@[b])@ == op;
            assert(rule_models(r.groups@[b]@) == rules_for(src, op));
        }
        assert(r.table() =~= rule_table(src));
        r
    }

    /// The groups line up with distinct keys, and no group is empty.
    pub closed spec fn wf(&self) -> bool {
        &&& self.keys@.len() == self.groups@.len()
        &&& forall|b: int, c: int|
            0 <= b < self.keys@.len() && 0 <= c < self.keys@.len() && b != c ==> (
            #[trigger] self.keys@[b])@ != (#[trigger] self.keys@[c])@
        &&& forall|b: int| 0 <= b < self.groups@.len() ==> (#[trigger] self.groups@[b])@.len() > 0
    }

    /// The rule table: each operator with rules mapped to its rules, in order.
    pub closed spec fn table(&self) -> Map<Seq<char>, Seq<RuleModel>> {
        Map::new(
            |op: Seq<char>| exists|b: int| 0 <= b < self.keys@.len() && (#[trigger] self.keys@[b])@ == op,
            |op: Seq<char>|
                rule_models(
                    self.groups@[choose|b: int|
                        0 <= b < self.keys@.len() && (#[trigger] self.keys@[b])@ == op]@,
                ),
        )
    }

    /// The term being rewritten.
    pub closed spec fn current(&self) -> Term<'a> {
        self.term
    }

    /// The number of variable bindings held.
    pub closed spec fn binding_count(&self) -> nat {
        self.bindings@.len()
    }

    proof fn lemma_table_at(&self, b: int)
        requires
            self.wf(),
            0 <= b < self.keys@.len(),
        ensures
            self.table().contains_key(self.keys@[b]@),
            self.table()[self.keys@[b]@] == rule_models(self.groups@[b]@),
    {
        let op = self.keys@[b]@;
        assert(0 <= b < self.keys@.len() && self.keys@[b]@ == op);
        let c = choose|c: int| 0 <= c < self.keys@.len() && (#[trigger] self.keys@[c])@ == op;
        assert(c == b);
    }

    /// The position of the group for `op`, if there is one.
    fn find_group(&self, op: &str) -> (r: Option<usize>)
        requires
            self.wf(),
        ensures
            match r {
                Some(b) => b < self.keys@.len() && self.keys@[b as int]@ == op@,
                None => !self.table().contains_key(op@),
            },
    {
        let mut b: usize = 0;
        while b < self.keys.len()
            invariant
                b <= self.keys@.len(),
                forall|c: int| 0 <= c < b ==> (#[trigger] self.keys@[c])@ != op@,
            decreases self.keys@.len() - b,
        {
            if str_eq(self.keys[b], op) {
                return Some(b);
            }
            b = b + 1;
        }
        None
    }

    /// One rewriting step on `term`.
    ///
    /// A leaf has no step. At a node, the rules for its operator are tried
    /// in order; the first whose left-hand side matches the node's children
    /// gives the result, its right-hand side. When none matches, each child
    /// that is a node is rewritten by one step in turn.
    #[verifier::loop_isolation(false)]
    pub fn try_rewrite(&self, term: Term<'a>) -> (r: Option<Term<'a>>)
        requires
            self.wf(),
            step_defined(self.table(), term@),
        ensures
            option_model(r) == rewrite_step(self.table(), term@),
            r is None <==> term is Leaf,
            term is Node ==> forall|i: int|
                #[trigger] first_agreeing(self.table()[term@.root()], term@.children(), i)
                    ==> option_model(r) == Some(self.table()[term@.root()][i].rhs),
            (term is Node && self.table()[term@.root()].len() > 0 && forall|i: int|
                0 <= i < self.table()[term@.root()].len() ==> !agrees_with(
                    #[trigger] self.table()[term@.root()][i].lhs,
                    term@.children(),
                )) ==> {
                &&& r is Some
                &&& r->0@ == TermModel::Node(term@.root(), r->0@.children())
                &&& r->0@.children().len() == term@.children().len()
                &&& forall|j: int|
                    0 <= j < term@.children().len() ==> (#[trigger] term@.children()[j] is Leaf
                        ==> r->0@.children()[j] == term@.children()[j])
                &&& forall|j: int|
                    0 <= j < term@.children().len() ==> (#[trigger] term@.children()[j] is Node
                        ==> rewrite_step(self.table(), term@.children()[j]) is Some
                        && r->0@.children()[j] == rewrite_step(
                        self.table(),
                        term@.children()[j],
                    )->0)
            },
        decreases term@,
    {
        let ghost t = term@;
        proof {
            lemma_step_defined_has_step(self.table(), t);
            if t is Node {
                assert(t == TermModel::Node(t.root(), t.children()));
                law_step_at_node(self.table(), t.root(), t.children());
            }
        }
        match term {
            Term::Leaf(_) => None,
            Term::Node { operator, children } => {
                let ghost ch = t.children();
                assert(t == TermModel::Node(operator@, ch));
                let b = match self.find_group(operator) {
                    Some(b) => b,
                    None => {
                        return None;
                    },
                };
                proof {
                    self.lemma_table_at(b as int);
                }
                let cands = &self.groups[b];
                let ghost cm = rule_models(cands@);
                let mut idx: usize = 0;
                while idx < cands.len()
                    invariant
                        idx <= cands@.len(),
                        none_match_before(cm, ch, idx as int),
                    decreases cands@.len() - idx,
                {
                    let rule = &cands[idx];
                    match &rule.lhs {
                        Term::Node { children: pats, .. } => {
                            let ghost lhs = rule.lhs@;
                            let arity = children.len();
                            let mut count: usize = 0;
                            let mut k: usize = 0;
                            while k < arity
                                invariant
                                    k <= arity,
                                    count <= k,
                                    (count == k) == (forall|j: int|
                                        0 <= j < k ==> same_leaf(
                                            #[trigger] ch[j],
                                            lhs.children()[j],
                                        )),
                                decreases arity - k,
                            {
                                assert(ch[k as int] == children@[k as int]@);
                                assert(lhs.children()[k as int] == pats@[k as int]@);
                                if children[k].equivalent(&pats[k]) {
                                    count = count + 1;
                                }
                                k = k + 1;
                            }
                            if count == arity {
                                proof {
                                    assert(is_first_match(cm, ch, idx as int));
                                    lemma_first_match_unique(cm, ch, idx as int);
                                }
                                return Some(rule.rhs.duplicate());
                            }
                        },
                        Term::Leaf(_) => {},
                    }
                    idx = idx + 1;
                }
                assert(!(exists|i: int| is_first_match(cm, ch, i)));
                if cands.len() == 0 {
                    return Some(Term::Node { operator, children });
                }
                let mut out: Vec<Term<'a>> = Vec::new();
                let mut j: usize = 0;
                while j < children.len()
                    invariant
                        j <= children@.len(),
                        out@.len() == j,
                        forall|i: int|
                            0 <= i < j ==> (#[trigger] out@[i])@ == match rewrite_step(
                                self.table(),
                                ch[i],
                            ) {
                                Some(u) => u,
                                None => ch[i],
                            },
                    decreases children@.len() - j,
                {
                    let c = &children[j];
                    let next = match c {
                        Term::Node { .. } => {
                            proof {
                                lemma_step_defined_children(self.table(), operator@, ch, j as int);
                                assert(decreases_to!(t => ch[j as int]));
                            }
                            match self.try_rewrite(c.duplicate()) {
                                Some(u) => u,
                                None => c.duplicate(),
                            }
                        },
                        Term::Leaf(name) => Term::Leaf(name),
                    };
                    out.push(next);
                    j = j + 1;
                }
                let r = Term::Node { operator, children: out };
                assert(r@.children() =~= rewrite_step(self.table(), t)->0.children());
                Some(r)
            },
        }
    }

    /// Rewrites the term step by step until it is a leaf.
    ///
    /// Each step is `try_rewrite` on the current term; rewriting stops when
    /// there is no step, which is when the term is a leaf. The call must
    /// reach a leaf: some number of defined steps leads there from the
    /// current term.
    pub fn do_traversal(&mut self)
        requires
            old(self).wf(),
            exists|n: nat| reaches_leaf(old(self).table(), old(self).current()@, n),
        ensures
            final(self).wf(),
            final(self).table() == old(self).table(),
            final(self).binding_count() == old(self).binding_count(),
            final(self).current()@ is Leaf,
            forall|n: nat|
                reaches_leaf(old(self).table(), old(self).current()@, n) ==> final(self).current()@
                    == normal_form(old(self).table(), old(self).current()@, n),
    {
        let ghost table = self.table();
        let ghost t0 = self.term@;
        let ghost n0 = choose|n: nat| reaches_leaf(table, t0, n);
        let ghost mut fuel: nat = n0;
        proof {
            assert forall|n: nat| reaches_leaf(table, t0, n) implies normal_form(table, t0, n)
                == normal_form(table, t0, n0) by {
                lemma_normal_form_fuel(table, t0, n, n0);
            }
        }
        loop
            invariant
                self.wf(),
                self.table() == table,
                self.binding_count() == old(self).binding_count(),
                reaches_leaf(table, self.term@, fuel),
                normal_form(table, self.term@, fuel) == normal_form(table, t0, n0),
            ensures
                self.wf(),
                self.table() == table,
                self.binding_count() == old(self).binding_count(),
                self.term@ is Leaf,
                normal_form(table, self.term@, fuel) == normal_form(table, t0, n0),
            decreases fuel,
        {
            proof {
                lemma_step_defined_has_step(table, self.term@);
            }
            match self.try_rewrite(self.term.duplicate()) {
                Some(next) => {
                    proof {
                        fuel = (fuel - 1) as nat;
                    }
                    self.term = next;
                },
                None => {
                    break;
                },
            }
        }
    }
}

/// One rewriting step of `term` by a single rule, in which variables of the
/// rule's left-hand side would be bound to subterms; the step is only laid
/// out, so it changes nothing. Both terms must be nodes.
pub fn do_rewrite_step(term: Term, rule_lhs: Term, rule_rhs: Term)
    requires
        term is Node,
        rule_lhs is Node,
{
    match (term, rule_lhs) {
        (
            Term::Node { operator: term_op, children: term_children },
            Term::Node { operator: rule_op, children: rule_children },
        ) => {
            if str_eq(term_op, rule_op) {
            } else {
            }
        },
        _ => {},
    }
}

} // verus!
