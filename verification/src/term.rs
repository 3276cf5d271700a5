use vstd::prelude::*;

use crate::text::str_eq;

verus! {

/// The mathematical value of a term: a leaf names a constant or a variable,
/// a node applies an operator to an ordered list of children.
pub enum TermModel {
    Leaf(Seq<char>),
    Node(Seq<char>, Seq<TermModel>),
}

/// The mathematical value of a rule `lhs -> rhs`.
pub struct RuleModel {
    pub lhs: TermModel,
    pub rhs: TermModel,
}

impl TermModel {
    /// The symbol at the root: the name of a leaf, the operator of a node.
    pub open spec fn root(self) -> Seq<char> {
        match self {
            TermModel::Leaf(name) => name,
            TermModel::Node(op, _) => op,
        }
    }

    /// The children of a node; a leaf has none.
    pub open spec fn children(self) -> Seq<TermModel> {
        match self {
            TermModel::Leaf(_) => Seq::empty(),
            TermModel::Node(_, ch) => ch,
        }
    }
}

/// A term: a leaf such as `true`, `0` or `X`, or an operator applied to
/// children, such as `add(succ(0), X)`.
#[derive(Debug, PartialEq, Eq, Hash)]
pub enum Term<'a> {
    Leaf(&'a str),
    Node { operator: &'a str, children: Vec<Term<'a>> },
}

/// A rewrite rule: a term that matches `lhs` is rewritten into `rhs`.
#[derive(Debug)]
pub struct Rule<'a> {
    pub lhs: Term<'a>,
    pub rhs: Term<'a>,
}

/// The value of a term.
pub open spec fn term_model<'a>(t: Term<'a>) -> TermModel
    decreases t,
{
    match t {
        Term::Leaf(name) => TermModel::Leaf(name@),
        Term::Node { operator, children } => TermModel::Node(
            operator@,
            Seq::new(
                children@.len(),
                |i: int|
                    if 0 <= i < children@.len() {
                        term_model(children@[i])
                    } else {
                        TermModel::Leaf(Seq::empty())
                    },
            ),
        ),
    }
}

impl<'a> View for Term<'a> {
    type V = TermModel;

    open spec fn view(&self) -> TermModel {
        term_model(*self)
    }
}

impl<'a> View for Rule<'a> {
    type V = RuleModel;

    open spec fn view(&self) -> RuleModel {
        RuleModel { lhs: self.lhs@, rhs: self.rhs@ }
    }
}

impl<'a> Clone for Term<'a> {
    fn clone(&self) -> (r: Self)
        ensures
            r@ == self@,
    {
        self.duplicate()
    }
}

impl<'a> Clone for Rule<'a> {
    fn clone(&self) -> (r: Self)
        ensures
            r@ == self@,
    {
        self.duplicate()
    }
}

/// Whether two terms are the same leaf; a leaf never equals a node.
pub open spec fn same_leaf(a: TermModel, b: TermModel) -> bool {
    match (a, b) {
        (TermModel::Leaf(x), TermModel::Leaf(y)) => x == y,
        _ => false,
    }
}

/// The arity a term reports: 1 for a leaf, the number of children of a node
/// taken modulo 256 (the count is narrowed to a byte).
pub open spec fn arity_of(t: TermModel) -> int {
    match t {
        TermModel::Leaf(_) => 1,
        TermModel::Node(_, ch) => ch.len() as int % 256,
    }
}

/// Laws of leaf comparison: a leaf is never the same leaf as a node, two
/// leaves are the same exactly when their names are equal, and the
/// comparison does not depend on the order of its arguments.
pub proof fn law_same_leaf(a: TermModel, b: TermModel)
    ensures
        same_leaf(a, b) ==> a is Leaf && b is Leaf && a == b,
        (a is Leaf && b is Node) ==> !same_leaf(a, b),
        (a is Node && b is Leaf) ==> !same_leaf(a, b),
        (a is Leaf && b is Leaf) ==> (same_leaf(a, b) <==> a.root() == b.root()),
        same_leaf(a, b) == same_leaf(b, a),
{
}

/// Laws of arity: a leaf has arity 1; the arity of a node counts all its
/// children, leaves and nodes alike, modulo 256, so adding any child adds one
/// and two nodes with equally many children have the same arity.
pub proof fn law_arity(op: Seq<char>, ch: Seq<TermModel>, c: TermModel, other: Seq<TermModel>)
    ensures
        arity_of(TermModel::Leaf(op)) == 1,
        arity_of(TermModel::Node(op, Seq::empty())) == 0,
        arity_of(TermModel::Node(op, ch)) == ch.len() % 256,
        arity_of(TermModel::Node(op, ch.push(c))) == (arity_of(TermModel::Node(op, ch)) + 1) % 256,
        other.len() == ch.len() ==> arity_of(TermModel::Node(op, other)) == arity_of(
            TermModel::Node(op, ch),
        ),
{
}

impl<'a> Term<'a> {
    /// A copy of the term, with the same value.
    pub fn duplicate(&self) -> (r: Term<'a>)
        ensures
            r@ == self@,
        decreases self,
    {
        match self {
            Term::Leaf(name) => Term::Leaf(name),
            Term::Node { operator, children } => {
                let mut out: Vec<Term<'a>> = Vec::new();
                let mut i: usize = 0;
                while i < children.len()
                    invariant
                        *self == (Term::Node { operator: *operator, children: *children }),
                        i <= children@.len(),
                        out@.len() == i,
                        forall|j: int| 0 <= j < i ==> (#[trigger] out@[j])@ == children@[j]@,
                    decreases children@.len() - i,
                {
                    proof {
                        assert(decreases_to!(*children => children@[i as int]));
                        assert(decreases_to!(*self => (*self)->children));
                        assert(decreases_to!(*self => children@[i as int]));
                    }
                    let c = children[i].duplicate();
                    out.push(c);
                    i = i + 1;
                }
                let r = Term::Node { operator, children: out };
                assert(r@.children() =~= self@.children());
                r
            },
        }
    }

    /// The arity of the term: 1 for a leaf, the number of children for a node
    /// (narrowed to a byte).
    pub fn arity(&self) -> (r: u8)
        ensures
            r as int == arity_of(self@),
            self is Leaf ==> r == 1,
            self is Node ==> r as int == self->children@.len() % 256,
    {
        match self {
            Term::Leaf(_) => 1,
            Term::Node { children, .. } => {
                let n: usize = children.len();
                assert((n as u8) as int == n as int % 256) by (bit_vector);
                n as u8
            },
        }
    }

    /// Whether two terms are the same leaf. Comparing two nodes is not
    /// supported.
    pub fn equivalent(&self, another: &Self) -> (r: bool)
        requires
            !(self is Node && another is Node),
        ensures
            r == same_leaf(self@, another@),
            r ==> self is Leaf && another is Leaf,
            (self is Leaf && another is Leaf) ==> (r <==> self->0@ == another->0@),
            r == same_leaf(another@, self@),
    {
        match (self, another) {
            (Term::Leaf(val), Term::Leaf(another_val)) => str_eq(val, another_val),
            (Term::Leaf(_), Term::Node { .. }) => false,
            (Term::Node { .. }, Term::Leaf(_)) => false,
            (Term::Node { .. }, Term::Node { .. }) => false,
        }
    }
}

impl<'a> Rule<'a> {
    /// A copy of the rule, with the same value.
    pub fn duplicate(&self) -> (r: Rule<'a>)
        ensures
            r@ == self@,
    {
        Rule { lhs: self.lhs.duplicate(), rhs: self.rhs.duplicate() }
    }

    /// The operator that a rule rewrites: the root of its left-hand side,
    /// which must be a node.
    pub fn extract_key(&self) -> (r: &'a str)
        requires
            self.lhs is Node,
        ensures
            r@ == self@.lhs.root(),
    {
        match &self.lhs {
            Term::Node { operator, .. } => *operator,
            Term::Leaf(name) => name,
        }
    }
}

} // verus!
