//! Pattern nodes and their mathematical model.
//!
//! A compiled pattern is a sequence of [`Pattern`] nodes. Contracts speak of
//! its model, a sequence of [`Node`] values, in which each vector is a
//! sequence.

use vstd::prelude::*;

verus! {

/// The mathematical model of a pattern node. Each variant models the
/// variant of [`Pattern`] that has its name.
pub enum Node {
    Literal(char),
    DigitClass,
    WordClass,
    BracketClass { negated: bool, members: Seq<char> },
    StartAnchor,
    EndAnchor,
    Wildcard,
    OneOrMore(Box<Node>),
    ZeroOrOne(Box<Node>),
    Alternation(Seq<Seq<Node>>),
}

/// A compiled pattern node.
#[derive(Debug, PartialEq, Eq)]
pub enum Pattern {
    /// Matches the one character given.
    Literal(char),
    /// Matches one decimal digit.
    DigitClass,
    /// Matches one word character: a letter or a number.
    WordClass,
    /// Matches one character that is among `members`, or, where `negated`
    /// is set, one that is not. The order of the members does not count,
    /// and a member may stand more than once.
    BracketClass { negated: bool, members: Vec<char> },
    /// Consumes nothing. As the first node of a pattern it ties the match
    /// to the start of the line.
    StartAnchor,
    /// Consumes nothing, and matches at the end of the line only.
    EndAnchor,
    /// Matches any one character.
    Wildcard,
    /// Matches the inner node once or more often, one match behind the
    /// other.
    OneOrMore(Box<Pattern>),
    /// Matches the inner node once or not at all.
    ZeroOrOne(Box<Pattern>),
    /// Matches one of its branches; the branches are tried from left to
    /// right.
    Alternation(Vec<Vec<Pattern>>),
}

/// The model of one compiled node.
pub open spec fn node_of(p: Pattern) -> Node
    decreases p,
{
    match p {
        Pattern::Literal(c) => Node::Literal(c),
        Pattern::DigitClass => Node::DigitClass,
        Pattern::WordClass => Node::WordClass,
        Pattern::BracketClass { negated, members } => Node::BracketClass {
            negated,
            members: members@,
        },
        Pattern::StartAnchor => Node::StartAnchor,
        Pattern::EndAnchor => Node::EndAnchor,
        Pattern::Wildcard => Node::Wildcard,
        Pattern::OneOrMore(inner) => Node::OneOrMore(Box::new(node_of(*inner))),
        Pattern::ZeroOrOne(inner) => Node::ZeroOrOne(Box::new(node_of(*inner))),
        Pattern::Alternation(branches) => Node::Alternation(branches_of(branches@)),
    }
}

/// The model of the branches of a compiled alternation.
pub open spec fn branches_of(bs: Seq<Vec<Pattern>>) -> Seq<Seq<Node>>
    decreases bs,
{
    Seq::new(
        bs.len(),
        |i: int|
            if 0 <= i < bs.len() {
                nodes_of(bs[i]@)
            } else {
                Seq::empty()
            },
    )
}

/// The model of a compiled sequence of nodes.
pub open spec fn nodes_of(ps: Seq<Pattern>) -> Seq<Node>
    decreases ps,
{
    Seq::new(
        ps.len(),
        |i: int|
            if 0 <= i < ps.len() {
                node_of(ps[i])
            } else {
                Node::Wildcard
            },
    )
}

impl View for Pattern {
    type V = Node;

    open spec fn view(&self) -> Node {
        node_of(*self)
    }
}

/// Whether a node may stand under a quantifier: any node but a quantifier
/// or the end anchor.
pub open spec fn is_atom(n: Node) -> bool {
    !(n is OneOrMore || n is ZeroOrOne || n is EndAnchor)
}

/// Whether a node keeps the rules of the pattern language: a quantifier
/// wraps one atom, and an alternation has at least one branch, each a
/// well-formed sequence.
pub open spec fn well_formed_node(n: Node) -> bool
    decreases n,
{
    match n {
        Node::OneOrMore(inner) => is_atom(*inner) && well_formed_node(*inner),
        Node::ZeroOrOne(inner) => is_atom(*inner) && well_formed_node(*inner),
        Node::Alternation(branches) => branches.len() >= 1 && forall|i: int|
            0 <= i < branches.len() ==> well_formed_seq(#[trigger] branches[i]),
        _ => true,
    }
}

/// Whether a sequence keeps the rules of the pattern language: each node is
/// well formed, the start anchor stands first if it stands at all, and the
/// end anchor last.
pub open spec fn well_formed_seq(ps: Seq<Node>) -> bool
    decreases ps,
{
    forall|k: int|
        0 <= k < ps.len() ==> {
            &&& well_formed_node(#[trigger] ps[k])
            &&& ps[k] is StartAnchor ==> k == 0
            &&& ps[k] is EndAnchor ==> k == ps.len() - 1
        }
}

/// The number of nodes in a node, itself and each branch counted.
pub open spec fn node_size(n: Node) -> nat
    decreases n,
{
    match n {
        Node::OneOrMore(inner) => 1 + node_size(*inner),
        Node::ZeroOrOne(inner) => 1 + node_size(*inner),
        Node::Alternation(branches) => 1 + branches_size(branches),
        _ => 1,
    }
}

/// The number of nodes in a sequence of nodes.
pub open spec fn seq_size(ps: Seq<Node>) -> nat
    decreases ps,
{
    if ps.len() == 0 {
        0
    } else {
        node_size(ps.first()) + seq_size(ps.drop_first())
    }
}

/// The number of nodes in the branches of an alternation.
pub open spec fn branches_size(bs: Seq<Seq<Node>>) -> nat
    decreases bs,
{
    if bs.len() == 0 {
        0
    } else {
        1 + seq_size(bs.first()) + branches_size(bs.drop_first())
    }
}

/// A node counts at least itself.
pub proof fn lemma_node_size_positive(n: Node)
    ensures
        node_size(n) >= 1,
{
}

/// The size of a sequence is that of its first node and of the rest.
pub proof fn lemma_seq_size_step(ps: Seq<Node>)
    requires
        ps.len() > 0,
    ensures
        seq_size(ps) == node_size(ps.first()) + seq_size(ps.drop_first()),
        seq_size(ps) > seq_size(ps.drop_first()),
{
    lemma_node_size_positive(ps.first());
}

/// The size of a sequence of one node is the size of that node.
pub proof fn lemma_seq_size_single(n: Node)
    ensures
        seq_size(seq![n]) == node_size(n),
{
    assert(seq![n].drop_first() =~= Seq::<Node>::empty());
    reveal_with_fuel(seq_size, 2);
}

/// The size of a concatenation is the sum of the sizes.
pub proof fn lemma_seq_size_concat(a: Seq<Node>, b: Seq<Node>)
    ensures
        seq_size(a + b) == seq_size(a) + seq_size(b),
    decreases a.len(),
{
    if a.len() == 0 {
        assert(a + b =~= b);
    } else {
        assert((a + b).drop_first() =~= a.drop_first() + b);
        lemma_seq_size_concat(a.drop_first(), b);
    }
}

/// Each branch is smaller than the branches together.
pub proof fn lemma_branch_size(bs: Seq<Seq<Node>>, i: int)
    requires
        0 <= i < bs.len(),
    ensures
        seq_size(bs[i]) < branches_size(bs),
    decreases bs.len(),
{
    if i > 0 {
        lemma_branch_size(bs.drop_first(), i - 1);
    }
}

impl Clone for Pattern {
    fn clone(&self) -> (res: Self)
        ensures
            res@ == self@,
        decreases self,
    {
        match self {
            Pattern::Literal(c) => Pattern::Literal(*c),
            Pattern::DigitClass => Pattern::DigitClass,
            Pattern::WordClass => Pattern::WordClass,
            Pattern::BracketClass { negated, members } => Pattern::BracketClass {
                negated: *negated,
                members: members.clone(),
            },
            Pattern::StartAnchor => Pattern::StartAnchor,
            Pattern::EndAnchor => Pattern::EndAnchor,
            Pattern::Wildcard => Pattern::Wildcard,
            Pattern::OneOrMore(inner) => Pattern::OneOrMore(Box::new((&**inner).clone())),
            Pattern::ZeroOrOne(inner) => Pattern::ZeroOrOne(Box::new((&**inner).clone())),
            Pattern::Alternation(branches) => {
                let mut copy: Vec<Vec<Pattern>> = Vec::new();
                let mut i: usize = 0;
                while i < branches.len()
                    invariant
                        i <= branches.len(),
                        copy.len() == i,
                        self is Alternation,
                        self->Alternation_0 == *branches,
                        forall|k: int|
                            0 <= k < i ==> nodes_of(#[trigger] copy[k]@) == nodes_of(
                                branches[k]@,
                            ),
                    decreases branches.len() - i,
                {
                    assert(decreases_to!(*self => self->Alternation_0));
                    assert(decreases_to!(*branches => branches@));
                    assert(decreases_to!(branches@ => branches@[i as int]));
                    assert(decreases_to!(branches@[i as int] => branches@[i as int]@));
                    let branch = clone_patterns(branches[i].as_slice());
                    copy.push(branch);
                    i += 1;
                }
                let res = Pattern::Alternation(copy);
                proof {
                    assert(branches_of(copy@) =~= branches_of(branches@));
                }
                res
            },
        }
    }
}

/// Copies a sequence of nodes.
pub fn clone_patterns(ps: &[Pattern]) -> (res: Vec<Pattern>)
    ensures
        nodes_of(res@) == nodes_of(ps@),
    decreases ps@,
{
    let mut res: Vec<Pattern> = Vec::new();
    let mut i: usize = 0;
    while i < ps.len()
        invariant
            i <= ps.len(),
            res.len() == i,
            forall|k: int| 0 <= k < i ==> (#[trigger] res[k])@ == ps[k]@,
        decreases ps.len() - i,
    {
        res.push(ps[i].clone());
        i += 1;
    }
    proof {
        assert(nodes_of(res@) =~= nodes_of(ps@));
    }
    res
}

/// Copies `head` and then `tail` into one sequence.
pub fn join_patterns(head: &[Pattern], tail: &[Pattern]) -> (res: Vec<Pattern>)
    ensures
        nodes_of(res@) == nodes_of(head@) + nodes_of(tail@),
{
    let mut res = clone_patterns(head);
    let mut i: usize = 0;
    while i < tail.len()
        invariant
            i <= tail.len(),
            nodes_of(res@) == nodes_of(head@) + nodes_of(tail@.take(i as int)),
        decreases tail.len() - i,
    {
        let ghost before = res@;
        res.push(tail[i].clone());
        proof {
            assert(nodes_of(res@) =~= nodes_of(before).push(tail[i as int]@));
            assert(nodes_of(tail@.take(i + 1)) =~= nodes_of(tail@.take(i as int)).push(
                tail[i as int]@,
            ));
        }
        i += 1;
    }
    proof {
        assert(tail@.take(tail@.len() as int) =~= tail@);
    }
    res
}

} // verus!
