//! The language of a pattern: which parts of a line a pattern describes,
//! stated without regard to the order in which a matcher makes its
//! attempts; and how the matcher's attempts relate to it.

use vstd::prelude::*;
use crate::matcher::{
    alternative_end, char_matches, line_matches, one_or_more_end, seq_end, zero_or_one_end,
};
use crate::pattern::{
    branches_size, lemma_branch_size, lemma_seq_size_concat, lemma_seq_size_single, lemma_seq_size_step, node_size,
    seq_size, Node,
};

verus! {

/// Holds of every integer. A quantifier below names the integer it
/// chooses through this function, so that the choice can be made by
/// naming it too.
pub open spec fn chosen(k: int) -> bool {
    true
}

/// Whether the node `n` describes the part of `s` from `i` up to `j`.
pub open spec fn node_accepts(n: Node, s: Seq<char>, i: int, j: int) -> bool
    decreases node_size(n), j - i,
    via node_accepts_decreases
{
    match n {
        Node::StartAnchor => j == i,
        Node::EndAnchor => j == i && i >= s.len(),
        Node::OneOrMore(atom) => exists|m: int|
            #[trigger] chosen(m) && i <= m <= j && node_accepts(*atom, s, i, m) && (m == j || (i < m
                && node_accepts(n, s, m, j))),
        Node::ZeroOrOne(atom) => j == i || node_accepts(*atom, s, i, j),
        Node::Alternation(branches) => exists|b: int|
            #[trigger] chosen(b) && 0 <= b < branches.len() && seq_accepts(branches[b], s, i, j),
        single => 0 <= i < s.len() && j == i + 1 && char_matches(single, s[i]),
    }
}

/// Whether the nodes of `ps`, one behind the other, describe the part of
/// `s` from `i` up to `j`.
pub open spec fn seq_accepts(ps: Seq<Node>, s: Seq<char>, i: int, j: int) -> bool
    decreases seq_size(ps) + 1, j - i,
    via seq_accepts_decreases
{
    if ps.len() == 0 {
        j == i
    } else {
        exists|m: int|
            #[trigger] chosen(m) && i <= m <= j && node_accepts(ps.first(), s, i, m) && seq_accepts(
                ps.drop_first(),
                s,
                m,
                j,
            )
    }
}

#[via_fn]
proof fn node_accepts_decreases(n: Node, s: Seq<char>, i: int, j: int) {
    match n {
        Node::Alternation(branches) => {
            assert forall|b: int| 0 <= b < branches.len() implies seq_size(#[trigger] branches[b])
                < branches_size(branches) by {
                lemma_branch_size(branches, b);
            }
        },
        _ => {},
    }
}

#[via_fn]
proof fn seq_accepts_decreases(ps: Seq<Node>, s: Seq<char>, i: int, j: int) {
    if ps.len() > 0 {
        lemma_seq_size_step(ps);
    }
}

/// Whether `ps` describes some part of the line `s`: a part that begins the
/// line where `ps` begins with the start anchor, and any part otherwise.
pub open spec fn language_matches(ps: Seq<Node>, s: Seq<char>) -> bool {
    if ps.len() > 0 && ps.first() is StartAnchor {
        exists|j: int| seq_accepts(ps.drop_first(), s, 0, j)
    } else {
        exists|i: int, j: int| 0 <= i <= s.len() && seq_accepts(ps, s, i, j)
    }
}

/// The empty sequence describes the empty part of the line at any place.
pub proof fn lemma_accepts_empty(s: Seq<char>, i: int, j: int)
    ensures
        seq_accepts(Seq::empty(), s, i, j) <==> j == i,
{
}

/// A sequence describes what its first node and then the rest describe.
pub proof fn lemma_accepts_step(ps: Seq<Node>, s: Seq<char>, i: int, m: int, j: int)
    requires
        ps.len() > 0,
        i <= m <= j,
        node_accepts(ps.first(), s, i, m),
        seq_accepts(ps.drop_first(), s, m, j),
    ensures
        seq_accepts(ps, s, i, j),
{
    assert(chosen(m));
}

/// Where a sequence describes a part of the line, its first node describes
/// the part up to some place and the rest the part from there.
pub proof fn lemma_accepts_first(ps: Seq<Node>, s: Seq<char>, i: int, j: int) -> (m: int)
    requires
        ps.len() > 0,
        seq_accepts(ps, s, i, j),
    ensures
        i <= m <= j,
        node_accepts(ps.first(), s, i, m),
        seq_accepts(ps.drop_first(), s, m, j),
{
    choose|m: int|
        #[trigger] chosen(m) && i <= m <= j && node_accepts(ps.first(), s, i, m) && seq_accepts(
            ps.drop_first(),
            s,
            m,
            j,
        )
}

/// A repetition describes what one match of its atom describes, and what
/// one match and then the repetition again describe.
pub proof fn lemma_repetition_accepts(atom: Node, s: Seq<char>, i: int, m: int, j: int)
    requires
        i <= m <= j,
        node_accepts(atom, s, i, m),
        m == j || (i < m && node_accepts(Node::OneOrMore(Box::new(atom)), s, m, j)),
    ensures
        node_accepts(Node::OneOrMore(Box::new(atom)), s, i, j),
{
    assert(chosen(m));
}

/// Where a repetition describes a part of the line, its atom describes the
/// part up to some place, and the line ends there or the repetition
/// describes the rest.
pub proof fn lemma_repetition_first(atom: Node, s: Seq<char>, i: int, j: int) -> (m: int)
    requires
        node_accepts(Node::OneOrMore(Box::new(atom)), s, i, j),
    ensures
        i <= m <= j,
        node_accepts(atom, s, i, m),
        m == j || (i < m && node_accepts(Node::OneOrMore(Box::new(atom)), s, m, j)),
{
    let n = Node::OneOrMore(Box::new(atom));
    choose|m: int|
        #[trigger] chosen(m) && i <= m <= j && node_accepts(atom, s, i, m) && (m == j || (i < m
            && node_accepts(n, s, m, j)))
}

/// An alternation describes what one of its branches describes.
pub proof fn lemma_alternation_accepts(
    branches: Seq<Seq<Node>>,
    b: int,
    s: Seq<char>,
    i: int,
    j: int,
)
    requires
        0 <= b < branches.len(),
        seq_accepts(branches[b], s, i, j),
    ensures
        node_accepts(Node::Alternation(branches), s, i, j),
{
    assert(chosen(b));
}

/// Where an alternation describes a part of the line, one of its branches
/// describes it.
pub proof fn lemma_alternation_branch(branches: Seq<Seq<Node>>, s: Seq<char>, i: int, j: int) -> (b:
    int)
    requires
        node_accepts(Node::Alternation(branches), s, i, j),
    ensures
        0 <= b < branches.len(),
        seq_accepts(branches[b], s, i, j),
{
    choose|b: int|
        #[trigger] chosen(b) && 0 <= b < branches.len() && seq_accepts(branches[b], s, i, j)
}

/// A node describes a part of the line that does not end before it begins.
pub proof fn lemma_node_accepts_forward(n: Node, s: Seq<char>, i: int, j: int)
    requires
        node_accepts(n, s, i, j),
    ensures
        i <= j,
    decreases n,
{
    match n {
        Node::ZeroOrOne(atom) => {
            if j != i {
                lemma_node_accepts_forward(*atom, s, i, j);
            }
        },
        Node::Alternation(branches) => {
            let b = lemma_alternation_branch(branches, s, i, j);
            lemma_seq_accepts_forward(branches[b], s, i, j);
        },
        _ => {},
    }
}

/// A sequence describes a part of the line that does not end before it
/// begins.
pub proof fn lemma_seq_accepts_forward(ps: Seq<Node>, s: Seq<char>, i: int, j: int)
    requires
        seq_accepts(ps, s, i, j),
    ensures
        i <= j,
{
}

/// A sequence of one node describes what the node describes.
pub proof fn lemma_single_accepts(n: Node, s: Seq<char>, i: int, j: int)
    ensures
        seq_accepts(seq![n], s, i, j) <==> node_accepts(n, s, i, j),
{
    let one = seq![n];
    assert(one.first() == n);
    assert(one.drop_first() =~= Seq::<Node>::empty());
    if node_accepts(n, s, i, j) {
        lemma_node_accepts_forward(n, s, i, j);
        lemma_accepts_empty(s, j, j);
        lemma_accepts_step(one, s, i, j, j);
    }
    if seq_accepts(one, s, i, j) {
        let m = lemma_accepts_first(one, s, i, j);
        lemma_accepts_empty(s, m, j);
    }
}

/// Where `a` describes the line from `i` to `m` and `b` from `m` to `j`,
/// the two joined describe it from `i` to `j`.
pub proof fn lemma_accepts_join(
    a: Seq<Node>,
    b: Seq<Node>,
    s: Seq<char>,
    i: int,
    m: int,
    j: int,
)
    requires
        seq_accepts(a, s, i, m),
        seq_accepts(b, s, m, j),
    ensures
        seq_accepts(a + b, s, i, j),
    decreases a.len(),
{
    if a.len() == 0 {
        assert(a + b =~= b);
        lemma_accepts_empty(s, i, m);
    } else {
        let k = lemma_accepts_first(a, s, i, m);
        lemma_accepts_join(a.drop_first(), b, s, k, m, j);
        lemma_seq_accepts_forward(b, s, m, j);
        assert((a + b).first() == a.first());
        assert((a + b).drop_first() =~= a.drop_first() + b);
        lemma_accepts_step(a + b, s, i, k, j);
    }
}

/// Where two sequences joined describe the line from `i` to `j`, there is
/// a place between where the first ends and the second begins.
pub proof fn lemma_accepts_split(a: Seq<Node>, b: Seq<Node>, s: Seq<char>, i: int, j: int) -> (m:
    int)
    requires
        seq_accepts(a + b, s, i, j),
    ensures
        i <= m <= j,
        seq_accepts(a, s, i, m),
        seq_accepts(b, s, m, j),
    decreases a.len(),
{
    if a.len() == 0 {
        assert(a + b =~= b);
        lemma_seq_accepts_forward(b, s, i, j);
        lemma_accepts_empty(s, i, i);
        assert(a =~= Seq::<Node>::empty());
        i
    } else {
        let all = a + b;
        assert(all.first() == a.first());
        assert(all.drop_first() =~= a.drop_first() + b);
        let k = lemma_accepts_first(all, s, i, j);
        let m = lemma_accepts_split(a.drop_first(), b, s, k, j);
        lemma_accepts_step(a, s, i, k, m);
        m
    }
}

/// What an attempt of the matcher finds, the pattern describes: where the
/// attempt on `ps` from `i` ends at `j`, `ps` describes the line from `i`
/// to `j`.
pub proof fn lemma_seq_end_sound(ps: Seq<Node>, s: Seq<char>, i: int)
    ensures
        seq_end(ps, s, i) matches Some(j) ==> seq_accepts(ps, s, i, j),
    decreases seq_size(ps), s.len() - i, 1nat,
{
    if ps.len() > 0 {
        lemma_seq_size_step(ps);
        let first = ps.first();
        let rest = ps.drop_first();
        match seq_end(ps, s, i) {
            None => {},
            Some(j) => {
                match first {
                    Node::StartAnchor => {
                        lemma_seq_end_sound(rest, s, i);
                        lemma_seq_accepts_forward(rest, s, i, j);
                        lemma_accepts_step(ps, s, i, i, j);
                    },
                    Node::EndAnchor => {
                        lemma_seq_end_sound(rest, s, i);
                        lemma_seq_accepts_forward(rest, s, i, j);
                        lemma_accepts_step(ps, s, i, i, j);
                    },
                    Node::OneOrMore(atom) => {
                        let m = lemma_one_or_more_end_sound(*atom, rest, s, i);
                        lemma_accepts_step(ps, s, i, m, j);
                    },
                    Node::ZeroOrOne(atom) => {
                        let m = lemma_zero_or_one_end_sound(*atom, rest, s, i);
                        lemma_accepts_step(ps, s, i, m, j);
                    },
                    Node::Alternation(branches) => {
                        let m = lemma_alternative_end_sound(branches, rest, s, i);
                        lemma_accepts_step(ps, s, i, m, j);
                    },
                    _ => {
                        lemma_seq_end_sound(rest, s, i + 1);
                        lemma_seq_accepts_forward(rest, s, i + 1, j);
                        lemma_accepts_step(ps, s, i, i + 1, j);
                    },
                }
            },
        }
    }
}

/// Where the attempt on a repetition and what follows it ends at `j`, the
/// repetition describes the line up to some place, and what follows it the
/// line from there to `j`.
pub proof fn lemma_one_or_more_end_sound(atom: Node, rest: Seq<Node>, s: Seq<char>, i: int) -> (m:
    int)
    requires
        one_or_more_end(atom, rest, s, i) is Some,
    ensures
        i <= m <= one_or_more_end(atom, rest, s, i)->0,
        node_accepts(Node::OneOrMore(Box::new(atom)), s, i, m),
        seq_accepts(rest, s, m, one_or_more_end(atom, rest, s, i)->0),
    decreases 1 + node_size(atom) + seq_size(rest), s.len() - i, 0nat,
{
    let j = one_or_more_end(atom, rest, s, i)->0;
    lemma_seq_size_single(atom);
    lemma_seq_end_sound(seq![atom], s, i);
    let p = seq_end(seq![atom], s, i)->0;
    lemma_single_accepts(atom, s, i, p);
    lemma_node_accepts_forward(atom, s, i, p);
    if i < p <= s.len() && one_or_more_end(atom, rest, s, p) is Some {
        let m = lemma_one_or_more_end_sound(atom, rest, s, p);
        lemma_repetition_accepts(atom, s, i, p, m);
        m
    } else {
        lemma_seq_end_sound(rest, s, p);
        lemma_seq_accepts_forward(rest, s, p, j);
        lemma_repetition_accepts(atom, s, i, p, p);
        p
    }
}

/// Where the attempt on an optional node and what follows it ends at `j`,
/// the optional node describes the line up to some place, and what follows
/// it the line from there to `j`.
pub proof fn lemma_zero_or_one_end_sound(atom: Node, rest: Seq<Node>, s: Seq<char>, i: int) -> (m:
    int)
    requires
        zero_or_one_end(atom, rest, s, i) is Some,
    ensures
        i <= m <= zero_or_one_end(atom, rest, s, i)->0,
        node_accepts(Node::ZeroOrOne(Box::new(atom)), s, i, m),
        seq_accepts(rest, s, m, zero_or_one_end(atom, rest, s, i)->0),
    decreases 1 + node_size(atom) + seq_size(rest), s.len() - i, 0nat,
{
    let j = zero_or_one_end(atom, rest, s, i)->0;
    lemma_seq_size_single(atom);
    lemma_seq_end_sound(seq![atom], s, i);
    match seq_end(seq![atom], s, i) {
        Some(p) => {
            if seq_end(rest, s, p) is Some {
                lemma_single_accepts(atom, s, i, p);
                lemma_node_accepts_forward(atom, s, i, p);
                lemma_seq_end_sound(rest, s, p);
                lemma_seq_accepts_forward(rest, s, p, j);
                return p;
            }
        },
        None => {},
    }
    lemma_seq_end_sound(rest, s, i);
    lemma_seq_accepts_forward(rest, s, i, j);
    i
}

/// Where the attempt on an alternation and what follows it ends at `j`,
/// one of the branches describes the line up to some place, and what
/// follows the alternation the line from there to `j`.
pub proof fn lemma_alternative_end_sound(
    branches: Seq<Seq<Node>>,
    rest: Seq<Node>,
    s: Seq<char>,
    i: int,
) -> (m: int)
    requires
        alternative_end(branches, rest, s, i) is Some,
    ensures
        i <= m <= alternative_end(branches, rest, s, i)->0,
        node_accepts(Node::Alternation(branches), s, i, m),
        seq_accepts(rest, s, m, alternative_end(branches, rest, s, i)->0),
    decreases 1 + branches_size(branches) + seq_size(rest), s.len() - i, 0nat,
{
    let j = alternative_end(branches, rest, s, i)->0;
    lemma_seq_size_concat(branches.first(), rest);
    if seq_end(branches.first() + rest, s, i) is Some {
        lemma_seq_end_sound(branches.first() + rest, s, i);
        let m = lemma_accepts_split(branches.first(), rest, s, i, j);
        lemma_alternation_accepts(branches, 0, s, i, m);
        m
    } else {
        let others = branches.drop_first();
        let m = lemma_alternative_end_sound(others, rest, s, i);
        let b = lemma_alternation_branch(others, s, i, m);
        lemma_alternation_accepts(branches, b + 1, s, i, m);
        m
    }
}

/// A match of a line is a part of the line that the pattern describes.
pub proof fn lemma_match_is_in_language(ps: Seq<Node>, s: Seq<char>)
    requires
        line_matches(ps, s),
    ensures
        language_matches(ps, s),
{
    if ps.len() > 0 && ps.first() is StartAnchor {
        lemma_seq_end_sound(ps.drop_first(), s, 0);
        assert(seq_accepts(ps.drop_first(), s, 0, seq_end(ps.drop_first(), s, 0)->0));
    } else {
        let start = choose|start: int|
            0 <= start <= s.len() && #[trigger] seq_end(ps, s, start) is Some;
        lemma_seq_end_sound(ps, s, start);
        assert(seq_accepts(ps, s, start, seq_end(ps, s, start)->0));
    }
}

/// Whether a node consumes exactly one character where it matches.
pub open spec fn consumes_one(n: Node) -> bool {
    n is Literal || n is DigitClass || n is WordClass || n is BracketClass || n is Wildcard
}

/// Whether a node matches in one way at most, and in the same way whatever
/// follows it: a node that consumes one character, or the start anchor.
pub open spec fn fixed_width(n: Node) -> bool {
    consumes_one(n) || n is StartAnchor
}

/// Whether each quantifier in a node wraps a node of fixed width.
pub open spec fn simple_node(n: Node) -> bool
    decreases n,
{
    match n {
        Node::OneOrMore(atom) => fixed_width(*atom),
        Node::ZeroOrOne(atom) => fixed_width(*atom),
        Node::Alternation(branches) => forall|b: int|
            0 <= b < branches.len() ==> simple_seq(#[trigger] branches[b]),
        _ => true,
    }
}

/// Whether each quantifier in a sequence wraps a node of fixed width.
pub open spec fn simple_seq(ps: Seq<Node>) -> bool
    decreases ps,
{
    forall|k: int| 0 <= k < ps.len() ==> simple_node(#[trigger] ps[k])
}

/// The attempt on one node of fixed width succeeds exactly where the node
/// describes a part of the line, and ends where that part ends.
pub proof fn lemma_fixed_width_end(n: Node, s: Seq<char>, i: int)
    requires
        fixed_width(n),
    ensures
        forall|j: int| node_accepts(n, s, i, j) <==> seq_end(seq![n], s, i) == Some(j),
{
    let one = seq![n];
    assert(one.first() == n);
    assert(one.drop_first() =~= Seq::<Node>::empty());
    assert(seq_end(one.drop_first(), s, i + 1) == Some(i + 1));
    assert(seq_end(one.drop_first(), s, i) == Some(i));
}

/// Where a simple sequence describes a part of the line that begins at
/// `i`, the attempt from `i` succeeds.
pub proof fn lemma_seq_end_complete(ps: Seq<Node>, s: Seq<char>, i: int, j: int)
    requires
        simple_seq(ps),
        seq_accepts(ps, s, i, j),
    ensures
        seq_end(ps, s, i) is Some,
    decreases seq_size(ps), s.len() - i, 1nat,
{
    if ps.len() > 0 {
        lemma_seq_size_step(ps);
        let first = ps.first();
        let rest = ps.drop_first();
        assert(simple_node(ps[0]));
        assert forall|k: int| 0 <= k < rest.len() implies simple_node(#[trigger] rest[k]) by {
            assert(rest[k] == ps[k + 1]);
        }
        let m = lemma_accepts_first(ps, s, i, j);
        match first {
            Node::StartAnchor => lemma_seq_end_complete(rest, s, i, j),
            Node::EndAnchor => lemma_seq_end_complete(rest, s, i, j),
            Node::OneOrMore(atom) => lemma_one_or_more_end_complete(*atom, rest, s, i, m, j),
            Node::ZeroOrOne(atom) => lemma_zero_or_one_end_complete(*atom, rest, s, i, m, j),
            Node::Alternation(branches) => {
                let b = lemma_alternation_branch(branches, s, i, m);
                lemma_accepts_join(branches[b], rest, s, i, m, j);
                lemma_alternative_end_complete(branches, rest, s, i, b, j);
            },
            _ => lemma_seq_end_complete(rest, s, i + 1, j),
        }
    }
}

/// Where a repetition of a node of fixed width describes the line from `i`
/// to `m`, and a simple sequence the line from `m` on, the attempt on the
/// repetition and then the sequence succeeds from `i`.
pub proof fn lemma_one_or_more_end_complete(
    atom: Node,
    rest: Seq<Node>,
    s: Seq<char>,
    i: int,
    m: int,
    j: int,
)
    requires
        fixed_width(atom),
        simple_seq(rest),
        node_accepts(Node::OneOrMore(Box::new(atom)), s, i, m),
        seq_accepts(rest, s, m, j),
    ensures
        one_or_more_end(atom, rest, s, i) is Some,
    decreases 1 + node_size(atom) + seq_size(rest), s.len() - i, 0nat,
{
    let first = lemma_repetition_first(atom, s, i, m);
    lemma_fixed_width_end(atom, s, i);
    if first == m {
        lemma_seq_end_complete(rest, s, first, j);
    } else {
        lemma_one_or_more_end_complete(atom, rest, s, first, m, j);
    }
}

/// Where an optional node of fixed width describes the line from `i` to
/// `m`, and a simple sequence the line from `m` on, the attempt on the
/// optional node and then the sequence succeeds from `i`.
pub proof fn lemma_zero_or_one_end_complete(
    atom: Node,
    rest: Seq<Node>,
    s: Seq<char>,
    i: int,
    m: int,
    j: int,
)
    requires
        fixed_width(atom),
        simple_seq(rest),
        node_accepts(Node::ZeroOrOne(Box::new(atom)), s, i, m),
        seq_accepts(rest, s, m, j),
    ensures
        zero_or_one_end(atom, rest, s, i) is Some,
    decreases 1 + node_size(atom) + seq_size(rest), s.len() - i, 0nat,
{
    lemma_fixed_width_end(atom, s, i);
    if m == i {
        lemma_seq_end_complete(rest, s, i, j);
    } else {
        assert(node_accepts(atom, s, i, m));
        lemma_seq_end_complete(rest, s, m, j);
    }
}

/// Where the branch `b` of an alternation, followed by a sequence,
/// describes a part of the line that begins at `i`, and the branches and
/// the sequence are simple, the attempt on the alternation and then the
/// sequence succeeds from `i`.
pub proof fn lemma_alternative_end_complete(
    branches: Seq<Seq<Node>>,
    rest: Seq<Node>,
    s: Seq<char>,
    i: int,
    b: int,
    j: int,
)
    requires
        0 <= b < branches.len(),
        forall|k: int| 0 <= k < branches.len() ==> simple_seq(#[trigger] branches[k]),
        simple_seq(rest),
        seq_accepts(branches[b] + rest, s, i, j),
    ensures
        alternative_end(branches, rest, s, i) is Some,
    decreases 1 + branches_size(branches) + seq_size(rest), s.len() - i, 0nat,
{
    lemma_seq_size_concat(branches.first(), rest);
    if b == 0 {
        assert(simple_seq(branches[0]));
        lemma_seq_end_complete(branches.first() + rest, s, i, j);
    } else if seq_end(branches.first() + rest, s, i) is None {
        let others = branches.drop_first();
        assert forall|k: int| 0 <= k < others.len() implies simple_seq(#[trigger] others[k]) by {
            assert(others[k] == branches[k + 1]);
        }
        lemma_alternative_end_complete(others, rest, s, i, b - 1, j);
    }
}

/// For a simple pattern the matcher decides the language: a line matches
/// exactly when the pattern describes some part of it. A pattern in which a
/// quantifier wraps a group need not be decided so: of the ways in which
/// the group matches, a repetition tries the first only.
pub proof fn lemma_simple_pattern_decides_language(ps: Seq<Node>, s: Seq<char>)
    requires
        simple_seq(ps),
    ensures
        line_matches(ps, s) <==> language_matches(ps, s),
{
    if line_matches(ps, s) {
        lemma_match_is_in_language(ps, s);
    }
    if language_matches(ps, s) {
        if ps.len() > 0 && ps.first() is StartAnchor {
            let rest = ps.drop_first();
            assert forall|k: int| 0 <= k < rest.len() implies simple_node(#[trigger] rest[k]) by {
                assert(rest[k] == ps[k + 1]);
            }
            let j = choose|j: int| seq_accepts(rest, s, 0, j);
            lemma_seq_end_complete(rest, s, 0, j);
        } else {
            let (i, j) = choose|i: int, j: int| 0 <= i <= s.len() && seq_accepts(ps, s, i, j);
            lemma_seq_end_complete(ps, s, i, j);
        }
    }
}

} // verus!
