//! Laws of the compiler and of the matcher.

use vstd::prelude::*;
use crate::chars::as_char;
use crate::compiler::{
    atom_at, branch_end, compile, compile_branches, compile_from, compiled_as, group_at,
    group_close, lemma_branch_end_bounds, lemma_class_close_bounds, lemma_group_close_bounds,
    node_at, with_suffix, CompileError,
};
use crate::matcher::{alternative_end, line_matches, one_or_more_end, seq_end, zero_or_one_end};
use crate::pattern::{
    branches_size, is_atom, lemma_seq_size_concat, lemma_seq_size_single, lemma_seq_size_step,
    node_size, nodes_of, seq_size, well_formed_node, well_formed_seq, Node, Pattern,
};

verus! {

/// A successful attempt that begins inside the line, or at its end, leaves
/// the cursor at or behind the place it began, and not behind the line.
pub proof fn lemma_seq_end_bounds(ps: Seq<Node>, s: Seq<char>, pos: int)
    requires
        0 <= pos <= s.len(),
    ensures
        seq_end(ps, s, pos) matches Some(e) ==> pos <= e <= s.len(),
    decreases seq_size(ps), s.len() - pos, 1nat,
{
    if ps.len() > 0 {
        lemma_seq_size_step(ps);
        let rest = ps.drop_first();
        match ps.first() {
            Node::StartAnchor => lemma_seq_end_bounds(rest, s, pos),
            Node::EndAnchor => lemma_seq_end_bounds(rest, s, pos),
            Node::OneOrMore(atom) => lemma_one_or_more_end_bounds(*atom, rest, s, pos),
            Node::ZeroOrOne(atom) => lemma_zero_or_one_end_bounds(*atom, rest, s, pos),
            Node::Alternation(branches) => lemma_alternative_end_bounds(branches, rest, s, pos),
            _ => {
                if pos < s.len() {
                    lemma_seq_end_bounds(rest, s, pos + 1);
                }
            },
        }
    }
}

/// The cursor behind a repetition and what follows it stays in the line.
pub proof fn lemma_one_or_more_end_bounds(atom: Node, rest: Seq<Node>, s: Seq<char>, pos: int)
    requires
        0 <= pos <= s.len(),
    ensures
        one_or_more_end(atom, rest, s, pos) matches Some(e) ==> pos <= e <= s.len(),
    decreases 1 + node_size(atom) + seq_size(rest), s.len() - pos, 0nat,
{
    lemma_seq_size_single(atom);
    lemma_seq_end_bounds(seq![atom], s, pos);
    match seq_end(seq![atom], s, pos) {
        None => {},
        Some(p) => {
            if pos < p {
                lemma_one_or_more_end_bounds(atom, rest, s, p);
            }
            lemma_seq_end_bounds(rest, s, p);
        },
    }
}

/// The cursor behind an optional node and what follows it stays in the
/// line.
pub proof fn lemma_zero_or_one_end_bounds(atom: Node, rest: Seq<Node>, s: Seq<char>, pos: int)
    requires
        0 <= pos <= s.len(),
    ensures
        zero_or_one_end(atom, rest, s, pos) matches Some(e) ==> pos <= e <= s.len(),
    decreases 1 + node_size(atom) + seq_size(rest), s.len() - pos, 0nat,
{
    lemma_seq_size_single(atom);
    lemma_seq_end_bounds(seq![atom], s, pos);
    match seq_end(seq![atom], s, pos) {
        None => {},
        Some(p) => {
            lemma_seq_end_bounds(rest, s, p);
        },
    }
    lemma_seq_end_bounds(rest, s, pos);
}

/// The cursor behind an alternation and what follows it stays in the line.
pub proof fn lemma_alternative_end_bounds(
    branches: Seq<Seq<Node>>,
    rest: Seq<Node>,
    s: Seq<char>,
    pos: int,
)
    requires
        0 <= pos <= s.len(),
    ensures
        alternative_end(branches, rest, s, pos) matches Some(e) ==> pos <= e <= s.len(),
    decreases 1 + branches_size(branches) + seq_size(rest), s.len() - pos, 0nat,
{
    if branches.len() > 0 {
        lemma_seq_size_concat(branches.first(), rest);
        lemma_seq_end_bounds(branches.first() + rest, s, pos);
        lemma_alternative_end_bounds(branches.drop_first(), rest, s, pos);
    }
}

/// Whether every node of `ps` is a literal.
pub open spec fn all_literals(ps: Seq<Node>) -> bool {
    forall|k: int| 0 <= k < ps.len() ==> #[trigger] ps[k] is Literal
}

/// The characters that the literal nodes of `ps` stand for, in order.
pub open spec fn spelled(ps: Seq<Node>) -> Seq<char> {
    Seq::new(ps.len(), |k: int| ps[k]->Literal_0)
}

/// Whether `w` stands in `s` at offset `k`.
pub open spec fn occurs_at(w: Seq<char>, s: Seq<char>, k: int) -> bool {
    0 <= k && k + w.len() <= s.len() && s.subrange(k, k + w.len()) == w
}

/// Whether `w` is a substring of `s`.
pub open spec fn occurs_in(w: Seq<char>, s: Seq<char>) -> bool {
    exists|k: int| occurs_at(w, s, k)
}

/// Literal nodes followed by `rest` match at `pos` exactly when the
/// characters they spell stand there and `rest` matches behind them.
pub proof fn lemma_literals_then(ps: Seq<Node>, rest: Seq<Node>, s: Seq<char>, pos: int)
    requires
        all_literals(ps),
        0 <= pos <= s.len(),
    ensures
        seq_end(ps + rest, s, pos) == if occurs_at(spelled(ps), s, pos) {
            seq_end(rest, s, pos + ps.len())
        } else {
            None
        },
    decreases ps.len(),
{
    let w = spelled(ps);
    let all = ps + rest;
    if ps.len() == 0 {
        assert(all =~= rest);
        assert(s.subrange(pos, pos + 0) =~= w);
    } else {
        let tail = ps.drop_first();
        let v = spelled(tail);
        assert(all.first() == ps[0]);
        assert(all.drop_first() =~= tail + rest);
        assert(forall|k: int| 0 <= k < v.len() ==> v[k] == w[k + 1]);
        if pos < s.len() && s[pos] == w[0] {
            lemma_literals_then(tail, rest, s, pos + 1);
            if occurs_at(v, s, pos + 1) {
                assert(s.subrange(pos, pos + w.len()) =~= w) by {
                    assert forall|k: int| 0 <= k < w.len() implies s.subrange(
                        pos,
                        pos + w.len(),
                    )[k] == w[k] by {
                        if k > 0 {
                            assert(s.subrange(pos + 1, pos + 1 + v.len())[k - 1] == v[k - 1]);
                        }
                    }
                }
            } else {
                if occurs_at(w, s, pos) {
                    assert(s.subrange(pos + 1, pos + 1 + v.len()) =~= v) by {
                        assert forall|k: int| 0 <= k < v.len() implies s.subrange(
                            pos + 1,
                            pos + 1 + v.len(),
                        )[k] == v[k] by {
                            assert(s.subrange(pos, pos + w.len())[k + 1] == w[k + 1]);
                        }
                    }
                }
            }
        } else {
            if occurs_at(w, s, pos) {
                assert(s.subrange(pos, pos + w.len())[0] == w[0]);
            }
        }
    }
}

/// A pattern of literal nodes matches a line exactly when the characters it
/// spells are a substring of the line.
pub proof fn lemma_literal_pattern_matches_substring(ps: Seq<Node>, s: Seq<char>)
    requires
        all_literals(ps),
    ensures
        line_matches(ps, s) <==> occurs_in(spelled(ps), s),
{
    let w = spelled(ps);
    assert(ps + Seq::<Node>::empty() =~= ps);
    assert forall|k: int| 0 <= k <= s.len() implies (#[trigger] seq_end(ps, s, k) is Some
        <==> occurs_at(w, s, k)) by {
        lemma_literals_then(ps, Seq::empty(), s, k);
    }
    if line_matches(ps, s) {
        let k = choose|k: int| 0 <= k <= s.len() && #[trigger] seq_end(ps, s, k) is Some;
        assert(occurs_at(w, s, k));
    }
    if occurs_in(w, s) {
        let k = choose|k: int| occurs_at(w, s, k);
        assert(seq_end(ps, s, k) is Some);
    }
}

/// The pattern that `ps` makes between the two anchors.
pub open spec fn anchored(ps: Seq<Node>) -> Seq<Node> {
    seq![Node::StartAnchor] + ps + seq![Node::EndAnchor]
}

/// A pattern of literal nodes between the two anchors matches a line
/// exactly when the line is the characters it spells.
pub proof fn lemma_anchored_literals_match_whole_line(ps: Seq<Node>, s: Seq<char>)
    requires
        all_literals(ps),
    ensures
        line_matches(anchored(ps), s) <==> s == spelled(ps),
{
    let w = spelled(ps);
    let last = seq![Node::EndAnchor];
    assert(anchored(ps).first() is StartAnchor);
    assert(anchored(ps).drop_first() =~= ps + last);
    lemma_literals_then(ps, last, s, 0);
    assert(last.drop_first() =~= Seq::<Node>::empty());
    if occurs_at(w, s, 0) {
        assert(seq_end(last.drop_first(), s, w.len() as int) is Some);
        assert(last.first() is EndAnchor);
        assert(seq_end(last, s, w.len() as int) is Some <==> w.len() >= s.len());
        if w.len() >= s.len() {
            assert(s.subrange(0, w.len() as int) =~= s);
        }
    }
    if s == w {
        assert(s.subrange(0, w.len() as int) =~= s);
    }
}

/// Whether `c` has no special meaning anywhere in a pattern.
pub open spec fn is_plain(c: char) -> bool {
    c != '^' && c != '$' && c != '\\' && c != '[' && c != '.' && c != '(' && c != ')' && c != '|'
        && c != '+' && c != '?'
}

/// Whether every character of `t` is plain.
pub open spec fn all_plain(t: Seq<char>) -> bool {
    forall|k: int| 0 <= k < t.len() ==> is_plain(#[trigger] t[k])
}

/// From `i` on, a text of plain characters compiles to one literal node for
/// each character; where `closed` is set the text ends in `$`, which
/// compiles to the end anchor.
pub proof fn lemma_compile_plain_from(t: Seq<char>, i: int, closed: bool)
    requires
        0 <= i <= t.len(),
        closed ==> i < t.len() && t.last() == '$',
        forall|k: int|
            i <= k < t.len() - (if closed {
                1int
            } else {
                0int
            }) ==> is_plain(#[trigger] t[k]),
    ensures
        compile_from(t, i) matches Ok(ps) && {
            let plain = t.len() - i - (if closed {
                1int
            } else {
                0int
            });
            &&& ps.len() == t.len() - i
            &&& forall|k: int| 0 <= k < plain ==> #[trigger] ps[k] == Node::Literal(t[i + k])
            &&& closed ==> ps.last() == Node::EndAnchor
        },
    decreases t.len() - i,
{
    if i < t.len() {
        let c = t[i];
        assert(c == as_char(c));
        if closed && i == t.len() - 1 {
            assert(atom_at(t, i) == Ok::<(Node, int), CompileError>((Node::EndAnchor, i + 1)));
            assert(compile_from(t, i + 1) == Ok::<Seq<Node>, CompileError>(Seq::empty()));
            assert(compile_from(t, i) == Ok::<Seq<Node>, CompileError>(
                seq![Node::EndAnchor] + Seq::empty(),
            ));
        } else {
            assert(is_plain(t[i]));
            assert(atom_at(t, i) == Ok::<(Node, int), CompileError>((Node::Literal(c), i + 1)));
            if i + 1 < t.len() {
                assert(closed && i + 1 == t.len() - 1 || is_plain(t[i + 1]));
            }
            assert(node_at(t, i) == Ok::<(Node, int), CompileError>((Node::Literal(c), i + 1)));
            lemma_compile_plain_from(t, i + 1, closed);
            let rest = compile_from(t, i + 1)->Ok_0;
            let ps = seq![Node::Literal(c)] + rest;
            assert(compile_from(t, i) == Ok::<Seq<Node>, CompileError>(ps));
            assert forall|k: int| 0 <= k < ps.len() && k > 0 implies ps[k] == rest[k - 1] by {}
            assert(closed ==> ps.last() == rest.last());
        }
    }
}

/// A text of plain characters compiles, and the pattern it compiles to
/// matches a line exactly when the text is a substring of the line.
pub proof fn lemma_plain_text_finds_substring(t: Seq<char>, s: Seq<char>)
    requires
        all_plain(t),
    ensures
        compile(t) matches Ok(ps) && (line_matches(ps, s) <==> occurs_in(t, s)),
{
    lemma_compile_plain_from(t, 0, false);
    let ps = compile(t)->Ok_0;
    assert(all_literals(ps));
    assert(spelled(ps) =~= t);
    lemma_literal_pattern_matches_substring(ps, s);
}

/// A text of plain characters between `^` and `$` compiles, and the
/// pattern it compiles to matches a line exactly when the line is the text.
pub proof fn lemma_anchored_plain_text_is_equality(t: Seq<char>, s: Seq<char>)
    requires
        all_plain(t),
    ensures
        compile(seq!['^'] + t + seq!['$']) matches Ok(ps) && (line_matches(ps, s) <==> s == t),
{
    let full = seq!['^'] + t + seq!['$'];
    assert(forall|k: int| 1 <= k < full.len() - 1 ==> full[k] == t[k - 1]);
    lemma_compile_plain_from(full, 1, true);
    let rest = compile_from(full, 1)->Ok_0;
    assert(atom_at(full, 0) == Ok::<(Node, int), CompileError>((Node::StartAnchor, 1)));
    assert(full[1] == '$' || is_plain(full[1]));
    assert(node_at(full, 0) == Ok::<(Node, int), CompileError>((Node::StartAnchor, 1)));
    let ps = seq![Node::StartAnchor] + rest;
    assert(compile(full) == Ok::<Seq<Node>, CompileError>(ps));
    let mid = ps.subrange(1, ps.len() - 1);
    assert(ps =~= anchored(mid));
    assert(all_literals(mid));
    assert(spelled(mid) =~= t);
    lemma_anchored_literals_match_whole_line(mid, s);
}

/// The pattern `^abc$` compiles, and matches a line exactly when the line
/// is `abc`.
pub proof fn lemma_anchored_abc_is_equality(s: Seq<char>)
    ensures
        compile("^abc$"@) matches Ok(ps) && (line_matches(ps, s) <==> s == "abc"@),
{
    reveal_strlit("^abc$");
    reveal_strlit("abc");
    let t = "abc"@;
    assert("^abc$"@ =~= seq!['^'] + t + seq!['$']);
    lemma_anchored_plain_text_is_equality(t, s);
}

/// What compiles from `i` on is well formed: the start anchor can only
/// come from the first character of the text, and the end anchor from the
/// last.
pub proof fn lemma_compile_from_well_formed(t: Seq<char>, i: int)
    ensures
        compile_from(t, i) matches Ok(ps) ==> forall|k: int|
            0 <= k < ps.len() ==> {
                &&& well_formed_node(#[trigger] ps[k])
                &&& ps[k] is StartAnchor ==> i == 0 && k == 0
                &&& ps[k] is EndAnchor ==> k == ps.len() - 1
            },
    decreases t.len(), t.len() - i, 1nat,
{
    if 0 <= i < t.len() {
        lemma_node_at_well_formed(t, i);
        match node_at(t, i) {
            Err(_) => {},
            Ok((node, next)) => {
                lemma_compile_from_well_formed(t, next);
                match compile_from(t, next) {
                    Err(_) => {},
                    Ok(rest) => {
                        let ps = seq![node] + rest;
                        assert(ps[0] == node);
                        assert forall|k: int| 0 < k < ps.len() implies ps[k] == rest[k - 1] by {}
                        if node is EndAnchor {
                            assert(rest.len() == 0);
                        }
                    },
                }
            },
        }
    }
}

/// The node read at `i` is well formed, and its text is not empty. The
/// start anchor is read at the first character only; behind the end anchor
/// the text is at its end.
pub proof fn lemma_node_at_well_formed(t: Seq<char>, i: int)
    ensures
        node_at(t, i) matches Ok((node, next)) ==> {
            &&& 0 <= i < next <= t.len()
            &&& well_formed_node(node)
            &&& node is StartAnchor ==> i == 0
            &&& node is EndAnchor ==> next == t.len()
        },
    decreases t.len(), t.len() - i, 0nat,
{
    if 0 <= i < t.len() {
        let c = t[i];
        assert(c == as_char(c));
        let bare = if c == '(' {
            lemma_group_at_well_formed(t, i + 1);
            group_at(t, i + 1)
        } else {
            lemma_class_close_bounds(t, i + 1);
            lemma_class_close_bounds(t, i + 2);
            atom_at(t, i)
        };
        match bare {
            Err(_) => {},
            Ok((atom, j)) => {
                assert(i < j <= t.len());
                assert(well_formed_node(atom));
                assert(atom is EndAnchor ==> j == t.len());
                assert(j < t.len() ==> is_atom(atom));
                let (node, next) = with_suffix(t, atom, j);
                assert(node_at(t, i) == Ok::<(Node, int), CompileError>((node, next)));
                if node != atom {
                    assert(well_formed_node(node));
                }
            },
        }
    }
}

/// The alternation read behind a `(` is well formed, and no atom that a
/// quantifier could not wrap.
pub proof fn lemma_group_at_well_formed(t: Seq<char>, i: int)
    ensures
        group_at(t, i) matches Ok((node, next)) ==> {
            &&& 0 <= i < next <= t.len()
            &&& well_formed_node(node)
            &&& node is Alternation
        },
    decreases t.len(), t.len() - i, 0nat,
{
    lemma_group_close_bounds(t, i, 0);
    match group_close(t, i, 0) {
        None => {},
        Some(close) => {
            lemma_compile_branches_well_formed(t.subrange(i, close));
        },
    }
}

/// The branches of a group are at least one, and each is well formed.
pub proof fn lemma_compile_branches_well_formed(u: Seq<char>)
    ensures
        compile_branches(u) matches Ok(branches) ==> branches.len() >= 1 && forall|k: int|
            0 <= k < branches.len() ==> well_formed_seq(#[trigger] branches[k]),
    decreases u.len(), u.len() + 1, 0nat,
{
    let end = branch_end(u, 0, 0);
    lemma_branch_end_bounds(u, 0, 0);
    if end >= u.len() {
        lemma_compile_from_well_formed(u, 0);
    } else {
        lemma_compile_from_well_formed(u.subrange(0, end), 0);
        lemma_compile_branches_well_formed(u.subrange(end + 1, u.len() as int));
        match compile_from(u.subrange(0, end), 0) {
            Err(_) => {},
            Ok(branch) => match compile_branches(u.subrange(end + 1, u.len() as int)) {
                Err(_) => {},
                Ok(others) => {
                    let branches = seq![branch] + others;
                    assert(branches[0] == branch);
                    assert forall|k: int| 0 < k < branches.len() implies branches[k] == others[k
                        - 1] by {}
                },
            },
        }
    }
}

/// Every pattern that compiles is well formed.
pub proof fn lemma_compile_well_formed(t: Seq<char>)
    ensures
        compile(t) matches Ok(ps) ==> well_formed_seq(ps),
{
    lemma_compile_from_well_formed(t, 0);
}

/// Two compilations of one text give the same nodes, or the same error.
pub proof fn lemma_compile_twice(
    t: Seq<char>,
    first: Result<Vec<Pattern>, CompileError>,
    second: Result<Vec<Pattern>, CompileError>,
)
    requires
        compiled_as(first, compile(t)),
        compiled_as(second, compile(t)),
    ensures
        match (first, second) {
            (Ok(a), Ok(b)) => nodes_of(a@) == nodes_of(b@),
            (Err(x), Err(y)) => x == y,
            _ => false,
        },
{
}

} // verus!
