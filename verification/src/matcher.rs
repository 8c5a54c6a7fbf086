//! The backtracking matcher: what it means for a compiled pattern to match
//! a line, and the functions that decide it.

use vstd::prelude::*;
use vstd::slice::slice_subrange;
use crate::chars::{chars_of, is_alphanumeric, is_digit, is_digit_char, is_word_char};
use crate::language::{
    language_matches, lemma_match_is_in_language, lemma_simple_pattern_decides_language,
    simple_seq,
};
use crate::pattern::{
    branches_of, branches_size, join_patterns, lemma_branch_size, lemma_seq_size_concat,
    lemma_seq_size_single, lemma_seq_size_step, node_size, nodes_of, seq_size, Node, Pattern,
};

verus! {

/// Whether a node that consumes one character accepts `c`. Nodes of the
/// other kinds accept no character.
pub open spec fn char_matches(n: Node, c: char) -> bool {
    match n {
        Node::Literal(l) => c == l,
        Node::DigitClass => is_digit_char(c),
        Node::WordClass => is_word_char(c),
        Node::BracketClass { negated, members } => members.contains(c) != negated,
        Node::Wildcard => true,
        _ => false,
    }
}

/// Where the cursor stands after the first successful attempt to match the
/// whole of `ps` against `s` from `pos`, or `None` if every attempt fails.
///
/// Attempts are made in a fixed order: a repetition tries the longest run
/// first and gives back one repetition at a time, an optional node is tried
/// present before absent, and the branches of an alternation are tried from
/// left to right, each followed by the rest of the sequence.
pub open spec fn seq_end(ps: Seq<Node>, s: Seq<char>, pos: int) -> Option<int>
    decreases seq_size(ps), s.len() - pos, 1nat,
{
    if ps.len() == 0 {
        Some(pos)
    } else {
        proof {
            lemma_seq_size_step(ps);
        }
        let rest = ps.drop_first();
        match ps.first() {
            Node::StartAnchor => seq_end(rest, s, pos),
            Node::EndAnchor => if pos >= s.len() {
                seq_end(rest, s, pos)
            } else {
                None
            },
            Node::OneOrMore(atom) => one_or_more_end(*atom, rest, s, pos),
            Node::ZeroOrOne(atom) => zero_or_one_end(*atom, rest, s, pos),
            Node::Alternation(branches) => alternative_end(branches, rest, s, pos),
            single => if 0 <= pos < s.len() && char_matches(single, s[pos]) {
                seq_end(rest, s, pos + 1)
            } else {
                None
            },
        }
    }
}

/// A run of one or more matches of `atom`, then `rest`: the longest run is
/// tried first. A match of `atom` that consumes nothing ends the run.
pub open spec fn one_or_more_end(atom: Node, rest: Seq<Node>, s: Seq<char>, pos: int) -> Option<
    int,
>
    decreases 1 + node_size(atom) + seq_size(rest), s.len() - pos, 0nat,
{
    proof {
        lemma_seq_size_single(atom);
    }
    match seq_end(seq![atom], s, pos) {
        None => None,
        Some(p) => {
            if pos < p <= s.len() {
                match one_or_more_end(atom, rest, s, p) {
                    Some(e) => Some(e),
                    None => seq_end(rest, s, p),
                }
            } else {
                seq_end(rest, s, p)
            }
        },
    }
}

/// `atom` once and then `rest`, or else `rest` alone.
pub open spec fn zero_or_one_end(atom: Node, rest: Seq<Node>, s: Seq<char>, pos: int) -> Option<
    int,
>
    decreases 1 + node_size(atom) + seq_size(rest), s.len() - pos, 0nat,
{
    proof {
        lemma_seq_size_single(atom);
    }
    match seq_end(seq![atom], s, pos) {
        Some(p) => match seq_end(rest, s, p) {
            Some(e) => Some(e),
            None => seq_end(rest, s, pos),
        },
        None => seq_end(rest, s, pos),
    }
}

/// The first branch, from the left, that matches when `rest` follows it.
pub open spec fn alternative_end(
    branches: Seq<Seq<Node>>,
    rest: Seq<Node>,
    s: Seq<char>,
    pos: int,
) -> Option<int>
    decreases 1 + branches_size(branches) + seq_size(rest), s.len() - pos, 0nat,
{
    if branches.len() == 0 {
        None
    } else {
        proof {
            lemma_seq_size_concat(branches.first(), rest);
        }
        match seq_end(branches.first() + rest, s, pos) {
            Some(e) => Some(e),
            None => alternative_end(branches.drop_first(), rest, s, pos),
        }
    }
}

/// The cursor behind `rest` where it is attempted at the places in `ends`,
/// from the last place back to the first, and the first attempt that
/// succeeds decides.
pub open spec fn give_back(ends: Seq<usize>, rest: Seq<Node>, s: Seq<char>) -> Option<int>
    decreases ends.len(),
{
    if ends.len() == 0 {
        None
    } else {
        match seq_end(rest, s, ends.last() as int) {
            Some(e) => Some(e),
            None => give_back(ends.drop_last(), rest, s),
        }
    }
}

/// Whether some part of the line `s` matches `ps`. A pattern that begins
/// with the start anchor is tried at the start of the line only; any other
/// pattern is tried at every offset, the end of the line included.
pub open spec fn line_matches(ps: Seq<Node>, s: Seq<char>) -> bool {
    if ps.len() > 0 && ps.first() is StartAnchor {
        seq_end(ps.drop_first(), s, 0) is Some
    } else {
        exists|start: int| 0 <= start <= s.len() && #[trigger] seq_end(ps, s, start) is Some
    }
}

/// How one attempt ended: `matched` says whether `end` is a cursor, and the
/// cursor moved to it; after a failed attempt the cursor stands where it was.
pub open spec fn attempt_ended(matched: bool, before: usize, after: usize, end: Option<int>) -> bool {
    match end {
        Some(e) => matched && after == e,
        None => !matched && after == before,
    }
}

/// The cursor after a node that consumes one character, if it accepts the
/// character under the cursor.
pub open spec fn single_end(n: Node, s: Seq<char>, pos: int) -> Option<int> {
    if 0 <= pos < s.len() && char_matches(n, s[pos]) {
        Some(pos + 1)
    } else {
        None
    }
}

/// Moves the cursor over the character under it if there is one and
/// `accepted` says that the node at hand accepts it.
pub fn consume(input: &[char], cursor: &mut usize, accepted: bool) -> (matched: bool)
    ensures
        matched == (accepted && *old(cursor) < input@.len()),
        matched ==> *final(cursor) == *old(cursor) + 1,
        !matched ==> *final(cursor) == *old(cursor),
{
    if accepted && *cursor < input.len() {
        *cursor = *cursor + 1;
        true
    } else {
        false
    }
}

/// Consumes the character under the cursor if it is `literal`.
pub fn match_literal(input: &[char], cursor: &mut usize, literal: char) -> (matched: bool)
    ensures
        attempt_ended(
            matched,
            *old(cursor),
            *final(cursor),
            single_end(Node::Literal(literal), input@, *old(cursor) as int),
        ),
{
    let accepted = *cursor < input.len() && input[*cursor] == literal;
    consume(input, cursor, accepted)
}

/// Consumes the character under the cursor if it is a decimal digit.
pub fn match_digit(input: &[char], cursor: &mut usize) -> (matched: bool)
    ensures
        attempt_ended(
            matched,
            *old(cursor),
            *final(cursor),
            single_end(Node::DigitClass, input@, *old(cursor) as int),
        ),
{
    let accepted = *cursor < input.len() && is_digit(input[*cursor]);
    consume(input, cursor, accepted)
}

/// Consumes the character under the cursor if it is a word character.
pub fn match_alphanumeric(input: &[char], cursor: &mut usize) -> (matched: bool)
    ensures
        attempt_ended(
            matched,
            *old(cursor),
            *final(cursor),
            single_end(Node::WordClass, input@, *old(cursor) as int),
        ),
{
    let accepted = *cursor < input.len() && is_alphanumeric(input[*cursor]);
    consume(input, cursor, accepted)
}

/// Tells whether `c` occurs among `members`.
pub fn class_contains(members: &[char], c: char) -> (found: bool)
    ensures
        found == members@.contains(c),
{
    let mut i: usize = 0;
    while i < members.len()
        invariant
            i <= members.len(),
            forall|k: int| 0 <= k < i ==> members@[k] != c,
        decreases members.len() - i,
    {
        if members[i] == c {
            return true;
        }
        i += 1;
    }
    false
}

/// Consumes the character under the cursor if a bracket class accepts it:
/// a plain class accepts its members, a negated class every other character.
pub fn match_group(input: &[char], cursor: &mut usize, members: &[char], negated: bool) -> (matched:
    bool)
    ensures
        attempt_ended(
            matched,
            *old(cursor),
            *final(cursor),
            single_end(
                (Node::BracketClass { negated, members: members@ }),
                input@,
                *old(cursor) as int,
            ),
        ),
{
    let accepted = *cursor < input.len() && class_contains(members, input[*cursor]) != negated;
    consume(input, cursor, accepted)
}

/// Consumes the character under the cursor, whatever it is.
pub fn match_wildcard(input: &[char], cursor: &mut usize) -> (matched: bool)
    ensures
        attempt_ended(
            matched,
            *old(cursor),
            *final(cursor),
            single_end(Node::Wildcard, input@, *old(cursor) as int),
        ),
{
    consume(input, cursor, true)
}

/// Tells whether a match may begin at `start` when the pattern is anchored
/// to the start of the line.
pub fn match_start_of_line(start: usize) -> (at_start: bool)
    ensures
        at_start == (start == 0),
{
    start == 0
}

/// Tells whether no character remains at the cursor.
pub fn match_end_of_line(input: &[char], cursor: usize) -> (at_end: bool)
    ensures
        at_end == (cursor >= input@.len()),
{
    cursor >= input.len()
}

/// Attempts the whole of `pattern` at the cursor, backtracking over the
/// choices its repetitions, optional nodes and alternations leave open. On
/// success the cursor stands behind the match; on failure it has not moved.
///
/// Nodes that leave no choice are matched one after the other. The first
/// node that leaves one is handed, with the nodes behind it, to the
/// function that tries its choices in turn.
pub fn match_pattern_helper(input: &[char], cursor: &mut usize, pattern: &[Pattern]) -> (matched:
    bool)
    ensures
        attempt_ended(
            matched,
            *old(cursor),
            *final(cursor),
            seq_end(nodes_of(pattern@), input@, *old(cursor) as int),
        ),
    decreases seq_size(nodes_of(pattern@)), input@.len() - *old(cursor), 1nat,
{
    let ghost nodes = nodes_of(pattern@);
    let mut fork = *cursor;
    let mut done: usize = 0;
    proof {
        assert(nodes.skip(0) =~= nodes);
    }
    while done < pattern.len()
        invariant
            done <= pattern.len(),
            nodes == nodes_of(pattern@),
            *cursor == *old(cursor),
            done == 0 ==> fork == *old(cursor),
            seq_size(nodes.skip(done as int)) + done <= seq_size(nodes),
            seq_end(nodes, input@, *old(cursor) as int) == seq_end(
                nodes.skip(done as int),
                input@,
                fork as int,
            ),
        decreases pattern.len() - done,
    {
        let rest = slice_subrange(pattern, done + 1, pattern.len());
        proof {
            let left = nodes.skip(done as int);
            assert(left.first() == pattern@[done as int]@);
            assert(left.drop_first() =~= nodes.skip(done + 1));
            assert(nodes_of(rest@) =~= nodes.skip(done + 1));
            lemma_seq_size_step(left);
        }
        let matched = match &pattern[done] {
            Pattern::Literal(literal) => match_literal(input, &mut fork, *literal),
            Pattern::DigitClass => match_digit(input, &mut fork),
            Pattern::WordClass => match_alphanumeric(input, &mut fork),
            Pattern::BracketClass { negated, members } => match_group(
                input,
                &mut fork,
                members.as_slice(),
                *negated,
            ),
            Pattern::Wildcard => match_wildcard(input, &mut fork),
            Pattern::StartAnchor => true,
            Pattern::EndAnchor => match_end_of_line(input, fork),
            Pattern::OneOrMore(atom) => {
                let matched = match_one_or_more(input, &mut fork, atom, rest);
                if matched {
                    *cursor = fork;
                }
                return matched;
            },
            Pattern::ZeroOrOne(atom) => {
                let matched = match_zero_or_one(input, &mut fork, atom, rest);
                if matched {
                    *cursor = fork;
                }
                return matched;
            },
            Pattern::Alternation(branches) => {
                let matched = match_alternative(input, &mut fork, branches.as_slice(), rest);
                if matched {
                    *cursor = fork;
                }
                return matched;
            },
        };
        if !matched {
            return false;
        }
        done += 1;
    }
    *cursor = fork;
    true
}

/// Attempts one or more matches of `atom` and then `rest`. The longest run
/// of `atom` is taken first; while `rest` fails behind it, the run gives
/// back one repetition, down to a single one.
pub fn match_one_or_more(
    input: &[char],
    cursor: &mut usize,
    atom: &Pattern,
    rest: &[Pattern],
) -> (matched: bool)
    ensures
        attempt_ended(
            matched,
            *old(cursor),
            *final(cursor),
            one_or_more_end(atom@, nodes_of(rest@), input@, *old(cursor) as int),
        ),
    decreases 1 + node_size(atom@) + seq_size(nodes_of(rest@)), input@.len() - *old(cursor), 0nat,
{
    let mut single: Vec<Pattern> = Vec::new();
    single.push(atom.clone());
    proof {
        assert(nodes_of(single@) =~= seq![atom@]);
        lemma_seq_size_single(atom@);
    }
    let ghost whole = one_or_more_end(atom@, nodes_of(rest@), input@, *cursor as int);
    let mut ends: Vec<usize> = Vec::new();
    let mut at = *cursor;
    loop
        invariant
            *cursor == *old(cursor),
            nodes_of(single@) == seq![atom@],
            seq_size(seq![atom@]) == node_size(atom@),
            whole == one_or_more_end(atom@, nodes_of(rest@), input@, *old(cursor) as int),
            whole == match one_or_more_end(atom@, nodes_of(rest@), input@, at as int) {
                Some(e) => Some(e),
                None => give_back(ends@, nodes_of(rest@), input@),
            },
        ensures
            *cursor == *old(cursor),
            whole == one_or_more_end(atom@, nodes_of(rest@), input@, *old(cursor) as int),
            whole == give_back(ends@, nodes_of(rest@), input@),
        decreases input.len() - at,
    {
        let mut next = at;
        if !match_pattern_helper(input, &mut next, single.as_slice()) {
            break;
        }
        let ghost before = ends@;
        ends.push(next);
        proof {
            assert(ends@.drop_last() =~= before);
        }
        if !(at < next && next <= input.len()) {
            break;
        }
        at = next;
    }
    let mut k = ends.len();
    proof {
        assert(ends@.take(k as int) =~= ends@);
    }
    while k > 0
        invariant
            k <= ends.len(),
            *cursor == *old(cursor),
            whole == one_or_more_end(atom@, nodes_of(rest@), input@, *old(cursor) as int),
            whole == give_back(ends@.take(k as int), nodes_of(rest@), input@),
        decreases k,
    {
        k -= 1;
        proof {
            assert(ends@.take(k + 1).drop_last() =~= ends@.take(k as int));
        }
        let mut fork = ends[k];
        if match_pattern_helper(input, &mut fork, rest) {
            *cursor = fork;
            return true;
        }
    }
    false
}

/// Attempts `atom` once and then `rest`; if that fails, `rest` alone.
pub fn match_zero_or_one(
    input: &[char],
    cursor: &mut usize,
    atom: &Pattern,
    rest: &[Pattern],
) -> (matched: bool)
    ensures
        attempt_ended(
            matched,
            *old(cursor),
            *final(cursor),
            zero_or_one_end(atom@, nodes_of(rest@), input@, *old(cursor) as int),
        ),
    decreases 1 + node_size(atom@) + seq_size(nodes_of(rest@)), input@.len() - *old(cursor), 0nat,
{
    let mut single: Vec<Pattern> = Vec::new();
    single.push(atom.clone());
    proof {
        assert(nodes_of(single@) =~= seq![atom@]);
        lemma_seq_size_single(atom@);
    }
    let mut with = *cursor;
    if match_pattern_helper(input, &mut with, single.as_slice()) && match_pattern_helper(
        input,
        &mut with,
        rest,
    ) {
        *cursor = with;
        return true;
    }
    let mut without = *cursor;
    if match_pattern_helper(input, &mut without, rest) {
        *cursor = without;
        true
    } else {
        false
    }
}

/// Attempts each branch in turn, from the left, each followed by `rest`.
/// The first branch that succeeds together with `rest` decides the cursor.
pub fn match_alternative(
    input: &[char],
    cursor: &mut usize,
    alternatives: &[Vec<Pattern>],
    rest: &[Pattern],
) -> (matched: bool)
    ensures
        attempt_ended(
            matched,
            *old(cursor),
            *final(cursor),
            alternative_end(branches_of(alternatives@), nodes_of(rest@), input@, *old(cursor) as int),
        ),
    decreases
        1 + branches_size(branches_of(alternatives@)) + seq_size(nodes_of(rest@)),
        input@.len() - *old(cursor),
        0nat,
{
    let ghost branches = branches_of(alternatives@);
    let ghost tail = nodes_of(rest@);
    let ghost start = *cursor as int;
    proof {
        assert(branches.skip(0) =~= branches);
    }
    let mut i: usize = 0;
    while i < alternatives.len()
        invariant
            i <= alternatives.len(),
            branches == branches_of(alternatives@),
            tail == nodes_of(rest@),
            start == *cursor,
            *cursor == *old(cursor),
            alternative_end(branches, tail, input@, start) == alternative_end(
                branches.skip(i as int),
                tail,
                input@,
                start,
            ),
        decreases alternatives.len() - i,
    {
        let joined = join_patterns(alternatives[i].as_slice(), rest);
        proof {
            assert(branches.skip(i as int).first() == nodes_of(alternatives@[i as int]@));
            assert(branches.skip(i as int).drop_first() =~= branches.skip(i + 1));
            lemma_branch_size(branches, i as int);
            lemma_seq_size_concat(nodes_of(alternatives@[i as int]@), tail);
        }
        let mut fork = *cursor;
        if match_pattern_helper(input, &mut fork, joined.as_slice()) {
            *cursor = fork;
            return true;
        }
        i += 1;
    }
    proof {
        assert(branches.skip(i as int) =~= Seq::<Seq<Node>>::empty());
    }
    false
}

/// Decides whether some part of `input_line` matches `pattern`.
///
/// A pattern that begins with the start anchor is attempted at the start of
/// the line only. Any other pattern is attempted at each offset in turn,
/// from the first character to the end of the line, until an attempt
/// succeeds.
///
/// What is found is a part of the line that the pattern describes. Where
/// each quantifier of the pattern wraps a node of fixed width, the search
/// finds such a part whenever there is one.
pub fn match_pattern(input_line: &str, pattern: &[Pattern]) -> (matched: bool)
    ensures
        matched == line_matches(nodes_of(pattern@), input_line@),
        matched ==> language_matches(nodes_of(pattern@), input_line@),
        simple_seq(nodes_of(pattern@)) ==> matched == language_matches(
            nodes_of(pattern@),
            input_line@,
        ),
{
    proof {
        if line_matches(nodes_of(pattern@), input_line@) {
            lemma_match_is_in_language(nodes_of(pattern@), input_line@);
        }
        if simple_seq(nodes_of(pattern@)) {
            lemma_simple_pattern_decides_language(nodes_of(pattern@), input_line@);
        }
    }
    let input = chars_of(input_line);
    let anchored = pattern.len() > 0 && is_start_anchor(&pattern[0]);
    if anchored {
        let effective = slice_subrange(pattern, 1, pattern.len());
        proof {
            assert(nodes_of(effective@) =~= nodes_of(pattern@).drop_first());
        }
        let mut cursor: usize = 0;
        return match_start_of_line(cursor) && match_pattern_helper(
            input.as_slice(),
            &mut cursor,
            effective,
        );
    }
    let mut start: usize = 0;
    loop
        invariant
            start <= input.len(),
            input@ == input_line@,
            !(nodes_of(pattern@).len() > 0 && nodes_of(pattern@).first() is StartAnchor),
            line_matches(nodes_of(pattern@), input@) ==> language_matches(
                nodes_of(pattern@),
                input@,
            ),
            simple_seq(nodes_of(pattern@)) ==> line_matches(nodes_of(pattern@), input@)
                == language_matches(nodes_of(pattern@), input@),
            forall|k: int|
                0 <= k < start ==> #[trigger] seq_end(nodes_of(pattern@), input@, k) is None,
        decreases input.len() - start,
    {
        let mut cursor = start;
        if match_pattern_helper(input.as_slice(), &mut cursor, pattern) {
            return true;
        }
        if start == input.len() {
            return false;
        }
        start += 1;
    }
}

/// Tells whether `node` is the start anchor.
pub fn is_start_anchor(node: &Pattern) -> (r: bool)
    ensures
        r == (node@ is StartAnchor),
{
    match node {
        Pattern::StartAnchor => true,
        _ => false,
    }
}

} // verus!
