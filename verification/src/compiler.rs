//! The pattern compiler: the grammar of pattern text, and the functions
//! that turn a pattern string into a sequence of nodes.

use vstd::prelude::*;
use vstd::slice::{slice_subrange, slice_to_vec};
use crate::chars::chars_of;
use crate::laws::lemma_compile_well_formed;
use crate::pattern::{branches_of, nodes_of, well_formed_seq, Node, Pattern};

verus! {

/// Why a pattern string was rejected.
#[derive(Debug, Clone, Copy, PartialEq, Eq, Structural)]
pub enum CompileError {
    /// A backslash is followed by a character other than `d`, `w` or a
    /// backslash, or by nothing.
    InvalidEscape,
    /// A `[` has no closing `]`.
    UnterminatedClass,
    /// A `(` has no closing `)`.
    UnmatchedParen,
    /// A `)` or `|` stands outside a group, or a `+` or `?` follows no atom.
    Syntax,
}

/// The index of the first `]` at or after `i` that no backslash escapes. A
/// backslash escapes the character that follows it.
pub open spec fn class_close(t: Seq<char>, i: int) -> Option<int>
    decreases t.len() - i,
{
    if i < 0 || i >= t.len() {
        None
    } else if t[i] == ']' {
        Some(i)
    } else if t[i] == '\\' && i + 1 < t.len() {
        class_close(t, i + 2)
    } else {
        class_close(t, i + 1)
    }
}

/// The index of the `)` that closes a group, scanning from `i` with `depth`
/// groups opened since.
pub open spec fn group_close(t: Seq<char>, i: int, depth: nat) -> Option<int>
    decreases t.len() - i,
{
    if i < 0 || i >= t.len() {
        None
    } else if t[i] == '(' {
        group_close(t, i + 1, depth + 1)
    } else if t[i] == ')' {
        if depth == 0 {
            Some(i)
        } else {
            group_close(t, i + 1, (depth - 1) as nat)
        }
    } else {
        group_close(t, i + 1, depth)
    }
}

/// The index of the first `|` at or after `i` that stands outside every
/// nested group, or the length of `t` if there is none.
pub open spec fn branch_end(t: Seq<char>, i: int, depth: nat) -> int
    decreases t.len() - i,
{
    if i < 0 || i >= t.len() {
        t.len() as int
    } else if t[i] == '|' && depth == 0 {
        i
    } else if t[i] == '(' {
        branch_end(t, i + 1, depth + 1)
    } else if t[i] == ')' && depth > 0 {
        branch_end(t, i + 1, (depth - 1) as nat)
    } else {
        branch_end(t, i + 1, depth)
    }
}

/// A closing bracket lies at or after the place the scan began, inside the
/// text.
pub proof fn lemma_class_close_bounds(t: Seq<char>, i: int)
    ensures
        class_close(t, i) matches Some(c) ==> i <= c < t.len() && 0 <= i,
    decreases t.len() - i,
{
    if i < 0 || i >= t.len() {
    } else if t[i] == ']' {
    } else if t[i] == '\\' && i + 1 < t.len() {
        lemma_class_close_bounds(t, i + 2);
    } else {
        lemma_class_close_bounds(t, i + 1);
    }
}

/// A closing parenthesis lies at or after the place the scan began, inside
/// the text.
pub proof fn lemma_group_close_bounds(t: Seq<char>, i: int, depth: nat)
    ensures
        group_close(t, i, depth) matches Some(m) ==> i <= m < t.len() && 0 <= i,
    decreases t.len() - i,
{
    if i < 0 || i >= t.len() {
    } else if t[i] == '(' {
        lemma_group_close_bounds(t, i + 1, depth + 1);
    } else if t[i] == ')' {
        if depth > 0 {
            lemma_group_close_bounds(t, i + 1, (depth - 1) as nat);
        }
    } else {
        lemma_group_close_bounds(t, i + 1, depth);
    }
}

/// The end of a branch lies at or after the place the scan began, and not
/// behind the text.
pub proof fn lemma_branch_end_bounds(t: Seq<char>, i: int, depth: nat)
    requires
        0 <= i <= t.len(),
    ensures
        i <= branch_end(t, i, depth) <= t.len(),
    decreases t.len() - i,
{
    if i >= t.len() {
    } else if t[i] == '|' && depth == 0 {
    } else if t[i] == '(' {
        lemma_branch_end_bounds(t, i + 1, depth + 1);
    } else if t[i] == ')' && depth > 0 {
        lemma_branch_end_bounds(t, i + 1, (depth - 1) as nat);
    } else {
        lemma_branch_end_bounds(t, i + 1, depth);
    }
}

/// The bracket class whose text begins at `i`, behind its `[`: whether it
/// is negated, its members, and the index behind its `]`.
///
/// A leading `^` negates the class. Every character from there up to the
/// closing bracket is a member, backslashes included.
pub open spec fn class_at(t: Seq<char>, i: int) -> Result<(bool, Seq<char>, int), CompileError> {
    let negated = 0 <= i < t.len() && t[i] == '^';
    let first = if negated {
        i + 1
    } else {
        i
    };
    match class_close(t, first) {
        Some(close) => Ok((negated, t.subrange(first, close), close + 1)),
        None => Err(CompileError::UnterminatedClass),
    }
}

/// The node that an escape stands for: `text[i]` is the backslash.
pub open spec fn escape_at(t: Seq<char>, i: int) -> Result<(Node, int), CompileError> {
    if i + 1 < t.len() {
        let c = t[i + 1];
        if c == 'd' {
            Ok((Node::DigitClass, i + 2))
        } else if c == 'w' {
            Ok((Node::WordClass, i + 2))
        } else if c == '\\' {
            Ok((Node::Literal('\\'), i + 2))
        } else {
            Err(CompileError::InvalidEscape)
        }
    } else {
        Err(CompileError::InvalidEscape)
    }
}

/// The node that `atom` becomes when the character at `j` is looked at: a
/// `+` or `?` there wraps the atom. With it comes the index behind the
/// node's text.
pub open spec fn with_suffix(t: Seq<char>, atom: Node, j: int) -> (Node, int) {
    if 0 <= j < t.len() && t[j] == '+' {
        (Node::OneOrMore(Box::new(atom)), j + 1)
    } else if 0 <= j < t.len() && t[j] == '?' {
        (Node::ZeroOrOne(Box::new(atom)), j + 1)
    } else {
        (atom, j)
    }
}

/// The nodes that the text `t` compiles to from index `i` on, or the first
/// error met on the way.
///
/// The text of a node is never empty, so the index behind it lies beyond
/// `i`; the test of it is there to show that the definition ends.
pub open spec fn compile_from(t: Seq<char>, i: int) -> Result<Seq<Node>, CompileError>
    decreases t.len(), t.len() - i, 1nat,
{
    if i < 0 || i >= t.len() {
        Ok(Seq::empty())
    } else {
        match node_at(t, i) {
            Err(e) => Err(e),
            Ok((node, next)) => {
                if i < next <= t.len() {
                    match compile_from(t, next) {
                        Err(e) => Err(e),
                        Ok(rest) => Ok(seq![node] + rest),
                    }
                } else {
                    Ok(seq![node])
                }
            },
        }
    }
}

/// The node whose text begins at `i`, with its quantifier suffix if it has
/// one, and the index behind it.
pub open spec fn node_at(t: Seq<char>, i: int) -> Result<(Node, int), CompileError>
    decreases t.len(), t.len() - i, 0nat,
{
    if i < 0 || i >= t.len() {
        Err(CompileError::Syntax)
    } else {
        let c = t[i];
        if c == '(' {
            match group_at(t, i + 1) {
                Err(e) => Err(e),
                Ok((node, next)) => Ok(with_suffix(t, node, next)),
            }
        } else {
            match atom_at(t, i) {
                Err(e) => Err(e),
                Ok((atom, next)) => Ok(with_suffix(t, atom, next)),
            }
        }
    }
}

/// The atom at `i` that is no group: an anchor, an escape, a bracket class,
/// the wildcard or a literal character.
///
/// `^` is the start anchor where it is the first character of the text, and
/// `$` is the end anchor where it is the last; elsewhere each stands for
/// itself.
pub open spec fn atom_at(t: Seq<char>, i: int) -> Result<(Node, int), CompileError> {
    let c = t[i];
    if c == '^' && i == 0 {
        Ok((Node::StartAnchor, i + 1))
    } else if c == '$' && i == t.len() - 1 {
        Ok((Node::EndAnchor, i + 1))
    } else if c == '\\' {
        escape_at(t, i)
    } else if c == '[' {
        match class_at(t, i + 1) {
            Ok((negated, members, next)) => Ok((Node::BracketClass { negated, members }, next)),
            Err(e) => Err(e),
        }
    } else if c == '.' {
        Ok((Node::Wildcard, i + 1))
    } else if c == ')' || c == '|' || c == '+' || c == '?' {
        Err(CompileError::Syntax)
    } else {
        Ok((Node::Literal(c), i + 1))
    }
}

/// The alternation whose text begins at `i`, behind its `(`, and the index
/// behind its `)`. The text between the parentheses is cut at each `|` that
/// stands outside every nested group, and each piece is compiled by itself.
pub open spec fn group_at(t: Seq<char>, i: int) -> Result<(Node, int), CompileError>
    decreases t.len(), t.len() - i, 0nat,
{
    match group_close(t, i, 0) {
        None => Err(CompileError::UnmatchedParen),
        Some(close) => {
            proof {
                lemma_group_close_bounds(t, i, 0);
            }
            match compile_branches(t.subrange(i, close)) {
                Err(e) => Err(e),
                Ok(branches) => Ok((Node::Alternation(branches), close + 1)),
            }
        },
    }
}

/// The branches that the inside of a group compiles to, from left to right,
/// or the first error met on the way.
pub open spec fn compile_branches(u: Seq<char>) -> Result<Seq<Seq<Node>>, CompileError>
    decreases u.len(), u.len() + 1, 0nat,
{
    let end = branch_end(u, 0, 0);
    proof {
        lemma_branch_end_bounds(u, 0, 0);
    }
    if end >= u.len() {
        match compile_from(u, 0) {
            Err(e) => Err(e),
            Ok(branch) => Ok(seq![branch]),
        }
    } else {
        match compile_from(u.subrange(0, end), 0) {
            Err(e) => Err(e),
            Ok(branch) => match compile_branches(u.subrange(end + 1, u.len() as int)) {
                Err(e) => Err(e),
                Ok(others) => Ok(seq![branch] + others),
            },
        }
    }
}

/// What a pattern string compiles to.
pub open spec fn compile(t: Seq<char>) -> Result<Seq<Node>, CompileError> {
    compile_from(t, 0)
}

/// Whether `r` is what the grammar gives: the same nodes, or the same error.
pub open spec fn compiled_as(
    r: Result<Vec<Pattern>, CompileError>,
    expected: Result<Seq<Node>, CompileError>,
) -> bool {
    match r {
        Ok(ps) => expected == Ok::<Seq<Node>, CompileError>(nodes_of(ps@)),
        Err(e) => expected == Err::<Seq<Node>, CompileError>(e),
    }
}

/// Finds the `]` that closes a bracket class, scanning from `from`.
pub fn find_class_close(text: &[char], from: usize) -> (found: Option<usize>)
    ensures
        match found {
            Some(close) => class_close(text@, from as int) == Some(close as int),
            None => class_close(text@, from as int) is None,
        },
{
    let mut i = from;
    while i < text.len()
        invariant
            from <= i,
            class_close(text@, from as int) == class_close(text@, i as int),
        decreases text.len() - i,
    {
        if text[i] == ']' {
            return Some(i);
        }
        if text[i] == '\\' && i + 1 < text.len() {
            i += 2;
        } else {
            i += 1;
        }
    }
    None
}

/// Reads a bracket class from behind its `[` to its `]`, and leaves the
/// cursor behind the `]`. Gives whether the class is negated, and its
/// members. Where the class is not closed the cursor stays.
pub fn build_char_group_patterns(text: &[char], cursor: &mut usize) -> (r: Result<
    (bool, Vec<char>),
    CompileError,
>)
    ensures
        match r {
            Ok((negated, members)) => class_at(text@, *old(cursor) as int) == Ok::<
                (bool, Seq<char>, int),
                CompileError,
            >((negated, members@, *final(cursor) as int)),
            Err(e) => class_at(text@, *old(cursor) as int) == Err::<
                (bool, Seq<char>, int),
                CompileError,
            >(e) && *final(cursor) == *old(cursor),
        },
{
    let negated = *cursor < text.len() && text[*cursor] == '^';
    let first = if negated {
        *cursor + 1
    } else {
        *cursor
    };
    match find_class_close(text, first) {
        Some(close) => {
            proof {
                lemma_class_close_bounds(text@, first as int);
            }
            let members = slice_to_vec(slice_subrange(text, first, close));
            *cursor = close + 1;
            Ok((negated, members))
        },
        None => Err(CompileError::UnterminatedClass),
    }
}

/// Finds the `)` that closes the group whose inside begins at `from`.
pub fn find_group_close(text: &[char], from: usize) -> (found: Option<usize>)
    ensures
        match found {
            Some(close) => group_close(text@, from as int, 0) == Some(close as int),
            None => group_close(text@, from as int, 0) is None,
        },
{
    let mut i = from;
    let mut depth: usize = 0;
    while i < text.len()
        invariant
            from <= i,
            depth <= i - from,
            group_close(text@, from as int, 0) == group_close(text@, i as int, depth as nat),
        decreases text.len() - i,
    {
        if text[i] == '(' {
            depth += 1;
        } else if text[i] == ')' {
            if depth == 0 {
                return Some(i);
            }
            depth -= 1;
        }
        i += 1;
    }
    None
}

/// Finds where the first branch of `text` ends: at the first `|` outside
/// every nested group, or at the end of `text`.
pub fn find_branch_end(text: &[char]) -> (end: usize)
    ensures
        end == branch_end(text@, 0, 0),
        end <= text@.len(),
{
    let mut i: usize = 0;
    let mut depth: usize = 0;
    while i < text.len()
        invariant
            i <= text.len(),
            depth <= i,
            branch_end(text@, 0, 0) == branch_end(text@, i as int, depth as nat),
        decreases text.len() - i,
    {
        if text[i] == '|' && depth == 0 {
            return i;
        }
        if text[i] == '(' {
            depth += 1;
        } else if text[i] == ')' && depth > 0 {
            depth -= 1;
        }
        i += 1;
    }
    i
}

/// Compiles the text of one sequence: a whole pattern, or one branch of a
/// group.
pub fn compile_chars(text: &[char]) -> (r: Result<Vec<Pattern>, CompileError>)
    ensures
        compiled_as(r, compile(text@)),
    decreases text@.len(), text@.len() + 1, 0nat,
{
    let mut patterns: Vec<Pattern> = Vec::new();
    let mut cursor: usize = 0;
    while cursor < text.len()
        invariant
            cursor <= text.len(),
            match compile_from(text@, cursor as int) {
                Ok(rest) => compile(text@) == Ok::<Seq<Node>, CompileError>(
                    nodes_of(patterns@) + rest,
                ),
                Err(e) => compile(text@) == Err::<Seq<Node>, CompileError>(e),
            },
        decreases text.len() - cursor,
    {
        let ghost before = patterns@;
        match parse_pattern(text, &mut cursor) {
            Ok(node) => {
                patterns.push(node);
                proof {
                    assert(nodes_of(patterns@) =~= nodes_of(before).push(node@));
                    match compile_from(text@, cursor as int) {
                        Ok(rest) => {
                            assert(nodes_of(before) + (seq![node@] + rest) =~= nodes_of(patterns@)
                                + rest);
                        },
                        Err(_) => {},
                    }
                }
            },
            Err(e) => {
                return Err(e);
            },
        }
    }
    proof {
        assert(nodes_of(patterns@) + Seq::<Node>::empty() =~= nodes_of(patterns@));
    }
    Ok(patterns)
}

/// The character of `text` at index `i`.
pub fn char_at(text: &[char], i: usize) -> (c: char)
    requires
        i < text@.len(),
    ensures
        c == text@[i as int],
{
    text[i]
}

/// Reads one node at the cursor, with its quantifier suffix if it has one,
/// and leaves the cursor behind it. Where the text is rejected the cursor
/// stays; a cursor at the end of the text, where there is no node to read,
/// is rejected as a syntax error.
pub fn parse_pattern(text: &[char], cursor: &mut usize) -> (r: Result<Pattern, CompileError>)
    ensures
        match r {
            Ok(node) => node_at(text@, *old(cursor) as int) == Ok::<(Node, int), CompileError>(
                (node@, *final(cursor) as int),
            ) && *old(cursor) < *final(cursor) <= text@.len(),
            Err(e) => node_at(text@, *old(cursor) as int) == Err::<(Node, int), CompileError>(e)
                && *final(cursor) == *old(cursor),
        },
    decreases text@.len(), text@.len() - *old(cursor), 0nat,
{
    let at = *cursor;
    if at >= text.len() {
        return Err(CompileError::Syntax);
    }
    let current = char_at(text, at);
    let mut next = at + 1;
    let atom = if current == '(' {
        match parse_alternative(text, &mut next) {
            Ok(group) => group,
            Err(e) => {
                return Err(e);
            },
        }
    } else if current == '^' && at == 0 {
        Pattern::StartAnchor
    } else if current == '$' && at == text.len() - 1 {
        Pattern::EndAnchor
    } else if current == '\\' {
        if next >= text.len() {
            return Err(CompileError::InvalidEscape);
        }
        let escaped = text[next];
        next += 1;
        if escaped == 'd' {
            Pattern::DigitClass
        } else if escaped == 'w' {
            Pattern::WordClass
        } else if escaped == '\\' {
            Pattern::Literal('\\')
        } else {
            return Err(CompileError::InvalidEscape);
        }
    } else if current == '[' {
        match build_char_group_patterns(text, &mut next) {
            Ok((negated, members)) => {
                proof {
                    lemma_class_close_bounds(text@, at + 1);
                    lemma_class_close_bounds(text@, at + 2);
                }
                Pattern::BracketClass { negated, members }
            },
            Err(e) => {
                return Err(e);
            },
        }
    } else if current == '.' {
        Pattern::Wildcard
    } else if current == ')' || current == '|' || current == '+' || current == '?' {
        return Err(CompileError::Syntax);
    } else {
        Pattern::Literal(current)
    };
    let ghost bare: Result<(Node, int), CompileError> = if current == '(' {
        group_at(text@, at + 1)
    } else {
        atom_at(text@, at as int)
    };
    assert(bare == Ok::<(Node, int), CompileError>((atom@, next as int)));
    let node = if next < text.len() && text[next] == '+' {
        next += 1;
        Pattern::OneOrMore(Box::new(atom))
    } else if next < text.len() && text[next] == '?' {
        next += 1;
        Pattern::ZeroOrOne(Box::new(atom))
    } else {
        atom
    };
    *cursor = next;
    Ok(node)
}

/// Reads a group from behind its `(` to its `)`, and leaves the cursor
/// behind the `)`. Where the text is rejected the cursor stays.
pub fn parse_alternative(text: &[char], cursor: &mut usize) -> (r: Result<Pattern, CompileError>)
    ensures
        match r {
            Ok(node) => group_at(text@, *old(cursor) as int) == Ok::<(Node, int), CompileError>(
                (node@, *final(cursor) as int),
            ) && *old(cursor) < *final(cursor) <= text@.len(),
            Err(e) => group_at(text@, *old(cursor) as int) == Err::<(Node, int), CompileError>(e)
                && *final(cursor) == *old(cursor),
        },
    decreases text@.len(), text@.len() - *old(cursor), 0nat,
{
    let close = match find_group_close(text, *cursor) {
        Some(close) => close,
        None => {
            return Err(CompileError::UnmatchedParen);
        },
    };
    proof {
        lemma_group_close_bounds(text@, *cursor as int, 0);
    }
    assert(close < text.len());
    let inside = slice_subrange(text, *cursor, close);
    match parse_branches(inside) {
        Ok(branches) => {
            *cursor = close + 1;
            Ok(Pattern::Alternation(branches))
        },
        Err(e) => Err(e),
    }
}

/// Compiles the inside of a group: cuts it at each `|` outside every nested
/// group and compiles the pieces from left to right.
pub fn parse_branches(inside: &[char]) -> (r: Result<Vec<Vec<Pattern>>, CompileError>)
    ensures
        match r {
            Ok(branches) => compile_branches(inside@) == Ok::<Seq<Seq<Node>>, CompileError>(
                branches_of(branches@),
            ),
            Err(e) => compile_branches(inside@) == Err::<Seq<Seq<Node>>, CompileError>(e),
        },
    decreases inside@.len(), inside@.len() + 2, 0nat,
{
    let mut branches: Vec<Vec<Pattern>> = Vec::new();
    let mut from: usize = 0;
    proof {
        assert(inside@.subrange(0, inside@.len() as int) =~= inside@);
        match compile_branches(inside@) {
            Ok(others) => {
                assert(branches_of(branches@) + others =~= others);
            },
            Err(_) => {},
        }
    }
    loop
        invariant
            from <= inside.len(),
            match compile_branches(inside@.subrange(from as int, inside@.len() as int)) {
                Ok(others) => compile_branches(inside@) == Ok::<Seq<Seq<Node>>, CompileError>(
                    branches_of(branches@) + others,
                ),
                Err(e) => compile_branches(inside@) == Err::<Seq<Seq<Node>>, CompileError>(e),
            },
        decreases inside.len() - from,
    {
        let piece = slice_subrange(inside, from, inside.len());
        let end = find_branch_end(piece);
        let ghost before = branches@;
        if end >= piece.len() {
            match compile_chars(piece) {
                Ok(branch) => {
                    branches.push(branch);
                    proof {
                        assert(branches_of(branches@) =~= branches_of(before) + seq![
                            nodes_of(branch@),
                        ]);
                    }
                    return Ok(branches);
                },
                Err(e) => {
                    return Err(e);
                },
            }
        }
        match compile_chars(slice_subrange(piece, 0, end)) {
            Ok(branch) => {
                branches.push(branch);
                proof {
                    assert(branches_of(branches@) =~= branches_of(before).push(nodes_of(branch@)));
                    assert(piece@.subrange(end + 1, piece@.len() as int) =~= inside@.subrange(
                        from + end + 1,
                        inside@.len() as int,
                    ));
                    match compile_branches(piece@.subrange(end + 1, piece@.len() as int)) {
                        Ok(others) => {
                            assert(branches_of(before) + (seq![nodes_of(branch@)] + others)
                                =~= branches_of(branches@) + others);
                        },
                        Err(_) => {},
                    }
                }
                from = from + end + 1;
            },
            Err(e) => {
                return Err(e);
            },
        }
    }
}

/// Compiles a pattern string into its sequence of nodes.
///
/// The string is read once from left to right. A group is compiled branch
/// by branch; an error ends the compilation at once.
pub fn build_patterns(pattern: &str) -> (r: Result<Vec<Pattern>, CompileError>)
    ensures
        compiled_as(r, compile(pattern@)),
        r matches Ok(ps) ==> well_formed_seq(nodes_of(ps@)),
{
    let text = chars_of(pattern);
    proof {
        lemma_compile_well_formed(text@);
    }
    compile_chars(text.as_slice())
}

} // verus!
