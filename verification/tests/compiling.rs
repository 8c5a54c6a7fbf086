use linegrep::compiler::{
    build_char_group_patterns, compile_chars, find_branch_end, find_class_close,
    find_group_close, parse_alternative, parse_pattern,
};
use linegrep::{build_patterns, CompileError, Pattern};

fn chars(text: &str) -> Vec<char> {
    text.chars().collect()
}

fn lit(c: char) -> Pattern {
    Pattern::Literal(c)
}

fn class(negated: bool, members: &str) -> Pattern {
    Pattern::BracketClass { negated, members: chars(members) }
}

fn plus(inner: Pattern) -> Pattern {
    Pattern::OneOrMore(Box::new(inner))
}

fn opt(inner: Pattern) -> Pattern {
    Pattern::ZeroOrOne(Box::new(inner))
}

#[test]
fn empty_pattern_compiles_to_no_nodes() {
    assert_eq!(build_patterns(""), Ok(vec![]));
}

#[test]
fn plain_characters_compile_to_literals() {
    assert_eq!(build_patterns("ab c"), Ok(vec![lit('a'), lit('b'), lit(' '), lit('c')]));
    assert_eq!(build_patterns("]"), Ok(vec![lit(']')]));
    assert_eq!(build_patterns("é"), Ok(vec![lit('é')]));
}

#[test]
fn escapes_compile_to_classes_and_backslash() {
    assert_eq!(
        build_patterns("\\d\\w\\\\"),
        Ok(vec![Pattern::DigitClass, Pattern::WordClass, lit('\\')])
    );
}

#[test]
fn unknown_escape_is_rejected() {
    assert_eq!(build_patterns("\\z"), Err(CompileError::InvalidEscape));
    assert_eq!(build_patterns("a\\"), Err(CompileError::InvalidEscape));
    assert_eq!(build_patterns("\\("), Err(CompileError::InvalidEscape));
}

#[test]
fn bracket_class_collects_its_members() {
    assert_eq!(build_patterns("[abc]"), Ok(vec![class(false, "abc")]));
    assert_eq!(build_patterns("[^xyz]"), Ok(vec![class(true, "xyz")]));
    assert_eq!(build_patterns("[a^]"), Ok(vec![class(false, "a^")]));
    assert_eq!(build_patterns("[]"), Ok(vec![class(false, "")]));
    assert_eq!(build_patterns("[^]"), Ok(vec![class(true, "")]));
    assert_eq!(build_patterns("[aab]"), Ok(vec![class(false, "aab")]));
    assert_eq!(build_patterns("[(|)+?.$]x"), Ok(vec![class(false, "(|)+?.$"), lit('x')]));
}

#[test]
fn escaped_bracket_does_not_close_a_class() {
    assert_eq!(build_patterns("[a\\]b]"), Ok(vec![class(false, "a\\]b")]));
    assert_eq!(build_patterns("[\\\\]"), Ok(vec![class(false, "\\\\")]));
    assert_eq!(build_patterns("[a\\]"), Err(CompileError::UnterminatedClass));
}

#[test]
fn unclosed_class_is_rejected() {
    assert_eq!(build_patterns("[abc"), Err(CompileError::UnterminatedClass));
    assert_eq!(build_patterns("["), Err(CompileError::UnterminatedClass));
    assert_eq!(build_patterns("x[^"), Err(CompileError::UnterminatedClass));
}

#[test]
fn anchors_are_read_at_the_ends_only() {
    assert_eq!(
        build_patterns("^a$"),
        Ok(vec![Pattern::StartAnchor, lit('a'), Pattern::EndAnchor])
    );
    assert_eq!(build_patterns("^"), Ok(vec![Pattern::StartAnchor]));
    assert_eq!(build_patterns("$"), Ok(vec![Pattern::EndAnchor]));
    assert_eq!(build_patterns("^$"), Ok(vec![Pattern::StartAnchor, Pattern::EndAnchor]));
    assert_eq!(build_patterns("a^b"), Ok(vec![lit('a'), lit('^'), lit('b')]));
    assert_eq!(build_patterns("a$b"), Ok(vec![lit('a'), lit('$'), lit('b')]));
    assert_eq!(build_patterns("$$"), Ok(vec![lit('$'), Pattern::EndAnchor]));
}

#[test]
fn wildcard_compiles() {
    assert_eq!(build_patterns("c.t"), Ok(vec![lit('c'), Pattern::Wildcard, lit('t')]));
}

#[test]
fn quantifier_wraps_the_atom_before_it() {
    assert_eq!(build_patterns("ca+t"), Ok(vec![lit('c'), plus(lit('a')), lit('t')]));
    assert_eq!(
        build_patterns("dogs?"),
        Ok(vec![lit('d'), lit('o'), lit('g'), opt(lit('s'))])
    );
    assert_eq!(build_patterns("\\d+"), Ok(vec![plus(Pattern::DigitClass)]));
    assert_eq!(build_patterns("[ab]?"), Ok(vec![opt(class(false, "ab"))]));
    assert_eq!(build_patterns(".+"), Ok(vec![plus(Pattern::Wildcard)]));
    assert_eq!(build_patterns("$+"), Ok(vec![plus(lit('$'))]));
}

#[test]
fn quantifier_wraps_a_whole_group() {
    assert_eq!(
        build_patterns("(ab|c)+d"),
        Ok(vec![
            plus(Pattern::Alternation(vec![vec![lit('a'), lit('b')], vec![lit('c')]])),
            lit('d'),
        ])
    );
    assert_eq!(
        build_patterns("(a)?"),
        Ok(vec![opt(Pattern::Alternation(vec![vec![lit('a')]]))])
    );
}

#[test]
fn quantifier_without_an_atom_is_rejected() {
    assert_eq!(build_patterns("+a"), Err(CompileError::Syntax));
    assert_eq!(build_patterns("?"), Err(CompileError::Syntax));
    assert_eq!(build_patterns("a++"), Err(CompileError::Syntax));
    assert_eq!(build_patterns("a+?"), Err(CompileError::Syntax));
    assert_eq!(build_patterns("a??"), Err(CompileError::Syntax));
    assert_eq!(build_patterns("(+a)"), Err(CompileError::Syntax));
    assert_eq!(build_patterns("(a|?)"), Err(CompileError::Syntax));
}

#[test]
fn group_compiles_each_branch() {
    assert_eq!(
        build_patterns("(cat|dog)"),
        Ok(vec![Pattern::Alternation(vec![
            vec![lit('c'), lit('a'), lit('t')],
            vec![lit('d'), lit('o'), lit('g')],
        ])])
    );
    assert_eq!(build_patterns("(a)"), Ok(vec![Pattern::Alternation(vec![vec![lit('a')]])]));
    assert_eq!(build_patterns("()"), Ok(vec![Pattern::Alternation(vec![vec![]])]));
    assert_eq!(
        build_patterns("(a||b)"),
        Ok(vec![Pattern::Alternation(vec![vec![lit('a')], vec![], vec![lit('b')]])])
    );
    assert_eq!(
        build_patterns("(|a)"),
        Ok(vec![Pattern::Alternation(vec![vec![], vec![lit('a')]])])
    );
}

#[test]
fn nested_groups_compile() {
    assert_eq!(
        build_patterns("x((a|b)c|d)y"),
        Ok(vec![
            lit('x'),
            Pattern::Alternation(vec![
                vec![Pattern::Alternation(vec![vec![lit('a')], vec![lit('b')]]), lit('c')],
                vec![lit('d')],
            ]),
            lit('y'),
        ])
    );
}

#[test]
fn anchors_are_read_at_the_ends_of_a_branch() {
    assert_eq!(
        build_patterns("(^a|b$)c"),
        Ok(vec![
            Pattern::Alternation(vec![
                vec![Pattern::StartAnchor, lit('a')],
                vec![lit('b'), Pattern::EndAnchor],
            ]),
            lit('c'),
        ])
    );
}

#[test]
fn unclosed_group_is_rejected() {
    assert_eq!(build_patterns("(a|b"), Err(CompileError::UnmatchedParen));
    assert_eq!(build_patterns("("), Err(CompileError::UnmatchedParen));
    assert_eq!(build_patterns("((a)"), Err(CompileError::UnmatchedParen));
    assert_eq!(build_patterns("(\\z"), Err(CompileError::UnmatchedParen));
}

#[test]
fn bar_or_closing_parenthesis_outside_a_group_is_rejected() {
    assert_eq!(build_patterns(")"), Err(CompileError::Syntax));
    assert_eq!(build_patterns("a|b"), Err(CompileError::Syntax));
    assert_eq!(build_patterns("(a))"), Err(CompileError::Syntax));
    assert_eq!(build_patterns("|"), Err(CompileError::Syntax));
}

#[test]
fn first_error_from_the_left_is_reported() {
    assert_eq!(build_patterns("\\z[abc"), Err(CompileError::InvalidEscape));
    assert_eq!(build_patterns("[abc\\z"), Err(CompileError::UnterminatedClass));
    assert_eq!(build_patterns("(\\z)[abc"), Err(CompileError::InvalidEscape));
    assert_eq!(build_patterns("(a|\\z|[)"), Err(CompileError::InvalidEscape));
    assert_eq!(build_patterns("+(a"), Err(CompileError::Syntax));
}

#[test]
fn malformed_patterns() {
    assert_eq!(build_patterns("[abc"), Err(CompileError::UnterminatedClass));
    assert_eq!(build_patterns("(a|b"), Err(CompileError::UnmatchedParen));
    assert_eq!(build_patterns("\\z"), Err(CompileError::InvalidEscape));
    assert_eq!(build_patterns("+a"), Err(CompileError::Syntax));
}

#[test]
fn compiling_twice_gives_identical_nodes() {
    for text in ["", "^abc$", "ca+t", "(cat|dog)s?", "[^xyz]\\d\\w.", "x((a|b)c|d)+y"] {
        assert_eq!(build_patterns(text), build_patterns(text));
    }
    for text in ["[abc", "(a|b", "\\z", "+a"] {
        assert_eq!(build_patterns(text), build_patterns(text));
    }
}

#[test]
fn compile_chars_agrees_with_build_patterns() {
    assert_eq!(compile_chars(&chars("(cat|dog)s?")), build_patterns("(cat|dog)s?"));
    assert_eq!(compile_chars(&chars("(a|b")), Err(CompileError::UnmatchedParen));
}

#[test]
fn class_reader_moves_the_cursor_behind_the_bracket() {
    let text = chars("[^ab]c");
    let mut cursor = 1;
    assert_eq!(build_char_group_patterns(&text, &mut cursor), Ok((true, chars("ab"))));
    assert_eq!(cursor, 5);

    let text = chars("[abc");
    let mut cursor = 1;
    assert_eq!(
        build_char_group_patterns(&text, &mut cursor),
        Err(CompileError::UnterminatedClass)
    );
    assert_eq!(cursor, 1);

    let mut cursor = 9;
    assert_eq!(
        build_char_group_patterns(&text, &mut cursor),
        Err(CompileError::UnterminatedClass)
    );
    assert_eq!(cursor, 9);
}

#[test]
fn node_reader_moves_the_cursor_behind_the_node() {
    let text = chars("ab+c");
    let mut cursor = 0;
    assert_eq!(parse_pattern(&text, &mut cursor), Ok(lit('a')));
    assert_eq!(cursor, 1);
    assert_eq!(parse_pattern(&text, &mut cursor), Ok(plus(lit('b'))));
    assert_eq!(cursor, 3);
    assert_eq!(parse_pattern(&text, &mut cursor), Ok(lit('c')));
    assert_eq!(cursor, 4);
    assert_eq!(parse_pattern(&text, &mut cursor), Err(CompileError::Syntax));
    assert_eq!(cursor, 4);
}

#[test]
fn group_reader_moves_the_cursor_behind_the_parenthesis() {
    let text = chars("(a|b)c");
    let mut cursor = 1;
    assert_eq!(
        parse_alternative(&text, &mut cursor),
        Ok(Pattern::Alternation(vec![vec![lit('a')], vec![lit('b')]]))
    );
    assert_eq!(cursor, 5);

    let text = chars("(a|\\z)c");
    let mut cursor = 1;
    assert_eq!(parse_alternative(&text, &mut cursor), Err(CompileError::InvalidEscape));
    assert_eq!(cursor, 1);
}

#[test]
fn scans_find_the_closing_characters() {
    assert_eq!(find_class_close(&chars("ab]c]"), 0), Some(2));
    assert_eq!(find_class_close(&chars("a\\]c]"), 0), Some(4));
    assert_eq!(find_class_close(&chars("abc"), 0), None);
    assert_eq!(find_class_close(&chars("abc\\"), 0), None);
    assert_eq!(find_group_close(&chars("a(b)c)d"), 0), Some(5));
    assert_eq!(find_group_close(&chars("a(b)c"), 0), None);
    assert_eq!(find_group_close(&chars(")"), 0), Some(0));
    assert_eq!(find_branch_end(&chars("ab|c")), 2);
    assert_eq!(find_branch_end(&chars("a(b|c)d|e")), 7);
    assert_eq!(find_branch_end(&chars("abc")), 3);
    assert_eq!(find_branch_end(&chars("")), 0);
}
