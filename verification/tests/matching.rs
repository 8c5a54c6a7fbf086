use linegrep::chars::{chars_of, is_digit};
use linegrep::matcher::{
    class_contains, consume, is_start_anchor, match_alphanumeric, match_alternative, match_digit,
    match_end_of_line, match_group, match_literal, match_one_or_more, match_pattern_helper,
    match_start_of_line, match_wildcard, match_zero_or_one,
};
use linegrep::pattern::{clone_patterns, join_patterns};
use linegrep::{build_patterns, match_pattern, Pattern};

fn chars(text: &str) -> Vec<char> {
    text.chars().collect()
}

fn matches(input: &str, pattern: &str) -> bool {
    let compiled = build_patterns(pattern).unwrap();
    match_pattern(input, &compiled)
}

/// The cursor behind the first successful attempt at `start`, if any.
fn end_from(input: &str, start: usize, pattern: &str) -> Option<usize> {
    let compiled = build_patterns(pattern).unwrap();
    let mut cursor = start;
    if match_pattern_helper(&chars(input), &mut cursor, &compiled) {
        Some(cursor)
    } else {
        assert_eq!(cursor, start);
        None
    }
}

#[test]
fn literal_pattern_is_found_as_substring() {
    assert!(matches("hello world", "world"));
    assert!(matches("hello world", "o w"));
    assert!(matches("hello world", "hello world"));
    assert!(!matches("hello world", "worlds"));
    assert!(!matches("hello", "hello world"));
    assert!(!matches("", "a"));
}

#[test]
fn anchored_pattern_is_equality() {
    assert!(matches("abc", "^abc$"));
    assert!(!matches("abcd", "^abc$"));
    assert!(!matches("xabc", "^abc$"));
    assert!(!matches("ab", "^abc$"));
    assert!(!matches("", "^abc$"));
}

#[test]
fn one_or_more() {
    assert!(matches("caaats", "ca+t"));
    assert!(matches("cat", "ca+t"));
    assert!(!matches("ct", "ca+t"));
}

#[test]
fn zero_or_one() {
    assert!(matches("dogs", "dogs?"));
    assert!(matches("dog", "dogs?"));
    assert!(!matches("dogss", "^dogs?$"));
    assert!(matches("dogs", "^dogs?$"));
    assert!(matches("dog", "^dogs?$"));
}

#[test]
fn negated_bracket_class() {
    assert!(matches("apple", "[^xyz]"));
    assert!(matches("banana", "[^a]"));
    assert!(!matches("aaa", "[^a]"));
    assert!(!matches("", "[^a]"));
}

#[test]
fn bracket_class() {
    assert!(matches("apple", "[pqr]"));
    assert!(!matches("apple", "[xyz]"));
    assert!(!matches("apple", "[]"));
    assert!(matches("apple", "[^]"));
    assert!(matches("a]b", "[\\]]b"));
    assert!(matches("a\\b", "[\\]]b"));
}

#[test]
fn alternation() {
    assert!(matches("cat", "(cat|dog)"));
    assert!(matches("dog", "(cat|dog)"));
    assert!(!matches("goldfish", "(cat|dog)"));
    assert!(matches("a dog and a cat", "a (cat|dog) and a (cat|dog)$"));
}

#[test]
fn greedy_repetition_gives_back() {
    assert!(matches("aaa", "a+a"));
    assert!(matches("aa", "a+a"));
    assert!(!matches("a", "a+a"));
    assert!(matches("aaa", "^a+a$"));
    assert!(matches("aaab", "^a+aab$"));
    assert!(!matches("aab", "^a+aab$"));
}

#[test]
fn empty_pattern_matches_every_line() {
    assert!(matches("", ""));
    assert!(matches("abc", ""));
}

#[test]
fn anchors_alone() {
    assert!(matches("", "^$"));
    assert!(!matches("a", "^$"));
    assert!(matches("abc", "^"));
    assert!(matches("abc", "$"));
    assert!(matches("", "$"));
    assert!(matches("abc", "c$"));
    assert!(!matches("abc", "b$"));
    assert!(matches("abc", "^a"));
    assert!(!matches("abc", "^b"));
}

#[test]
fn anchor_characters_elsewhere_are_literal() {
    assert!(matches("a^b", "a^b"));
    assert!(!matches("ab", "a^b"));
    assert!(matches("a$b", "a$b"));
    assert!(matches("cost: 5$", "5$$"));
}

#[test]
fn digit_and_word_classes() {
    assert!(matches("abc1", "\\d"));
    assert!(!matches("abc", "\\d"));
    assert!(!matches("٣", "\\d"));
    assert!(matches("--a--", "\\w"));
    assert!(matches("--7--", "\\w"));
    assert!(matches("é", "\\w"));
    assert!(matches("٣", "\\w"));
    assert!(!matches("-_ +", "\\w"));
    assert!(matches("3 apples", "^\\d \\w\\w\\w\\w\\w\\w$"));
    assert!(matches("a\\b", "a\\\\b"));
}

#[test]
fn wildcard() {
    assert!(matches("cat", "c.t"));
    assert!(matches("c-t", "c.t"));
    assert!(!matches("ct", "c.t"));
    assert!(!matches("", "."));
    assert!(matches("abc", "^.+$"));
}

#[test]
fn optional_node_is_tried_present_then_absent() {
    assert_eq!(end_from("ab", 0, "ab?"), Some(2));
    assert_eq!(end_from("ac", 0, "ab?"), Some(1));
    assert_eq!(end_from("aa", 0, "a?a"), Some(2));
    assert_eq!(end_from("a", 0, "a?a"), Some(1));
}

#[test]
fn repetition_is_greedy() {
    assert_eq!(end_from("aaab", 0, "a+"), Some(3));
    assert_eq!(end_from("aaab", 1, "a+"), Some(3));
    assert_eq!(end_from("aaab", 0, "a+a"), Some(3));
    assert_eq!(end_from("aaab", 3, "a+"), None);
    assert_eq!(end_from("abab", 0, ".+b"), Some(4));
}

#[test]
fn branches_are_tried_from_the_left() {
    assert_eq!(end_from("abc", 0, "(a|ab)"), Some(1));
    assert_eq!(end_from("abc", 0, "(ab|a)"), Some(2));
    assert_eq!(end_from("abc", 0, "(a|ab)c"), Some(3));
    assert_eq!(end_from("abc", 0, "(x|)a"), Some(1));
}

#[test]
fn branch_gives_back_to_what_follows_the_group() {
    assert!(matches("aa", "^(a+|b)a$"));
    assert!(matches("aab", "^(a+|b)ab$"));
    assert!(matches("xyz", "^(x|xy)z$"));
    assert!(!matches("xyz", "^(x|xy)$"));
    assert!(matches("xyz", "^(x|xy)yz$"));
    assert!(matches("xz", "^((x|y)|z)z$"));
}

#[test]
fn repeated_group() {
    assert!(matches("ababc", "^(ab)+c$"));
    assert!(matches("abcabd", "^(abc|abd)+$"));
    assert!(!matches("c", "^(ab)+c$"));
    assert!(matches("c", "^(ab)?c$"));
    assert!(matches("abc", "^(ab)?c$"));
}

#[test]
fn repeated_group_keeps_the_first_branch_that_matches() {
    assert!(!matches("abc", "^(a|ab)+c$"));
    assert!(matches("abc", "^(ab|a)+c$"));
}

#[test]
fn repetition_of_an_empty_match_ends() {
    assert!(matches("abc", "()+"));
    assert!(matches("abc", "^(a?)+bc$"));
    assert!(matches("b", "^(a?)+b$"));
    assert!(matches("abc", "^+abc"));
}

#[test]
fn unanchored_search_tries_every_offset() {
    assert!(matches("xxab", "ab$"));
    assert!(matches("abxx", "ab"));
    assert!(matches("xaxb", "a.b"));
    assert!(!matches("xaxb", "ab"));
}

#[test]
fn single_character_matchers_move_the_cursor_on_success_only() {
    let input = chars("a1-");
    let mut cursor = 0;
    assert!(match_literal(&input, &mut cursor, 'a'));
    assert_eq!(cursor, 1);
    assert!(!match_literal(&input, &mut cursor, 'a'));
    assert_eq!(cursor, 1);
    assert!(!match_alphanumeric(&input, &mut 2));
    assert!(match_alphanumeric(&input, &mut cursor));
    assert_eq!(cursor, 2);
    cursor = 1;
    assert!(match_digit(&input, &mut cursor));
    assert_eq!(cursor, 2);
    assert!(!match_digit(&input, &mut cursor));
    assert_eq!(cursor, 2);
    assert!(match_wildcard(&input, &mut cursor));
    assert_eq!(cursor, 3);
    assert!(!match_wildcard(&input, &mut cursor));
    assert!(!match_literal(&input, &mut cursor, 'a'));
    assert!(!match_digit(&input, &mut cursor));
    assert!(!match_alphanumeric(&input, &mut cursor));
    assert_eq!(cursor, 3);
    cursor = 7;
    assert!(!match_wildcard(&input, &mut cursor));
    assert_eq!(cursor, 7);
}

#[test]
fn cursor_moves_over_an_accepted_character_only() {
    let input = chars("ab");
    let mut cursor = 0;
    assert!(consume(&input, &mut cursor, true));
    assert_eq!(cursor, 1);
    assert!(!consume(&input, &mut cursor, false));
    assert_eq!(cursor, 1);
    assert!(consume(&input, &mut cursor, true));
    assert_eq!(cursor, 2);
    assert!(!consume(&input, &mut cursor, true));
    assert_eq!(cursor, 2);
}

#[test]
fn group_matcher_tests_membership() {
    let input = chars("ab");
    let members = chars("bcb");
    let mut cursor = 0;
    assert!(!match_group(&input, &mut cursor, &members, false));
    assert_eq!(cursor, 0);
    assert!(match_group(&input, &mut cursor, &members, true));
    assert_eq!(cursor, 1);
    assert!(match_group(&input, &mut cursor, &members, false));
    assert_eq!(cursor, 2);
    assert!(!match_group(&input, &mut cursor, &members, true));
    assert!(!match_group(&input, &mut cursor, &members, false));
    assert_eq!(cursor, 2);
    assert!(class_contains(&members, 'c'));
    assert!(!class_contains(&members, 'a'));
    assert!(!class_contains(&[], 'a'));
}

#[test]
fn anchor_tests() {
    assert!(match_start_of_line(0));
    assert!(!match_start_of_line(1));
    let input = chars("ab");
    assert!(!match_end_of_line(&input, 0));
    assert!(!match_end_of_line(&input, 1));
    assert!(match_end_of_line(&input, 2));
    assert!(match_end_of_line(&[], 0));
    assert!(is_start_anchor(&Pattern::StartAnchor));
    assert!(!is_start_anchor(&Pattern::EndAnchor));
    assert!(!is_start_anchor(&Pattern::Literal('^')));
}

#[test]
fn one_or_more_matcher_commits_the_cursor_of_the_whole_attempt() {
    let input = chars("aaab");
    let atom = Pattern::Literal('a');
    let mut cursor = 0;
    assert!(match_one_or_more(&input, &mut cursor, &atom, &[]));
    assert_eq!(cursor, 3);
    cursor = 0;
    assert!(match_one_or_more(&input, &mut cursor, &atom, &[Pattern::Literal('a')]));
    assert_eq!(cursor, 3);
    cursor = 0;
    assert!(match_one_or_more(
        &input,
        &mut cursor,
        &atom,
        &[Pattern::Literal('a'), Pattern::Literal('a'), Pattern::Literal('b')]
    ));
    assert_eq!(cursor, 4);
    cursor = 0;
    assert!(!match_one_or_more(&input, &mut cursor, &atom, &[Pattern::Literal('c')]));
    assert_eq!(cursor, 0);
    cursor = 3;
    assert!(!match_one_or_more(&input, &mut cursor, &atom, &[]));
    assert_eq!(cursor, 3);
}

#[test]
fn zero_or_one_matcher_commits_the_cursor_of_the_whole_attempt() {
    let input = chars("ab");
    let atom = Pattern::Literal('a');
    let mut cursor = 0;
    assert!(match_zero_or_one(&input, &mut cursor, &atom, &[]));
    assert_eq!(cursor, 1);
    cursor = 1;
    assert!(match_zero_or_one(&input, &mut cursor, &atom, &[]));
    assert_eq!(cursor, 1);
    cursor = 0;
    assert!(match_zero_or_one(&input, &mut cursor, &atom, &[Pattern::Literal('a')]));
    assert_eq!(cursor, 1);
    cursor = 0;
    assert!(!match_zero_or_one(&input, &mut cursor, &atom, &[Pattern::Literal('c')]));
    assert_eq!(cursor, 0);
}

#[test]
fn alternative_matcher_commits_the_cursor_of_the_first_branch_that_fits() {
    let input = chars("abc");
    let branches = vec![
        vec![Pattern::Literal('a')],
        vec![Pattern::Literal('a'), Pattern::Literal('b')],
    ];
    let mut cursor = 0;
    assert!(match_alternative(&input, &mut cursor, &branches, &[]));
    assert_eq!(cursor, 1);
    cursor = 0;
    assert!(match_alternative(&input, &mut cursor, &branches, &[Pattern::Literal('c')]));
    assert_eq!(cursor, 3);
    cursor = 0;
    assert!(!match_alternative(&input, &mut cursor, &branches, &[Pattern::Literal('x')]));
    assert_eq!(cursor, 0);
    assert!(!match_alternative(&input, &mut cursor, &[], &[]));
    assert_eq!(cursor, 0);
}

#[test]
fn helper_accepts_a_cursor_behind_the_line() {
    let input = chars("ab");
    let mut cursor = 5;
    assert!(match_pattern_helper(&input, &mut cursor, &[]));
    assert_eq!(cursor, 5);
    assert!(match_pattern_helper(&input, &mut cursor, &[Pattern::EndAnchor]));
    assert!(!match_pattern_helper(&input, &mut cursor, &[Pattern::Wildcard]));
    assert_eq!(cursor, 5);
}

#[test]
fn patterns_are_copied_node_for_node() {
    let compiled = build_patterns("x((a|b)c|d)+[^yz]?\\d$").unwrap();
    assert_eq!(clone_patterns(&compiled), compiled);
    assert_eq!(compiled[1].clone(), compiled[1]);
    let head = build_patterns("(a|b)+").unwrap();
    let tail = build_patterns("c?d").unwrap();
    assert_eq!(join_patterns(&head, &tail), build_patterns("(a|b)+c?d").unwrap());
    assert_eq!(join_patterns(&[], &tail), tail);
    assert_eq!(join_patterns(&head, &[]), head);
}

#[test]
fn pattern_is_reused_across_lines() {
    let compiled = build_patterns("^(cat|dog)s?$").unwrap();
    assert!(match_pattern("cat", &compiled));
    assert!(match_pattern("dogs", &compiled));
    assert!(!match_pattern("cow", &compiled));
    assert!(match_pattern("cats", &compiled));
}

#[test]
fn characters_are_read_in_order() {
    assert_eq!(chars_of("añ✓"), vec!['a', 'ñ', '✓']);
    assert_eq!(chars_of(""), Vec::<char>::new());
    assert!(is_digit('0') && is_digit('9') && !is_digit('a') && !is_digit('/') && !is_digit(':'));
}

#[test]
fn long_line_is_matched() {
    let line = "a".repeat(200_000);
    assert!(matches(&line, "^a+$"));
    assert!(matches(&line, "^.+a$"));
    assert!(!matches(&line, "^a+b$"));
    let compiled = build_patterns("a+").unwrap();
    let mut cursor = 0;
    assert!(match_pattern_helper(&chars(&line), &mut cursor, &compiled));
    assert_eq!(cursor, 200_000);
}

#[test]
fn long_pattern_is_matched() {
    let word = "ab".repeat(50_000);
    let compiled = build_patterns(&format!("^{}$", word)).unwrap();
    assert_eq!(compiled.len(), 100_002);
    assert!(match_pattern(&word, &compiled));
    assert!(!match_pattern(&word[1..], &compiled));
}
