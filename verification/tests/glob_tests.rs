//! Matching behaviour of the glob dialect.

use editorconfig::glob_match;
use editorconfig::has_imbalanced_braces;
use editorconfig::translate_alternation;

fn chars(s: &str) -> Vec<char> {
    s.chars().collect()
}

fn string_of(v: &[char]) -> String {
    v.iter().collect()
}

#[test]
fn no_slash_pattern_matches_at_any_depth() {
    assert!(glob_match("*.txt", "a/b/c.txt"));
    assert!(glob_match("*.txt", "c.txt"));
}

#[test]
fn slash_pattern_is_anchored() {
    assert!(!glob_match("/foo/*.txt", "bar/foo/x.txt"));
    assert!(glob_match("foo/*.txt", "foo/x.txt"));
    assert!(!glob_match("foo/*.txt", "bar/foo/x.txt"));
    assert!(glob_match("/foo/*.txt", "foo/x.txt"));
}

#[test]
fn star_does_not_cross_slash() {
    assert!(!glob_match("a*b", "a/b"));
    assert!(glob_match("a*b", "axxb"));
}

#[test]
fn double_star_crosses_directories() {
    assert!(glob_match("a/**/b", "a/x/y/b"));
    assert!(glob_match("a/**/b", "a/b"));
    assert!(glob_match("**", "x/y"));
}

#[test]
fn question_mark_is_one_non_slash_character() {
    assert!(glob_match("a?c", "abc"));
    assert!(!glob_match("a?c", "a/c"));
    assert!(!glob_match("a?c", "ac"));
}

#[test]
fn bracket_classes() {
    assert!(glob_match("x[ab]y", "xay"));
    assert!(!glob_match("x[ab]y", "xcy"));
    assert!(glob_match("[!a]b", "cb"));
    assert!(!glob_match("[!a]b", "ab"));
}

#[test]
fn stray_open_bracket_is_literal() {
    assert!(glob_match("a[b", "a[b"));
    assert!(!glob_match("a[b", "ab"));
}

#[test]
fn empty_alternative_makes_group_optional() {
    assert!(glob_match("a{b,}", "a"));
    assert!(glob_match("a{b,}", "ab"));
    assert!(!glob_match("a{b,}", "ac"));
}

#[test]
fn brace_alternation_basics() {
    assert!(glob_match("{a,b,c}x", "bx"));
    assert!(!glob_match("{a,b,c}x", "dx"));
}

#[test]
fn nested_brace_alternation() {
    assert!(glob_match("{a,{b,c}}", "a"));
    assert!(glob_match("{a,{b,c}}", "c"));
    assert!(!glob_match("{a,{b,c}}", "d"));
}

#[test]
fn comma_free_braces_are_literal() {
    assert!(glob_match("{ab}", "{ab}"));
    assert!(!glob_match("{ab}", "ab"));
}

#[test]
fn escaped_comma_is_literal() {
    assert!(glob_match("{a\\,b}", "a,b"));
    assert!(!glob_match("{a\\,b}", "a"));
}

#[test]
fn numeric_range_bounds_are_inclusive() {
    assert!(glob_match("{1..3}", "2"));
    assert!(glob_match("{1..3}", "1"));
    assert!(glob_match("{1..3}", "3"));
    assert!(!glob_match("{1..3}", "4"));
    assert!(!glob_match("{1..3}", "-1"));
    assert!(!glob_match("{1..3}", "0"));
}

#[test]
fn numeric_range_with_negative_bounds() {
    assert!(glob_match("{-3..-1}", "-2"));
    assert!(!glob_match("{-3..-1}", "0"));
}

#[test]
fn numeric_range_rejects_leading_zeroes() {
    assert!(!glob_match("{1..30}", "02"));
}

#[test]
fn numeric_range_in_context() {
    assert!(glob_match("v{1..2}.txt", "v2.txt"));
    assert!(!glob_match("v{1..2}.txt", "v3.txt"));
}

#[test]
fn dot_is_literal() {
    assert!(!glob_match("a.txt", "axtxt"));
    assert!(glob_match("a.txt", "a.txt"));
}

#[test]
fn parens_and_plus_are_literal() {
    assert!(glob_match("a(b)+", "a(b)+"));
    assert!(!glob_match("a(b)+", "ab"));
}

#[test]
fn imbalanced_brace_detection() {
    assert!(has_imbalanced_braces(&chars("{")));
    assert!(has_imbalanced_braces(&chars("}{")));
    assert!(!has_imbalanced_braces(&chars("a{b}c")));
    assert!(!has_imbalanced_braces(&chars("\\{")));
    assert!(has_imbalanced_braces(&chars("{\\}")));
}

#[test]
fn alternation_translation_direct() {
    assert_eq!(string_of(&translate_alternation(&chars("a,b"))), "(?:a|b)");
    assert_eq!(string_of(&translate_alternation(&chars("a,"))), "(?:a|)?");
    assert_eq!(string_of(&translate_alternation(&chars("a{b"))), "{a\\{b}");
}

#[test]
fn adjacent_brace_groups_are_consumed_as_one() {
    // the rewrite spans from the first opening brace to the last closing
    // brace, so adjacent groups do not multiply like shell expansion
    assert!(!glob_match("{a,b}{c,d}", "ad"));
    assert!(glob_match("{a,b}{c,d}", "a"));
    assert!(glob_match("{a,b}{c,d}", "b}{c"));
}

#[test]
fn escaped_closing_brace_keeps_group_literal() {
    assert!(glob_match("{a,b\\}", "{a,b}"));
    assert!(!glob_match("{a,b\\}", "a"));
}
