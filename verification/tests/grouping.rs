use std::ops::Range;

use zsh_patina::highlighting::dynamic::{DynamicToken, DynamicTokenGroup, DynamicType};
use zsh_patina::highlighting::highlighter::{
    find_prefix_split, marker_style, resolve_static_style, str_eq, update_groups, ThemeStyle,
};
use zsh_patina::highlighting::{
    StaticStyle, ARGUMENTS, CALLABLE, CHARACTER_ESCAPE, STRING_QUOTED_DOUBLE_ARGUMENTS,
    STRING_QUOTED_DOUBLE_CALLABLE, TILDE,
};

fn summary<'a>(groups: &[DynamicTokenGroup<'a>]) -> Vec<(Range<usize>, DynamicType<'a>, usize)> {
    groups
        .iter()
        .map(|g| (g.range.clone(), g.dynamic_type, g.tokens.len()))
        .collect()
}

#[test]
fn token_and_group_constructors() {
    let t = DynamicToken::new(&(3..7), ARGUMENTS);
    assert_eq!(t.range(), 3..7);
    assert_eq!(t.scope(), ARGUMENTS);
    let g = DynamicTokenGroup::new(&(1..2), DynamicType::Unknown(TILDE), TILDE);
    assert_eq!(g.range, 1..2);
    assert_eq!(g.dynamic_type, DynamicType::Unknown(TILDE));
    assert_eq!(g.tokens.len(), 1);
    assert_eq!(g.tokens[0].range(), 1..2);
    assert_eq!(g.tokens[0].scope(), TILDE);
}

#[test]
fn callable_then_arguments() {
    let mut groups = Vec::new();
    update_groups(CALLABLE, &(0..2), &mut groups);
    // arguments right after the command name start their own group
    update_groups(ARGUMENTS, &(2..3), &mut groups);
    update_groups(ARGUMENTS, &(3..7), &mut groups);
    assert_eq!(
        summary(&groups),
        vec![(0..2, DynamicType::Callable, 1), (2..7, DynamicType::Arguments, 2)]
    );
}

#[test]
fn quoted_parts_extend_groups() {
    let mut groups = Vec::new();
    update_groups(CALLABLE, &(0..1), &mut groups);
    update_groups(STRING_QUOTED_DOUBLE_CALLABLE, &(1..4), &mut groups);
    assert_eq!(summary(&groups), vec![(0..4, DynamicType::Callable, 2)]);
    assert_eq!(groups[0].tokens[1].scope(), STRING_QUOTED_DOUBLE_CALLABLE);
    update_groups(STRING_QUOTED_DOUBLE_ARGUMENTS, &(5..9), &mut groups);
    update_groups(ARGUMENTS, &(9..10), &mut groups);
    assert_eq!(
        summary(&groups),
        vec![(0..4, DynamicType::Callable, 2), (5..10, DynamicType::Arguments, 2)]
    );
}

#[test]
fn escapes_join_and_take_over() {
    let mut groups = Vec::new();
    // a lone escape forms an unknown group
    update_groups(CHARACTER_ESCAPE, &(0..2), &mut groups);
    assert_eq!(summary(&groups), vec![(0..2, DynamicType::Unknown(CHARACTER_ESCAPE), 1)]);
    // a command name after it turns the group into a callable
    update_groups(CALLABLE, &(2..4), &mut groups);
    assert_eq!(summary(&groups), vec![(0..4, DynamicType::Callable, 2)]);
    // an escape inside the command name keeps the type
    update_groups(CHARACTER_ESCAPE, &(4..6), &mut groups);
    assert_eq!(summary(&groups), vec![(0..6, DynamicType::Callable, 3)]);
    // a gap starts a new group
    update_groups(CHARACTER_ESCAPE, &(7..9), &mut groups);
    assert_eq!(groups.len(), 2);
    assert_eq!(groups[1].dynamic_type, DynamicType::Unknown(CHARACTER_ESCAPE));
}

#[test]
fn tilde_and_other_scopes() {
    let mut groups = Vec::new();
    update_groups(TILDE, &(0..1), &mut groups);
    update_groups(TILDE, &(1..2), &mut groups);
    assert_eq!(
        summary(&groups),
        vec![(0..1, DynamicType::Unknown(TILDE), 1), (1..2, DynamicType::Unknown(TILDE), 1)]
    );
    update_groups("keyword.control.shell", &(2..5), &mut groups);
    assert_eq!(groups.len(), 2);
    // arguments never extend a callable group, callables never an argument group
    let mut groups = Vec::new();
    update_groups(ARGUMENTS, &(0..3), &mut groups);
    update_groups(CALLABLE, &(3..5), &mut groups);
    assert_eq!(
        summary(&groups),
        vec![(0..3, DynamicType::Arguments, 1), (3..5, DynamicType::Callable, 1)]
    );
}

#[test]
fn groups_stay_contiguous() {
    let mut groups = Vec::new();
    let steps: [(&str, Range<usize>); 6] = [
        (CALLABLE, 0..2),
        (CHARACTER_ESCAPE, 2..4),
        (ARGUMENTS, 5..6),
        (ARGUMENTS, 6..9),
        (TILDE, 10..11),
        (CHARACTER_ESCAPE, 11..13),
    ];
    for (scope, range) in steps.iter() {
        update_groups(scope, range, &mut groups);
        for g in &groups {
            assert_eq!(g.range.start, g.tokens[0].range().start);
            assert_eq!(g.range.end, g.tokens.last().unwrap().range().end);
            for w in g.tokens.windows(2) {
                assert_eq!(w[0].range().end, w[1].range().start);
            }
        }
    }
    assert_eq!(groups.len(), 3);
}

#[test]
fn string_equality() {
    assert!(str_eq("abc", "abc"));
    assert!(!str_eq("abc", "abd"));
    assert!(!str_eq("abc", "ab"));
    assert!(str_eq("", ""));
    assert!(str_eq("é", "é"));
}

#[test]
fn prefix_split() {
    assert_eq!(find_prefix_split("time ls"), Some(5));
    assert_eq!(find_prefix_split("  time ls -l"), Some(7));
    assert_eq!(find_prefix_split("\t\ntime sleep 1"), Some(7));
    assert_eq!(find_prefix_split("time "), Some(5));
    assert_eq!(find_prefix_split("time"), None);
    assert_eq!(find_prefix_split("timeout 5 ls"), None);
    assert_eq!(find_prefix_split("ls time x"), None);
    assert_eq!(find_prefix_split("\x0btime ls"), None);
    assert_eq!(find_prefix_split(""), None);
}

fn style(fg: Option<&str>, bold: bool) -> ThemeStyle {
    ThemeStyle { foreground: fg.map(|s| s.to_string()), background: None, bold, underline: false }
}

#[test]
fn static_styles() {
    assert_eq!(resolve_static_style(None), None);
    assert_eq!(resolve_static_style(Some(style(None, false))), None);
    assert_eq!(
        resolve_static_style(Some(style(Some("1;31"), false))),
        Some(StaticStyle {
            foreground_color: Some("1;31".to_string()),
            background_color: None,
            bold: false,
            underline: false
        })
    );
    assert_eq!(
        resolve_static_style(Some(style(None, true))),
        Some(StaticStyle { foreground_color: None, background_color: None, bold: true, underline: false })
    );
}

#[test]
fn marker_styles() {
    assert!(marker_style(true, Some(style(Some("2"), false))).is_none());
    let inserted = marker_style(false, Some(style(Some("2"), true))).unwrap();
    assert_eq!(inserted.foreground.as_deref(), Some("2"));
    assert!(inserted.bold);
    let empty = marker_style(false, None).unwrap();
    assert!(empty.foreground.is_none() && empty.background.is_none() && !empty.bold && !empty.underline);
}
