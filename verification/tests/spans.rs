use std::ops::Range;
use std::str::FromStr;
use std::time::Duration;

use syntect::highlighting::{Color, ScopeSelectors, StyleModifier, Theme, ThemeItem};

use zsh_patina::highlighting::dynamic::{DynamicTokenGroup, DynamicType};
use zsh_patina::highlighting::highlighter::{callable_choices, marker_insertions, ThemeStyle};
use zsh_patina::highlighting::parse::Syntaxes;
use zsh_patina::highlighting::paths::{final_line_spans, group_paths, unquote, PathKind};
use zsh_patina::highlighting::spans::{
    decode_scope, find_style, highlight, highlight_internal, spans_of_line, HighlightError,
};
use zsh_patina::highlighting::{
    DynamicStyle, Highlighter, Span, SpanStyle, StaticStyle, ARGUMENTS, CALLABLE, DYNAMIC_CALLABLE_ALIAS,
    DYNAMIC_CALLABLE_COMMAND, DYNAMIC_PATH_DIRECTORY, DYNAMIC_PATH_FILE, TILDE, CHARACTER_ESCAPE, STRING_QUOTED_DOUBLE,
    STRING_QUOTED_DOUBLE_ARGUMENTS, STRING_QUOTED_DOUBLE_CALLABLE,
};

const SHELL: &str = "source.shell.bash";

fn style(colour: &str) -> StaticStyle {
    StaticStyle {
        foreground_color: Some(colour.to_string()),
        background_color: None,
        bold: false,
        underline: false,
    }
}

/// A theme that colours everything of the shell grammar with one colour.
fn shell_theme() -> Theme {
    Theme {
        scopes: vec![ThemeItem {
            scope: ScopeSelectors::from_str("source.shell").unwrap(),
            style: StyleModifier {
                foreground: Some(Color { r: 1, g: 2, b: 3, a: 255 }),
                background: None,
                font_style: None,
            },
        }],
        ..Theme::default()
    }
}

fn scopes() -> Vec<((u8, u8, u8, u8), String)> {
    vec![((1, 2, 3, 255), SHELL.to_string())]
}

fn styles() -> Vec<(String, Option<StaticStyle>)> {
    vec![(SHELL.to_string(), Some(style("red")))]
}

fn missing(_: &String) -> PathKind {
    PathKind::Missing
}

fn run(command: &str, max_line_length: usize) -> Vec<Span> {
    let ss = Syntaxes::load();
    let theme = shell_theme();
    highlight(command, &ss, &theme, &scopes(), &styles(), max_line_length, Duration::from_secs(60), |_: &Range<usize>| true, missing)
        .unwrap()
}

/// The spans are contiguous, all with the same style, and cover the
/// characters `start..end`.
fn covers(spans: &[Span], start: usize, end: usize) {
    assert!(!spans.is_empty());
    assert_eq!(spans[0].start, start);
    assert_eq!(spans[spans.len() - 1].end, end);
    for w in spans.windows(2) {
        assert_eq!(w[0].end, w[1].start);
    }
    for s in spans {
        assert!(s.start < s.end);
        assert_eq!(s.style, SpanStyle::Static(style("red")));
    }
}

#[test]
fn whole_command_in_one_colour() {
    let spans = run("echo hello", 1000);
    covers(&spans, 0, 10);
}

#[test]
fn trailing_whitespace_is_not_highlighted() {
    let spans = run("echo hello  \n", 1000);
    covers(&spans, 0, 10);
}

#[test]
fn ranges_count_characters() {
    // `é` is two bytes but one character
    let spans = run("echo é", 1000);
    covers(&spans, 0, 6);
}

#[test]
fn long_lines_are_skipped_without_counting() {
    assert!(run("echo hello", 3).is_empty());
    // the first line (with its line feed) is kept, the second is too long
    let spans = run("ls\necho hello", 3);
    covers(&spans, 0, 3);
    // spans after a skipped line keep the characters of the command
    let spans = run("echo hello\nls", 3);
    covers(&spans, 11, 13);
}

#[test]
fn predicate_chooses_pieces() {
    let ss = Syntaxes::load();
    let theme = shell_theme();
    let all = run("echo hello", 1000);
    let some = highlight(
        "echo hello",
        &ss,
        &theme,
        &scopes(),
        &styles(),
        1000,
        Duration::from_secs(60),
        |r: &Range<usize>| r.start >= 4,
        missing,
    )
    .unwrap();
    let expected: Vec<Span> = all.into_iter().filter(|s| s.start >= 4).collect();
    assert_eq!(some, expected);
    let none = highlight("echo hello", &ss, &theme, &scopes(), &styles(), 1000, Duration::from_secs(60), |_: &Range<usize>| false, missing)
        .unwrap();
    assert!(none.is_empty());
}

#[test]
fn unknown_colours_and_unstyled_scopes_give_no_spans() {
    let ss = Syntaxes::load();
    let theme = shell_theme();
    let other = vec![((9, 9, 9, 255), SHELL.to_string())];
    let r = highlight("echo hello", &ss, &theme, &other, &styles(), 1000, Duration::from_secs(60), |_: &Range<usize>| true, missing);
    assert_eq!(r.unwrap(), vec![]);
    let unstyled = vec![(SHELL.to_string(), None)];
    let r = highlight("echo hello", &ss, &theme, &scopes(), &unstyled, 1000, Duration::from_secs(60), |_: &Range<usize>| true, missing);
    assert_eq!(r.unwrap(), vec![]);
}

#[test]
fn time_prefix_is_highlighted_apart() {
    let ss = Syntaxes::load();
    let theme = shell_theme();
    let spans = run("time ls -l", 1000);
    let head = highlight_internal("time ", &ss, &theme, &scopes(), &styles(), 1000, Duration::from_secs(60), |_: &Range<usize>| true, missing)
        .unwrap();
    let rest = run("ls -l", 1000);
    assert_eq!(spans.len(), head.len() + rest.len());
    assert_eq!(&spans[..head.len()], &head[..]);
    for (s, r) in spans[head.len()..].iter().zip(rest.iter()) {
        assert_eq!(s.start, r.start + 5);
        assert_eq!(s.end, r.end + 5);
        assert_eq!(s.style, r.style);
    }
    // the prefix without its trailing space ends at character 4
    covers(&head, 0, 4);
    let ranges: Vec<(usize, usize)> = spans.iter().map(|s| (s.start, s.end)).collect();
    assert_eq!(ranges, vec![(0, 4), (5, 7), (7, 9), (9, 10)]);
}

#[test]
fn decoding_colours() {
    let table = vec![((1, 1, 1, 1), "a".to_string()), ((2, 2, 2, 2), "b".to_string()), ((1, 1, 1, 1), "c".to_string())];
    assert_eq!(decode_scope(&table, (1, 1, 1, 1)), Some("a"));
    assert_eq!(decode_scope(&table, (2, 2, 2, 2)), Some("b"));
    assert_eq!(decode_scope(&table, (3, 3, 3, 3)), None);
}

#[test]
fn looking_up_styles() {
    let styles = vec![
        ("a".to_string(), None),
        ("b".to_string(), Some(style("blue"))),
        ("b".to_string(), Some(style("green"))),
    ];
    assert_eq!(find_style(&styles, "a"), None);
    assert_eq!(find_style(&styles, "b"), Some(style("blue")));
    assert_eq!(find_style(&styles, "c"), None);
}

#[test]
fn pieces_of_a_line() {
    let styles = vec![(CALLABLE.to_string(), Some(style("red"))), (ARGUMENTS.to_string(), None)];
    let pieces: Vec<(Option<&str>, usize)> =
        vec![(Some(CALLABLE), 2), (None, 1), (Some(ARGUMENTS), 0), (Some(ARGUMENTS), 3), (Some(CALLABLE), 4)];
    let keep = vec![true, true, true, true, false];
    let mut groups: Vec<DynamicTokenGroup> = Vec::new();
    let mut spans = Vec::new();
    let next = spans_of_line(&pieces, 7, &keep, &styles, &mut groups, &mut spans);
    assert_eq!(next, 17);
    assert_eq!(spans, vec![Span { start: 7, end: 9, style: SpanStyle::Static(style("red")) }]);
    // the callable and the arguments each start a group; the empty piece and
    // the piece that is not kept are left out
    assert_eq!(groups.len(), 2);
    assert_eq!(groups[0].range, 7..9);
    assert_eq!(groups[0].dynamic_type, DynamicType::Callable);
    assert_eq!(groups[1].range, 10..13);
    assert_eq!(groups[1].dynamic_type, DynamicType::Arguments);
}

#[test]
fn callable_choices_group_kinds_by_style() {
    let red = style("red");
    let blue = style("blue");
    let choices = callable_choices(Some(red.clone()), Some(blue.clone()), Some(red.clone()), None, Some(blue.clone()), None);
    assert_eq!(choices, vec![("ac".to_string(), red.clone()), ("bm".to_string(), blue.clone())]);
    let choices = callable_choices(None, None, None, None, None, Some(red.clone()));
    assert_eq!(choices, vec![("e".to_string(), red.clone())]);
    assert!(callable_choices(None, None, None, None, None, None).is_empty());
    let choices = callable_choices(Some(red.clone()), Some(red.clone()), Some(red.clone()), Some(red.clone()), Some(red.clone()), Some(red.clone()));
    assert_eq!(choices, vec![("abcfme".to_string(), red)]);
}


#[test]
fn highlighter_holds_its_parts() {
    let mut all = styles();
    all.push((DYNAMIC_CALLABLE_ALIAS.to_string(), Some(style("red"))));
    all.push((DYNAMIC_CALLABLE_COMMAND.to_string(), Some(style("blue"))));
    all.push((CALLABLE.to_string(), Some(style("red"))));
    let h = Highlighter::new(shell_theme(), scopes(), all, 1000, Duration::from_secs(60));
    assert_eq!(h.callable_choices(), &[("ae".to_string(), style("red")), ("c".to_string(), style("blue"))][..]);
    let spans = h.highlight("echo hello", missing, |_: &Range<usize>| true).unwrap();
    covers(&spans, 0, 10);
    let tokens = h.tokenize("echo hello").unwrap();
    assert!(tokens.iter().any(|t| t.scope == SHELL && t.range == (0..10)));
}

/// A theme whose colours stand for the scopes of command names, arguments
/// and the rest of the shell grammar.
fn callable_theme() -> Theme {
    let item = |scope: &str, c: u8| ThemeItem {
        scope: ScopeSelectors::from_str(scope).unwrap(),
        style: StyleModifier { foreground: Some(Color { r: c, g: c, b: c, a: 255 }), background: None, font_style: None },
    };
    Theme {
        scopes: vec![
            item("source.shell", 1),
            item("variable.function", 2),
            item("support.function", 2),
            item("meta.function-call.arguments", 3),
        ],
        ..Theme::default()
    }
}


fn callable_table() -> Vec<((u8, u8, u8, u8), String)> {
    vec![((2, 2, 2, 255), CALLABLE.to_string()), ((3, 3, 3, 255), ARGUMENTS.to_string())]
}

fn path_styles() -> Vec<(String, Option<StaticStyle>)> {
    vec![
        (DYNAMIC_CALLABLE_COMMAND.to_string(), Some(style("green"))),
        (DYNAMIC_PATH_FILE.to_string(), Some(style("yellow"))),
        (DYNAMIC_PATH_DIRECTORY.to_string(), Some(style("blue"))),
        (TILDE.to_string(), Some(style("magenta"))),
    ]
}

fn with_paths(command: &str, resolve: fn(&String) -> PathKind) -> Vec<Span> {
    let ss = Syntaxes::load();
    let theme = callable_theme();
    highlight(command, &ss, &theme, &callable_table(), &path_styles(), 1000, Duration::from_secs(60), |_: &Range<usize>| true, resolve)
        .unwrap()
}

fn dynamic(start: usize, end: usize) -> Span {
    Span { start, end, style: SpanStyle::Dynamic(DynamicStyle::Callable) }
}

#[test]
fn command_names_are_styled_when_run() {
    assert_eq!(with_paths("ls -l", missing), vec![dynamic(0, 2)]);
    assert_eq!(with_paths("\"ls\"", missing), vec![dynamic(0, 4)]);
    assert_eq!(with_paths("l\"s\"", missing), vec![dynamic(0, 4)]);
    // a command name without a `/` is not a path, whatever the caller finds
    assert_eq!(with_paths("ls", |_| PathKind::Executable), vec![dynamic(0, 2)]);
}

#[test]
fn command_paths_get_the_command_style() {
    fn dir(w: &String) -> PathKind {
        if w == "foo/bar/" || w == "~/" { PathKind::Directory } else { PathKind::Missing }
    }
    fn exe(w: &String) -> PathKind {
        if w == "./script.sh" { PathKind::Executable } else { PathKind::Missing }
    }
    let command_style = || SpanStyle::Static(style("green"));
    assert_eq!(with_paths("foo/\"bar\"/", dir), vec![Span { start: 0, end: 10, style: command_style() }]);
    assert_eq!(with_paths("~/", dir), vec![Span { start: 0, end: 2, style: command_style() }]);
    assert_eq!(with_paths("\"./script.sh\"", exe), vec![Span { start: 0, end: 13, style: command_style() }]);
}

#[test]
fn arguments_that_are_paths() {
    let styles = path_styles();
    let pieces: Vec<((u8, u8, u8, u8), &str)> =
        vec![((2, 2, 2, 255), "cp"), ((0, 0, 0, 255), " "), ((3, 3, 3, 255), "test.txt"), ((0, 0, 0, 255), " "), ((3, 3, 3, 255), "dest"), ((0, 0, 0, 255), " "), ((3, 3, 3, 255), "x")];
    let decoded: Vec<(Option<&str>, usize)> =
        vec![(Some(CALLABLE), 2), (None, 1), (Some(ARGUMENTS), 8), (None, 1), (Some(ARGUMENTS), 4), (None, 1), (Some(ARGUMENTS), 1)];
    let keep = vec![true; 7];
    let mut groups = Vec::new();
    let mut statics = Vec::new();
    spans_of_line(&decoded, 0, &keep, &styles, &mut groups, &mut statics);
    let resolve = |w: &String| match w.as_str() {
        "test.txt" => PathKind::File,
        "dest" => PathKind::Directory,
        _ => PathKind::Missing,
    };
    let (words, paths) = group_paths(&pieces, &decoded, 0, &groups, &resolve);
    assert_eq!(words, vec!["cp".to_string(), "test.txt".to_string(), "dest".to_string(), "x".to_string()]);
    assert_eq!(paths, vec![PathKind::Missing, PathKind::File, PathKind::Directory, PathKind::Missing]);
    let mut spans = Vec::new();
    final_line_spans(&decoded, 0, &keep, &styles, &groups, &words, &paths, &mut spans);
    assert_eq!(
        spans,
        vec![
            dynamic(0, 2),
            Span { start: 3, end: 11, style: SpanStyle::Static(style("yellow")) },
            Span { start: 12, end: 16, style: SpanStyle::Static(style("blue")) },
        ]
    );
}

#[test]
fn a_tilde_alone_keeps_its_style() {
    let styles = path_styles();
    let pieces: Vec<((u8, u8, u8, u8), &str)> = vec![((0, 0, 0, 255), "ls"), ((0, 0, 0, 255), " "), ((0, 0, 0, 255), "~")];
    let decoded: Vec<(Option<&str>, usize)> = vec![(Some(CALLABLE), 2), (None, 1), (Some(TILDE), 1)];
    let keep = vec![true; 3];
    let mut groups = Vec::new();
    let mut statics = Vec::new();
    spans_of_line(&decoded, 0, &keep, &styles, &mut groups, &mut statics);
    let (words, paths) = group_paths(&pieces, &decoded, 0, &groups, &missing);
    let mut spans = Vec::new();
    final_line_spans(&decoded, 0, &keep, &styles, &groups, &words, &paths, &mut spans);
    assert_eq!(spans, vec![dynamic(0, 2), Span { start: 3, end: 4, style: SpanStyle::Static(style("magenta")) }]);
}

#[test]
fn shell_words() {
    assert_eq!(unquote(&"foo/\"bar\"/".chars().collect()), "foo/bar/");
    assert_eq!(unquote(&"a\\ b".chars().collect()), "a b");
    assert_eq!(unquote(&"end\\".chars().collect()), "end\\");
}

#[test]
fn marker_entries_for_a_theme() {
    let entries = marker_insertions(
        |s: &str| s == CALLABLE,
        |s: &str| {
            if s == STRING_QUOTED_DOUBLE {
                Some(ThemeStyle { foreground: Some("red".to_string()), background: None, bold: true, underline: false })
            } else {
                None
            }
        },
    );
    let plain: Vec<(&str, Option<(Option<String>, bool)>)> =
        entries.iter().map(|(s, st)| (*s, st.as_ref().map(|t| (t.foreground.clone(), t.bold)))).collect();
    assert_eq!(
        plain,
        vec![
            (CALLABLE, None),
            (ARGUMENTS, Some((None, false))),
            (CHARACTER_ESCAPE, Some((None, false))),
            (TILDE, Some((None, false))),
            (STRING_QUOTED_DOUBLE_CALLABLE, Some((Some("red".to_string()), true))),
            (STRING_QUOTED_DOUBLE_ARGUMENTS, Some((Some("red".to_string()), true))),
        ]
    );
}

/// A command name alone is styled when the shell runs it.
#[test]
fn echo() {
    let highlighted = with_paths("echo", missing);
    assert_eq!(highlighted, vec![Span { start: 0, end: 4, style: SpanStyle::Dynamic(DynamicStyle::Callable) }]);
}

/// Quoted command names: the file system is the caller's `resolve`, here a
/// working directory with an executable `script.sh` and a directory
/// `foo/bar`.
#[test]
fn quoted_callable() {
    fn in_dir(w: &String) -> PathKind {
        match w.as_str() {
            "./script.sh" => PathKind::Executable,
            "foo/bar/" => PathKind::Directory,
            _ => PathKind::Missing,
        }
    }
    let dynamic_callable_style = || SpanStyle::Static(style("green"));
    assert_eq!(with_paths("\"ls\"", in_dir), vec![Span { start: 0, end: 4, style: SpanStyle::Dynamic(DynamicStyle::Callable) }]);
    assert_eq!(with_paths("l\"s\"", in_dir), vec![Span { start: 0, end: 4, style: SpanStyle::Dynamic(DynamicStyle::Callable) }]);
    assert_eq!(with_paths("\"./script.sh\"", in_dir), vec![Span { start: 0, end: 13, style: dynamic_callable_style() }]);
    assert_eq!(with_paths("foo/\"bar\"/", in_dir), vec![Span { start: 0, end: 10, style: dynamic_callable_style() }]);
}
