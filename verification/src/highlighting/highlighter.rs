//! Decisions of the highlighter that do not depend on the grammar engine:
//! splitting off a `time` prefix, grouping dynamic tokens, and turning a
//! theme style into a span style.

use std::ops::Range;
use std::time::Duration;
use syntect::highlighting::Theme;
use syntect::parsing::SyntaxSet;
use vstd::prelude::*;
use vstd::string::StringSliceAdditionalSpecFns;

use super::dynamic::{DynamicToken, DynamicTokenGroup, DynamicType};
use super::parse::{tokenize, tokenize_outcome, tokens_of, Syntaxes};
use super::spans::{find_style, highlight, highlights_all, outcome_view, style_for, HighlightError, Rgba};
use super::paths::PathKind;
use super::tokenize::char_count;
use super::tokenize::{tokens_sorted_upto, TokenizeError};
use super::{
    Span, StaticStyle, Token, STRING_QUOTED_DOUBLE, ARGUMENTS, CALLABLE, CHARACTER_ESCAPE, DYNAMIC_CALLABLE_ALIAS, DYNAMIC_CALLABLE_BUILTIN,
    DYNAMIC_CALLABLE_COMMAND, DYNAMIC_CALLABLE_FUNCTION, DYNAMIC_CALLABLE_MISSING, STRING_QUOTED_DOUBLE_ARGUMENTS,
    STRING_QUOTED_DOUBLE_CALLABLE, TILDE,
};

verus! {

broadcast use vstd::utf8::encode_utf8_decode_utf8;

/// Compares two strings character by character.
pub fn str_eq(a: &str, b: &str) -> (r: bool)
    ensures
        r == (a@ == b@),
{
    let x = a.as_bytes();
    let y = b.as_bytes();
    assert(x@ == vstd::utf8::encode_utf8(a@) && y@ == vstd::utf8::encode_utf8(b@));
    if x.len() != y.len() {
        return false;
    }
    let mut i: usize = 0;
    while i < x.len()
        invariant
            x@.len() == y@.len(),
            x@ == vstd::utf8::encode_utf8(a@),
            y@ == vstd::utf8::encode_utf8(b@),
            i <= x@.len(),
            forall|j: int| 0 <= j < i ==> x@[j] == y@[j],
        decreases x@.len() - i,
    {
        if x[i] != y[i] {
            assert(x@ != y@);
            return false;
        }
        i = i + 1;
    }
    assert(x@ =~= y@);
    proof {
        vstd::utf8::encode_utf8_decode_utf8(a@);
        vstd::utf8::encode_utf8_decode_utf8(b@);
    }
    true
}

/// How a scope takes part in dynamic grouping.
pub enum ScopeKind {
    /// Arguments of a command, quoted or not.
    Arguments,
    /// The command name, quoted or not.
    Callable,
    /// A character escape.
    Escape,
    /// A tilde.
    Tilde,
    /// Any other scope, which never forms a group.
    Other,
}

/// The kind of the scope with the given name.
pub open spec fn scope_kind(scope: Seq<char>) -> ScopeKind {
    if scope == ARGUMENTS@ || scope == STRING_QUOTED_DOUBLE_ARGUMENTS@ {
        ScopeKind::Arguments
    } else if scope == CALLABLE@ || scope == STRING_QUOTED_DOUBLE_CALLABLE@ {
        ScopeKind::Callable
    } else if scope == CHARACTER_ESCAPE@ {
        ScopeKind::Escape
    } else if scope == TILDE@ {
        ScopeKind::Tilde
    } else {
        ScopeKind::Other
    }
}

/// Whether a token of the given kind covering `range` continues the last
/// group: it must start where that group ends, and arguments never continue
/// a command name, nor a command name a group of arguments.
pub open spec fn continues_last(
    groups: Seq<DynamicTokenGroup>,
    kind: ScopeKind,
    range: Range<usize>,
) -> bool {
    &&& groups.len() > 0
    &&& groups.last().range.end == range.start
    &&& match kind {
        ScopeKind::Arguments => groups.last().dynamic_type != DynamicType::Callable,
        ScopeKind::Callable => groups.last().dynamic_type != DynamicType::Arguments,
        ScopeKind::Escape => true,
        _ => false,
    }
}

/// The type of the last group once a token of the given kind has joined it.
pub open spec fn extended_type<'a>(kind: ScopeKind, old: DynamicType<'a>) -> DynamicType<'a> {
    match kind {
        ScopeKind::Arguments => DynamicType::Arguments,
        ScopeKind::Callable => DynamicType::Callable,
        _ => old,
    }
}

/// The type of a new group started by a token of the given kind.
pub open spec fn new_group_type(kind: ScopeKind) -> DynamicType<'static> {
    match kind {
        ScopeKind::Arguments => DynamicType::Arguments,
        ScopeKind::Callable => DynamicType::Callable,
        ScopeKind::Escape => DynamicType::Unknown(CHARACTER_ESCAPE),
        _ => DynamicType::Unknown(TILDE),
    }
}

/// Whether `new_groups` is `old_groups` after the token `range` with scope
/// `scope` has been added: a token that continues the last group extends
/// it, any other token of a grouped kind starts a new group, and tokens of
/// other scopes leave the groups as they are.
pub open spec fn groups_updated<'a>(
    old_groups: Seq<DynamicTokenGroup<'a>>,
    new_groups: Seq<DynamicTokenGroup<'a>>,
    scope: &'a str,
    range: Range<usize>,
) -> bool {
    let kind = scope_kind(scope@);
    if kind is Other {
        new_groups == old_groups
    } else if continues_last(old_groups, kind, range) {
        let n = old_groups.len() - 1;
        let before = old_groups[n];
        let after = new_groups[n];
        &&& new_groups.len() == old_groups.len()
        &&& forall|i: int| 0 <= i < n ==> new_groups[i] == old_groups[i]
        &&& after.range == (Range { start: before.range.start, end: range.end })
        &&& after.dynamic_type == extended_type(kind, before.dynamic_type)
        &&& after.tokens@.len() == before.tokens@.len() + 1
        &&& forall|i: int| 0 <= i < before.tokens@.len() ==> after.tokens@[i] == before.tokens@[i]
        &&& after.tokens@.last().spec_range() == range
        &&& after.tokens@.last().spec_scope() == scope
    } else {
        let n = old_groups.len() as int;
        let added = new_groups[n];
        &&& new_groups.len() == old_groups.len() + 1
        &&& forall|i: int| 0 <= i < n ==> new_groups[i] == old_groups[i]
        &&& added.range == range
        &&& added.dynamic_type == new_group_type(kind)
        &&& added.tokens@.len() == 1
        &&& added.tokens@[0].spec_range() == range
        &&& added.tokens@[0].spec_scope() == scope
    }
}

/// Whether a group is contiguous: it has tokens, each token starts where
/// the one before it ends, and the group spans from the start of its first
/// token to the end of its last.
pub open spec fn group_contiguous(g: DynamicTokenGroup) -> bool {
    let t = g.tokens@;
    &&& t.len() > 0
    &&& g.range.start == t[0].spec_range().start
    &&& g.range.end == t.last().spec_range().end
    &&& forall|i: int| 0 <= i < t.len() - 1 ==> #[trigger] t[i].spec_range().end == t[i + 1].spec_range().start
}

/// Grouping keeps every group contiguous: if all groups are contiguous
/// before a token is added, they all are after it.
pub proof fn lemma_update_groups_keeps_groups_contiguous<'a>(
    old_groups: Seq<DynamicTokenGroup<'a>>,
    new_groups: Seq<DynamicTokenGroup<'a>>,
    scope: &'a str,
    range: Range<usize>,
)
    requires
        forall|i: int| 0 <= i < old_groups.len() ==> group_contiguous(#[trigger] old_groups[i]),
        groups_updated(old_groups, new_groups, scope, range),
    ensures
        forall|i: int| 0 <= i < new_groups.len() ==> group_contiguous(#[trigger] new_groups[i]),
{
    let kind = scope_kind(scope@);
    if !(kind is Other) && continues_last(old_groups, kind, range) {
        let n = old_groups.len() - 1;
        let before = old_groups[n];
        let after = new_groups[n];
        assert(group_contiguous(before));
        let bt = before.tokens@;
        let at = after.tokens@;
        assert forall|i: int| 0 <= i < at.len() - 1 implies #[trigger] at[i].spec_range().end == at[i + 1].spec_range().start by {
            if i < bt.len() - 1 {
                assert(at[i] == bt[i] && at[i + 1] == bt[i + 1]);
                assert(bt[i].spec_range().end == bt[i + 1].spec_range().start);
            } else {
                assert(at[i] == bt.last());
            }
        }
        assert(at[0] == bt[0]);
        assert(group_contiguous(after));
        assert forall|i: int| 0 <= i < new_groups.len() implies group_contiguous(#[trigger] new_groups[i]) by {
            if i < n {
                assert(new_groups[i] == old_groups[i]);
            }
        }
    } else if !(kind is Other) {
        let n = old_groups.len() as int;
        assert forall|i: int| 0 <= i < new_groups.len() implies group_contiguous(#[trigger] new_groups[i]) by {
            if i < n {
                assert(new_groups[i] == old_groups[i]);
            }
        }
    }
}

/// An arguments token that starts where the last group ends joins that
/// group unless it is a command name: the group then reaches to the end of
/// the token and is a group of arguments, whatever it was before (a tilde
/// or an escape included).
pub proof fn lemma_arguments_extend_last_group<'a>(
    old_groups: Seq<DynamicTokenGroup<'a>>,
    new_groups: Seq<DynamicTokenGroup<'a>>,
    scope: &'a str,
    range: Range<usize>,
)
    requires
        scope_kind(scope@) is Arguments,
        old_groups.len() > 0,
        old_groups.last().range.end == range.start,
        old_groups.last().dynamic_type != DynamicType::Callable,
        groups_updated(old_groups, new_groups, scope, range),
    ensures
        new_groups.len() == old_groups.len(),
        new_groups.last().range == (Range { start: old_groups.last().range.start, end: range.end }),
        new_groups.last().dynamic_type == DynamicType::Arguments,
        new_groups.last().tokens@.len() == old_groups.last().tokens@.len() + 1,
{
}

/// A command-name token that starts where the last group ends joins that
/// group unless it is a group of arguments, and makes it a command name.
pub proof fn lemma_callable_extends_last_group<'a>(
    old_groups: Seq<DynamicTokenGroup<'a>>,
    new_groups: Seq<DynamicTokenGroup<'a>>,
    scope: &'a str,
    range: Range<usize>,
)
    requires
        scope_kind(scope@) is Callable,
        old_groups.len() > 0,
        old_groups.last().range.end == range.start,
        old_groups.last().dynamic_type != DynamicType::Arguments,
        groups_updated(old_groups, new_groups, scope, range),
    ensures
        new_groups.len() == old_groups.len(),
        new_groups.last().range == (Range { start: old_groups.last().range.start, end: range.end }),
        new_groups.last().dynamic_type == DynamicType::Callable,
        new_groups.last().tokens@.len() == old_groups.last().tokens@.len() + 1,
{
}

/// A tilde always starts a group of its own, and an arguments token right
/// after it joins it: a tilde and then the rest of a path, such as `~/`,
/// make one group of arguments over both tokens.
pub proof fn lemma_tilde_then_arguments<'a>(
    g0: Seq<DynamicTokenGroup<'a>>,
    g1: Seq<DynamicTokenGroup<'a>>,
    g2: Seq<DynamicTokenGroup<'a>>,
    tilde: Range<usize>,
    rest: Range<usize>,
)
    requires
        tilde.end == rest.start,
        groups_updated(g0, g1, TILDE, tilde),
        groups_updated(g1, g2, ARGUMENTS, rest),
    ensures
        g2.len() == g0.len() + 1,
        forall|i: int| 0 <= i < g0.len() ==> g2[i] == g0[i],
        g2.last().range == (Range { start: tilde.start, end: rest.end }),
        g2.last().dynamic_type == DynamicType::Arguments,
        g2.last().tokens@.len() == 2,
{
    assert(scope_kind(TILDE@) is Tilde) by {
        reveal_strlit("variable.language.tilde.shell");
        assert(TILDE@ == "variable.language.tilde.shell"@);
        assert(TILDE@.len() == 29);
        reveal_strlit("meta.function-call.arguments.shell");
        assert(ARGUMENTS@.len() == 34);
        assert(TILDE@ != ARGUMENTS@);
        reveal_strlit("meta.function-call.arguments.shell string.quoted.double.shell");
        reveal_strlit("variable.function.shell");
        reveal_strlit("variable.function.shell string.quoted.double.shell");
        reveal_strlit("constant.character.escape.shell");
    }
    assert(g1.last() == g1[g0.len() as int]);
    assert(forall|i: int| 0 <= i < g0.len() ==> g2[i] == g1[i]);
}

/// Adds the token `range` with scope `scope` to the groups of dynamic
/// tokens: a token that continues the last group extends it, any other token
/// of a grouped kind starts a new group, and tokens of other scopes are
/// ignored.
pub fn update_groups<'a>(scope: &'a str, range: &Range<usize>, groups: &mut Vec<DynamicTokenGroup<'a>>)
    ensures
        groups_updated(old(groups)@, final(groups)@, scope, *range),
{
    let is_arguments = str_eq(scope, ARGUMENTS) || str_eq(scope, STRING_QUOTED_DOUBLE_ARGUMENTS);
    let is_callable = str_eq(scope, CALLABLE) || str_eq(scope, STRING_QUOTED_DOUBLE_CALLABLE);
    let is_escape = str_eq(scope, CHARACTER_ESCAPE);
    let is_tilde = str_eq(scope, TILDE);
    if !is_arguments && !is_callable && !is_escape && !is_tilde {
        return;
    }
    let n = groups.len();
    let extend = if n > 0 && groups[n - 1].range.end == range.start {
        if is_arguments {
            !matches!(groups[n - 1].dynamic_type, DynamicType::Callable)
        } else if is_callable {
            !matches!(groups[n - 1].dynamic_type, DynamicType::Arguments)
        } else {
            is_escape
        }
    } else {
        false
    };
    if extend {
        let ghost old_groups = groups@;
        let mut group = groups.pop().unwrap();
        let ghost before = group;
        assert(before == old_groups[n - 1]);
        group.range = Range { start: group.range.start, end: range.end };
        if is_arguments {
            group.dynamic_type = DynamicType::Arguments;
        } else if is_callable {
            group.dynamic_type = DynamicType::Callable;
        }
        group.tokens.push(DynamicToken::new(range, scope));
        groups.push(group);
        assert(forall|i: int| 0 <= i < n - 1 ==> groups@[i] == old_groups[i]);
    } else {
        let dynamic_type = if is_arguments {
            DynamicType::Arguments
        } else if is_callable {
            DynamicType::Callable
        } else if is_escape {
            DynamicType::Unknown(CHARACTER_ESCAPE)
        } else {
            DynamicType::Unknown(TILDE)
        };
        groups.push(DynamicTokenGroup::new(range, dynamic_type, scope));
    }
}

/// Whether `b` is an ASCII whitespace byte: space, tab, line feed, form
/// feed or carriage return.
pub open spec fn is_ascii_whitespace(b: u8) -> bool {
    b == 32 || b == 9 || b == 10 || b == 12 || b == 13
}

/// The number of ASCII whitespace bytes at the start of `b`.
pub open spec fn leading_whitespace(b: Seq<u8>) -> nat
    decreases b.len(),
{
    if b.len() > 0 && is_ascii_whitespace(b[0]) {
        1 + leading_whitespace(b.drop_first())
    } else {
        0
    }
}

/// The bytes of `time ` (the keyword and a space).
pub open spec fn time_keyword() -> Seq<u8> {
    seq![116u8, 105u8, 109u8, 101u8, 32u8]
}

/// Whether `time ` occurs in `b` at byte offset `j`.
pub open spec fn time_at(b: Seq<u8>, j: int) -> bool {
    0 <= j && j + 5 <= b.len() && b.subrange(j, j + 5) == time_keyword()
}

/// Where the rest of a command begins if, after leading ASCII whitespace,
/// it starts with `time `: the byte offset just after that keyword.
pub open spec fn spec_prefix_split(b: Seq<u8>) -> Option<nat> {
    let w = leading_whitespace(b);
    if time_at(b, w as int) {
        Some(w + 5)
    } else {
        None
    }
}

proof fn lemma_leading_whitespace(b: Seq<u8>)
    ensures
        leading_whitespace(b) <= b.len(),
        forall|j: int| 0 <= j < leading_whitespace(b) ==> is_ascii_whitespace(#[trigger] b[j]),
    decreases b.len(),
{
    if b.len() > 0 && is_ascii_whitespace(b[0]) {
        lemma_leading_whitespace(b.drop_first());
        assert forall|j: int| 0 <= j < leading_whitespace(b) implies is_ascii_whitespace(#[trigger] b[j]) by {
            if j > 0 {
                assert(b[j] == b.drop_first()[j - 1]);
            }
        }
    }
}

/// The prefix up to and including `time ` is ASCII.
pub proof fn lemma_prefix_split_ascii(b: Seq<u8>)
    ensures
        spec_prefix_split(b) matches Some(n) ==> n <= b.len() && forall|i: int| 0 <= i < n ==> #[trigger] b[i] < 0x80,
{
    lemma_leading_whitespace(b);
    let w = leading_whitespace(b);
    if time_at(b, w as int) {
        assert forall|i: int| 0 <= i < w + 5 implies #[trigger] b[i] < 0x80 by {
            if i >= w {
                assert(b.subrange(w as int, w + 5 as int)[i - w] == b[i]);
            }
        }
    }
}

/// If the command starts with a prefix keyword (`time`), returns the byte
/// offset where the rest of the command begins. This can be used to split the
/// command and process the prefix and the rest separately. The offset is
/// just after the first occurrence of `time ` in the command.
pub fn find_prefix_split(command: &str) -> (r: Option<usize>)
    ensures
        r is Some <==> spec_prefix_split(command.spec_bytes()) is Some,
        r matches Some(n) ==> n == spec_prefix_split(command.spec_bytes()).unwrap(),
        r matches Some(n) ==> time_at(command.spec_bytes(), n - 5),
        r matches Some(n) ==> forall|j: int| 0 <= j < n - 5 ==> !time_at(command.spec_bytes(), j),
{
    let b = command.as_bytes();
    let ghost bs = b@;
    let len = b.len();
    let mut w: usize = 0;
    assert(bs.skip(0) =~= bs);
    while w < len && (b[w] == 32 || b[w] == 9 || b[w] == 10 || b[w] == 12 || b[w] == 13)
        invariant
            w <= len,
            len == bs.len(),
            bs == b@,
            leading_whitespace(bs) == w + leading_whitespace(bs.skip(w as int)),
        decreases len - w,
    {
        assert(bs.skip(w as int).drop_first() =~= bs.skip(w + 1));
        w = w + 1;
    }
    assert(leading_whitespace(bs.skip(w as int)) == 0);
    proof {
        lemma_leading_whitespace(bs);
    }
    if len >= 5 && w <= len - 5 && b[w] == 116 && b[w + 1] == 105 && b[w + 2] == 109 && b[w + 3] == 101
        && b[w + 4] == 32 {
        assert(bs.subrange(w as int, w + 5) =~= time_keyword());
        assert forall|j: int| 0 <= j < w implies !time_at(bs, j) by {
            if time_at(bs, j) {
                assert(bs.subrange(j, j + 5)[0] == bs[j]);
                assert(is_ascii_whitespace(bs[j]));
            }
        }
        Some(w + 5)
    } else {
        proof {
            if time_at(bs, w as int) {
                assert(bs.subrange(w as int, w + 5)[0] == bs[w as int]);
                assert(bs.subrange(w as int, w + 5)[1] == bs[w + 1]);
                assert(bs.subrange(w as int, w + 5)[2] == bs[w + 2]);
                assert(bs.subrange(w as int, w + 5)[3] == bs[w + 3]);
                assert(bs.subrange(w as int, w + 5)[4] == bs[w + 4]);
            }
        }
        None
    }
}

/// The style that a theme gives a scope, with its colours already written
/// as ANSI colour strings.
#[derive(Clone, Debug)]
pub struct ThemeStyle {
    pub foreground: Option<String>,
    pub background: Option<String>,
    pub bold: bool,
    pub underline: bool,
}

/// Whether a theme style sets nothing at all.
pub open spec fn is_plain(style: ThemeStyle) -> bool {
    style.foreground is None && style.background is None && !style.bold && !style.underline
}

/// Converts the style that a theme gives a scope (`None` if the theme has
/// none) to a [`StaticStyle`]; a style that sets nothing gives `None`.
pub fn resolve_static_style(style: Option<ThemeStyle>) -> (r: Option<StaticStyle>)
    ensures
        match style {
            None => r is None,
            Some(s) => if is_plain(s) {
                r is None
            } else {
                r == Some(
                    StaticStyle {
                        foreground_color: s.foreground,
                        background_color: s.background,
                        bold: s.bold,
                        underline: s.underline,
                    },
                )
            },
        },
{
    match style {
        None => None,
        Some(s) => {
            if s.foreground.is_none() && s.background.is_none() && !s.bold && !s.underline {
                None
            } else {
                Some(
                    StaticStyle {
                        foreground_color: s.foreground,
                        background_color: s.background,
                        bold: s.bold,
                        underline: s.underline,
                    },
                )
            }
        },
    }
}

/// The style to add to a theme so that a scope gets a marker entry: nothing
/// if the theme already has the scope, otherwise the style that the theme
/// resolves for it (or for its fallback scope), or the empty style.
pub fn marker_style(theme_has_scope: bool, resolved: Option<ThemeStyle>) -> (r: Option<ThemeStyle>)
    ensures
        theme_has_scope ==> r is None,
        !theme_has_scope ==> r == Some(
            match resolved {
                Some(s) => s,
                None => ThemeStyle { foreground: None, background: None, bold: false, underline: false },
            },
        ),
{
    if theme_has_scope {
        None
    } else {
        match resolved {
            Some(s) => Some(s),
            None => Some(ThemeStyle { foreground: None, background: None, bold: false, underline: false }),
        }
    }
}

/// The style that a marker takes from the style that the theme resolves
/// (`None` if it resolves none): that style, or the empty style.
pub open spec fn marker_fill(resolved: Option<ThemeStyle>) -> ThemeStyle {
    match resolved {
        Some(s) => s,
        None => ThemeStyle { foreground: None, background: None, bold: false, underline: false },
    }
}

/// The scopes that need a marker entry in a theme so that the grammar
/// engine gives them pieces of their own, each with the scope whose style
/// the marker takes: command names, arguments, escapes and tildes take
/// their own, and quoted command names and arguments that of double-quoted
/// strings.
pub open spec fn marker_scopes() -> Seq<(&'static str, &'static str)> {
    seq![
        (CALLABLE, CALLABLE),
        (ARGUMENTS, ARGUMENTS),
        (CHARACTER_ESCAPE, CHARACTER_ESCAPE),
        (TILDE, TILDE),
        (STRING_QUOTED_DOUBLE_CALLABLE, STRING_QUOTED_DOUBLE),
        (STRING_QUOTED_DOUBLE_ARGUMENTS, STRING_QUOTED_DOUBLE),
    ]
}

/// Whether `entry` is the marker entry for scope `k` of [`marker_scopes`]:
/// no style exactly when the theme has the scope (`contains`), and
/// otherwise the style that the theme resolves (`resolve`) for the scope
/// the marker takes its style from, or the empty style.
pub open spec fn marker_entry<C: Fn(&str) -> bool, S: Fn(&str) -> Option<ThemeStyle>>(
    contains: C,
    resolve: S,
    k: int,
    entry: (&'static str, Option<ThemeStyle>),
) -> bool {
    &&& entry.0 == marker_scopes()[k].0
    &&& call_ensures(contains, (marker_scopes()[k].0,), entry.1 is None)
    &&& entry.1 matches Some(st) ==> exists|found: Option<ThemeStyle>|
        #[trigger] call_ensures(resolve, (marker_scopes()[k].1,), found) && st == marker_fill(found)
}

/// The marker entries to add to a theme, in order, one for each scope of
/// [`marker_scopes`] (see [`marker_entry`]); the theme's resolved style is
/// asked for only when the theme does not have the scope.
pub fn marker_insertions<C: Fn(&str) -> bool, S: Fn(&str) -> Option<ThemeStyle>>(contains: C, resolve: S) -> (r: Vec<
    (&'static str, Option<ThemeStyle>),
>)
    requires
        forall|s: &str| call_requires(contains, (s,)),
        forall|s: &str| call_requires(resolve, (s,)),
    ensures
        r@.len() == marker_scopes().len(),
        forall|k: int| 0 <= k < r@.len() ==> marker_entry(contains, resolve, k, #[trigger] r@[k]),
{
    let scopes: Vec<(&'static str, &'static str)> = vec![
        (CALLABLE, CALLABLE),
        (ARGUMENTS, ARGUMENTS),
        (CHARACTER_ESCAPE, CHARACTER_ESCAPE),
        (TILDE, TILDE),
        (STRING_QUOTED_DOUBLE_CALLABLE, STRING_QUOTED_DOUBLE),
        (STRING_QUOTED_DOUBLE_ARGUMENTS, STRING_QUOTED_DOUBLE),
    ];
    assert(scopes@ =~= marker_scopes());
    let mut out: Vec<(&'static str, Option<ThemeStyle>)> = Vec::new();
    let mut k: usize = 0;
    while k < scopes.len()
        invariant
            k <= scopes@.len(),
            scopes@ == marker_scopes(),
            out@.len() == k,
            forall|s: &str| call_requires(contains, (s,)),
            forall|s: &str| call_requires(resolve, (s,)),
            forall|j: int| 0 <= j < k ==> marker_entry(contains, resolve, j, #[trigger] out@[j]),
        decreases scopes@.len() - k,
    {
        let (scope, lookup) = scopes[k];
        let present = contains(scope);
        let found = if present {
            None
        } else {
            resolve(lookup)
        };
        let style = marker_style(present, found);
        let ghost before = out@;
        out.push((scope, style));
        assert(marker_entry(contains, resolve, k as int, out@[k as int]));
        assert forall|j: int| 0 <= j < k + 1 implies marker_entry(contains, resolve, j, #[trigger] out@[j]) by {
            if j < k {
                assert(out@[j] == before[j]);
            }
        }
        k = k + 1;
    }
    out
}

/// `String::push`: appends a character to the end of the string.
pub assume_specification[ String::push ](s: &mut String, ch: char)
    ensures
        final(s)@ == old(s)@.push(ch),
;

/// A style with its colour strings taken by their characters.
pub open spec fn static_style_view(s: StaticStyle) -> (Option<Seq<char>>, Option<Seq<char>>, bool, bool) {
    (
        match s.foreground_color {
            Some(c) => Some(c@),
            None => None,
        },
        match s.background_color {
            Some(c) => Some(c@),
            None => None,
        },
        s.bold,
        s.underline,
    )
}

fn same_colour(a: &Option<String>, b: &Option<String>) -> (r: bool)
    ensures
        r == (match (*a, *b) {
            (Some(x), Some(y)) => x@ == y@,
            (None, None) => true,
            _ => false,
        }),
{
    match (a, b) {
        (Some(x), Some(y)) => str_eq(x.as_str(), y.as_str()),
        (None, None) => true,
        _ => false,
    }
}

/// Whether two styles are the same.
pub fn same_style(a: &StaticStyle, b: &StaticStyle) -> (r: bool)
    ensures
        r == (static_style_view(*a) == static_style_view(*b)),
{
    same_colour(&a.foreground_color, &b.foreground_color) && same_colour(&a.background_color, &b.background_color)
        && a.bold == b.bold && a.underline == b.underline
}

/// The kinds of callables, each with its letter, and the style the theme
/// gives it: aliases (`a`), builtins (`b`), commands (`c`), functions
/// (`f`), missing commands (`m`) and any other callable (`e`).
pub open spec fn callable_kinds(
    alias: Option<StaticStyle>,
    builtin: Option<StaticStyle>,
    command: Option<StaticStyle>,
    function: Option<StaticStyle>,
    missing: Option<StaticStyle>,
    other: Option<StaticStyle>,
) -> Seq<(char, Option<StaticStyle>)> {
    seq![('a', alias), ('b', builtin), ('c', command), ('f', function), ('m', missing), ('e', other)]
}

/// The letters, in order, of the kinds whose style is `style`.
pub open spec fn letters_with(kinds: Seq<(char, Option<StaticStyle>)>, style: (Option<Seq<char>>, Option<Seq<char>>, bool, bool)) -> Seq<char>
    decreases kinds.len(),
{
    if kinds.len() == 0 {
        Seq::empty()
    } else {
        letters_with(kinds.drop_last(), style) + match kinds.last().1 {
            Some(s) => if static_style_view(s) == style {
                seq![kinds.last().0]
            } else {
                Seq::empty()
            },
            None => Seq::empty(),
        }
    }
}

/// Whether `choices` groups the kinds by style: one entry per style that
/// some kind has, no two with the same style, each holding the letters of
/// all kinds with its style, and at least one.
pub open spec fn groups_kinds(kinds: Seq<(char, Option<StaticStyle>)>, choices: Seq<(String, StaticStyle)>) -> bool {
    &&& forall|i: int| 0 <= i < choices.len() ==> (#[trigger] choices[i]).0@ == letters_with(kinds, static_style_view(choices[i].1))
    &&& forall|i: int| 0 <= i < choices.len() ==> (#[trigger] choices[i]).0@.len() > 0
    &&& forall|i: int, j: int|
        0 <= i < j < choices.len() ==> static_style_view((#[trigger] choices[i]).1) != static_style_view((#[trigger] choices[j]).1)
    &&& forall|k: int|
        0 <= k < kinds.len() && (#[trigger] kinds[k]).1 is Some ==> exists|i: int|
            0 <= i < choices.len() && static_style_view((#[trigger] choices[i]).1) == static_style_view(kinds[k].1->0)
}

/// No kind has the style `style`, so no letter goes with it.
proof fn lemma_letters_with_absent(kinds: Seq<(char, Option<StaticStyle>)>, style: (Option<Seq<char>>, Option<Seq<char>>, bool, bool))
    requires
        forall|k: int| 0 <= k < kinds.len() && (#[trigger] kinds[k]).1 is Some ==> static_style_view(kinds[k].1->0) != style,
    ensures
        letters_with(kinds, style) == Seq::<char>::empty(),
    decreases kinds.len(),
{
    if kinds.len() > 0 {
        let init = kinds.drop_last();
        assert forall|k: int| 0 <= k < init.len() && (#[trigger] init[k]).1 is Some implies static_style_view(init[k].1->0) != style by {
            assert(init[k] == kinds[k]);
        }
        lemma_letters_with_absent(init, style);
        assert(kinds.last() == kinds[kinds.len() - 1]);
    }
}

/// The style choices for callables: the kinds grouped by the style the
/// theme gives them, each style with the letters of its kinds, in the order
/// in which the styles first occur among aliases, builtins, commands,
/// functions, missing commands and other callables; kinds without a style
/// are left out.
pub fn callable_choices(
    alias: Option<StaticStyle>,
    builtin: Option<StaticStyle>,
    command: Option<StaticStyle>,
    function: Option<StaticStyle>,
    missing: Option<StaticStyle>,
    other: Option<StaticStyle>,
) -> (r: Vec<(String, StaticStyle)>)
    ensures
        groups_kinds(callable_kinds(alias, builtin, command, function, missing, other), r@),
{
    let ghost kinds = callable_kinds(alias, builtin, command, function, missing, other);
    let input: Vec<(char, Option<StaticStyle>)> = vec![
        ('a', alias),
        ('b', builtin),
        ('c', command),
        ('f', function),
        ('m', missing),
        ('e', other),
    ];
    assert(input@ =~= kinds);
    let mut out: Vec<(String, StaticStyle)> = Vec::new();
    let mut k: usize = 0;
    assert(kinds.take(0) =~= Seq::<(char, Option<StaticStyle>)>::empty());
    while k < input.len()
        invariant
            k <= input@.len(),
            input@ == kinds,
            kinds.len() == 6,
            groups_kinds(kinds.take(k as int), out@),
        decreases input@.len() - k,
    {
        let ghost before = out@;
        let ghost pre = kinds.take(k as int);
        let ghost post = kinds.take(k + 1);
        assert(post.drop_last() =~= pre);
        assert(post.last() == kinds[k as int]);
        let letter = input[k].0;
        match &input[k].1 {
            Some(st) => {
                let mut i: usize = 0;
                let mut found = false;
                while i < out.len()
                    invariant_except_break
                        i <= out@.len(),
                        !found,
                        forall|j: int| 0 <= j < i ==> static_style_view((#[trigger] out@[j]).1) != static_style_view(*st),
                    ensures
                        i <= out@.len(),
                        found ==> i < out@.len() && static_style_view(out@[i as int].1) == static_style_view(*st),
                        !found ==> forall|j: int| 0 <= j < out@.len() ==> static_style_view((#[trigger] out@[j]).1) != static_style_view(*st),
                    decreases out@.len() - i,
                {
                    if same_style(&out[i].1, st) {
                        found = true;
                        break;
                    }
                    i = i + 1;
                }
                if found {
                    let mut entry = out.remove(i);
                    entry.0.push(letter);
                    out.insert(i, entry);
                    proof {
                        assert forall|j: int| 0 <= j < out@.len() implies (#[trigger] out@[j]).0@ == letters_with(post, static_style_view(out@[j].1)) by {
                            if j != i {
                                assert(out@[j] == before[j]);
                                assert(static_style_view(before[j].1) != static_style_view(*st));
                            }
                        }
                        assert forall|a: int, b: int| 0 <= a < b < out@.len() implies static_style_view((#[trigger] out@[a]).1) != static_style_view((#[trigger] out@[b]).1) by {
                            assert(static_style_view(out@[a].1) == static_style_view(before[a].1));
                            assert(static_style_view(out@[b].1) == static_style_view(before[b].1));
                        }
                        assert forall|q: int| 0 <= q < post.len() && (#[trigger] post[q]).1 is Some implies exists|j: int|
                            0 <= j < out@.len() && static_style_view((#[trigger] out@[j]).1) == static_style_view(post[q].1->0) by {
                            if q < k {
                                assert(post[q] == pre[q]);
                                let j = choose|j: int| 0 <= j < before.len() && static_style_view((#[trigger] before[j]).1) == static_style_view(pre[q].1->0);
                                assert(static_style_view(out@[j].1) == static_style_view(before[j].1));
                            } else {
                                assert(static_style_view(out@[i as int].1) == static_style_view(*st));
                            }
                        }
                    }
                } else {
                    let mut key = String::new();
                    key.push(letter);
                    out.push((key, copy_static_style(st)));
                    proof {
                        assert forall|q: int| 0 <= q < pre.len() && (#[trigger] pre[q]).1 is Some implies static_style_view(pre[q].1->0) != static_style_view(*st) by {
                            let j = choose|j: int| 0 <= j < before.len() && static_style_view((#[trigger] before[j]).1) == static_style_view(pre[q].1->0);
                        }
                        lemma_letters_with_absent(pre, static_style_view(*st));
                        assert forall|j: int| 0 <= j < out@.len() implies (#[trigger] out@[j]).0@ == letters_with(post, static_style_view(out@[j].1)) by {
                            if j < before.len() {
                                assert(out@[j] == before[j]);
                            }
                        }
                        assert forall|q: int| 0 <= q < post.len() && (#[trigger] post[q]).1 is Some implies exists|j: int|
                            0 <= j < out@.len() && static_style_view((#[trigger] out@[j]).1) == static_style_view(post[q].1->0) by {
                            if q < k {
                                assert(post[q] == pre[q]);
                                let j = choose|j: int| 0 <= j < before.len() && static_style_view((#[trigger] before[j]).1) == static_style_view(pre[q].1->0);
                                assert(out@[j] == before[j]);
                            } else {
                                assert(static_style_view(out@[before.len() as int].1) == static_style_view(*st));
                            }
                        }
                    }
                }
            },
            None => {
                proof {
                    assert forall|j: int| 0 <= j < out@.len() implies (#[trigger] out@[j]).0@ == letters_with(post, static_style_view(out@[j].1)) by {}
                    assert forall|q: int| 0 <= q < post.len() && (#[trigger] post[q]).1 is Some implies exists|j: int|
                        0 <= j < out@.len() && static_style_view((#[trigger] out@[j]).1) == static_style_view(post[q].1->0) by {
                        assert(post[q] == pre[q]);
                    }
                }
            },
        }
        k = k + 1;
    }
    assert(kinds.take(6) =~= kinds);
    out
}

/// A copy of a style, field by field.
pub fn copy_static_style(s: &StaticStyle) -> (r: StaticStyle)
    ensures
        r == *s,
{
    let foreground_color = match &s.foreground_color {
        Some(c) => Some(c.clone()),
        None => None,
    };
    let background_color = match &s.background_color {
        Some(c) => Some(c.clone()),
        None => None,
    };
    StaticStyle { foreground_color, background_color, bold: s.bold, underline: s.underline }
}

/// A highlighter for zsh commands: a syntax set with the shell grammar, a
/// theme for the grammar engine whose foreground colours stand for scopes,
/// the table from those colours to scope names, the styles of the scopes,
/// and the limits on line length and highlighting time.
pub struct Highlighter {
    max_line_length: usize,
    timeout: Duration,
    syntaxes: Syntaxes,
    syntect_theme: Theme,
    scope_mapping: Vec<(Rgba, String)>,
    styles: Vec<(String, Option<StaticStyle>)>,
    callable_choices: Vec<(String, StaticStyle)>,
}

impl Highlighter {
    /// The length in bytes above which a line is not highlighted.
    pub closed spec fn spec_max_line_length(&self) -> usize {
        self.max_line_length
    }

    /// The time after which the remaining lines are not highlighted.
    pub closed spec fn spec_timeout(&self) -> Duration {
        self.timeout
    }

    /// The syntax set with the shell grammar.
    pub closed spec fn spec_syntax_set(&self) -> SyntaxSet {
        self.syntaxes.spec_set()
    }

    /// The theme for the grammar engine.
    pub closed spec fn spec_theme(&self) -> Theme {
        self.syntect_theme
    }

    /// The table from foreground colours to scope names.
    pub closed spec fn spec_scope_mapping(&self) -> Seq<(Rgba, String)> {
        self.scope_mapping@
    }

    /// The styles of the scopes.
    pub closed spec fn spec_styles(&self) -> Seq<(String, Option<StaticStyle>)> {
        self.styles@
    }

    /// The style choices for callables.
    pub closed spec fn spec_callable_choices(&self) -> Seq<(String, StaticStyle)> {
        self.callable_choices@
    }

    /// A highlighter with the syntaxes that syntect ships and the given
    /// parts. Its choices for callables group the kinds of callables by the
    /// styles that `styles` gives their scopes.
    pub fn new(
        syntect_theme: Theme,
        scope_mapping: Vec<(Rgba, String)>,
        styles: Vec<(String, Option<StaticStyle>)>,
        max_line_length: usize,
        timeout: Duration,
    ) -> (r: Self)
        ensures
            r.spec_max_line_length() == max_line_length,
            r.spec_timeout() == timeout,
            r.spec_theme() == syntect_theme,
            r.spec_scope_mapping() == scope_mapping@,
            r.spec_styles() == styles@,
            groups_kinds(
                callable_kinds(
                    style_for(styles@, DYNAMIC_CALLABLE_ALIAS@),
                    style_for(styles@, DYNAMIC_CALLABLE_BUILTIN@),
                    style_for(styles@, DYNAMIC_CALLABLE_COMMAND@),
                    style_for(styles@, DYNAMIC_CALLABLE_FUNCTION@),
                    style_for(styles@, DYNAMIC_CALLABLE_MISSING@),
                    style_for(styles@, CALLABLE@),
                ),
                r.spec_callable_choices(),
            ),
    {
        let alias = find_style(&styles, DYNAMIC_CALLABLE_ALIAS);
        let builtin = find_style(&styles, DYNAMIC_CALLABLE_BUILTIN);
        let command = find_style(&styles, DYNAMIC_CALLABLE_COMMAND);
        let function = find_style(&styles, DYNAMIC_CALLABLE_FUNCTION);
        let missing = find_style(&styles, DYNAMIC_CALLABLE_MISSING);
        let other = find_style(&styles, CALLABLE);
        let callable_choices = callable_choices(alias, builtin, command, function, missing, other);
        let syntaxes = Syntaxes::load();
        Highlighter { max_line_length, timeout, syntaxes, syntect_theme, scope_mapping, styles, callable_choices }
    }

    /// Return a list of dynamic style choices the plugin has for callables
    pub fn callable_choices(&self) -> (r: &[(String, StaticStyle)])
        ensures
            r@ == self.spec_callable_choices(),
    {
        self.callable_choices.as_slice()
    }

    /// Highlights a command with this highlighter's grammar, theme, colour
    /// table, styles and limits (see [`highlight`]); `resolve` says what a
    /// shell word names in the file system (relative to the working
    /// directory).
    pub fn highlight<P: Fn(&Range<usize>) -> bool + Copy, R: Fn(&String) -> PathKind + Copy>(
        &self,
        command: &str,
        resolve: R,
        predicate: P,
    ) -> (r: Result<Vec<Span>, HighlightError>)
        requires
            command.spec_bytes().len() < usize::MAX,
            forall|range: Range<usize>|
                range.start < range.end <= char_count(command.spec_bytes()) ==> call_requires(predicate, (&range,)),
            forall|w: String| call_requires(resolve, (&w,)),
        ensures
            highlights_all(
                self.spec_syntax_set(),
                self.spec_theme(),
                self.spec_scope_mapping(),
                self.spec_styles(),
                command.spec_bytes(),
                self.spec_max_line_length() as nat,
                predicate,
                resolve,
                outcome_view(r),
            ),
            r matches Ok(spans) ==> forall|j: int|
                0 <= j < spans@.len() ==> (#[trigger] spans@[j]).start <= spans@[j].end <= char_count(command.spec_bytes()),
    {
        highlight(
            command,
            &self.syntaxes,
            &self.syntect_theme,
            &self.scope_mapping,
            &self.styles,
            self.max_line_length,
            self.timeout,
            predicate,
            resolve,
        )
    }

    /// Tokenizes a command with this highlighter's grammar (see
    /// [`tokenize`]).
    pub fn tokenize(&self, command: &str) -> (r: Result<Vec<Token>, TokenizeError>)
        requires
            command.spec_bytes().len() < usize::MAX,
        ensures
            match r {
                Ok(tokens) => tokenize_outcome(self.spec_syntax_set(), command.spec_bytes()) == Ok::<Seq<Token>, TokenizeError>(tokens@),
                Err(e) => tokenize_outcome(self.spec_syntax_set(), command.spec_bytes()) == Err::<Seq<Token>, TokenizeError>(e),
            },
            r matches Ok(tokens) ==> tokens_of(command.spec_bytes(), tokens@),
            r matches Ok(tokens) ==> tokens_sorted_upto(tokens@, command.spec_bytes().len()),
    {
        tokenize(command, &self.syntaxes)
    }
}

} // verus!
