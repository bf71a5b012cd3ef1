//! Spans of the groups of dynamic tokens: a command name becomes one span
//! that the shell styles when it runs (or, for a path to an executable or a
//! directory, the command style), and an argument that names a file or a
//! directory becomes one span with the file or directory style. Whether a
//! word names a file is asked of the caller.

use vstd::prelude::*;

use super::dynamic::{DynamicTokenGroup, DynamicType};
use super::highlighter::{copy_static_style, groups_updated, scope_kind, static_style_view, ScopeKind};
use super::spans::{
    find_style, lemma_total_chars_prefix, piece_span, piece_view, pieces_view, span_view, spans_view, style_for, total_chars, PieceView, Rgba,
    SpanView,
};
use super::highlighter::str_eq;
use super::{DynamicStyle, Span, SpanStyle, StaticStyle, DYNAMIC_CALLABLE_COMMAND, DYNAMIC_PATH_DIRECTORY, DYNAMIC_PATH_FILE};

verus! {

/// What a group of dynamic tokens stands for.
#[derive(Clone, Copy, PartialEq, Eq, Structural, Debug)]
pub enum GroupKind {
    Callable,
    Arguments,
    Unknown,
}

/// The kind of a group of the given type.
pub open spec fn group_kind(t: DynamicType) -> GroupKind {
    match t {
        DynamicType::Callable => GroupKind::Callable,
        DynamicType::Arguments => GroupKind::Arguments,
        DynamicType::Unknown(_) => GroupKind::Unknown,
    }
}

/// A group taken by its character range and its kind.
pub type GroupView = (int, int, GroupKind);

pub open spec fn group_view(g: DynamicTokenGroup) -> GroupView {
    (g.range.start as int, g.range.end as int, group_kind(g.dynamic_type))
}

/// Groups taken by their views.
pub open spec fn groups_view(gs: Seq<DynamicTokenGroup>) -> Seq<GroupView> {
    gs.map_values(|g: DynamicTokenGroup| group_view(g))
}

/// Whether a token of the given kind starting at `start` continues the
/// last group.
pub open spec fn continues_last_view(gs: Seq<GroupView>, kind: ScopeKind, start: int) -> bool {
    &&& gs.len() > 0
    &&& gs.last().1 == start
    &&& match kind {
        ScopeKind::Arguments => gs.last().2 != GroupKind::Callable,
        ScopeKind::Callable => gs.last().2 != GroupKind::Arguments,
        ScopeKind::Escape => true,
        _ => false,
    }
}

/// The groups after a token of the given kind covering `start..end` was
/// added: it extends the last group if it continues it (arguments and
/// command names then set the group's kind), starts a new group if it is of
/// a grouped kind, and changes nothing otherwise.
pub open spec fn group_step(gs: Seq<GroupView>, kind: ScopeKind, start: int, end: int) -> Seq<GroupView> {
    if kind is Other {
        gs
    } else if continues_last_view(gs, kind, start) {
        let last = gs.last();
        gs.update(
            gs.len() - 1,
            (
                last.0,
                end,
                match kind {
                    ScopeKind::Arguments => GroupKind::Arguments,
                    ScopeKind::Callable => GroupKind::Callable,
                    _ => last.2,
                },
            ),
        )
    } else {
        gs.push(
            (
                start,
                end,
                match kind {
                    ScopeKind::Arguments => GroupKind::Arguments,
                    ScopeKind::Callable => GroupKind::Callable,
                    _ => GroupKind::Unknown,
                },
            ),
        )
    }
}

/// Adding a token to the groups changes their views by one step.
pub proof fn lemma_groups_updated_view<'a>(
    old: Seq<DynamicTokenGroup<'a>>,
    new: Seq<DynamicTokenGroup<'a>>,
    scope: &'a str,
    range: std::ops::Range<usize>,
)
    requires
        groups_updated(old, new, scope, range),
    ensures
        groups_view(new) == group_step(groups_view(old), scope_kind(scope@), range.start as int, range.end as int),
{
    let kind = scope_kind(scope@);
    let ov = groups_view(old);
    let nv = groups_view(new);
    if !(kind is Other) {
        if old.len() > 0 {
            assert(ov.last() == group_view(old.last()));
        }
        if super::highlighter::continues_last(old, kind, range) {
            assert(nv =~= group_step(ov, kind, range.start as int, range.end as int)) by {
                assert forall|i: int| 0 <= i < nv.len() implies nv[i] == group_step(ov, kind, range.start as int, range.end as int)[i] by {
                    if i < old.len() - 1 {
                        assert(new[i] == old[i]);
                    }
                }
            }
        } else {
            assert(nv =~= group_step(ov, kind, range.start as int, range.end as int)) by {
                assert forall|i: int| 0 <= i < nv.len() implies nv[i] == group_step(ov, kind, range.start as int, range.end as int)[i] by {
                    if i < old.len() {
                        assert(new[i] == old[i]);
                    }
                }
            }
        }
    } else {
        assert(nv =~= ov);
    }
}

/// The groups after the pieces of a line were added one after the other,
/// starting from `init`: each piece that names a scope, is not empty and is
/// kept is a token.
pub open spec fn line_groups(init: Seq<GroupView>, p: Seq<PieceView>, first: int, keep: Seq<bool>) -> Seq<GroupView>
    decreases p.len(),
{
    if p.len() == 0 {
        init
    } else {
        let k = p.len() - 1;
        let before = line_groups(init, p.drop_last(), first, keep);
        let start = first + total_chars(p.drop_last());
        if p[k].0 is Some && p[k].1 > 0 && keep[k] {
            group_step(before, scope_kind(p[k].0->0), start, start + p[k].1)
        } else {
            before
        }
    }
}

/// What a word names, as the caller finds it (in the file system).
#[derive(Clone, Copy, PartialEq, Eq, Structural, Debug)]
pub enum PathKind {
    /// Nothing, or nothing that a path style is given to.
    Missing,
    /// A file that is not executable.
    File,
    /// An executable file.
    Executable,
    /// A directory.
    Directory,
}

/// The shell word that a text stands for: double quotes are dropped, and a
/// backslash stands for the character after it.
pub open spec fn clean_word(w: Seq<char>) -> Seq<char>
    decreases w.len(),
{
    if w.len() == 0 {
        w
    } else if w[0] == '"' {
        clean_word(w.drop_first())
    } else if w[0] == '\\' && w.len() > 1 {
        seq![w[1]] + clean_word(w.skip(2))
    } else {
        seq![w[0]] + clean_word(w.drop_first())
    }
}

/// The shell word that a text stands for.
pub fn unquote(w: &Vec<char>) -> (r: String)
    ensures
        r@ == clean_word(w@),
{
    let mut out = String::new();
    let mut i: usize = 0;
    assert(w@.skip(0) =~= w@);
    while i < w.len()
        invariant
            i <= w@.len(),
            out@ + clean_word(w@.skip(i as int)) == clean_word(w@),
        decreases w@.len() - i,
    {
        let ghost rest = w@.skip(i as int);
        if w[i] == '"' {
            assert(rest.drop_first() =~= w@.skip(i + 1));
            i = i + 1;
        } else if w[i] == '\\' && i + 1 < w.len() {
            assert(rest.skip(2) =~= w@.skip(i + 2));
            assert(rest[1] == w@[i + 1]);
            let ghost before = out@;
            out.push(w[i + 1]);
            assert(out@ + clean_word(w@.skip(i + 2)) =~= before + (seq![rest[1]] + clean_word(rest.skip(2))));
            i = i + 2;
        } else {
            assert(rest.drop_first() =~= w@.skip(i + 1));
            let ghost before = out@;
            out.push(w[i]);
            assert(out@ + clean_word(w@.skip(i + 1)) =~= before + (seq![rest[0]] + clean_word(rest.drop_first())));
            i = i + 1;
        }
    }
    assert(w@.skip(i as int) =~= Seq::<char>::empty());
    assert(out@ + clean_word(w@.skip(i as int)) =~= out@);
    out
}

/// The text of the pieces of a line (starting at character `first`) that
/// lie within the range of group `g`.
pub open spec fn group_text(texts: Seq<Seq<char>>, p: Seq<PieceView>, first: int, g: GroupView) -> Seq<char>
    decreases p.len(),
{
    if p.len() == 0 {
        Seq::empty()
    } else {
        let k = p.len() - 1;
        let start = first + total_chars(p.drop_last());
        group_text(texts, p.drop_last(), first, g) + if p[k].1 > 0 && g.0 <= start && start + p[k].1 <= g.1 {
            texts[k]
        } else {
            Seq::empty()
        }
    }
}

/// The first group of a kind that gets a span of its own (a command name
/// or arguments) whose range holds `start..end`.
pub open spec fn containing_group(gs: Seq<GroupView>, start: int, end: int) -> Option<nat>
    decreases gs.len(),
{
    if gs.len() == 0 {
        None
    } else if gs[0].2 != GroupKind::Unknown && gs[0].0 <= start && end <= gs[0].1 {
        Some(0)
    } else {
        match containing_group(gs.drop_first(), start, end) {
            Some(i) => Some(i + 1),
            None => None,
        }
    }
}

/// The group found holds the range and is one of the groups.
pub proof fn lemma_containing_group(gs: Seq<GroupView>, start: int, end: int)
    ensures
        containing_group(gs, start, end) matches Some(i) ==> i < gs.len() && gs[i as int].2 != GroupKind::Unknown
            && gs[i as int].0 <= start && end <= gs[i as int].1,
    decreases gs.len(),
{
    if gs.len() > 0 {
        lemma_containing_group(gs.drop_first(), start, end);
    }
}

/// The span of a group whose shell word is `word` and names `path`: a
/// command name that is a path (it has a `/`) to an executable or a
/// directory gets the command style; any other command name gets a span
/// that the shell styles when it runs; arguments that name a file or a
/// directory get the file or directory style; other groups get none.
pub open spec fn group_span(g: GroupView, word: Seq<char>, path: PathKind, styles: Seq<(String, Option<StaticStyle>)>) -> Seq<SpanView> {
    let styled = |scope: Seq<char>|
        match style_for(styles, scope) {
            Some(st) => seq![(g.0, g.1, Some(static_style_view(st)))],
            None => Seq::<SpanView>::empty(),
        };
    match g.2 {
        GroupKind::Callable => if word.contains('/') && (path is Executable || path is Directory) {
            styled(DYNAMIC_CALLABLE_COMMAND@)
        } else {
            seq![(g.0, g.1, None)]
        },
        GroupKind::Arguments => match path {
            PathKind::File | PathKind::Executable => styled(DYNAMIC_PATH_FILE@),
            PathKind::Directory => styled(DYNAMIC_PATH_DIRECTORY@),
            PathKind::Missing => Seq::empty(),
        },
        GroupKind::Unknown => Seq::empty(),
    }
}

/// An argument that names a file, executable or not, gets one span over its
/// group with the file style, an executable exactly as any other file; one
/// that names a directory gets the directory style; one that names nothing
/// gets no span.
pub proof fn lemma_argument_span_style(g: GroupView, word: Seq<char>, styles: Seq<(String, Option<StaticStyle>)>)
    requires
        g.2 == GroupKind::Arguments,
    ensures
        group_span(g, word, PathKind::Executable, styles) == group_span(g, word, PathKind::File, styles),
        style_for(styles, DYNAMIC_PATH_FILE@) matches Some(st) ==> group_span(g, word, PathKind::File, styles) == seq![
            (g.0, g.1, Some(static_style_view(st))),
        ],
        style_for(styles, DYNAMIC_PATH_DIRECTORY@) matches Some(st) ==> group_span(g, word, PathKind::Directory, styles)
            == seq![(g.0, g.1, Some(static_style_view(st)))],
        group_span(g, word, PathKind::Missing, styles) == Seq::<SpanView>::empty(),
{
}

/// A command name gets a span that the shell styles when it runs, unless
/// it is a path (it has a `/`) to an executable or a directory, which gets
/// the command style.
pub proof fn lemma_callable_span_style(g: GroupView, word: Seq<char>, path: PathKind, styles: Seq<(String, Option<StaticStyle>)>)
    requires
        g.2 == GroupKind::Callable,
    ensures
        !(word.contains('/') && (path is Executable || path is Directory)) ==> group_span(g, word, path, styles) == seq![
            (g.0, g.1, None::<(Option<Seq<char>>, Option<Seq<char>>, bool, bool)>),
        ],
        word.contains('/') && (path is Executable || path is Directory) ==> (style_for(styles, DYNAMIC_CALLABLE_COMMAND@) matches Some(st)
            ==> group_span(g, word, path, styles) == seq![(g.0, g.1, Some(static_style_view(st)))]),
{
}

/// The spans that a piece starting at character `start` gives once the
/// groups are known: a piece within a group of a command name or of
/// arguments gives that group's span if it is the group's first piece and
/// nothing otherwise; any other piece gives its own span.
pub open spec fn piece_final(
    p: PieceView,
    start: int,
    keep: bool,
    styles: Seq<(String, Option<StaticStyle>)>,
    gs: Seq<GroupView>,
    words: Seq<Seq<char>>,
    paths: Seq<PathKind>,
) -> Seq<SpanView> {
    if p.1 > 0 && containing_group(gs, start, start + p.1) is Some {
        let g = containing_group(gs, start, start + p.1)->0 as int;
        if gs[g].0 == start {
            group_span(gs[g], words[g], paths[g], styles)
        } else {
            Seq::empty()
        }
    } else {
        piece_span(p, start, keep, styles)
    }
}

/// The spans of the pieces of a line whose first character is character
/// `first` of the command, once its groups are known.
pub open spec fn line_final(
    p: Seq<PieceView>,
    first: int,
    keep: Seq<bool>,
    styles: Seq<(String, Option<StaticStyle>)>,
    gs: Seq<GroupView>,
    words: Seq<Seq<char>>,
    paths: Seq<PathKind>,
) -> Seq<SpanView>
    decreases p.len(),
{
    if p.len() == 0 {
        Seq::empty()
    } else {
        let k = p.len() - 1;
        line_final(p.drop_last(), first, keep, styles, gs, words, paths) + piece_final(
            p[k],
            first + total_chars(p.drop_last()),
            keep[k],
            styles,
            gs,
            words,
            paths,
        )
    }
}

/// The groups of a line lie within the line, each starting no later than
/// it ends.
pub proof fn lemma_line_groups_within(p: Seq<PieceView>, first: int, keep: Seq<bool>)
    ensures
        forall|g: int|
            0 <= g < line_groups(Seq::empty(), p, first, keep).len() ==> first <= (#[trigger] line_groups(
                Seq::empty(),
                p,
                first,
                keep,
            )[g]).0 <= line_groups(Seq::empty(), p, first, keep)[g].1 <= first + total_chars(p),
    decreases p.len(),
{
    if p.len() > 0 {
        lemma_line_groups_within(p.drop_last(), first, keep);
        let k = p.len() - 1;
        let before = line_groups(Seq::empty(), p.drop_last(), first, keep);
        let start = first + total_chars(p.drop_last());
        let end = start + p[k].1;
        assert(total_chars(p) == total_chars(p.drop_last()) + p[k].1);
        if p[k].0 is Some && p[k].1 > 0 && keep[k] {
            let kind = scope_kind(p[k].0->0);
            let after = group_step(before, kind, start, end);
            assert(after == line_groups(Seq::empty(), p, first, keep));
            assert forall|g: int| 0 <= g < after.len() implies first <= (#[trigger] after[g]).0 <= after[g].1 <= first + total_chars(p) by {
                if g < before.len() {
                    if !(kind is Other) && continues_last_view(before, kind, start) && g == before.len() - 1 {
                        assert(before[g].1 == start);
                    } else {
                        assert(after[g] == before[g]);
                    }
                }
            }
        }
    }
}

/// The texts of pieces of a line.
pub open spec fn piece_texts(pieces: Seq<(Rgba, &str)>) -> Seq<Seq<char>> {
    pieces.map_values(|p: (Rgba, &str)| p.1@)
}

/// Finds the first group of a command name or of arguments whose range
/// holds `start..end`.
fn find_group(groups: &Vec<DynamicTokenGroup>, start: usize, end: usize) -> (r: Option<usize>)
    ensures
        match r {
            Some(i) => containing_group(groups_view(groups@), start as int, end as int) == Some(i as nat),
            None => containing_group(groups_view(groups@), start as int, end as int) is None,
        },
{
    let ghost gv = groups_view(groups@);
    let mut i: usize = 0;
    assert(gv.skip(0) =~= gv);
    while i < groups.len()
        invariant
            i <= groups@.len(),
            gv == groups_view(groups@),
            containing_group(gv, start as int, end as int) == match containing_group(gv.skip(i as int), start as int, end as int) {
                Some(j) => Some((j + i) as nat),
                None => None::<nat>,
            },
        decreases groups@.len() - i,
    {
        assert(gv.skip(i as int).drop_first() =~= gv.skip(i + 1));
        assert(gv.skip(i as int)[0] == group_view(groups@[i as int]));
        let g = &groups[i];
        let other = matches!(g.dynamic_type, DynamicType::Unknown(_));
        if !other && g.range.start <= start && end <= g.range.end {
            return Some(i);
        }
        i = i + 1;
    }
    None
}

/// Whether a word has a `/`.
fn has_slash(w: &str) -> (r: bool)
    ensures
        r == w@.contains('/'),
{
    let n = w.unicode_len();
    let mut i: usize = 0;
    while i < n
        invariant
            i <= n,
            n == w@.len(),
            forall|j: int| 0 <= j < i ==> w@[j] != '/',
        decreases n - i,
    {
        if w.get_char(i) == '/' {
            return true;
        }
        i = i + 1;
    }
    false
}

/// A span with the style that `styles` gives the scope, if any.
fn styled_span(start: usize, end: usize, styles: &Vec<(String, Option<StaticStyle>)>, scope: &str) -> (r: Option<Span>)
    ensures
        match r {
            Some(s) => style_for(styles@, scope@) is Some && span_view(s) == (start as int, end as int, Some(
                static_style_view(style_for(styles@, scope@)->0),
            )),
            None => style_for(styles@, scope@) is None,
        },
{
    match find_style(styles, scope) {
        Some(st) => Some(Span { start, end, style: SpanStyle::Static(st) }),
        None => None,
    }
}

/// The span of a group, as [`group_span`] says.
pub fn group_span_of(group: &DynamicTokenGroup, word: &str, path: PathKind, styles: &Vec<(String, Option<StaticStyle>)>) -> (r: Option<Span>)
    ensures
        match r {
            Some(s) => group_span(group_view(*group), word@, path, styles@) == seq![span_view(s)],
            None => group_span(group_view(*group), word@, path, styles@) == Seq::<SpanView>::empty(),
        },
        r matches Some(s) ==> s.start == group.range.start && s.end == group.range.end,
{
    let start = group.range.start;
    let end = group.range.end;
    match group.dynamic_type {
        DynamicType::Callable => {
            if has_slash(word) && (path == PathKind::Executable || path == PathKind::Directory) {
                styled_span(start, end, styles, DYNAMIC_CALLABLE_COMMAND)
            } else {
                Some(Span { start, end, style: SpanStyle::Dynamic(DynamicStyle::Callable) })
            }
        },
        DynamicType::Arguments => match path {
            PathKind::File | PathKind::Executable => styled_span(start, end, styles, DYNAMIC_PATH_FILE),
            PathKind::Directory => styled_span(start, end, styles, DYNAMIC_PATH_DIRECTORY),
            PathKind::Missing => None,
        },
        DynamicType::Unknown(_) => None,
    }
}

/// The shell word of a group: the text of the pieces of the line (starting
/// at character `first`) that lie within the group's range, unquoted.
fn group_word(
    pieces: &Vec<(Rgba, &str)>,
    decoded: &Vec<(Option<&str>, usize)>,
    first: usize,
    group: &DynamicTokenGroup,
) -> (r: String)
    requires
        pieces@.len() == decoded@.len(),
        first + total_chars(pieces_view(decoded@)) <= usize::MAX,
    ensures
        r@ == clean_word(group_text(piece_texts(pieces@), pieces_view(decoded@), first as int, group_view(*group))),
{
    let ghost pv = pieces_view(decoded@);
    let ghost texts = piece_texts(pieces@);
    let mut raw: Vec<char> = Vec::new();
    let mut c: usize = first;
    let mut k: usize = 0;
    assert(pv.take(0) =~= Seq::<PieceView>::empty());
    while k < decoded.len()
        invariant
            k <= decoded@.len(),
            pieces@.len() == decoded@.len(),
            pv == pieces_view(decoded@),
            texts == piece_texts(pieces@),
            first + total_chars(pv) <= usize::MAX,
            c == first + total_chars(pv.take(k as int)),
            raw@ == group_text(texts, pv.take(k as int), first as int, group_view(*group)),
        decreases decoded@.len() - k,
    {
        proof {
            assert(pv.take(k + 1).drop_last() =~= pv.take(k as int));
            assert(pv.take(k + 1)[k as int] == pv[k as int]);
            lemma_total_chars_prefix(pv, k + 1);
            assert(texts[k as int] == pieces@[k as int].1@);
        }
        let len = decoded[k].1;
        if len > 0 && group.range.start <= c && c + len <= group.range.end {
            let text = pieces[k].1;
            let n = text.unicode_len();
            let mut j: usize = 0;
            let ghost before = raw@;
            while j < n
                invariant
                    j <= n,
                    n == text@.len(),
                    raw@ == before + text@.take(j as int),
                decreases n - j,
            {
                raw.push(text.get_char(j));
                assert(text@.take(j + 1) =~= text@.take(j as int).push(text@[j as int]));
                j = j + 1;
            }
            assert(text@.take(n as int) =~= text@);
        }
        assert(raw@ == group_text(texts, pv.take(k + 1), first as int, group_view(*group)));
        c = c + len;
        k = k + 1;
    }
    assert(pv.take(k as int) =~= pv);
    unquote(&raw)
}

/// Words taken by their characters.
pub open spec fn words_view(words: Seq<String>) -> Seq<Seq<char>> {
    words.map_values(|w: String| w@)
}

/// The shell words of the groups of a line (starting at character
/// `first`), and for the word of each group of a command name or of
/// arguments what `resolve` finds it to name (other groups are not asked
/// about and get `Missing`).
pub fn group_paths<R: Fn(&String) -> PathKind>(
    pieces: &Vec<(Rgba, &str)>,
    decoded: &Vec<(Option<&str>, usize)>,
    first: usize,
    groups: &Vec<DynamicTokenGroup>,
    resolve: &R,
) -> (r: (Vec<String>, Vec<PathKind>))
    requires
        pieces@.len() == decoded@.len(),
        first + total_chars(pieces_view(decoded@)) <= usize::MAX,
        forall|w: String| call_requires(*resolve, (&w,)),
    ensures
        r.0@.len() == groups@.len(),
        r.1@.len() == groups@.len(),
        forall|g: int|
            0 <= g < groups@.len() ==> (#[trigger] r.0@[g])@ == clean_word(
                group_text(piece_texts(pieces@), pieces_view(decoded@), first as int, groups_view(groups@)[g]),
            ),
        forall|g: int|
            0 <= g < groups@.len() && groups_view(groups@)[g].2 != GroupKind::Unknown ==> call_ensures(
                *resolve,
                (&r.0@[g],),
                #[trigger] r.1@[g],
            ),
{
    let mut words: Vec<String> = Vec::new();
    let mut paths: Vec<PathKind> = Vec::new();
    let mut g: usize = 0;
    while g < groups.len()
        invariant
            g <= groups@.len(),
            pieces@.len() == decoded@.len(),
            first + total_chars(pieces_view(decoded@)) <= usize::MAX,
            forall|w: String| call_requires(*resolve, (&w,)),
            words@.len() == g,
            paths@.len() == g,
            forall|h: int|
                0 <= h < g ==> (#[trigger] words@[h])@ == clean_word(
                    group_text(piece_texts(pieces@), pieces_view(decoded@), first as int, groups_view(groups@)[h]),
                ),
            forall|h: int|
                0 <= h < g && groups_view(groups@)[h].2 != GroupKind::Unknown ==> call_ensures(
                    *resolve,
                    (&words@[h],),
                    #[trigger] paths@[h],
                ),
        decreases groups@.len() - g,
    {
        let word = group_word(pieces, decoded, first, &groups[g]);
        assert(groups_view(groups@)[g as int] == group_view(groups@[g as int]));
        let path = if matches!(groups[g].dynamic_type, DynamicType::Unknown(_)) {
            PathKind::Missing
        } else {
            resolve(&word)
        };
        words.push(word);
        paths.push(path);
        g = g + 1;
    }
    (words, paths)
}

/// Appends the spans of the pieces of a line (starting at character
/// `first`) once its groups, their words and what they name are known, as
/// [`line_final`] says.
#[verifier::spinoff_prover]
#[verifier::rlimit(40)]
pub fn final_line_spans(
    decoded: &Vec<(Option<&str>, usize)>,
    first: usize,
    keep: &Vec<bool>,
    styles: &Vec<(String, Option<StaticStyle>)>,
    groups: &Vec<DynamicTokenGroup>,
    words: &Vec<String>,
    paths: &Vec<PathKind>,
    spans: &mut Vec<Span>,
)
    requires
        keep@.len() == decoded@.len(),
        words@.len() == groups@.len(),
        paths@.len() == groups@.len(),
        first + total_chars(pieces_view(decoded@)) <= usize::MAX,
        forall|g: int|
            0 <= g < groups@.len() ==> first <= (#[trigger] groups@[g]).range.start <= groups@[g].range.end <= first
                + total_chars(pieces_view(decoded@)),
    ensures
        spans_view(final(spans)@) == spans_view(old(spans)@) + line_final(
            pieces_view(decoded@),
            first as int,
            keep@,
            styles@,
            groups_view(groups@),
            words_view(words@),
            paths@,
        ),
        old(spans)@.len() <= final(spans)@.len(),
        forall|j: int| 0 <= j < old(spans)@.len() ==> #[trigger] final(spans)@[j] == old(spans)@[j],
        forall|j: int|
            old(spans)@.len() <= j < final(spans)@.len() ==> first <= #[trigger] final(spans)@[j].start <= final(spans)@[j].end
                <= first + total_chars(pieces_view(decoded@)),
{
    let ghost pv = pieces_view(decoded@);
    let ghost gv = groups_view(groups@);
    let ghost old_spans = spans@;
    let mut c: usize = first;
    let mut k: usize = 0;
    assert(pv.take(0) =~= Seq::<PieceView>::empty());
    assert(spans_view(spans@) =~= spans_view(old_spans) + line_final(pv.take(0), first as int, keep@, styles@, gv, words_view(words@), paths@));
    while k < decoded.len()
        invariant
            k <= decoded@.len(),
            keep@.len() == decoded@.len(),
            words@.len() == groups@.len(),
            paths@.len() == groups@.len(),
            pv == pieces_view(decoded@),
            gv == groups_view(groups@),
            first + total_chars(pv) <= usize::MAX,
            c == first + total_chars(pv.take(k as int)),
            forall|g: int|
                0 <= g < groups@.len() ==> first <= (#[trigger] groups@[g]).range.start <= groups@[g].range.end <= first
                    + total_chars(pv),
            old_spans.len() <= spans@.len(),
            forall|j: int| 0 <= j < old_spans.len() ==> spans@[j] == old_spans[j],
            spans_view(spans@) == spans_view(old_spans) + line_final(pv.take(k as int), first as int, keep@, styles@, gv, words_view(words@), paths@),
            forall|j: int| old_spans.len() <= j < spans@.len() ==> first <= #[trigger] spans@[j].start <= spans@[j].end <= first + total_chars(pv),
        decreases decoded@.len() - k,
    {
        let ghost before = spans@;
        proof {
            assert(pv.take(k + 1).drop_last() =~= pv.take(k as int));
            assert(pv.take(k + 1)[k as int] == pv[k as int]);
            lemma_total_chars_prefix(pv, k + 1);
            lemma_total_chars_prefix(pv, k as int);
        }
        let (scope, len) = decoded[k];
        let mut grouped = false;
        if len > 0 {
            let found = find_group(groups, c, c + len);
            proof {
                lemma_containing_group(gv, c as int, c + len);
            }
            match found {
                Some(g) => {
                    grouped = true;
                    assert(gv[g as int] == group_view(groups@[g as int]));
                    if groups[g].range.start == c {
                        assert(words_view(words@)[g as int] == words@[g as int]@);
                        match group_span_of(&groups[g], words[g].as_str(), paths[g], styles) {
                            Some(sp) => spans.push(sp),
                            None => {},
                        }
                    }
                },
                None => {},
            }
        }
        if !grouped && len > 0 {
            if let Some(s) = scope {
                if keep[k] {
                    if let Some(style) = find_style(styles, s) {
                        spans.push(Span { start: c, end: c + len, style: SpanStyle::Static(style) });
                    }
                }
            }
        }
        assert(spans@.len() == before.len() || (spans@.len() == before.len() + 1 && first <= spans@.last().start
            <= spans@.last().end <= first + total_chars(pv)));
        proof {
            assert(spans_view(spans@) =~= spans_view(before) + piece_final(pv[k as int], c as int, keep@[k as int], styles@, gv, words_view(words@), paths@));
            assert(spans_view(spans@) =~= spans_view(old_spans) + line_final(pv.take(k + 1), first as int, keep@, styles@, gv, words_view(words@), paths@));
            assert forall|j: int| 0 <= j < old_spans.len() implies spans@[j] == old_spans[j] by {
                assert(spans@[j] == before[j]);
            }
            assert forall|j: int| old_spans.len() <= j < spans@.len() implies first <= #[trigger] spans@[j].start <= spans@[j].end <= first + total_chars(pv) by {
                if j < before.len() {
                    assert(spans@[j] == before[j]);
                } else {
                    assert(spans@.len() == before.len() + 1);
                    assert(j == before.len());
                    assert(spans@[j] == spans@.last());
                    assert(first <= spans@.last().start <= spans@.last().end <= first + total_chars(pv));
                }
            }
        }
        c = c + len;
        k = k + 1;
    }
    assert(pv.take(k as int) =~= pv);
}

} // verus!
