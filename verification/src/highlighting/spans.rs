//! Highlighting a command: the theme-driven highlighter of the grammar
//! engine cuts each line into pieces with a foreground colour, the colour
//! names the scope that the piece belongs to, and each piece that the
//! caller keeps becomes a span with the style of its scope, except that the
//! pieces of command names and arguments are grouped into one span each
//! (see [`super::paths`]). Span ranges count characters of the command, not
//! bytes.

use std::ops::Range;
use std::time::{Duration, Instant};
use syntect::easy::HighlightLines;
use syntect::highlighting::Theme;
use syntect::parsing::SyntaxSet;
use vstd::prelude::*;
use vstd::string::StringSliceAdditionalSpecFns;

use super::dynamic::DynamicTokenGroup;
use super::paths::{
    clean_word, final_line_spans, group_paths, group_text, groups_view, lemma_groups_updated_view, lemma_line_groups_within,
    line_final, line_groups, piece_texts, words_view, GroupKind, GroupView, PathKind,
};
use super::highlighter::{
    copy_static_style, find_prefix_split, groups_updated, lemma_prefix_split_ascii, spec_prefix_split, static_style_view,
    str_eq, update_groups,
};
use super::parse::{finds_syntax, lemma_boundary_after_ascii, lemma_boundary_at_ascii, lemma_prefix_split_bounds, Syntaxes};
use super::tokenize::{
    char_count, command_lines, count_chars, find_line_end, lemma_char_count_ascii, lemma_char_count_concat, lemma_char_count_le, lemma_char_count_prefix, lemma_line_end,
    lemma_trimmed_len, split_lines, total_len, trim_end_len,
};
use super::{DynamicStyle, Span, SpanStyle, StaticStyle};

verus! {

broadcast use vstd::utf8::encode_utf8_valid_utf8;

#[verifier::external_type_specification]
#[verifier::external_body]
pub struct ExHighlightLines<'a>(HighlightLines<'a>);

#[verifier::external_type_specification]
#[verifier::external_body]
pub struct ExTheme(Theme);

#[verifier::external_type_specification]
#[verifier::external_body]
pub struct ExInstant(Instant);

#[verifier::external_type_specification]
#[verifier::external_body]
pub struct ExSyntectError(syntect::Error);

/// A colour as red, green, blue and alpha components.
pub type Rgba = (u8, u8, u8, u8);

/// Why highlighting failed.
#[derive(Debug, PartialEq, Eq)]
pub enum HighlightError {
    /// The syntax set has no grammar for shell scripts.
    NoShellSyntax,
    /// The grammar engine failed on a line.
    HighlightFailed,
}

/// A style with its colour strings taken by their characters.
pub type StyleView = (Option<Seq<char>>, Option<Seq<char>>, bool, bool);

/// A span taken by its character range and, for a static style, that style.
pub type SpanView = (int, int, Option<StyleView>);

/// A span taken by its character range and, for a static style, that
/// style's view.
pub open spec fn span_view(s: Span) -> SpanView {
    (
        s.start as int,
        s.end as int,
        match s.style {
            SpanStyle::Static(st) => Some(static_style_view(st)),
            SpanStyle::Dynamic(_) => None,
        },
    )
}

/// Spans taken by their views.
pub open spec fn spans_view(s: Seq<Span>) -> Seq<SpanView> {
    s.map_values(|x: Span| span_view(x))
}

/// The scope named by the first entry of `table` with colour `color`.
pub open spec fn decode_spec(table: Seq<(Rgba, String)>, color: Rgba) -> Option<Seq<char>>
    decreases table.len(),
{
    if table.len() == 0 {
        None
    } else if table[0].0 == color {
        Some(table[0].1@)
    } else {
        decode_spec(table.drop_first(), color)
    }
}

/// The style of the first entry of `styles` for the scope `scope`.
pub open spec fn style_for(styles: Seq<(String, Option<StaticStyle>)>, scope: Seq<char>) -> Option<StaticStyle>
    decreases styles.len(),
{
    if styles.len() == 0 {
        None
    } else if styles[0].0@ == scope {
        styles[0].1
    } else {
        style_for(styles.drop_first(), scope)
    }
}

/// Looks up the scope that a foreground colour stands for: the scope of
/// the first entry of `table` with that colour.
pub fn decode_scope<'a>(table: &'a Vec<(Rgba, String)>, color: Rgba) -> (r: Option<&'a str>)
    ensures
        match r {
            Some(s) => decode_spec(table@, color) == Some(s@),
            None => decode_spec(table@, color) is None,
        },
{
    let mut k: usize = 0;
    assert(table@.skip(0) =~= table@);
    while k < table.len()
        invariant
            k <= table@.len(),
            decode_spec(table@, color) == decode_spec(table@.skip(k as int), color),
        decreases table@.len() - k,
    {
        assert(table@.skip(k as int).drop_first() =~= table@.skip(k + 1));
        let c = table[k].0;
        if c.0 == color.0 && c.1 == color.1 && c.2 == color.2 && c.3 == color.3 {
            return Some(table[k].1.as_str());
        }
        k = k + 1;
    }
    None
}

/// Looks up the style of a scope: that of the first entry of `styles` for
/// the scope, `None` if there is none or it has no style.
pub fn find_style(styles: &Vec<(String, Option<StaticStyle>)>, scope: &str) -> (r: Option<StaticStyle>)
    ensures
        r == style_for(styles@, scope@),
{
    let mut k: usize = 0;
    assert(styles@.skip(0) =~= styles@);
    while k < styles.len()
        invariant
            k <= styles@.len(),
            style_for(styles@, scope@) == style_for(styles@.skip(k as int), scope@),
        decreases styles@.len() - k,
    {
        assert(styles@.skip(k as int).drop_first() =~= styles@.skip(k + 1));
        if str_eq(styles[k].0.as_str(), scope) {
            return match &styles[k].1 {
                Some(s) => Some(copy_static_style(s)),
                None => None,
            };
        }
        k = k + 1;
    }
    None
}

/// A piece of a line taken by the scope it belongs to, if its colour names
/// one, and its length in characters.
pub type PieceView = (Option<Seq<char>>, nat);

/// A piece taken by the characters of its scope's name and its length.
pub open spec fn piece_view(p: (Option<&str>, usize)) -> PieceView {
    (
        match p.0 {
            Some(s) => Some(s@),
            None => None,
        },
        p.1 as nat,
    )
}

/// Pieces taken by their views.
pub open spec fn pieces_view(p: Seq<(Option<&str>, usize)>) -> Seq<PieceView> {
    p.map_values(|x: (Option<&str>, usize)| piece_view(x))
}

/// The number of characters of the pieces.
pub open spec fn total_chars(p: Seq<PieceView>) -> nat
    decreases p.len(),
{
    if p.len() == 0 {
        0
    } else {
        total_chars(p.drop_last()) + p.last().1
    }
}

/// The first `k` pieces have no more characters than all of them.
pub proof fn lemma_total_chars_prefix(p: Seq<PieceView>, k: int)
    requires
        0 <= k <= p.len(),
    ensures
        total_chars(p.take(k)) <= total_chars(p),
    decreases p.len(),
{
    if k < p.len() {
        assert(p.drop_last().take(k) =~= p.take(k));
        lemma_total_chars_prefix(p.drop_last(), k);
    } else {
        assert(p.take(k) =~= p);
    }
}

/// The span that a piece starting at character `start` gives: one with the
/// style of its scope if the piece is not empty, its colour names a scope,
/// the caller keeps it and the scope has a style; none otherwise.
pub open spec fn piece_span(p: PieceView, start: int, keep: bool, styles: Seq<(String, Option<StaticStyle>)>) -> Seq<SpanView> {
    match p.0 {
        Some(scope) => if p.1 > 0 && keep {
            match style_for(styles, scope) {
                Some(st) => seq![(start, start + p.1, Some(static_style_view(st)))],
                None => Seq::empty(),
            }
        } else {
            Seq::empty()
        },
        None => Seq::empty(),
    }
}

/// The spans of the pieces of a line whose first character is character
/// `first` of the command; `keep` says for each piece whether the caller
/// keeps it.
pub open spec fn line_spans(p: Seq<PieceView>, first: int, keep: Seq<bool>, styles: Seq<(String, Option<StaticStyle>)>) -> Seq<SpanView>
    decreases p.len(),
{
    if p.len() == 0 {
        Seq::empty()
    } else {
        let k = p.len() - 1;
        line_spans(p.drop_last(), first, keep, styles) + piece_span(p[k], first + total_chars(p.drop_last()), keep[k], styles)
    }
}

/// How the groups of dynamic tokens change with one piece that starts at
/// character `start`: a kept piece that is not empty and names a scope is
/// added to them; any other leaves them as they are.
pub open spec fn piece_groups_step<'a>(
    before: Seq<DynamicTokenGroup<'a>>,
    after: Seq<DynamicTokenGroup<'a>>,
    p: (Option<&'a str>, usize),
    start: int,
    keep: bool,
) -> bool {
    if p.0 is Some && p.1 > 0 && keep {
        groups_updated(before, after, p.0->0, Range { start: start as usize, end: (start + p.1) as usize })
    } else {
        after == before
    }
}

/// Whether the groups go from `before` to `after` by the pieces of a line,
/// one after the other.
pub open spec fn groups_stepped<'a>(
    before: Seq<DynamicTokenGroup<'a>>,
    after: Seq<DynamicTokenGroup<'a>>,
    pieces: Seq<(Option<&'a str>, usize)>,
    first: int,
    keep: Seq<bool>,
) -> bool {
    exists|states: Seq<Seq<DynamicTokenGroup<'a>>>|
        #![trigger states.len()]
        {
            &&& states.len() == pieces.len() + 1
            &&& states[0] == before
            &&& states[pieces.len() as int] == after
            &&& forall|k: int|
                0 <= k < pieces.len() ==> piece_groups_step(
                    #[trigger] states[k],
                    states[k + 1],
                    pieces[k],
                    first + total_chars(pieces_view(pieces).take(k)),
                    keep[k],
                )
        }
}

/// Turns the pieces of one line into spans. Piece `k` covers the
/// characters after those of the pieces before it, counted from `first`;
/// a piece that is not empty, whose colour names a scope and that the
/// caller keeps (`keep[k]`) is added to the groups of dynamic tokens and,
/// if its scope has a style, gives a span with that style. Returns the
/// character after the line.
pub fn spans_of_line<'a>(
    pieces: &Vec<(Option<&'a str>, usize)>,
    first: usize,
    keep: &Vec<bool>,
    styles: &Vec<(String, Option<StaticStyle>)>,
    groups: &mut Vec<DynamicTokenGroup<'a>>,
    spans: &mut Vec<Span>,
) -> (next: usize)
    requires
        keep@.len() == pieces@.len(),
        first + total_chars(pieces_view(pieces@)) <= usize::MAX,
    ensures
        next == first + total_chars(pieces_view(pieces@)),
        spans_view(final(spans)@) == spans_view(old(spans)@) + line_spans(pieces_view(pieces@), first as int, keep@, styles@),
        old(spans)@.len() <= final(spans)@.len(),
        forall|j: int| 0 <= j < old(spans)@.len() ==> #[trigger] final(spans)@[j] == old(spans)@[j],
        forall|j: int|
            old(spans)@.len() <= j < final(spans)@.len() ==> first <= #[trigger] final(spans)@[j].start <= final(spans)@[j].end <= next,
        forall|a: int, b: int|
            old(spans)@.len() <= a < b < final(spans)@.len() ==> (#[trigger] final(spans)@[a]).end <= (#[trigger] final(spans)@[b]).start,
        groups_stepped(old(groups)@, final(groups)@, pieces@, first as int, keep@),
        groups_view(final(groups)@) == line_groups(groups_view(old(groups)@), pieces_view(pieces@), first as int, keep@),
{
    let ghost pv = pieces_view(pieces@);
    let ghost old_spans = spans@;
    let ghost mut states: Seq<Seq<DynamicTokenGroup<'a>>> = seq![groups@];
    let mut i = first;
    let mut k: usize = 0;
    assert(pv.take(0) =~= Seq::<PieceView>::empty());
    assert(spans_view(spans@) =~= spans_view(old_spans) + line_spans(pv.take(0), first as int, keep@, styles@));
    while k < pieces.len()
        invariant
            k <= pieces@.len(),
            keep@.len() == pieces@.len(),
            pv == pieces_view(pieces@),
            first + total_chars(pv) <= usize::MAX,
            i == first + total_chars(pv.take(k as int)),
            old_spans.len() <= spans@.len(),
            forall|j: int| 0 <= j < old_spans.len() ==> spans@[j] == old_spans[j],
            spans_view(spans@) == spans_view(old_spans) + line_spans(pv.take(k as int), first as int, keep@, styles@),
            forall|j: int| old_spans.len() <= j < spans@.len() ==> first <= #[trigger] spans@[j].start <= spans@[j].end <= i,
            forall|a: int, b: int| old_spans.len() <= a < b < spans@.len() ==> (#[trigger] spans@[a]).end <= (#[trigger] spans@[b]).start,
            states.len() == k + 1,
            states[0] == old(groups)@,
            states[k as int] == groups@,
            groups_view(groups@) == line_groups(groups_view(old(groups)@), pv.take(k as int), first as int, keep@),
            forall|j: int|
                0 <= j < k ==> piece_groups_step(
                    #[trigger] states[j],
                    states[j + 1],
                    pieces@[j],
                    first + total_chars(pv.take(j)),
                    keep@[j],
                ),
        decreases pieces@.len() - k,
    {
        let ghost before_spans = spans@;
        let ghost before_groups = groups@;
        proof {
            assert(pv.take(k + 1).drop_last() =~= pv.take(k as int));
            assert(pv.take(k + 1)[k as int] == pv[k as int]);
            lemma_total_chars_prefix(pv, k + 1);
        }
        let (scope, len) = pieces[k];
        if len > 0 {
            if let Some(s) = scope {
                if keep[k] {
                    let range = Range { start: i, end: i + len };
                    let ghost gb = groups@;
                    update_groups(s, &range, groups);
                    proof {
                        lemma_groups_updated_view(gb, groups@, s, range);
                    }
                    if let Some(style) = find_style(styles, s) {
                        spans.push(Span { start: i, end: i + len, style: SpanStyle::Static(style) });
                    }
                }
            }
        }
        assert(spans@.len() == before_spans.len() || (spans@.len() == before_spans.len() + 1 && spans@.last().start == i
            && spans@.last().end == i + len));
        proof {
            assert(forall|j: int| 0 <= j < before_spans.len() ==> spans@[j] == before_spans[j]);
            assert(spans_view(spans@) =~= spans_view(before_spans) + piece_span(pv[k as int], i as int, keep@[k as int], styles@));
            assert(spans_view(spans@) =~= spans_view(old_spans) + line_spans(pv.take(k + 1), first as int, keep@, styles@));
            states = states.push(groups@);
            assert(piece_groups_step(states[k as int], states[k + 1], pieces@[k as int], first + total_chars(pv.take(k as int)), keep@[k as int]));
        }
        let ghost prev = i;
        i = i + len;
        k = k + 1;
        assert forall|j: int| old_spans.len() <= j < spans@.len() implies first <= #[trigger] spans@[j].start <= spans@[j].end <= i by {
            if j < before_spans.len() {
                assert(spans@[j] == before_spans[j]);
                assert(first <= before_spans[j].start <= before_spans[j].end <= prev);
            } else {
                assert(spans@[j] == spans@.last());
            }
        }
        assert forall|a: int, b: int| old_spans.len() <= a < b < spans@.len() implies (#[trigger] spans@[a]).end <= (#[trigger] spans@[b]).start by {
            assert(spans@[a] == before_spans[a]);
            if b < before_spans.len() {
                assert(spans@[b] == before_spans[b]);
            } else {
                assert(spans@[b] == spans@.last());
                assert(first <= before_spans[a].start <= before_spans[a].end <= prev);
            }
        }
    }
    assert(pv.take(k as int) =~= pv);
    assert(states[pieces@.len() as int] == groups@);
    i
}

/// `SyntaxSet::find_syntax_by_extension` followed by `HighlightLines::new`:
/// a highlighter at the start of a text, with the syntax that the set has
/// for `extension` and the colours of `theme`, if the set has one. The
/// syntaxes come from syntect's dump, so the syntax has the start context
/// that the parser looks up.
#[verifier::external_body]
fn new_highlight_lines<'a>(syntaxes: &'a Syntaxes, theme: &'a Theme, extension: &str) -> (r: Option<HighlightLines<'a>>)
    ensures
        r is Some == finds_syntax(syntaxes.spec_set(), extension@),
{
    match syntaxes.syntax_set().find_syntax_by_extension(extension) {
        Some(syntax) => Some(HighlightLines::new(syntax, theme)),
        None => None,
    }
}

/// What the theme-driven highlighter gives for `line` with the shell
/// grammar of `set` (the syntax for the extension `sh`) and the colours of
/// `theme`, after the lines `before` were given to a fresh highlighter one
/// after the other: the pieces of the line, each with its foreground colour
/// and its bytes, or `None` if the parser fails on the line.
pub uninterp spec fn shell_line_pieces(set: SyntaxSet, theme: Theme, before: Seq<Seq<u8>>, line: Seq<u8>) -> Option<Seq<(Rgba, Seq<u8>)>>;

/// A highlighter for the lines of one text with the shell grammar, together
/// with the syntaxes that grammar comes from, the theme, and the lines given
/// to it so far; its state always belongs to those.
pub struct LineHighlighter<'a> {
    lines: HighlightLines<'a>,
    syntaxes: &'a Syntaxes,
    theme: &'a Theme,
    before: Ghost<Seq<Seq<u8>>>,
}

impl<'a> LineHighlighter<'a> {
    /// The syntax set of the highlighter's grammar.
    pub closed spec fn spec_set(&self) -> SyntaxSet {
        self.syntaxes.spec_set()
    }

    /// The highlighter's theme.
    pub closed spec fn spec_theme(&self) -> Theme {
        *self.theme
    }

    /// The lines given to the highlighter so far.
    pub closed spec fn history(&self) -> Seq<Seq<u8>> {
        self.before@
    }

    /// A highlighter positioned at the start of a text, with the shell
    /// grammar of `syntaxes` (the syntax for the extension `sh`) and the
    /// colours of `theme`; `None` if there is no such grammar.
    pub fn for_shell(syntaxes: &'a Syntaxes, theme: &'a Theme) -> (r: Option<Self>)
        ensures
            r is Some == finds_syntax(syntaxes.spec_set(), "sh"@),
            r matches Some(h) ==> h.spec_set() == syntaxes.spec_set() && h.spec_theme() == *theme && h.history() == Seq::<
                Seq<u8>,
            >::empty(),
    {
        match new_highlight_lines(syntaxes, theme, "sh") {
            Some(lines) => Some(LineHighlighter { lines, syntaxes, theme, before: Ghost(Seq::empty()) }),
            None => None,
        }
    }

    /// Highlights the next line: its pieces as the highlighter gives them
    /// after the lines before it.
    pub fn highlight<'b>(&mut self, line: &'b str) -> (r: Result<Vec<(Rgba, &'b str)>, syntect::Error>)
        ensures
            final(self).spec_set() == old(self).spec_set(),
            final(self).spec_theme() == old(self).spec_theme(),
            final(self).history() == old(self).history().push(line.spec_bytes()),
            match r {
                Ok(pieces) => shell_line_pieces(old(self).spec_set(), old(self).spec_theme(), old(self).history(), line.spec_bytes())
                    == Some(raw_pieces(pieces@)),
                Err(_) => shell_line_pieces(old(self).spec_set(), old(self).spec_theme(), old(self).history(), line.spec_bytes()) is None,
            },
            r matches Ok(pieces) ==> flat_bytes(raw_pieces(pieces@)).is_prefix_of(line.spec_bytes()),
    {
        let r = highlight_line(self, line);
        self.before = Ghost(self.before@.push(line.spec_bytes()));
        r
    }
}

/// The bytes of the pieces, one after the other.
pub open spec fn flat_bytes(p: Seq<(Rgba, Seq<u8>)>) -> Seq<u8>
    decreases p.len(),
{
    if p.len() == 0 {
        Seq::empty()
    } else {
        flat_bytes(p.drop_last()) + p.last().1
    }
}

/// Pieces of a line taken by their colour and their bytes.
pub open spec fn raw_pieces(p: Seq<(Rgba, &str)>) -> Seq<(Rgba, Seq<u8>)> {
    p.map_values(|x: (Rgba, &str)| (x.0, x.1.spec_bytes()))
}

/// `HighlightLines::highlight_line` with the highlighter's own syntax set:
/// the next line cut into pieces, each with the foreground colour of its
/// style, as the highlighter gives them after the lines given to it before;
/// an error exactly when the parser fails on the line. The pieces are slices
/// of the line, one after the other from its start (syntect documents that
/// they make up the line; its source stops early where the scope stack
/// refuses an operation, so only a prefix is stated).
#[verifier::external_body]
fn highlight_line<'a, 'b>(h: &mut LineHighlighter<'a>, line: &'b str) -> (r: Result<Vec<(Rgba, &'b str)>, syntect::Error>)
    ensures
        final(h).spec_set() == old(h).spec_set(),
        final(h).spec_theme() == old(h).spec_theme(),
        final(h).history() == old(h).history(),
        match r {
            Ok(pieces) => shell_line_pieces(old(h).spec_set(), old(h).spec_theme(), old(h).history(), line.spec_bytes())
                == Some(raw_pieces(pieces@)),
            Err(_) => shell_line_pieces(old(h).spec_set(), old(h).spec_theme(), old(h).history(), line.spec_bytes()) is None,
        },
        r matches Ok(pieces) ==> flat_bytes(raw_pieces(pieces@)).is_prefix_of(line.spec_bytes()),
{
    match h.lines.highlight_line(line, h.syntaxes.syntax_set()) {
        Ok(pieces) => Ok(
            pieces.into_iter().map(|(style, text)| ((style.foreground.r, style.foreground.g, style.foreground.b, style.foreground.a), text)).collect(),
        ),
        Err(e) => Err(e),
    }
}

/// `Instant::now`: the current time. Nothing is stated of it.
#[verifier::external_body]
fn now() -> Instant {
    Instant::now()
}

/// `Instant::elapsed`: the time since `start`. Nothing is stated: it
/// depends on the clock.
#[verifier::external_body]
fn elapsed(start: &Instant) -> Duration {
    start.elapsed()
}

/// `Duration::as_nanos`: a duration in nanoseconds, which orders durations
/// as they order themselves. Nothing is stated: the duration is opaque here.
#[verifier::external_body]
fn duration_nanos(d: &Duration) -> u128 {
    d.as_nanos()
}

/// The pieces of a line taken by the scope that their colour names in
/// `table` and their length in characters.
pub open spec fn decoded_pieces(table: Seq<(Rgba, String)>, raw: Seq<(Rgba, Seq<u8>)>) -> Seq<PieceView> {
    raw.map_values(|p: (Rgba, Seq<u8>)| (decode_spec(table, p.0), char_count(p.1)))
}

/// The character range of piece `k` of a line that starts at character
/// `first`.
pub open spec fn piece_range(p: Seq<PieceView>, first: int, k: int) -> Range<usize> {
    Range { start: (first + total_chars(p.take(k))) as usize, end: (first + total_chars(p.take(k)) + p[k].1) as usize }
}

/// The lines among `lines` that have at most `max` bytes, in order.
pub open spec fn short_lines(lines: Seq<Seq<u8>>, max: nat) -> Seq<Seq<u8>>
    decreases lines.len(),
{
    if lines.len() == 0 {
        Seq::empty()
    } else if lines.last().len() <= max {
        short_lines(lines.drop_last(), max).push(lines.last())
    } else {
        short_lines(lines.drop_last(), max)
    }
}

/// The pieces of line `j` of the command (without its trailing whitespace),
/// highlighted after the lines before it that are not too long.
pub open spec fn line_pieces(set: SyntaxSet, theme: Theme, command: Seq<u8>, max: nat, j: int) -> Option<Seq<(Rgba, Seq<u8>)>> {
    let lines = command_lines(command);
    shell_line_pieces(set, theme, short_lines(lines.take(j), max), lines[j])
}

/// The character of the command at which line `j` starts.
pub open spec fn line_start(command: Seq<u8>, j: int) -> int {
    char_count(command.take(total_len(command_lines(command).take(j)) as int)) as int
}

/// The texts of pieces of a line, from their bytes.
pub open spec fn raw_texts(raw: Seq<(Rgba, Seq<u8>)>) -> Seq<Seq<char>> {
    raw.map_values(|p: (Rgba, Seq<u8>)| vstd::utf8::decode_utf8(p.1))
}

/// The shell words of the groups of a line.
pub open spec fn line_words(texts: Seq<Seq<char>>, p: Seq<PieceView>, first: int, gs: Seq<GroupView>) -> Seq<Seq<char>> {
    Seq::new(gs.len(), |g: int| clean_word(group_text(texts, p, first, gs[g])))
}

/// The spans of a line whose pieces `p` (with texts `texts`) start at
/// character `first`, the caller keeping the pieces `keep` and finding the
/// words of the groups to name `paths`: the groups of command names and
/// arguments give one span each, in place of the spans of their pieces.
pub open spec fn spans_of_pieces(
    p: Seq<PieceView>,
    first: int,
    keep: Seq<bool>,
    styles: Seq<(String, Option<StaticStyle>)>,
    texts: Seq<Seq<char>>,
    paths: Seq<PathKind>,
) -> Seq<SpanView> {
    let gs = line_groups(Seq::empty(), p, first, keep);
    line_final(p, first, keep, styles, gs, line_words(texts, p, first, gs), paths)
}

/// Whether `paths` says, for the word of each group of a command name or of
/// arguments of a line, what the caller found it to name.
pub open spec fn paths_fit<R: Fn(&String) -> PathKind>(
    p: Seq<PieceView>,
    first: int,
    keep: Seq<bool>,
    texts: Seq<Seq<char>>,
    paths: Seq<PathKind>,
    resolve: R,
) -> bool {
    let gs = line_groups(Seq::empty(), p, first, keep);
    let words = line_words(texts, p, first, gs);
    &&& paths.len() == gs.len()
    &&& forall|g: int|
        0 <= g < gs.len() && (#[trigger] gs[g]).2 != GroupKind::Unknown ==> exists|w: String|
            w@ == words[g] && #[trigger] call_ensures(resolve, (&w,), paths[g])
}

/// Whether `keep` says, for each piece of a line that starts at character
/// `first` and that names a scope and is not empty, what the predicate said
/// for the piece's character range.
pub open spec fn keep_fits<P: Fn(&Range<usize>) -> bool>(p: Seq<PieceView>, first: int, keep: Seq<bool>, predicate: P) -> bool {
    &&& keep.len() == p.len()
    &&& forall|k: int|
        0 <= k < p.len() && (#[trigger] p[k]).0 is Some && p[k].1 > 0 ==> call_ensures(predicate, (&piece_range(p, first, k),), keep[k])
}

/// Whether `keeps` and `paths` hold the predicate's and the caller's
/// answers for the pieces and groups of each of the first `stop` lines that
/// is highlighted.
pub open spec fn answers_fit<P: Fn(&Range<usize>) -> bool, R: Fn(&String) -> PathKind>(
    set: SyntaxSet,
    theme: Theme,
    table: Seq<(Rgba, String)>,
    command: Seq<u8>,
    max: nat,
    keeps: Seq<Seq<bool>>,
    paths: Seq<Seq<PathKind>>,
    stop: nat,
    predicate: P,
    resolve: R,
) -> bool {
    forall|j: int|
        0 <= j < stop && command_lines(command)[j].len() <= max && #[trigger] line_pieces(set, theme, command, max, j) is Some
            ==> {
            let raw = line_pieces(set, theme, command, max, j)->0;
            &&& keep_fits(decoded_pieces(table, raw), line_start(command, j), keeps[j], predicate)
            &&& paths_fit(decoded_pieces(table, raw), line_start(command, j), keeps[j], raw_texts(raw), paths[j], resolve)
        }
}

/// What highlighting the first `stop` lines of one command part gives: the
/// lines longer than `max` bytes are skipped; each other line is cut into
/// pieces by the highlighter, and its spans follow, counted in characters
/// of the command; the first line on which the parser fails makes it fail.
pub open spec fn highlight_upto(
    set: SyntaxSet,
    theme: Theme,
    table: Seq<(Rgba, String)>,
    styles: Seq<(String, Option<StaticStyle>)>,
    command: Seq<u8>,
    max: nat,
    keeps: Seq<Seq<bool>>,
    paths: Seq<Seq<PathKind>>,
    stop: nat,
) -> Result<Seq<SpanView>, HighlightError>
    decreases stop,
{
    if stop == 0 {
        Ok(Seq::empty())
    } else {
        let j = stop - 1;
        match highlight_upto(set, theme, table, styles, command, max, keeps, paths, j as nat) {
            Err(e) => Err(e),
            Ok(spans) => if command_lines(command)[j].len() > max {
                Ok(spans)
            } else {
                match line_pieces(set, theme, command, max, j) {
                    None => Err(HighlightError::HighlightFailed),
                    Some(raw) => Ok(
                        spans + spans_of_pieces(decoded_pieces(table, raw), line_start(command, j), keeps[j], styles, raw_texts(raw), paths[j]),
                    ),
                }
            },
        }
    }
}

/// Whether `outcome` is what highlighting one command part (without a
/// `time` prefix) gives: no shell grammar, or what the first `stop` lines
/// give, for the point `stop` at which time ran out (all lines if it did
/// not) and the predicate's answers.
pub open spec fn highlights<P: Fn(&Range<usize>) -> bool, R: Fn(&String) -> PathKind>(
    set: SyntaxSet,
    theme: Theme,
    table: Seq<(Rgba, String)>,
    styles: Seq<(String, Option<StaticStyle>)>,
    command: Seq<u8>,
    max: nat,
    predicate: P,
    resolve: R,
    outcome: Result<Seq<SpanView>, HighlightError>,
) -> bool {
    if !finds_syntax(set, "sh"@) {
        outcome == Err::<Seq<SpanView>, HighlightError>(HighlightError::NoShellSyntax)
    } else {
        exists|stop: nat, keeps: Seq<Seq<bool>>, paths: Seq<Seq<PathKind>>|
            #[trigger] answers_fit(set, theme, table, command, max, keeps, paths, stop, predicate, resolve) && stop
                <= command_lines(command).len() && highlight_upto(set, theme, table, styles, command, max, keeps, paths, stop)
                == outcome
    }
}

/// Whether `outcome` is what highlighting one command part (without a
/// `time` prefix) gives with the clock `in_time`: no shell grammar, or what
/// the first `stop` lines give, where `stop` is short of the number of lines
/// only if a line failed or the clock said that time was up.
pub open spec fn highlights_in_time<P: Fn(&Range<usize>) -> bool, R: Fn(&String) -> PathKind, T: Fn() -> bool>(
    set: SyntaxSet,
    theme: Theme,
    table: Seq<(Rgba, String)>,
    styles: Seq<(String, Option<StaticStyle>)>,
    command: Seq<u8>,
    max: nat,
    predicate: P,
    resolve: R,
    in_time: T,
    outcome: Result<Seq<SpanView>, HighlightError>,
) -> bool {
    if !finds_syntax(set, "sh"@) {
        outcome == Err::<Seq<SpanView>, HighlightError>(HighlightError::NoShellSyntax)
    } else {
        exists|stop: nat, keeps: Seq<Seq<bool>>, paths: Seq<Seq<PathKind>>|
            #[trigger] answers_fit(set, theme, table, command, max, keeps, paths, stop, predicate, resolve) && stop
                <= command_lines(command).len() && highlight_upto(set, theme, table, styles, command, max, keeps, paths, stop)
                == outcome && (stop < command_lines(command).len() ==> outcome is Err || call_ensures(in_time, (), false))
    }
}

/// Whatever the clock says, highlighting with it gives what highlighting
/// one command part may give.
pub proof fn lemma_in_time_highlights<P: Fn(&Range<usize>) -> bool, R: Fn(&String) -> PathKind, T: Fn() -> bool>(
    set: SyntaxSet,
    theme: Theme,
    table: Seq<(Rgba, String)>,
    styles: Seq<(String, Option<StaticStyle>)>,
    command: Seq<u8>,
    max: nat,
    predicate: P,
    resolve: R,
    in_time: T,
    outcome: Result<Seq<SpanView>, HighlightError>,
)
    requires
        highlights_in_time(set, theme, table, styles, command, max, predicate, resolve, in_time, outcome),
    ensures
        highlights(set, theme, table, styles, command, max, predicate, resolve, outcome),
{
    if finds_syntax(set, "sh"@) {
        let (stop, keeps, paths) = choose|stop: nat, keeps: Seq<Seq<bool>>, paths: Seq<Seq<PathKind>>|
            #[trigger] answers_fit(set, theme, table, command, max, keeps, paths, stop, predicate, resolve) && stop
                <= command_lines(command).len() && highlight_upto(set, theme, table, styles, command, max, keeps, paths, stop)
                == outcome && (stop < command_lines(command).len() ==> outcome is Err || call_ensures(in_time, (), false));
        assert(answers_fit(set, theme, table, command, max, keeps, paths, stop, predicate, resolve));
    }
}

/// Once a line fails, highlighting more lines fails the same way: the first
/// `b` lines give the error of the first `a`, which is that a line that is
/// not too long could not be highlighted.
pub proof fn lemma_highlight_upto_fails(
    set: SyntaxSet,
    theme: Theme,
    table: Seq<(Rgba, String)>,
    styles: Seq<(String, Option<StaticStyle>)>,
    command: Seq<u8>,
    max: nat,
    keeps: Seq<Seq<bool>>,
    paths: Seq<Seq<PathKind>>,
    a: nat,
    b: nat,
)
    requires
        a <= b,
        highlight_upto(set, theme, table, styles, command, max, keeps, paths, a) is Err,
    ensures
        highlight_upto(set, theme, table, styles, command, max, keeps, paths, b) == highlight_upto(
            set,
            theme,
            table,
            styles,
            command,
            max,
            keeps,
            paths,
            a,
        ),
        highlight_upto(set, theme, table, styles, command, max, keeps, paths, a) == Err::<Seq<SpanView>, HighlightError>(
            HighlightError::HighlightFailed,
        ),
        exists|j: int|
            0 <= j < a && command_lines(command)[j].len() <= max && #[trigger] line_pieces(set, theme, command, max, j) is None,
    decreases b,
{
    if a < b {
        lemma_highlight_upto_fails(set, theme, table, styles, command, max, keeps, paths, a, (b - 1) as nat);
    } else {
        let j = a - 1;
        if highlight_upto(set, theme, table, styles, command, max, keeps, paths, j as nat) is Err {
            lemma_highlight_upto_fails(set, theme, table, styles, command, max, keeps, paths, j as nat, j as nat);
        } else {
            assert(line_pieces(set, theme, command, max, j) is None);
        }
    }
}

/// While there is time, every line is highlighted: with a clock that never
/// says that time is up, the outcome is what all the lines of the command
/// give, with the predicate's and the caller's answers for each of them,
/// or the error of a line that is not too long and could not be
/// highlighted.
pub proof fn lemma_highlights_every_line_in_time<P: Fn(&Range<usize>) -> bool, R: Fn(&String) -> PathKind, T: Fn() -> bool>(
    set: SyntaxSet,
    theme: Theme,
    table: Seq<(Rgba, String)>,
    styles: Seq<(String, Option<StaticStyle>)>,
    command: Seq<u8>,
    max: nat,
    predicate: P,
    resolve: R,
    in_time: T,
    outcome: Result<Seq<SpanView>, HighlightError>,
)
    requires
        finds_syntax(set, "sh"@),
        forall|b: bool| call_ensures(in_time, (), b) ==> b,
        highlights_in_time(set, theme, table, styles, command, max, predicate, resolve, in_time, outcome),
    ensures
        outcome is Ok ==> exists|keeps: Seq<Seq<bool>>, paths: Seq<Seq<PathKind>>|
            #[trigger] answers_fit(set, theme, table, command, max, keeps, paths, command_lines(command).len(), predicate, resolve)
                && highlight_upto(set, theme, table, styles, command, max, keeps, paths, command_lines(command).len())
                == outcome,
        outcome is Err ==> outcome == Err::<Seq<SpanView>, HighlightError>(HighlightError::HighlightFailed) && exists|j: int|
            0 <= j < command_lines(command).len() && command_lines(command)[j].len() <= max && #[trigger] line_pieces(
                set,
                theme,
                command,
                max,
                j,
            ) is None,
{
    let n = command_lines(command).len();
    let (stop, keeps, paths) = choose|stop: nat, keeps: Seq<Seq<bool>>, paths: Seq<Seq<PathKind>>|
        #[trigger] answers_fit(set, theme, table, command, max, keeps, paths, stop, predicate, resolve) && stop <= n
            && highlight_upto(set, theme, table, styles, command, max, keeps, paths, stop) == outcome && (stop < n
            ==> outcome is Err || call_ensures(in_time, (), false));
    if outcome is Ok {
        assert(stop == n);
        assert(answers_fit(set, theme, table, command, max, keeps, paths, n, predicate, resolve));
    } else {
        lemma_highlight_upto_fails(set, theme, table, styles, command, max, keeps, paths, stop, stop);
    }
}

/// A result taken by the views of its spans.
pub open spec fn outcome_view(r: Result<Vec<Span>, HighlightError>) -> Result<Seq<SpanView>, HighlightError> {
    match r {
        Ok(spans) => Ok(spans_view(spans@)),
        Err(e) => Err(e),
    }
}

/// The pieces of a line decoded: for each piece the scope that its colour
/// names in `scopes` and its length in characters, and whether the caller
/// keeps it. The predicate is asked about the character range of each piece
/// that names a scope and is not empty, the line starting at character
/// `first`; other pieces are not kept.
fn decode_line<'a, 'b, P: Fn(&Range<usize>) -> bool>(
    pieces: &Vec<(Rgba, &'b str)>,
    scopes: &'a Vec<(Rgba, String)>,
    first: usize,
    predicate: &P,
    Ghost(bound): Ghost<nat>,
) -> (r: (Vec<(Option<&'a str>, usize)>, Vec<bool>))
    requires
        first + char_count(flat_bytes(raw_pieces(pieces@))) <= bound,
        bound <= usize::MAX,
        forall|range: Range<usize>| range.start < range.end <= bound ==> call_requires(*predicate, (&range,)),
    ensures
        pieces_view(r.0@) == decoded_pieces(scopes@, raw_pieces(pieces@)),
        total_chars(pieces_view(r.0@)) == char_count(flat_bytes(raw_pieces(pieces@))),
        keep_fits(pieces_view(r.0@), first as int, r.1@, *predicate),
{
    let ghost raw = raw_pieces(pieces@);
    let mut decoded: Vec<(Option<&'a str>, usize)> = Vec::new();
    let mut keep: Vec<bool> = Vec::new();
    let mut c: usize = first;
    let mut m: usize = 0;
    assert(raw.take(0) =~= Seq::<(Rgba, Seq<u8>)>::empty());
    assert(pieces_view(decoded@) =~= decoded_pieces(scopes@, raw.take(0)));
    while m < pieces.len()
        invariant
            m <= pieces@.len(),
            raw == raw_pieces(pieces@),
            first + char_count(flat_bytes(raw)) <= bound,
            bound <= usize::MAX,
            forall|range: Range<usize>| range.start < range.end <= bound ==> call_requires(*predicate, (&range,)),
            decoded@.len() == m,
            keep@.len() == m,
            pieces_view(decoded@) == decoded_pieces(scopes@, raw.take(m as int)),
            total_chars(pieces_view(decoded@)) == char_count(flat_bytes(raw.take(m as int))),
            c == first + total_chars(pieces_view(decoded@)),
            forall|j: int|
                0 <= j < m && (#[trigger] pieces_view(decoded@)[j]).0 is Some && pieces_view(decoded@)[j].1 > 0
                    ==> call_ensures(*predicate, (&piece_range(pieces_view(decoded@), first as int, j),), keep@[j]),
        decreases pieces@.len() - m,
    {
        let ghost before = pieces_view(decoded@);
        let (color, text) = pieces[m];
        let tb = text.as_bytes();
        let len = count_chars(tb, tb.len());
        assert(tb@.take(tb@.len() as int) =~= tb@);
        proof {
            assert(raw.take(m + 1).drop_last() =~= raw.take(m as int));
            assert(raw.take(m + 1).last() == raw[m as int]);
            lemma_char_count_concat(flat_bytes(raw.take(m as int)), raw[m as int].1);
            lemma_flat_bytes_chars_prefix(raw, m + 1);
        }
        let scope = decode_scope(scopes, color);
        let kept = if scope.is_some() && len > 0 {
            predicate(&Range { start: c, end: c + len })
        } else {
            false
        };
        decoded.push((scope, len));
        keep.push(kept);
        proof {
            let after = pieces_view(decoded@);
            assert(after =~= before.push(piece_view((scope, len))));
            assert(after =~= decoded_pieces(scopes@, raw.take(m + 1)));
            assert(after.drop_last() =~= before);
            assert forall|j: int|
                0 <= j < m + 1 && (#[trigger] after[j]).0 is Some && after[j].1 > 0
                    implies call_ensures(*predicate, (&piece_range(after, first as int, j),), keep@[j]) by {
                if j < m {
                    assert(after.take(j) =~= before.take(j));
                    assert(after[j] == before[j]);
                    assert(piece_range(after, first as int, j) == piece_range(before, first as int, j));
                } else {
                    assert(after.take(j) =~= before);
                }
            }
        }
        c = c + len;
        m = m + 1;
    }
    assert(raw.take(m as int) =~= raw);
    (decoded, keep)
}

/// The first `k` pieces have no more characters than all of them.
pub proof fn lemma_flat_bytes_chars_prefix(p: Seq<(Rgba, Seq<u8>)>, k: int)
    requires
        0 <= k <= p.len(),
    ensures
        char_count(flat_bytes(p.take(k))) <= char_count(flat_bytes(p)),
    decreases p.len(),
{
    if k < p.len() {
        assert(p.drop_last().take(k) =~= p.take(k));
        lemma_flat_bytes_chars_prefix(p.drop_last(), k);
        lemma_char_count_concat(flat_bytes(p.drop_last()), p.last().1);
    } else {
        assert(p.take(k) =~= p);
    }
}

/// Highlighting depends on the predicate's answers for the lines it
/// highlights only.
pub proof fn lemma_highlight_upto_keeps(
    set: SyntaxSet,
    theme: Theme,
    table: Seq<(Rgba, String)>,
    styles: Seq<(String, Option<StaticStyle>)>,
    command: Seq<u8>,
    max: nat,
    keeps: Seq<Seq<bool>>,
    paths: Seq<Seq<PathKind>>,
    other_keeps: Seq<Seq<bool>>,
    other_paths: Seq<Seq<PathKind>>,
    stop: nat,
)
    requires
        forall|j: int| 0 <= j < stop ==> #[trigger] keeps[j] == other_keeps[j] && paths[j] == other_paths[j],
    ensures
        highlight_upto(set, theme, table, styles, command, max, keeps, paths, stop) == highlight_upto(
            set,
            theme,
            table,
            styles,
            command,
            max,
            other_keeps,
            other_paths,
            stop,
        ),
    decreases stop,
{
    if stop > 0 {
        lemma_highlight_upto_keeps(set, theme, table, styles, command, max, keeps, paths, other_keeps, other_paths, (stop - 1) as nat);
        assert(keeps[stop - 1] == other_keeps[stop - 1]);
    }
}

/// Time running out later only adds spans: the spans of the first `a`
/// lines come first among those of the first `b` lines.
pub proof fn lemma_highlight_upto_grows(
    set: SyntaxSet,
    theme: Theme,
    table: Seq<(Rgba, String)>,
    styles: Seq<(String, Option<StaticStyle>)>,
    command: Seq<u8>,
    max: nat,
    keeps: Seq<Seq<bool>>,
    paths: Seq<Seq<PathKind>>,
    a: nat,
    b: nat,
)
    requires
        a <= b,
        highlight_upto(set, theme, table, styles, command, max, keeps, paths, b) is Ok,
    ensures
        highlight_upto(set, theme, table, styles, command, max, keeps, paths, a) is Ok,
        highlight_upto(set, theme, table, styles, command, max, keeps, paths, a)->Ok_0.is_prefix_of(
            highlight_upto(set, theme, table, styles, command, max, keeps, paths, b)->Ok_0,
        ),
    decreases b,
{
    if a < b {
        lemma_highlight_upto_grows(set, theme, table, styles, command, max, keeps, paths, a, (b - 1) as nat);
    }
}

/// Highlights the lines of one command part (without a `time` prefix) as
/// [`highlight_internal`] does, with `in_time` for the clock: it is asked,
/// before each line that is not too long, whether there is still time, and
/// the first `false` leaves out that line and all lines after it.
#[verifier::rlimit(80)]
pub fn highlight_lines<P: Fn(&Range<usize>) -> bool, R: Fn(&String) -> PathKind, T: Fn() -> bool>(
    command: &str,
    syntaxes: &Syntaxes,
    theme: &Theme,
    scopes: &Vec<(Rgba, String)>,
    styles: &Vec<(String, Option<StaticStyle>)>,
    max_line_length: usize,
    predicate: P,
    resolve: R,
    in_time: T,
) -> (r: Result<Vec<Span>, HighlightError>)
    requires
        command.spec_bytes().len() < usize::MAX,
        forall|range: Range<usize>|
            range.start < range.end <= char_count(command.spec_bytes()) ==> call_requires(predicate, (&range,)),
        forall|w: String| call_requires(resolve, (&w,)),
        call_requires(in_time, ()),
    ensures
        highlights_in_time(
            syntaxes.spec_set(),
            *theme,
            scopes@,
            styles@,
            command.spec_bytes(),
            max_line_length as nat,
            predicate,
            resolve,
            in_time,
            outcome_view(r),
        ),
        r matches Ok(spans) ==> forall|j: int|
            0 <= j < spans@.len() ==> (#[trigger] spans@[j]).start <= spans@[j].end <= char_count(command.spec_bytes()),
{
    let ghost set = syntaxes.spec_set();
    let ghost max = max_line_length as nat;
    let mut h = match LineHighlighter::for_shell(syntaxes, theme) {
        Some(h) => h,
        None => return Err(HighlightError::NoShellSyntax),
    };
    let bytes = command.as_bytes();
    let ghost cb = bytes@;
    let t = trim_end_len(bytes);
    proof {
        lemma_trimmed_len(cb);
        lemma_boundary_at_ascii(cb, t as int);
        lemma_char_count_le(cb);
    }
    let (trimmed, _) = command.split_at(t);
    let ghost lines = command_lines(cb);
    assert(trimmed.spec_bytes() =~= cb.take(t as int));
    assert(cb.take(t as int) =~= cb.subrange(0, t as int));
    let mut rest = trimmed;
    let mut offset: usize = 0;
    let mut index: usize = 0;
    let mut lc: usize = 0;
    let mut result: Vec<Span> = Vec::new();
    let ghost mut keeps: Seq<Seq<bool>> = Seq::empty();
    let ghost mut paths: Seq<Seq<PathKind>> = Seq::empty();
    let ghost mut timed_out = false;
    assert(lines.take(0) =~= Seq::<Seq<u8>>::empty());
    assert(lines.skip(0) =~= lines);
    assert(cb.take(0) =~= Seq::<u8>::empty());
    assert(spans_view(result@) =~= Seq::<SpanView>::empty());
    while rest.len() > 0
        invariant
            cb == command.spec_bytes(),
            cb.len() < usize::MAX,
            char_count(cb) <= cb.len(),
            lines == command_lines(cb),
            index <= lines.len(),
            index <= offset,
            offset + rest.spec_bytes().len() == t,
            t <= cb.len(),
            offset == total_len(lines.take(index as int)),
            split_lines(rest.spec_bytes()) == lines.skip(index as int),
            rest.spec_bytes() == cb.subrange(offset as int, t as int),
            lc == char_count(cb.take(offset as int)),
            lc <= char_count(cb),
            forall|range: Range<usize>| range.start < range.end <= char_count(cb) ==> call_requires(predicate, (&range,)),
            forall|w: String| call_requires(resolve, (&w,)),
            call_requires(in_time, ()),
            timed_out ==> call_ensures(in_time, (), false),
            finds_syntax(set, "sh"@),
            set == syntaxes.spec_set(),
            max == max_line_length as nat,
            h.spec_set() == set,
            h.spec_theme() == *theme,
            h.history() == short_lines(lines.take(index as int), max),
            keeps.len() == index,
            paths.len() == index,
            answers_fit(set, *theme, scopes@, cb, max, keeps, paths, index as nat, predicate, resolve),
            highlight_upto(set, *theme, scopes@, styles@, cb, max, keeps, paths, index as nat) == Ok::<
                Seq<SpanView>,
                HighlightError,
            >(spans_view(result@)),
            forall|j: int| 0 <= j < result@.len() ==> (#[trigger] result@[j]).start <= result@[j].end <= lc,
        ensures
            timed_out || rest.spec_bytes().len() == 0,
        decreases rest.spec_bytes().len(),
    {
        let ghost rb0 = rest.spec_bytes();
        let rb = rest.as_bytes();
        let k = find_line_end(rb);
        proof {
            lemma_line_end(rb0);
            if k < rb0.len() {
                lemma_boundary_after_ascii(rb0, k as int);
            } else {
                lemma_boundary_at_ascii(rb0, k as int);
            }
        }
        let n = count_chars(rb, k);
        let (line, tail) = rest.split_at(k);
        let ghost lb = line.spec_bytes();
        proof {
            assert(lb =~= rb0.take(k as int));
            assert(tail.spec_bytes() =~= rb0.skip(k as int));
            assert(split_lines(rb0) == seq![lb] + split_lines(tail.spec_bytes()));
            assert(lines.skip(index as int)[0] == lb);
            assert(lines[index as int] == lb);
            assert(lines.skip(index + 1) =~= lines.skip(index as int).drop_first());
            assert(seq![lb] + split_lines(tail.spec_bytes()) =~= lines.skip(index as int));
            assert(split_lines(tail.spec_bytes()) =~= lines.skip(index as int).drop_first());
            assert(lines.take(index + 1).drop_last() =~= lines.take(index as int));
            assert(lines.take(index + 1).last() == lb);
            assert(total_len(lines.take(index + 1)) == offset + k);
            assert(tail.spec_bytes() =~= cb.subrange(offset + k, t as int));
            assert(cb.take(offset + k) =~= cb.take(offset as int) + lb);
            lemma_char_count_concat(cb.take(offset as int), lb);
            lemma_char_count_prefix(cb, offset + k);
            assert(n == char_count(lb));
            assert(line_start(cb, index as int) == lc);
        }
        let ghost before_spans = result@;
        if k > max_line_length {
            proof {
                let nk = keeps.push(Seq::<bool>::empty());
                let np = paths.push(Seq::<PathKind>::empty());
                lemma_highlight_upto_keeps(set, *theme, scopes@, styles@, cb, max, keeps, paths, nk, np, index as nat);
                assert(lb.len() > max);
                assert(lines.take(index + 1).last().len() > max);
                assert(short_lines(lines.take(index + 1), max) == short_lines(lines.take(index as int), max));
                lemma_answers_fit_push(set, *theme, scopes@, cb, max, keeps, paths, nk, np, index as nat, predicate, resolve);
                keeps = nk;
                paths = np;
            }
            offset = offset + k;
            index = index + 1;
            lc = lc + n;
            rest = tail;
            continue;
        }
        let go_on = in_time();
        if !go_on {
            proof {
                timed_out = true;
            }
            break;
        }
        let pieces = match h.highlight(line) {
            Ok(p) => p,
            Err(_) => {
                proof {
                    let nk = keeps.push(Seq::<bool>::empty());
                    let np = paths.push(Seq::<PathKind>::empty());
                    lemma_highlight_upto_keeps(set, *theme, scopes@, styles@, cb, max, keeps, paths, nk, np, index as nat);
                    assert(!(lb.len() > max));
                    assert(command_lines(cb)[index as int] == lb);
                    assert(line_pieces(set, *theme, cb, max, index as int) is None);
                    assert(highlight_upto(set, *theme, scopes@, styles@, cb, max, nk, np, (index + 1) as nat) == Err::<
                        Seq<SpanView>,
                        HighlightError,
                    >(HighlightError::HighlightFailed));
                    lemma_answers_fit_push(set, *theme, scopes@, cb, max, keeps, paths, nk, np, index as nat, predicate, resolve);
                    assert(answers_fit(set, *theme, scopes@, cb, max, nk, np, (index + 1) as nat, predicate, resolve));
                }
                return Err(HighlightError::HighlightFailed);
            },
        };
        let ghost raw = raw_pieces(pieces@);
        proof {
            let f = flat_bytes(raw);
            assert(f =~= lb.take(f.len() as int));
            lemma_char_count_prefix(lb, f.len() as int);
        }
        let (decoded, keep) = decode_line(&pieces, scopes, lc, &predicate, Ghost(char_count(cb)));
        let ghost pv = pieces_view(decoded@);
        let mut groups: Vec<DynamicTokenGroup> = Vec::new();
        let mut statics: Vec<Span> = Vec::new();
        assert(groups_view(groups@) =~= Seq::<GroupView>::empty());
        let _ = spans_of_line(&decoded, lc, &keep, styles, &mut groups, &mut statics);
        proof {
            lemma_line_groups_within(pv, lc as int, keep@);
            assert forall|g: int| 0 <= g < groups@.len() implies lc <= (#[trigger] groups@[g]).range.start <= groups@[g].range.end
                <= lc + total_chars(pv) by {
                assert(groups_view(groups@)[g] == super::paths::group_view(groups@[g]));
            }
        }
        let (words, found) = group_paths(&pieces, &decoded, lc, &groups, &resolve);
        final_line_spans(&decoded, lc, &keep, styles, &groups, &words, &found, &mut result);
        proof {
            let gs = line_groups(Seq::empty(), pv, lc as int, keep@);
            assert(piece_texts(pieces@) =~= raw_texts(raw)) by {
                assert forall|i: int| 0 <= i < pieces@.len() implies piece_texts(pieces@)[i] == raw_texts(raw)[i] by {
                    vstd::utf8::encode_utf8_decode_utf8(pieces@[i].1@);
                }
            }
            assert(words_view(words@) =~= line_words(raw_texts(raw), pv, lc as int, gs));
            let nk = keeps.push(keep@);
            let np = paths.push(found@);
            lemma_highlight_upto_keeps(set, *theme, scopes@, styles@, cb, max, keeps, paths, nk, np, index as nat);
            assert(line_pieces(set, *theme, cb, max, index as int) == Some(raw));
            assert(paths_fit(pv, lc as int, keep@, raw_texts(raw), found@, resolve)) by {
                let words_s = line_words(raw_texts(raw), pv, lc as int, gs);
                assert forall|g: int| 0 <= g < gs.len() && (#[trigger] gs[g]).2 != GroupKind::Unknown implies exists|w: String|
                    w@ == words_s[g] && #[trigger] call_ensures(resolve, (&w,), found@[g]) by {
                    assert(words@[g]@ == words_s[g]);
                    assert(call_ensures(resolve, (&words@[g],), found@[g]));
                }
            }
            assert(highlight_upto(set, *theme, scopes@, styles@, cb, max, nk, np, (index + 1) as nat) == Ok::<
                Seq<SpanView>,
                HighlightError,
            >(spans_view(result@)));
            lemma_answers_fit_push(set, *theme, scopes@, cb, max, keeps, paths, nk, np, index as nat, predicate, resolve);
            assert(short_lines(lines.take(index + 1), max) == short_lines(lines.take(index as int), max).push(lb));
            assert forall|j: int| 0 <= j < result@.len() implies (#[trigger] result@[j]).start <= result@[j].end <= lc + n by {
                if j < before_spans.len() {
                    assert(result@[j] == before_spans[j]);
                }
            }
            keeps = nk;
            paths = np;
        }
        offset = offset + k;
        index = index + 1;
        lc = lc + n;
        rest = tail;
    }
    assert(answers_fit(set, *theme, scopes@, cb, max, keeps, paths, index as nat, predicate, resolve));
    assert(timed_out || index == lines.len()) by {
        if !timed_out {
            assert(lines.skip(index as int).len() == 0);
        }
    }
    Ok(result)
}

/// Highlights one command (without a `time` prefix): the command without
/// its trailing ASCII whitespace is cut into lines; lines longer than
/// `max_line_length` bytes are skipped, and once highlighting has taken
/// longer than `timeout` the remaining lines are left out; the grammar
/// engine cuts each other line into coloured pieces, the colour table
/// `scopes` names the scope of each piece, `predicate` is asked about the
/// character range of each piece that names a scope, and the pieces it
/// keeps become spans with the styles that `styles` gives their scopes,
/// except that the pieces of a command name or of arguments are grouped:
/// `resolve` is asked what the group's shell word names, and the group gets
/// one span (see [`super::paths::group_span`]). Ranges are characters of
/// the command.
pub fn highlight_internal<P: Fn(&Range<usize>) -> bool, R: Fn(&String) -> PathKind>(
    command: &str,
    syntaxes: &Syntaxes,
    theme: &Theme,
    scopes: &Vec<(Rgba, String)>,
    styles: &Vec<(String, Option<StaticStyle>)>,
    max_line_length: usize,
    timeout: Duration,
    predicate: P,
    resolve: R,
) -> (r: Result<Vec<Span>, HighlightError>)
    requires
        command.spec_bytes().len() < usize::MAX,
        forall|range: Range<usize>|
            range.start < range.end <= char_count(command.spec_bytes()) ==> call_requires(predicate, (&range,)),
        forall|w: String| call_requires(resolve, (&w,)),
    ensures
        highlights(
            syntaxes.spec_set(),
            *theme,
            scopes@,
            styles@,
            command.spec_bytes(),
            max_line_length as nat,
            predicate,
            resolve,
            outcome_view(r),
        ),
        r matches Ok(spans) ==> forall|j: int|
            0 <= j < spans@.len() ==> (#[trigger] spans@[j]).start <= spans@[j].end <= char_count(command.spec_bytes()),
{
    let start = now();
    let limit = duration_nanos(&timeout);
    let in_time = || -> (b: bool) { duration_nanos(&elapsed(&start)) <= limit };
    let r = highlight_lines(command, syntaxes, theme, scopes, styles, max_line_length, predicate, resolve, in_time);
    proof {
        lemma_in_time_highlights(
            syntaxes.spec_set(),
            *theme,
            scopes@,
            styles@,
            command.spec_bytes(),
            max_line_length as nat,
            predicate,
            resolve,
            in_time,
            outcome_view(r),
        );
    }
    r
}

/// Adding the answers for line `stop` keeps the answers for the lines
/// before it fitting, and makes those for line `stop` fit if they fit.
proof fn lemma_answers_fit_push<P: Fn(&Range<usize>) -> bool, R: Fn(&String) -> PathKind>(
    set: SyntaxSet,
    theme: Theme,
    table: Seq<(Rgba, String)>,
    command: Seq<u8>,
    max: nat,
    keeps: Seq<Seq<bool>>,
    paths: Seq<Seq<PathKind>>,
    nk: Seq<Seq<bool>>,
    np: Seq<Seq<PathKind>>,
    stop: nat,
    predicate: P,
    resolve: R,
)
    requires
        keeps.len() == stop,
        paths.len() == stop,
        nk.len() == stop + 1,
        np.len() == stop + 1,
        forall|j: int| 0 <= j < stop ==> #[trigger] nk[j] == keeps[j],
        forall|j: int| 0 <= j < stop ==> #[trigger] np[j] == paths[j],
        answers_fit(set, theme, table, command, max, keeps, paths, stop, predicate, resolve),
        command_lines(command)[stop as int].len() <= max && line_pieces(set, theme, command, max, stop as int) is Some ==> {
            let raw = line_pieces(set, theme, command, max, stop as int)->0;
            &&& keep_fits(decoded_pieces(table, raw), line_start(command, stop as int), nk[stop as int], predicate)
            &&& paths_fit(decoded_pieces(table, raw), line_start(command, stop as int), nk[stop as int], raw_texts(raw), np[stop as int], resolve)
        },
    ensures
        answers_fit(set, theme, table, command, max, nk, np, stop + 1, predicate, resolve),
{
    assert forall|j: int|
        0 <= j < stop + 1 && command_lines(command)[j].len() <= max && #[trigger] line_pieces(set, theme, command, max, j)
            is Some implies {
        let raw = line_pieces(set, theme, command, max, j)->0;
        &&& keep_fits(decoded_pieces(table, raw), line_start(command, j), nk[j], predicate)
        &&& paths_fit(decoded_pieces(table, raw), line_start(command, j), nk[j], raw_texts(raw), np[j], resolve)
    } by {
        if j < stop {
            assert(nk[j] == keeps[j]);
            assert(np[j] == paths[j]);
        }
    }
}

/// Spans moved `n` characters on.
pub open spec fn shifted_spans(s: Seq<SpanView>, n: int) -> Seq<SpanView> {
    s.map_values(|x: SpanView| (x.0 + n, x.1 + n, x.2))
}

/// The part of a command that is highlighted on its own first: the prefix
/// up to and including `time `, or the whole command.
pub open spec fn first_part(command: Seq<u8>) -> Seq<u8> {
    match spec_prefix_split(command) {
        Some(n) => command.take(n as int),
        None => command,
    }
}

/// What highlighting a command gives when its parts give `parts`: the
/// failure of the first part, or its spans followed by the outcome of the
/// rest, whose spans are moved on by the length of the prefix (which is
/// ASCII, so that bytes and characters agree there).
pub open spec fn parts_outcome(command: Seq<u8>, parts: Seq<Result<Seq<SpanView>, HighlightError>>) -> Result<
    Seq<SpanView>,
    HighlightError,
>
    decreases command.len(),
{
    match spec_prefix_split(command) {
        None => parts[0],
        Some(n) => {
            proof {
                lemma_prefix_split_bounds(command);
            }
            match parts[0] {
                Err(e) => Err(e),
                Ok(head) => match parts_outcome(command.skip(n as int), parts.drop_first()) {
                    Ok(t) => Ok(head + shifted_spans(t, n as int)),
                    Err(e) => Err(e),
                },
            }
        },
    }
}

/// Whether `parts` are what highlighting the parts of a command gives: the
/// first part's, then, if it did not fail and a `time ` prefix was split
/// off, those of the rest.
pub open spec fn parts_fit<P: Fn(&Range<usize>) -> bool, R: Fn(&String) -> PathKind>(
    set: SyntaxSet,
    theme: Theme,
    table: Seq<(Rgba, String)>,
    styles: Seq<(String, Option<StaticStyle>)>,
    command: Seq<u8>,
    max: nat,
    predicate: P,
    resolve: R,
    parts: Seq<Result<Seq<SpanView>, HighlightError>>,
) -> bool
    decreases command.len(),
{
    &&& parts.len() >= 1
    &&& highlights(set, theme, table, styles, first_part(command), max, predicate, resolve, parts[0])
    &&& match spec_prefix_split(command) {
        None => true,
        Some(n) => {
            proof {
                lemma_prefix_split_bounds(command);
            }
            parts[0] is Err || parts_fit(set, theme, table, styles, command.skip(n as int), max, predicate, resolve, parts.drop_first())
        },
    }
}

/// Whether `outcome` is what highlighting a command gives: for a command
/// that starts with `time `, the failure of the prefix (up to and including
/// `time `), or the spans of the prefix followed by the outcome of the
/// rest, its spans moved on by the length of the prefix; for any other
/// command, what highlighting its one part gives.
pub open spec fn highlights_all<P: Fn(&Range<usize>) -> bool, R: Fn(&String) -> PathKind>(
    set: SyntaxSet,
    theme: Theme,
    table: Seq<(Rgba, String)>,
    styles: Seq<(String, Option<StaticStyle>)>,
    command: Seq<u8>,
    max: nat,
    predicate: P,
    resolve: R,
    outcome: Result<Seq<SpanView>, HighlightError>,
) -> bool {
    exists|parts: Seq<Result<Seq<SpanView>, HighlightError>>|
        #[trigger] parts_fit(set, theme, table, styles, command, max, predicate, resolve, parts) && parts_outcome(command, parts) == outcome
}

/// The spans of the prefix followed by the outcome of the rest make the
/// outcome of a command with a `time ` prefix of `n` bytes.
pub proof fn lemma_highlights_join<P: Fn(&Range<usize>) -> bool, R: Fn(&String) -> PathKind>(
    set: SyntaxSet,
    theme: Theme,
    table: Seq<(Rgba, String)>,
    styles: Seq<(String, Option<StaticStyle>)>,
    command: Seq<u8>,
    max: nat,
    predicate: P,
    resolve: R,
    n: nat,
    head: Seq<SpanView>,
    tail: Result<Seq<SpanView>, HighlightError>,
)
    requires
        spec_prefix_split(command) == Some(n),
        highlights(set, theme, table, styles, command.take(n as int), max, predicate, resolve, Ok(head)),
        highlights_all(set, theme, table, styles, command.skip(n as int), max, predicate, resolve, tail),
    ensures
        highlights_all(
            set,
            theme,
            table,
            styles,
            command,
            max,
            predicate,
            resolve,
            match tail {
                Ok(t) => Ok(head + shifted_spans(t, n as int)),
                Err(e) => Err(e),
            },
        ),
{
    lemma_prefix_split_bounds(command);
    let rest = choose|parts: Seq<Result<Seq<SpanView>, HighlightError>>|
        #[trigger] parts_fit(set, theme, table, styles, command.skip(n as int), max, predicate, resolve, parts)
            && parts_outcome(command.skip(n as int), parts) == tail;
    let parts = seq![Ok::<Seq<SpanView>, HighlightError>(head)] + rest;
    assert(parts.drop_first() =~= rest);
    assert(parts_fit(set, theme, table, styles, command, max, predicate, resolve, parts));
}

/// The failure of the prefix is the outcome of a command with a `time `
/// prefix.
pub proof fn lemma_highlights_head_fails<P: Fn(&Range<usize>) -> bool, R: Fn(&String) -> PathKind>(
    set: SyntaxSet,
    theme: Theme,
    table: Seq<(Rgba, String)>,
    styles: Seq<(String, Option<StaticStyle>)>,
    command: Seq<u8>,
    max: nat,
    predicate: P,
    resolve: R,
    n: nat,
    e: HighlightError,
)
    requires
        spec_prefix_split(command) == Some(n),
        highlights(set, theme, table, styles, command.take(n as int), max, predicate, resolve, Err(e)),
    ensures
        highlights_all(set, theme, table, styles, command, max, predicate, resolve, Err(e)),
{
    let parts = seq![Err::<Seq<SpanView>, HighlightError>(e)];
    assert(parts_fit(set, theme, table, styles, command, max, predicate, resolve, parts));
}

/// A command without a `time ` prefix gives what its one part gives.
pub proof fn lemma_highlights_whole<P: Fn(&Range<usize>) -> bool, R: Fn(&String) -> PathKind>(
    set: SyntaxSet,
    theme: Theme,
    table: Seq<(Rgba, String)>,
    styles: Seq<(String, Option<StaticStyle>)>,
    command: Seq<u8>,
    max: nat,
    predicate: P,
    resolve: R,
    outcome: Result<Seq<SpanView>, HighlightError>,
)
    requires
        spec_prefix_split(command) is None,
        highlights(set, theme, table, styles, command, max, predicate, resolve, outcome),
    ensures
        highlights_all(set, theme, table, styles, command, max, predicate, resolve, outcome),
{
    let parts = seq![outcome];
    assert(parts_fit(set, theme, table, styles, command, max, predicate, resolve, parts));
}

/// A copy of a span style.
fn copy_span_style(s: &SpanStyle) -> (r: SpanStyle)
    ensures
        r == *s,
{
    match s {
        SpanStyle::Static(st) => SpanStyle::Static(copy_static_style(st)),
        SpanStyle::Dynamic(DynamicStyle::Callable) => SpanStyle::Dynamic(DynamicStyle::Callable),
    }
}

/// Highlights a command. If it starts with a prefix keyword (`time`), the
/// prefix and the rest are highlighted separately, and the spans of the
/// rest are moved to their place in the command.
#[verifier::rlimit(40)]
pub fn highlight<P: Fn(&Range<usize>) -> bool + Copy, R: Fn(&String) -> PathKind + Copy>(
    command: &str,
    syntaxes: &Syntaxes,
    theme: &Theme,
    scopes: &Vec<(Rgba, String)>,
    styles: &Vec<(String, Option<StaticStyle>)>,
    max_line_length: usize,
    timeout: Duration,
    predicate: P,
    resolve: R,
) -> (r: Result<Vec<Span>, HighlightError>)
    requires
        command.spec_bytes().len() < usize::MAX,
        forall|range: Range<usize>|
            range.start < range.end <= char_count(command.spec_bytes()) ==> call_requires(predicate, (&range,)),
        forall|w: String| call_requires(resolve, (&w,)),
    ensures
        highlights_all(
            syntaxes.spec_set(),
            *theme,
            scopes@,
            styles@,
            command.spec_bytes(),
            max_line_length as nat,
            predicate,
            resolve,
            outcome_view(r),
        ),
        r matches Ok(spans) ==> forall|j: int|
            0 <= j < spans@.len() ==> (#[trigger] spans@[j]).start <= spans@[j].end <= char_count(command.spec_bytes()),
    decreases command.spec_bytes().len(),
{
    let ghost cb = command.spec_bytes();
    let ghost set = syntaxes.spec_set();
    let ghost max = max_line_length as nat;
    match find_prefix_split(command) {
        Some(n) => {
            proof {
                lemma_prefix_split_bounds(cb);
                lemma_prefix_split_ascii(cb);
                lemma_boundary_after_ascii(cb, n as int);
            }
            let (head, tail) = command.split_at(n);
            assert(head.spec_bytes() =~= cb.take(n as int));
            assert(tail.spec_bytes() =~= cb.skip(n as int));
            proof {
                assert(cb =~= cb.take(n as int) + cb.skip(n as int));
                lemma_char_count_concat(cb.take(n as int), cb.skip(n as int));
                assert forall|i: int| 0 <= i < cb.take(n as int).len() implies #[trigger] cb.take(n as int)[i] < 0x80 by {
                    assert(cb.take(n as int)[i] == cb[i]);
                }
                lemma_char_count_ascii(cb.take(n as int));
            }
            let r1 = highlight_internal(head, syntaxes, theme, scopes, styles, max_line_length, timeout, predicate, resolve);
            let ghost o1 = outcome_view(r1);
            let mut spans = match r1 {
                Ok(s) => s,
                Err(e) => {
                    assert(spec_prefix_split(cb) == Some(n as nat));
                    assert(o1 == Err::<Seq<SpanView>, HighlightError>(e));
                    assert(highlights(set, *theme, scopes@, styles@, cb.take(n as int), max, predicate, resolve, o1));
                    proof {
                        lemma_highlights_head_fails(set, *theme, scopes@, styles@, cb, max, predicate, resolve, n as nat, e);
                    }
                    return Err(e);
                },
            };
            let r2 = highlight(tail, syntaxes, theme, scopes, styles, max_line_length, timeout, predicate, resolve);
            let ghost o2 = outcome_view(r2);
            let ghost head_spans = spans@;
            proof {
                lemma_char_count_le(cb);
            }
            let more = match r2 {
                Ok(s) => s,
                Err(e) => {
                    assert(spec_prefix_split(cb) == Some(n as nat));
                    assert(highlights(set, *theme, scopes@, styles@, cb.take(n as int), max, predicate, resolve, Ok(spans_view(head_spans))));
                    assert(o2 == Err::<Seq<SpanView>, HighlightError>(e));
                    assert(highlights_all(set, *theme, scopes@, styles@, cb.skip(n as int), max, predicate, resolve, o2));
                    proof {
                        lemma_highlights_join(set, *theme, scopes@, styles@, cb, max, predicate, resolve, n as nat, spans_view(head_spans), o2);
                    }
                    return Err(e);
                },
            };
            let mut k: usize = 0;
            assert(spans_view(spans@) =~= spans_view(head_spans) + shifted_spans(spans_view(more@.take(0)), n as int));
            while k < more.len()
                invariant
                    k <= more@.len(),
                    n <= cb.len(),
                    cb.len() < usize::MAX,
                    char_count(cb) == n + char_count(cb.skip(n as int)),
                    char_count(cb) <= cb.len(),
                    head_spans.len() <= spans@.len(),
                    forall|j: int| 0 <= j < head_spans.len() ==> #[trigger] spans@[j] == head_spans[j],
                    forall|j: int| 0 <= j < head_spans.len() ==> (#[trigger] head_spans[j]).start <= head_spans[j].end <= n,
                    forall|j: int|
                        0 <= j < more@.len() ==> (#[trigger] more@[j]).start <= more@[j].end <= char_count(cb.skip(n as int)),
                    spans_view(spans@) == spans_view(head_spans) + shifted_spans(spans_view(more@.take(k as int)), n as int),
                    forall|j: int| 0 <= j < spans@.len() ==> (#[trigger] spans@[j]).start <= spans@[j].end <= char_count(cb),
                    spans@.len() == head_spans.len() + k,
                    forall|j: int|
                        0 <= j < k ==> (#[trigger] spans@[head_spans.len() + j]).start == more@[j].start + n && spans@[head_spans.len()
                            + j].end == more@[j].end + n,
                decreases more@.len() - k,
            {
                let ghost before = spans@;
                let s = &more[k];
                spans.push(Span { start: s.start + n, end: s.end + n, style: copy_span_style(&s.style) });
                proof {
                    assert(more@.take(k + 1) =~= more@.take(k as int).push(more@[k as int]));
                    assert(spans_view(spans@) =~= spans_view(before).push(span_view(spans@.last())));
                    assert(spans_view(more@.take(k + 1)) =~= spans_view(more@.take(k as int)).push(span_view(more@[k as int])));
                    assert(spans_view(spans@) =~= spans_view(head_spans) + shifted_spans(spans_view(more@.take(k + 1)), n as int));
                    assert forall|j: int| 0 <= j < spans@.len() implies (#[trigger] spans@[j]).start <= spans@[j].end <= char_count(cb) by {
                        if j < before.len() {
                            assert(spans@[j] == before[j]);
                        }
                    }
                    assert forall|j: int| 0 <= j < k + 1 implies (#[trigger] spans@[head_spans.len() + j]).start == more@[j].start + n
                        && spans@[head_spans.len() + j].end == more@[j].end + n by {
                        if j < k {
                            assert(spans@[head_spans.len() + j] == before[head_spans.len() + j]);
                        }
                    }
                }
                k = k + 1;
            }
            proof {
                assert(more@.take(k as int) =~= more@);
                assert(spec_prefix_split(cb) == Some(n as nat));
                assert(highlights(set, *theme, scopes@, styles@, cb.take(n as int), max, predicate, resolve, Ok(spans_view(head_spans))));
                assert(highlights_all(set, *theme, scopes@, styles@, cb.skip(n as int), max, predicate, resolve, Ok(spans_view(more@))));
                let ghost tail_v = Ok::<Seq<SpanView>, HighlightError>(spans_view(more@));
                lemma_highlights_join(set, *theme, scopes@, styles@, cb, max, predicate, resolve, n as nat, spans_view(head_spans), tail_v);
                assert(highlights_all(set, *theme, scopes@, styles@, cb, max, predicate, resolve, Ok(spans_view(spans@))));
            }
            Ok(spans)
        },
        None => {
            let r = highlight_internal(command, syntaxes, theme, scopes, styles, max_line_length, timeout, predicate, resolve);
            proof {
                lemma_highlights_whole(set, *theme, scopes@, styles@, cb, max, predicate, resolve, outcome_view(r));
            }
            r
        },
    }
}

} // verus!
