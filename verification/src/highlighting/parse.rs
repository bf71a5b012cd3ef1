//! Tokenizing a command with the shell grammar of a syntect syntax set: the
//! parser gives scope operations line by line, and the scope-stack machine
//! of [`super::tokenize`] turns them into tokens.

use std::ops::Range;
use syntect::parsing::{ClearAmount, ParseState, ParsingError, ScopeStackOp, SyntaxSet};
use vstd::prelude::*;
use vstd::string::StringSliceAdditionalSpecFns;
use vstd::utf8::{is_char_boundary, length_of_first_scalar, pop_first_scalar, valid_utf8};

use super::highlighter::{find_prefix_split, spec_prefix_split, time_at};
use super::tokenize::{
    all_offsets_in_lines, offsets_in_line, command_lines, lemma_command_tokens_sorted, tokens_sorted_upto, command_result, lemma_command_tokens_well_formed, token_well_formed, find_line_end, line_end, lines_outcome, split_lines, tokens_of_command,
    total_len, trim_end_len, trimmed_len, lemma_trimmed_len, offsets_ordered, final_tokens, initial_state, line_outcome, TrackerState, ClearCount, ScopeOp, ScopeTracker, TokenizeError, lemma_line_end,
};
use super::Token;

verus! {

broadcast use vstd::utf8::encode_utf8_valid_utf8;

#[verifier::external_type_specification]
#[verifier::external_body]
pub struct ExSyntaxSet(SyntaxSet);

#[verifier::external_type_specification]
#[verifier::external_body]
pub struct ExParseState(ParseState);

#[verifier::external_type_specification]
#[verifier::external_body]
pub struct ExParsingError(ParsingError);

/// `SyntaxSet::load_defaults_newlines`: the syntaxes that syntect ships,
/// loaded from its dump, for lines that keep their line feeds. Nothing is
/// stated of the set.
#[verifier::external_body]
fn load_default_syntaxes() -> SyntaxSet {
    SyntaxSet::load_defaults_newlines()
}

/// The syntaxes that syntect ships. They are built from syntax definition
/// files, so every syntax has the start context that a parser begins in.
pub struct Syntaxes {
    set: SyntaxSet,
}

impl Syntaxes {
    /// The syntax set.
    pub closed spec fn spec_set(&self) -> SyntaxSet {
        self.set
    }

    /// Loads the syntaxes that syntect ships.
    pub fn load() -> (r: Self) {
        Syntaxes { set: load_default_syntaxes() }
    }

    /// The syntax set.
    pub fn syntax_set(&self) -> (r: &SyntaxSet)
        ensures
            *r == self.spec_set(),
    {
        &self.set
    }
}

/// Whether the syntax set has a syntax for files with the extension
/// `extension` (`SyntaxSet::find_syntax_by_extension` finds one).
pub uninterp spec fn finds_syntax(set: SyntaxSet, extension: Seq<char>) -> bool;

/// What the shell grammar of the syntax set (the syntax for the extension
/// `sh`) gives for `line` after the lines `before` were given to a fresh
/// parser one after the other: the scope operations of the line, each with
/// the byte offset in the line where it applies and each pushed scope named,
/// or `None` if the parser fails on the line.
pub uninterp spec fn shell_line_ops(set: SyntaxSet, before: Seq<Seq<u8>>, line: Seq<u8>) -> Option<Seq<(usize, ScopeOp)>>;

/// `SyntaxSet::find_syntax_by_extension` followed by `ParseState::new`: a
/// parser at the start of the syntax that the set has for `extension`, if
/// it has one. The syntaxes come from syntect's dump, so the syntax has
/// the start context that `ParseState::new` looks up.
#[verifier::external_body]
fn new_parse_state(syntaxes: &Syntaxes, extension: &str) -> (r: Option<ParseState>)
    ensures
        r is Some == finds_syntax(syntaxes.spec_set(), extension@),
{
    match syntaxes.set.find_syntax_by_extension(extension) {
        Some(syntax) => Some(ParseState::new(syntax)),
        None => None,
    }
}

/// A parser for the lines of one text with the shell grammar, together with
/// the syntaxes that grammar comes from and the lines given to it so far;
/// its state always belongs to those syntaxes and lines.
pub struct LineParser<'a> {
    state: ParseState,
    syntaxes: &'a Syntaxes,
    before: Ghost<Seq<Seq<u8>>>,
}

impl<'a> LineParser<'a> {
    /// The syntax set of the parser's grammar.
    pub closed spec fn spec_set(&self) -> SyntaxSet {
        self.syntaxes.spec_set()
    }

    /// The lines given to the parser so far.
    pub closed spec fn history(&self) -> Seq<Seq<u8>> {
        self.before@
    }

    /// A parser positioned at the start of a text, with the shell grammar of
    /// `syntaxes` (the syntax for the extension `sh`); `None` if there is
    /// none.
    pub fn for_shell(syntaxes: &'a Syntaxes) -> (r: Option<Self>)
        ensures
            r is Some == finds_syntax(syntaxes.spec_set(), "sh"@),
            r matches Some(p) ==> p.spec_set() == syntaxes.spec_set() && p.history() == Seq::<Seq<u8>>::empty(),
    {
        match new_parse_state(syntaxes, "sh") {
            Some(state) => Some(LineParser { state, syntaxes, before: Ghost(Seq::empty()) }),
            None => None,
        }
    }

    /// Parses the next line: its scope operations as the shell grammar
    /// gives them after the lines before it.
    pub fn parse(&mut self, line: &str) -> (r: Result<Vec<(usize, ScopeOp)>, ParsingError>)
        ensures
            final(self).spec_set() == old(self).spec_set(),
            final(self).history() == old(self).history().push(line.spec_bytes()),
            match r {
                Ok(ops) => shell_line_ops(old(self).spec_set(), old(self).history(), line.spec_bytes()) == Some(ops@),
                Err(_) => shell_line_ops(old(self).spec_set(), old(self).history(), line.spec_bytes()) is None,
            },
            r matches Ok(ops) ==> offsets_ordered(ops@) && offsets_in_line(ops@, line.spec_bytes()),
    {
        let r = parse_line(self, line);
        self.before = Ghost(self.before@.push(line.spec_bytes()));
        r
    }
}

/// `ParseState::parse_line` with the parser's own syntax set, each pushed
/// scope named with `Scope::build_string`: the scope operations for the next
/// line, each with the byte offset in the line where it applies (the
/// position of a match in the line), in order of those offsets (as syntect
/// documents). They are what the shell grammar gives after the lines given
/// to the parser before.
#[verifier::external_body]
fn parse_line(parser: &mut LineParser, line: &str) -> (r: Result<Vec<(usize, ScopeOp)>, ParsingError>)
    ensures
        final(parser).spec_set() == old(parser).spec_set(),
        final(parser).history() == old(parser).history(),
        match r {
            Ok(ops) => shell_line_ops(old(parser).spec_set(), old(parser).history(), line.spec_bytes()) == Some(ops@),
            Err(_) => shell_line_ops(old(parser).spec_set(), old(parser).history(), line.spec_bytes()) is None,
        },
        r matches Ok(ops) ==> offsets_ordered(ops@) && offsets_in_line(ops@, line.spec_bytes()),
{
    let raw = parser.state.parse_line(line, &parser.syntaxes.set)?;
    Ok(raw.into_iter().map(|(i, op)| (i, match op {
        ScopeStackOp::Push(scope) => ScopeOp::Push(scope.build_string()),
        ScopeStackOp::Pop(n) => ScopeOp::Pop(n),
        ScopeStackOp::Clear(ClearAmount::TopN(n)) => ScopeOp::Clear(ClearCount::TopN(n)),
        ScopeStackOp::Clear(ClearAmount::All) => ScopeOp::Clear(ClearCount::All),
        ScopeStackOp::Restore => ScopeOp::Restore,
        ScopeStackOp::Noop => ScopeOp::Noop,
    })).collect())
}

proof fn lemma_boundary_after_boundary_ascii(b: Seq<u8>, j: int)
    requires
        valid_utf8(b),
        0 <= j < b.len(),
        is_char_boundary(b, j),
        b[j] < 0x80,
    ensures
        is_char_boundary(b, j + 1),
    decreases b.len(),
{
    let l = length_of_first_scalar(b);
    let p = pop_first_scalar(b);
    assert(valid_utf8(p));
    if j == 0 {
        assert(l == 1);
        assert(is_char_boundary(p, 0));
    } else {
        assert(is_char_boundary(p, j - l));
        assert(j - l >= 0);
        assert(p[j - l] == b[j]);
        lemma_boundary_after_boundary_ascii(p, j - l);
    }
}

/// In valid UTF-8, the position just after an ASCII byte is a character
/// boundary.
pub(crate) proof fn lemma_boundary_after_ascii(b: Seq<u8>, i: int)
    requires
        valid_utf8(b),
        0 < i <= b.len(),
        b[i - 1] < 0x80,
    ensures
        is_char_boundary(b, i),
{
    vstd::utf8::is_char_boundary_iff_not_is_continuation_byte(b, i - 1);
    lemma_boundary_after_boundary_ascii(b, i - 1);
}

/// In valid UTF-8, the position of an ASCII byte, or the end, is a
/// character boundary.
pub(crate) proof fn lemma_boundary_at_ascii(b: Seq<u8>, i: int)
    requires
        valid_utf8(b),
        0 <= i <= b.len(),
        i < b.len() ==> b[i] < 0x80,
    ensures
        is_char_boundary(b, i),
{
    if i == b.len() {
        vstd::utf8::is_char_boundary_start_end_of_seq(b);
    } else {
        vstd::utf8::is_char_boundary_iff_not_is_continuation_byte(b, i);
    }
}

/// The state of the scope-stack machine after the lines `lines` of a
/// command were parsed with the shell grammar of `set` one after the other
/// and their operations applied; the first failure of the parser or the
/// machine, if any.
pub open spec fn tokenize_lines(set: SyntaxSet, lines: Seq<Seq<u8>>) -> Result<TrackerState, TokenizeError>
    decreases lines.len(),
{
    if lines.len() == 0 {
        Ok(initial_state())
    } else {
        let before = lines.drop_last();
        match tokenize_lines(set, before) {
            Ok(st) => match shell_line_ops(set, before, lines.last()) {
                Some(ops) => line_outcome(st, lines.last(), before.len(), total_len(before), ops),
                None => Err(TokenizeError::ParseFailed),
            },
            Err(e) => Err(e),
        }
    }
}

/// A failure on the first `k` lines is the failure on all of them.
pub proof fn lemma_tokenize_lines_stuck(set: SyntaxSet, lines: Seq<Seq<u8>>, k: int)
    requires
        0 <= k <= lines.len(),
        tokenize_lines(set, lines.take(k)) is Err,
    ensures
        tokenize_lines(set, lines) == tokenize_lines(set, lines.take(k)),
    decreases lines.len(),
{
    if k == lines.len() {
        assert(lines.take(k) =~= lines);
    } else {
        assert(lines.drop_last().take(k) =~= lines.take(k));
        lemma_tokenize_lines_stuck(set, lines.drop_last(), k);
    }
}

/// What tokenizing one command (without a `time` prefix) gives with the
/// syntaxes `set`: no shell grammar, the first failure, or the tokens of
/// the machine with the scopes still open closed at the end of the command.
pub open spec fn command_outcome(set: SyntaxSet, command: Seq<u8>) -> Result<Seq<Token>, TokenizeError> {
    if !finds_syntax(set, "sh"@) {
        Err(TokenizeError::NoShellSyntax)
    } else {
        match tokenize_lines(set, command_lines(command)) {
            Ok(st) => Ok(final_tokens(st, command.len())),
            Err(e) => Err(e),
        }
    }
}

/// Tokenizes one command (without a `time` prefix): the command without its
/// trailing ASCII whitespace is cut into lines, each line is parsed with the
/// shell grammar, and the scope-stack machine turns the parser's operations
/// into tokens; the scopes still open at the end are closed at the end of
/// the whole command.
#[verifier::rlimit(60)]
pub fn tokenize_command(command: &str, syntaxes: &Syntaxes) -> (r: Result<Vec<Token>, TokenizeError>)
    requires
        command.spec_bytes().len() < usize::MAX,
    ensures
        match r {
            Ok(tokens) => command_outcome(syntaxes.spec_set(), command.spec_bytes()) == Ok::<Seq<Token>, TokenizeError>(tokens@),
            Err(e) => command_outcome(syntaxes.spec_set(), command.spec_bytes()) == Err::<Seq<Token>, TokenizeError>(e),
        },
        r matches Ok(tokens) ==> tokens_of_command(command.spec_bytes(), tokens@),
        r matches Ok(tokens) ==> tokens_sorted_upto(tokens@, command.spec_bytes().len()),
{
    let ghost set = syntaxes.spec_set();
    let mut parser = match LineParser::for_shell(syntaxes) {
        Some(p) => p,
        None => return Err(TokenizeError::NoShellSyntax),
    };
    let bytes = command.as_bytes();
    let ghost cb = bytes@;
    let t = trim_end_len(bytes);
    proof {
        lemma_trimmed_len(cb);
        lemma_boundary_at_ascii(cb, t as int);
    }
    let (trimmed, _) = command.split_at(t);
    let ghost lines = command_lines(cb);
    assert(trimmed.spec_bytes() =~= cb.take(t as int));
    let mut rest = trimmed;
    let mut offset: usize = 0;
    let mut index: usize = 0;
    let mut tracker = ScopeTracker::new();
    let ghost mut done: Seq<Seq<(usize, ScopeOp)>> = Seq::empty();
    assert(lines.take(0) =~= Seq::<Seq<u8>>::empty());
    assert(lines.skip(0) =~= lines);
    assert(tracker@ == super::tokenize::initial_state());
    while rest.len() > 0
        invariant
            cb == command.spec_bytes(),
            cb.len() < usize::MAX,
            lines == command_lines(cb),
            index == done.len(),
            index <= offset,
            index <= lines.len(),
            offset + rest.spec_bytes().len() == t,
            t <= cb.len(),
            offset == total_len(lines.take(index as int)),
            split_lines(rest.spec_bytes()) == lines.skip(index as int),
            lines_outcome(lines.take(index as int), done) == Ok::<_, TokenizeError>(tracker@),
            forall|j: int| 0 <= j < done.len() ==> offsets_ordered(#[trigger] done[j]),
            forall|j: int| 0 <= j < done.len() ==> offsets_in_line(#[trigger] done[j], lines[j]),
            finds_syntax(set, "sh"@),
            set == syntaxes.spec_set(),
            parser.spec_set() == set,
            parser.history() == lines.take(index as int),
            tokenize_lines(set, lines.take(index as int)) == Ok::<_, TokenizeError>(tracker@),
        decreases rest.spec_bytes().len(),
    {
        let ghost rb0 = rest.spec_bytes();
        let rb = rest.as_bytes();
        let k = find_line_end(rb);
        proof {
            lemma_line_end(rb0);
            if k < rb0.len() {
                lemma_boundary_after_ascii(rb0, k as int);
            } else {
                lemma_boundary_at_ascii(rb0, k as int);
            }
        }
        let (line, tail) = rest.split_at(k);
        let ghost lb = line.spec_bytes();
        assert(lb =~= rb0.take(k as int));
        assert(tail.spec_bytes() =~= rb0.skip(k as int));
        assert(split_lines(rb0) == seq![lb] + split_lines(tail.spec_bytes()));
        assert(lines.skip(index as int)[0] == lb);
        assert(lines[index as int] == lb);
        assert(lines.skip(index + 1) =~= lines.skip(index as int).drop_first());
        assert(seq![lb] + split_lines(tail.spec_bytes()) =~= lines.skip(index as int));
        assert(split_lines(tail.spec_bytes()) =~= lines.skip(index as int).drop_first());
        let ghost next_lines = lines.take(index + 1);
        assert(next_lines.drop_last() =~= lines.take(index as int));
        assert(next_lines.last() == lb);
        let ops = match parser.parse(line) {
            Ok(v) => v,
            Err(_) => {
                proof {
                    assert(tokenize_lines(set, next_lines) == Err::<TrackerState, TokenizeError>(TokenizeError::ParseFailed));
                    lemma_tokenize_lines_stuck(set, lines, index + 1);
                    assert(command_outcome(set, cb) == Err::<Seq<Token>, TokenizeError>(TokenizeError::ParseFailed));
                }
                return Err(TokenizeError::ParseFailed);
            },
        };
        let ghost before = tracker@;
        let ghost next_done = done.push(ops@);
        assert(next_done.drop_last() =~= done);
        let res = tracker.apply_line(line.as_bytes(), index, offset, &ops);
        assert(lines_outcome(next_lines, next_done) == super::tokenize::line_outcome(
            before,
            lb,
            index as nat,
            offset as nat,
            ops@,
        ));
        if let Err(e) = res {
            assert(next_done.len() <= lines.len());
            assert(lines.take(next_done.len() as int) == next_lines);
            proof {
                assert(tokenize_lines(set, next_lines) == Err::<TrackerState, TokenizeError>(e));
                lemma_tokenize_lines_stuck(set, lines, index + 1);
                assert(command_outcome(set, cb) == Err::<Seq<Token>, TokenizeError>(e));
            }
            return Err(e);
        }
        proof {
            done = next_done;
        }
        offset = offset + k;
        index = index + 1;
        rest = tail;
    }
    assert(split_lines(rest.spec_bytes()) =~= Seq::<Seq<u8>>::empty());
    assert(lines.skip(index as int).len() == 0);
    assert(lines.take(index as int) =~= lines);
    let tokens = tracker.finish(command.len());
    assert(command_result(cb, done) == Some(tokens@));
    assert(all_offsets_in_lines(lines, done));
    assert(tokens_of_command(cb, tokens@));
    proof {
        lemma_command_tokens_sorted(cb, done);
    }
    Ok(tokens)
}

/// The number of line feeds in `b`.
pub open spec fn line_feeds(b: Seq<u8>) -> nat
    decreases b.len(),
{
    if b.len() == 0 {
        0
    } else {
        line_feeds(b.drop_last()) + if b.last() == 10 { 1nat } else { 0nat }
    }
}

/// The number of bytes after the last line feed of `b` (all of them if it
/// has none).
pub open spec fn last_line_len(b: Seq<u8>) -> nat
    decreases b.len(),
{
    if b.len() == 0 {
        0
    } else if b.last() == 10 {
        0
    } else {
        last_line_len(b.drop_last()) + 1
    }
}

/// A token of the part of a command after a `time ` prefix of `n` bytes,
/// moved to its place in the whole command: its range by `n` bytes, its
/// line by the `lines` line feeds of the prefix and, on the first line of
/// the part, its column by the `columns` characters of the prefix's last
/// line.
pub open spec fn shifted_token(t: Token, n: nat, lines: nat, columns: nat) -> Token {
    Token {
        scope: t.scope,
        line: (t.line + lines) as usize,
        column: if t.line == 1 { (t.column + columns) as usize } else { t.column },
        range: Range { start: (t.range.start + n) as usize, end: (t.range.end + n) as usize },
    }
}

/// Whether moving a token keeps its numbers within `usize`.
pub open spec fn shift_fits(t: Token, n: nat, lines: nat, columns: nat) -> bool {
    &&& t.range.start + n <= usize::MAX
    &&& t.range.end + n <= usize::MAX
    &&& t.line + lines <= usize::MAX
    &&& t.line == 1 ==> t.column + columns <= usize::MAX
}

/// The tokens moved to their place after a prefix of `n` bytes.
pub open spec fn shifted_tokens(ts: Seq<Token>, n: nat, lines: nat, columns: nat) -> Seq<Token> {
    Seq::new(ts.len(), |i: int| shifted_token(ts[i], n, lines, columns))
}

/// Counts the line feeds of `b[..n]` and the bytes after the last of them.
fn prefix_position(b: &[u8], n: usize) -> (r: (usize, usize))
    requires
        n <= b@.len(),
    ensures
        r.0 == line_feeds(b@.take(n as int)),
        r.1 == last_line_len(b@.take(n as int)),
{
    let mut lines: usize = 0;
    let mut columns: usize = 0;
    let mut j: usize = 0;
    assert(b@.take(0) =~= Seq::<u8>::empty());
    while j < n
        invariant
            j <= n,
            n <= b@.len(),
            lines <= j,
            columns <= j,
            lines == line_feeds(b@.take(j as int)),
            columns == last_line_len(b@.take(j as int)),
        decreases n - j,
    {
        assert(b@.take(j + 1).drop_last() =~= b@.take(j as int));
        if b[j] == 10 {
            lines = lines + 1;
            columns = 0;
        } else {
            columns = columns + 1;
        }
        j = j + 1;
    }
    (lines, columns)
}

pub proof fn lemma_prefix_split_bounds(b: Seq<u8>)
    ensures
        spec_prefix_split(b) matches Some(n) ==> 5 <= n <= b.len() && b[n - 1] == 32,
{
    if let Some(n) = spec_prefix_split(b) {
        assert(time_at(b, n - 5));
        assert(b.subrange(n - 5, n as int)[4] == b[n - 1]);
    }
}

/// The tokens that tokenizing the command `command` gives when the parser
/// gives the operations `ops`: one entry per part of the command (the part
/// up to and including a `time ` prefix, then the parts of the rest), each
/// with one sequence of operations per line. The tokens of the rest are
/// moved to their place in the command. `None` if the entries do not fit the
/// parts, the machine refuses an operation, or moving overflows.
pub open spec fn tokenize_result(command: Seq<u8>, ops: Seq<Seq<Seq<(usize, ScopeOp)>>>) -> Option<Seq<Token>>
    decreases command.len(),
{
    if ops.len() == 0 {
        None
    } else {
        match spec_prefix_split(command) {
            None => if ops.len() == 1 {
                command_result(command, ops[0])
            } else {
                None
            },
            Some(n) => {
                proof {
                    lemma_prefix_split_bounds(command);
                }
                match (
                    command_result(command.take(n as int), ops[0]),
                    tokenize_result(command.skip(n as int), ops.drop_first()),
                ) {
                    (Some(head), Some(tail)) => {
                        let p = command.take(n as int);
                        if forall|i: int|
                            0 <= i < tail.len() ==> shift_fits(#[trigger] tail[i], n, line_feeds(p), last_line_len(p)) {
                            Some(head + shifted_tokens(tail, n, line_feeds(p), last_line_len(p)))
                        } else {
                            None
                        }
                    },
                    _ => None,
                }
            },
        }
    }
}

/// Whether `tokens` is what tokenizing gives for the command `command` for
/// some scope operations that a parser gives: for a command that starts
/// with `time `, the tokens of the prefix up to and including `time `, then
/// those of the rest moved to their place in the command; for any other
/// command, its tokens.
pub open spec fn tokens_of(command: Seq<u8>, tokens: Seq<Token>) -> bool {
    exists|ops: Seq<Seq<Seq<(usize, ScopeOp)>>>|
        #[trigger] tokenize_result(command, ops) == Some(tokens) && all_ordered(ops) && parts_in_lines(command, ops)
}

/// Whether the operations of every line of every part come in order of
/// their offsets.
pub open spec fn all_ordered(ops: Seq<Seq<Seq<(usize, ScopeOp)>>>) -> bool {
    forall|p: int, k: int| 0 <= p < ops.len() && 0 <= k < ops[p].len() ==> offsets_ordered(#[trigger] ops[p][k])
}

/// What tokenizing a command gives with the syntaxes `set`: for a command
/// that starts with `time `, the first failure of the prefix (up to and
/// including `time `) or of the rest, or the tokens of the prefix followed
/// by those of the rest moved to their place in the command (`BadOffset`
/// if moving overflows); for any other command, what tokenizing it gives.
pub open spec fn tokenize_outcome(set: SyntaxSet, command: Seq<u8>) -> Result<Seq<Token>, TokenizeError>
    decreases command.len(),
{
    match spec_prefix_split(command) {
        None => command_outcome(set, command),
        Some(n) => {
            proof {
                lemma_prefix_split_bounds(command);
            }
            let p = command.take(n as int);
            match command_outcome(set, p) {
                Err(e) => Err(e),
                Ok(head) => match tokenize_outcome(set, command.skip(n as int)) {
                    Err(e) => Err(e),
                    Ok(tail) => if forall|i: int|
                        0 <= i < tail.len() ==> shift_fits(#[trigger] tail[i], n, line_feeds(p), last_line_len(p)) {
                        Ok(head + shifted_tokens(tail, n, line_feeds(p), last_line_len(p)))
                    } else {
                        Err(TokenizeError::BadOffset)
                    },
                },
            }
        },
    }
}

/// Tokenizes a command. If it starts with a prefix keyword (`time`), the
/// prefix and the rest are tokenized separately, and the tokens of the rest
/// are moved to their place in the command.
pub fn tokenize(command: &str, syntaxes: &Syntaxes) -> (r: Result<Vec<Token>, TokenizeError>)
    requires
        command.spec_bytes().len() < usize::MAX,
    ensures
        match r {
            Ok(tokens) => tokenize_outcome(syntaxes.spec_set(), command.spec_bytes()) == Ok::<Seq<Token>, TokenizeError>(tokens@),
            Err(e) => tokenize_outcome(syntaxes.spec_set(), command.spec_bytes()) == Err::<Seq<Token>, TokenizeError>(e),
        },
        r matches Ok(tokens) ==> tokens_of(command.spec_bytes(), tokens@),
        r matches Ok(tokens) ==> tokens_sorted_upto(tokens@, command.spec_bytes().len()),
    decreases command.spec_bytes().len(),
{
    let ghost cb = command.spec_bytes();
    match find_prefix_split(command) {
        Some(n) => {
            proof {
                lemma_prefix_split_bounds(cb);
                lemma_boundary_after_ascii(cb, n as int);
            }
            let (head, tail) = command.split_at(n);
            assert(head.spec_bytes() =~= cb.take(n as int));
            assert(tail.spec_bytes() =~= cb.skip(n as int));
            assert(spec_prefix_split(cb) == Some(n as nat));
            let mut tokens = tokenize_command(head, syntaxes)?;
            let more = tokenize(tail, syntaxes)?;
            let ghost head_tokens = tokens@;
            assert(spec_prefix_split(cb) == Some(n as nat));
            let ghost head_ops = choose|o: Seq<Seq<(usize, ScopeOp)>>|
                #[trigger] command_result(cb.take(n as int), o) == Some(head_tokens)
                    && (forall|k: int| 0 <= k < o.len() ==> offsets_ordered(#[trigger] o[k]))
                    && all_offsets_in_lines(command_lines(cb.take(n as int)), o);
            let ghost tail_ops = choose|o: Seq<Seq<Seq<(usize, ScopeOp)>>>|
                #[trigger] tokenize_result(cb.skip(n as int), o) == Some(more@) && all_ordered(o)
                    && parts_in_lines(cb.skip(n as int), o);
            let (lines, columns) = prefix_position(command.as_bytes(), n);
            let ghost pb = cb.take(n as int);
            let mut k: usize = 0;
            while k < more.len()
                invariant
                    k <= more@.len(),
                    lines == line_feeds(pb),
                    columns == last_line_len(pb),
                    pb == cb.take(n as int),
                    tokens@ == head_tokens + shifted_tokens(more@.take(k as int), n as nat, lines as nat, columns as nat),
                    forall|i: int| 0 <= i < k ==> shift_fits(#[trigger] more@[i], n as nat, lines as nat, columns as nat),
                    spec_prefix_split(cb) == Some(n as nat),
                    cb == command.spec_bytes(),
                    command_result(cb.take(n as int), head_ops) == Some(head_tokens),
                    forall|k: int| 0 <= k < head_ops.len() ==> offsets_ordered(#[trigger] head_ops[k]),
                    tokenize_result(cb.skip(n as int), tail_ops) == Some(more@),
                    all_ordered(tail_ops),
                    all_offsets_in_lines(command_lines(cb.take(n as int)), head_ops),
                    parts_in_lines(cb.skip(n as int), tail_ops),
                    command_outcome(syntaxes.spec_set(), cb.take(n as int)) == Ok::<Seq<Token>, TokenizeError>(head_tokens),
                    tokenize_outcome(syntaxes.spec_set(), cb.skip(n as int)) == Ok::<Seq<Token>, TokenizeError>(more@),
                decreases more@.len() - k,
            {
                let t = &more[k];
                if t.range.start > usize::MAX - n || t.range.end > usize::MAX - n || t.line > usize::MAX - lines
                    || (t.line == 1 && t.column > usize::MAX - columns) {
                    assert(!shift_fits(more@[k as int], n as nat, lines as nat, columns as nat));
                    return Err(TokenizeError::BadOffset);
                }
                let column = if t.line == 1 { t.column + columns } else { t.column };
                tokens.push(
                    Token {
                        scope: t.scope.clone(),
                        line: t.line + lines,
                        column,
                        range: Range { start: t.range.start + n, end: t.range.end + n },
                    },
                );
                assert(tokens@ =~= head_tokens + shifted_tokens(more@.take(k + 1), n as nat, lines as nat, columns as nat));
                k = k + 1;
            }
            assert(more@.take(k as int) =~= more@);
            let ghost witness = seq![head_ops] + tail_ops;
            assert(witness.drop_first() =~= tail_ops);
            assert(witness[0] == head_ops);
            assert(tokenize_result(cb, witness) == Some(tokens@));
            assert(all_ordered(witness)) by {
                assert forall|p: int, k: int| 0 <= p < witness.len() && 0 <= k < witness[p].len() implies offsets_ordered(#[trigger] witness[p][k]) by {
                    if p > 0 {
                        assert(witness[p] == tail_ops[p - 1]);
                    }
                }
            }
            assert(parts_in_lines(cb, witness));
            proof {
                lemma_tokens_sorted(cb, witness);
            }
            Ok(tokens)
        },
        None => {
            let r = tokenize_command(command, syntaxes);
            proof {
                if r is Ok {
                    let tokens = r->Ok_0;
                    let o = choose|o: Seq<Seq<(usize, ScopeOp)>>|
                        #[trigger] command_result(cb, o) == Some(tokens@)
                            && (forall|k: int| 0 <= k < o.len() ==> offsets_ordered(#[trigger] o[k]))
                            && all_offsets_in_lines(command_lines(cb), o);
                    let witness = seq![o];
                    assert(tokenize_result(cb, witness) == Some(tokens@));
                    assert(all_ordered(witness));
                    assert(parts_in_lines(cb, witness));
                }
            }
            r
        },
    }
}

/// Every token that tokenizing a command gives, with or without a `time `
/// prefix and for any scope operations a parser may give, starts no later
/// than it ends and no later than the end of the command, and has a line
/// and a column that count from 1.
pub proof fn lemma_tokens_well_formed(command: Seq<u8>, ops: Seq<Seq<Seq<(usize, ScopeOp)>>>)
    requires
        command.len() < usize::MAX,
    ensures
        tokenize_result(command, ops) matches Some(tokens) ==> forall|i: int|
            0 <= i < tokens.len() ==> token_well_formed(#[trigger] tokens[i]) && tokens[i].range.start
                <= command.len(),
    decreases command.len(),
{
    if ops.len() > 0 {
        match spec_prefix_split(command) {
            None => {
                lemma_command_tokens_well_formed(command, ops[0]);
            },
            Some(n) => {
                lemma_prefix_split_bounds(command);
                let head_bytes = command.take(n as int);
                let tail_bytes = command.skip(n as int);
                lemma_command_tokens_well_formed(head_bytes, ops[0]);
                lemma_tokens_well_formed(tail_bytes, ops.drop_first());
                if let Some(tokens) = tokenize_result(command, ops) {
                    let head = command_result(head_bytes, ops[0]).unwrap();
                    let tail = tokenize_result(tail_bytes, ops.drop_first()).unwrap();
                    assert forall|i: int| 0 <= i < tokens.len() implies token_well_formed(#[trigger] tokens[i])
                        && tokens[i].range.start <= command.len() by {
                        if i < head.len() {
                            assert(tokens[i] == head[i]);
                        } else {
                            let j = i - head.len();
                            let p = command.take(n as int);
                            assert(shift_fits(tail[j], n, line_feeds(p), last_line_len(p)));
                            assert(token_well_formed(tail[j]));
                            assert(tokens[i] == shifted_token(tail[j], n, line_feeds(p), last_line_len(p)));
                        }
                    }
                }
            },
        }
    }
}


/// Tokenizing a command with a `time ` prefix of `n` bytes gives the tokens
/// of the prefix followed by those of the rest, moved to their place in the
/// command; and any tokens of the prefix followed by any tokens of the rest
/// that can be so moved are tokens of the command.
pub proof fn lemma_tokens_of_split(command: Seq<u8>, n: nat, tokens: Seq<Token>)
    requires
        spec_prefix_split(command) == Some(n),
    ensures
        tokens_of(command, tokens) <==> exists|head: Seq<Token>, tail: Seq<Token>|
            #![trigger tokens_of_command(command.take(n as int), head), tokens_of(command.skip(n as int), tail)]
            {
                let p = command.take(n as int);
                &&& tokens_of_command(p, head)
                &&& tokens_of(command.skip(n as int), tail)
                &&& forall|i: int| 0 <= i < tail.len() ==> shift_fits(#[trigger] tail[i], n, line_feeds(p), last_line_len(p))
                &&& tokens == head + shifted_tokens(tail, n, line_feeds(p), last_line_len(p))
            },
{
    lemma_prefix_split_bounds(command);
    let p = command.take(n as int);
    let rest = command.skip(n as int);
    if tokens_of(command, tokens) {
        let ops = choose|ops: Seq<Seq<Seq<(usize, ScopeOp)>>>|
            #[trigger] tokenize_result(command, ops) == Some(tokens) && all_ordered(ops) && parts_in_lines(command, ops);
        let head = command_result(p, ops[0]).unwrap();
        let tail = tokenize_result(rest, ops.drop_first()).unwrap();
        assert(forall|k: int| 0 <= k < ops[0].len() ==> offsets_ordered(#[trigger] ops[0][k]));
        assert(tokens_of_command(p, head));
        assert(all_ordered(ops.drop_first())) by {
            assert forall|q: int, k: int| 0 <= q < ops.drop_first().len() && 0 <= k < ops.drop_first()[q].len()
                implies offsets_ordered(#[trigger] ops.drop_first()[q][k]) by {
                assert(ops.drop_first()[q] == ops[q + 1]);
            }
        }
        assert(tokens_of(rest, tail));
    }
    if exists|head: Seq<Token>, tail: Seq<Token>|
        #![trigger tokens_of_command(p, head), tokens_of(rest, tail)]
        {
            &&& tokens_of_command(p, head)
            &&& tokens_of(rest, tail)
            &&& forall|i: int| 0 <= i < tail.len() ==> shift_fits(#[trigger] tail[i], n, line_feeds(p), last_line_len(p))
            &&& tokens == head + shifted_tokens(tail, n, line_feeds(p), last_line_len(p))
        } {
        let (head, tail) = choose|head: Seq<Token>, tail: Seq<Token>|
            #![trigger tokens_of_command(p, head), tokens_of(rest, tail)]
            {
                &&& tokens_of_command(p, head)
                &&& tokens_of(rest, tail)
                &&& forall|i: int| 0 <= i < tail.len() ==> shift_fits(#[trigger] tail[i], n, line_feeds(p), last_line_len(p))
                &&& tokens == head + shifted_tokens(tail, n, line_feeds(p), last_line_len(p))
            };
        let o1 = choose|o: Seq<Seq<(usize, ScopeOp)>>|
            #[trigger] command_result(p, o) == Some(head) && (forall|k: int| 0 <= k < o.len() ==> offsets_ordered(#[trigger] o[k]))
                && all_offsets_in_lines(command_lines(p), o);
        let o2 = choose|o: Seq<Seq<Seq<(usize, ScopeOp)>>>|
            #[trigger] tokenize_result(rest, o) == Some(tail) && all_ordered(o) && parts_in_lines(rest, o);
        let ops = seq![o1] + o2;
        assert(ops.drop_first() =~= o2);
        assert(ops[0] == o1);
        assert(tokenize_result(command, ops) == Some(tokens));
        assert forall|q: int, k: int| 0 <= q < ops.len() && 0 <= k < ops[q].len() implies offsets_ordered(#[trigger] ops[q][k]) by {
            if q > 0 {
                assert(ops[q] == o2[q - 1]);
            }
        }
        assert(parts_in_lines(command, ops));
        assert(tokens_of(command, tokens));
    }
}

/// Whether the operations of every line of every part of the command lie
/// within their line.
pub open spec fn parts_in_lines(command: Seq<u8>, ops: Seq<Seq<Seq<(usize, ScopeOp)>>>) -> bool
    decreases command.len(),
{
    ops.len() > 0 ==> match spec_prefix_split(command) {
        None => all_offsets_in_lines(command_lines(command), ops[0]),
        Some(n) => {
            proof {
                lemma_prefix_split_bounds(command);
            }
            &&& all_offsets_in_lines(command_lines(command.take(n as int)), ops[0])
            &&& parts_in_lines(command.skip(n as int), ops.drop_first())
        },
    }
}

/// When the parser gives each line's operations in order of their offsets
/// (as syntect documents) and within the line, tokenizing a command gives
/// tokens in order of their ends, none of which ends after the end of the
/// command.
pub proof fn lemma_tokens_sorted(command: Seq<u8>, ops: Seq<Seq<Seq<(usize, ScopeOp)>>>)
    requires
        command.len() < usize::MAX,
        all_ordered(ops),
        parts_in_lines(command, ops),
    ensures
        tokenize_result(command, ops) matches Some(tokens) ==> tokens_sorted_upto(tokens, command.len()),
    decreases command.len(),
{
    if ops.len() > 0 {
        assert(forall|k: int| 0 <= k < ops[0].len() ==> offsets_ordered(#[trigger] ops[0][k]));
        match spec_prefix_split(command) {
            None => {
                lemma_command_tokens_sorted(command, ops[0]);
            },
            Some(n) => {
                lemma_prefix_split_bounds(command);
                let p = command.take(n as int);
                let rest = command.skip(n as int);
                lemma_command_tokens_sorted(p, ops[0]);
                assert(all_ordered(ops.drop_first())) by {
                    assert forall|q: int, k: int| 0 <= q < ops.drop_first().len() && 0 <= k < ops.drop_first()[q].len()
                        implies offsets_ordered(#[trigger] ops.drop_first()[q][k]) by {
                        assert(ops.drop_first()[q] == ops[q + 1]);
                    }
                }
                lemma_tokens_sorted(rest, ops.drop_first());
                if let Some(tokens) = tokenize_result(command, ops) {
                    let head = command_result(p, ops[0]).unwrap();
                    let tail = tokenize_result(rest, ops.drop_first()).unwrap();
                    let moved = shifted_tokens(tail, n, line_feeds(p), last_line_len(p));
                    assert(tokens == head + moved);
                    assert forall|i: int| 0 <= i < tail.len() implies #[trigger] moved[i].range.end == tail[i].range.end + n by {
                        assert(shift_fits(tail[i], n, line_feeds(p), last_line_len(p)));
                    }
                    assert forall|i: int, j: int| 0 <= i <= j < tokens.len() implies #[trigger] tokens[i].range.end
                        <= #[trigger] tokens[j].range.end by {
                        if j < head.len() {
                            assert(tokens[i] == head[i] && tokens[j] == head[j]);
                        } else if i < head.len() {
                            assert(tokens[i] == head[i]);
                            assert(tokens[j] == moved[j - head.len()]);
                        } else {
                            assert(tokens[i] == moved[i - head.len()]);
                            assert(tokens[j] == moved[j - head.len()]);
                        }
                    }
                    assert forall|i: int| 0 <= i < tokens.len() implies #[trigger] tokens[i].range.end <= command.len() by {
                        if i < head.len() {
                            assert(tokens[i] == head[i]);
                        } else {
                            assert(tokens[i] == moved[i - head.len()]);
                        }
                    }
                }
            },
        }
    }
}

/// Tokenizing a command with a `time ` prefix of `n` bytes fails exactly
/// when tokenizing the prefix fails, tokenizing the rest fails, or moving
/// the rest's tokens overflows; otherwise it gives the prefix's tokens
/// followed by the rest's, moved to their place in the command.
pub proof fn lemma_tokenize_outcome_split(set: SyntaxSet, command: Seq<u8>, n: nat)
    requires
        spec_prefix_split(command) == Some(n),
    ensures
        ({
            let p = command.take(n as int);
            tokenize_outcome(set, command) == match command_outcome(set, p) {
                Err(e) => Err(e),
                Ok(head) => match tokenize_outcome(set, command.skip(n as int)) {
                    Err(e) => Err(e),
                    Ok(tail) => if forall|i: int|
                        0 <= i < tail.len() ==> shift_fits(#[trigger] tail[i], n, line_feeds(p), last_line_len(p)) {
                        Ok(head + shifted_tokens(tail, n, line_feeds(p), last_line_len(p)))
                    } else {
                        Err(TokenizeError::BadOffset)
                    },
                },
            }
        }),
{
    lemma_prefix_split_bounds(command);
}

} // verus!
