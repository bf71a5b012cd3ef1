//! The scope-stack machine that turns the parser's scope operations into
//! tokens: every scope that is pushed and later popped (or still open at the
//! end) becomes a token covering the bytes in between.

use std::ops::Range;
use vstd::prelude::*;

use super::highlighter::is_ascii_whitespace;
use super::Token;

verus! {

/// How many scopes a clear operation removes.
#[derive(Clone, Copy, Debug)]
pub enum ClearCount {
    /// At most this many, from the top.
    TopN(usize),
    /// All of them.
    All,
}

/// One operation on the scope stack, with the pushed scope's name.
#[derive(Debug)]
pub enum ScopeOp {
    Push(String),
    Pop(usize),
    /// Removes scopes and keeps them aside so that `Restore` can bring them
    /// back.
    Clear(ClearCount),
    /// Brings back the scopes of the latest `Clear`.
    Restore,
    Noop,
}

/// Why scope operations could not be turned into tokens.
#[derive(Clone, Copy, PartialEq, Eq, Structural, Debug)]
pub enum TokenizeError {
    /// A pop of more scopes than are open.
    UnbalancedPop,
    /// An operation at a byte offset beyond its line or inside a character.
    BadOffset,
    /// The syntax set has no grammar for shell scripts.
    NoShellSyntax,
    /// The parser failed on a line.
    ParseFailed,
}

/// A scope that has been pushed and not yet popped.
#[derive(Debug)]
pub struct OpenScope {
    pub scope: String,
    /// Line of the push (1-based)
    pub line: usize,
    /// Column of the push (1-based)
    pub column: usize,
    /// Byte offset of the push in the command
    pub start: usize,
}

/// The token that an open scope becomes when it is closed at byte `end`.
pub open spec fn closed_token(e: OpenScope, end: nat) -> Token {
    Token { scope: e.scope, line: e.line, column: e.column, range: Range { start: e.start, end: end as usize } }
}

/// The top `k` entries of `s`, topmost first (the order in which they are
/// popped).
pub open spec fn popped_top<A>(s: Seq<A>, k: nat) -> Seq<A> {
    Seq::new(k, |i: int| s[s.len() - 1 - i])
}

/// The tokens that the scopes `popped` (in popping order) become when they
/// are closed at byte `pos`; a scope that started after `pos` gives none.
pub open spec fn close_popped(popped: Seq<OpenScope>, pos: nat) -> Seq<Token>
    decreases popped.len(),
{
    if popped.len() == 0 {
        Seq::empty()
    } else {
        let e = popped.last();
        close_popped(popped.drop_last(), pos) + if pos >= e.start {
            seq![closed_token(e, pos)]
        } else {
            Seq::empty()
        }
    }
}

/// The tokens that the scopes `popped` (in popping order) become at the end
/// of a command of `end` bytes.
pub open spec fn close_at_end(popped: Seq<OpenScope>, end: nat) -> Seq<Token> {
    Seq::new(popped.len(), |i: int| closed_token(popped[i], end))
}

/// The state of the scope-stack machine.
pub struct TrackerState {
    /// Open scopes, innermost last
    pub stack: Seq<OpenScope>,
    /// Scopes set aside by each pending clear, in popping order
    pub stash: Seq<Seq<OpenScope>>,
    /// Tokens produced so far
    pub tokens: Seq<Token>,
}

/// How many scopes a clear removes from a stack of `len` scopes.
pub open spec fn clear_count(amount: ClearCount, len: nat) -> nat {
    match amount {
        ClearCount::TopN(n) => if n < len { n as nat } else { len },
        ClearCount::All => len,
    }
}

/// The machine's state after operation `op`, issued at byte `pos` of the
/// command, which is at `line` and `column`; `None` when the operation pops
/// more scopes than are open.
pub open spec fn step(st: TrackerState, op: ScopeOp, line: nat, column: nat, pos: nat) -> Option<TrackerState> {
    let len = st.stack.len();
    match op {
        ScopeOp::Push(scope) => Some(
            TrackerState {
                stack: st.stack.push(OpenScope { scope, line: line as usize, column: column as usize, start: pos as usize }),
                ..st
            },
        ),
        ScopeOp::Pop(count) => if count <= len {
            Some(
                TrackerState {
                    stack: st.stack.take(len - count),
                    tokens: st.tokens + close_popped(popped_top(st.stack, count as nat), pos),
                    ..st
                },
            )
        } else {
            None
        },
        ScopeOp::Clear(amount) => {
            let k = clear_count(amount, len);
            Some(
                TrackerState {
                    stack: st.stack.take(len - k),
                    stash: st.stash.push(popped_top(st.stack, k)),
                    tokens: st.tokens + close_popped(popped_top(st.stack, k), pos),
                },
            )
        },
        ScopeOp::Restore => if st.stash.len() > 0 {
            let s = st.stash.last();
            Some(
                TrackerState {
                    stack: st.stack + popped_top(s, s.len()),
                    stash: st.stash.drop_last(),
                    ..st
                },
            )
        } else {
            Some(st)
        },
        ScopeOp::Noop => Some(st),
    }
}

/// Restoring after a clear undoes the clear: the open scopes and the scopes
/// set aside are those from before the clear.
pub proof fn lemma_clear_then_restore(
    st: TrackerState,
    amount: ClearCount,
    line1: nat,
    column1: nat,
    pos1: nat,
    line2: nat,
    column2: nat,
    pos2: nat,
)
    ensures
        step(st, ScopeOp::Clear(amount), line1, column1, pos1) matches Some(s1) && step(
            s1,
            ScopeOp::Restore,
            line2,
            column2,
            pos2,
        ) matches Some(s2) && s2.stack == st.stack && s2.stash == st.stash,
{
    let len = st.stack.len();
    let k = clear_count(amount, len);
    let s1 = step(st, ScopeOp::Clear(amount), line1, column1, pos1).unwrap();
    assert(s1.stash.last() == popped_top(st.stack, k));
    assert(s1.stash.drop_last() =~= st.stash);
    let back = popped_top(popped_top(st.stack, k), k);
    assert(st.stack.take(len - k) + back =~= st.stack);
}

/// Popping one scope right after pushing it undoes the push: the open scopes
/// are those from before, and the pushed scope became one token from the
/// push to the pop (none if the pop comes before the push).
pub proof fn lemma_push_then_pop(
    st: TrackerState,
    scope: String,
    line1: nat,
    column1: nat,
    pos1: nat,
    line2: nat,
    column2: nat,
    pos2: nat,
)
    requires
        line1 <= usize::MAX,
        column1 <= usize::MAX,
        pos1 <= usize::MAX,
        pos2 <= usize::MAX,
    ensures
        step(st, ScopeOp::Push(scope), line1, column1, pos1) matches Some(s1) && step(
            s1,
            ScopeOp::Pop(1),
            line2,
            column2,
            pos2,
        ) matches Some(s2) && s2.stack == st.stack && s2.stash == st.stash && s2.tokens == st.tokens
            + if pos2 >= pos1 {
            seq![
                Token {
                    scope,
                    line: line1 as usize,
                    column: column1 as usize,
                    range: Range { start: pos1 as usize, end: pos2 as usize },
                },
            ]
        } else {
            Seq::<Token>::empty()
        },
{
    let s1 = step(st, ScopeOp::Push(scope), line1, column1, pos1).unwrap();
    let p = popped_top(s1.stack, 1);
    assert(p.drop_last() =~= Seq::<OpenScope>::empty());
    assert(s1.stack.take(s1.stack.len() - 1) =~= st.stack);
    let e = OpenScope { scope, line: line1 as usize, column: column1 as usize, start: pos1 as usize };
    assert(p.last() == e);
    assert(close_popped(p.drop_last(), pos2) =~= Seq::<Token>::empty());
    let expected = if pos2 >= pos1 {
        seq![closed_token(e, pos2)]
    } else {
        Seq::<Token>::empty()
    };
    assert(close_popped(p, pos2) =~= expected);
    let s2 = step(s1, ScopeOp::Pop(1), line2, column2, pos2).unwrap();
    assert(s2.tokens == st.tokens + expected);
}

/// Closing scopes that all started at or before `pos` gives one token per
/// scope, in popping order, each ending at `pos`.
proof fn lemma_close_popped_all(popped: Seq<OpenScope>, pos: nat)
    requires
        forall|i: int| 0 <= i < popped.len() ==> (#[trigger] popped[i]).start <= pos,
    ensures
        close_popped(popped, pos) == Seq::new(popped.len(), |i: int| closed_token(popped[i], pos)),
    decreases popped.len(),
{
    if popped.len() > 0 {
        let p = popped.drop_last();
        assert forall|i: int| 0 <= i < p.len() implies (#[trigger] p[i]).start <= pos by {
            assert(p[i] == popped[i]);
        }
        lemma_close_popped_all(p, pos);
        assert(popped.last().start <= pos);
        assert(close_popped(popped, pos) =~= Seq::new(popped.len(), |i: int| closed_token(popped[i], pos)));
    }
}

/// When every open scope started at or before the pop, `Pop(n)` with at
/// least `n` scopes open removes exactly the top `n` of them, leaves the
/// scopes set aside alone, and adds one token for each popped scope,
/// innermost first, each ending at the pop; a pop of more than the open
/// scopes is refused.
pub proof fn lemma_pop_closes_top(st: TrackerState, n: usize, line: nat, column: nat, pos: nat)
    requires
        forall|i: int| 0 <= i < st.stack.len() ==> (#[trigger] st.stack[i]).start <= pos,
    ensures
        n > st.stack.len() ==> step(st, ScopeOp::Pop(n), line, column, pos) is None,
        n <= st.stack.len() ==> step(st, ScopeOp::Pop(n), line, column, pos) is Some,
        n <= st.stack.len() ==> step(st, ScopeOp::Pop(n), line, column, pos)->0.stack == st.stack.subrange(
            0,
            st.stack.len() - n,
        ),
        n <= st.stack.len() ==> step(st, ScopeOp::Pop(n), line, column, pos)->0.stash == st.stash,
        n <= st.stack.len() ==> step(st, ScopeOp::Pop(n), line, column, pos)->0.tokens.len() == st.tokens.len() + n,
        n <= st.stack.len() ==> step(st, ScopeOp::Pop(n), line, column, pos)->0.tokens.subrange(0, st.tokens.len() as int)
            == st.tokens,
        n <= st.stack.len() ==> forall|j: int|
            0 <= j < n ==> #[trigger] step(st, ScopeOp::Pop(n), line, column, pos)->0.tokens[st.tokens.len() + j]
                == closed_token(st.stack[st.stack.len() - 1 - j], pos),
{
    if n <= st.stack.len() {
        let p = popped_top(st.stack, n as nat);
        assert forall|i: int| 0 <= i < p.len() implies (#[trigger] p[i]).start <= pos by {
            assert(p[i] == st.stack[st.stack.len() - 1 - i]);
        }
        lemma_close_popped_all(p, pos);
        let s = step(st, ScopeOp::Pop(n), line, column, pos).unwrap();
        assert(s.stack =~= st.stack.subrange(0, st.stack.len() - n));
        assert(s.tokens.subrange(0, st.tokens.len() as int) =~= st.tokens);
    }
}

/// Pushing two scopes and popping two at once restores the open scopes and
/// gives two tokens ending at the pop: the inner scope's, then the outer
/// one's.
pub proof fn lemma_push_push_pop_two(
    st: TrackerState,
    a: String,
    b: String,
    line_a: nat,
    column_a: nat,
    pos_a: nat,
    line_b: nat,
    column_b: nat,
    pos_b: nat,
    line: nat,
    column: nat,
    pos: nat,
)
    requires
        line_a <= usize::MAX,
        column_a <= usize::MAX,
        line_b <= usize::MAX,
        column_b <= usize::MAX,
        pos_a <= pos_b <= pos <= usize::MAX,
    ensures
        step(st, ScopeOp::Push(a), line_a, column_a, pos_a) matches Some(s1) && step(
            s1,
            ScopeOp::Push(b),
            line_b,
            column_b,
            pos_b,
        ) matches Some(s2) && step(s2, ScopeOp::Pop(2), line, column, pos) matches Some(s3) && s3.stack == st.stack
            && s3.stash == st.stash && s3.tokens == st.tokens + seq![
            Token { scope: b, line: line_b as usize, column: column_b as usize, range: Range { start: pos_b as usize, end: pos as usize } },
            Token { scope: a, line: line_a as usize, column: column_a as usize, range: Range { start: pos_a as usize, end: pos as usize } },
        ],
{
    let s1 = step(st, ScopeOp::Push(a), line_a, column_a, pos_a).unwrap();
    let s2 = step(s1, ScopeOp::Push(b), line_b, column_b, pos_b).unwrap();
    let ea = OpenScope { scope: a, line: line_a as usize, column: column_a as usize, start: pos_a as usize };
    let eb = OpenScope { scope: b, line: line_b as usize, column: column_b as usize, start: pos_b as usize };
    assert(s2.stack =~= st.stack.push(ea).push(eb));
    let p = popped_top(s2.stack, 2);
    assert(p =~= seq![eb, ea]);
    assert(p[0] == eb && p[1] == ea);
    lemma_close_popped_all(p, pos);
    assert(close_popped(p, pos) =~= seq![closed_token(eb, pos), closed_token(ea, pos)]);
    let s3 = step(s2, ScopeOp::Pop(2), line, column, pos).unwrap();
    assert(s3.stack =~= st.stack);
}

/// Operations only ever add tokens: the tokens before an operation are the
/// first tokens after it.
pub proof fn lemma_step_keeps_tokens(st: TrackerState, op: ScopeOp, line: nat, column: nat, pos: nat)
    ensures
        step(st, op, line, column, pos) matches Some(s) ==> s.tokens.len() >= st.tokens.len()
            && s.tokens.take(st.tokens.len() as int) == st.tokens,
{
    if let Some(s) = step(st, op, line, column, pos) {
        assert(s.tokens.take(st.tokens.len() as int) =~= st.tokens);
    }
}

/// The scope-stack machine.
pub struct ScopeTracker {
    stack: Vec<OpenScope>,
    stash: Vec<Vec<OpenScope>>,
    tokens: Vec<Token>,
}

impl View for ScopeTracker {
    type V = TrackerState;

    closed spec fn view(&self) -> TrackerState {
        TrackerState {
            stack: self.stack@,
            stash: self.stash@.map_values(|v: Vec<OpenScope>| v@),
            tokens: self.tokens@,
        }
    }
}

fn copy_open_scope(e: &OpenScope) -> (r: OpenScope)
    ensures
        r == *e,
{
    OpenScope { scope: e.scope.clone(), line: e.line, column: e.column, start: e.start }
}

impl ScopeTracker {
    /// A machine with no open scopes, nothing set aside and no tokens.
    pub fn new() -> (r: Self)
        ensures
            r@.stack == Seq::<OpenScope>::empty(),
            r@.stash == Seq::<Seq<OpenScope>>::empty(),
            r@.tokens == Seq::<Token>::empty(),
    {
        let r = ScopeTracker { stack: Vec::new(), stash: Vec::new(), tokens: Vec::new() };
        assert(r@.stash =~= Seq::<Seq<OpenScope>>::empty());
        r
    }

    /// Pops `count` scopes (at most as many as are open), closing each at
    /// `pos`; returns them in popping order.
    fn pop_scopes(&mut self, count: usize, pos: usize) -> (popped: Vec<OpenScope>)
        requires
            count <= old(self)@.stack.len(),
        ensures
            popped@ == popped_top(old(self)@.stack, count as nat),
            final(self)@.stack == old(self)@.stack.take(old(self)@.stack.len() - count),
            final(self)@.stash == old(self)@.stash,
            final(self)@.tokens == old(self)@.tokens + close_popped(popped_top(old(self)@.stack, count as nat), pos as nat),
    {
        let ghost s0 = self.stack@;
        let ghost t0 = self.tokens@;
        let ghost len = s0.len();
        let mut popped: Vec<OpenScope> = Vec::new();
        let mut k: usize = 0;
        assert(popped_top(s0, 0) =~= Seq::<OpenScope>::empty());
        assert(s0.take(len as int) =~= s0);
        while k < count
            invariant
                count <= len,
                k <= count,
                len == s0.len(),
                self.stack@ == s0.take(len - k),
                self.tokens@ == t0 + close_popped(popped_top(s0, k as nat), pos as nat),
                popped@ == popped_top(s0, k as nat),
                self.stash@ == old(self).stash@,
            decreases count - k,
        {
            let e = self.stack.pop().unwrap();
            assert(e == s0[len - 1 - k]);
            let ghost p = popped_top(s0, (k + 1) as nat);
            assert(p.drop_last() =~= popped_top(s0, k as nat));
            assert(p.last() == e);
            assert(s0.take(len - k).drop_last() =~= s0.take(len - k - 1));
            if pos >= e.start {
                self.tokens.push(
                    Token {
                        scope: e.scope.clone(),
                        line: e.line,
                        column: e.column,
                        range: Range { start: e.start, end: pos },
                    },
                );
            }
            assert(self.tokens@ =~= t0 + close_popped(p, pos as nat));
            popped.push(e);
            assert(popped@ =~= p);
            k = k + 1;
        }
        popped
    }

    /// Applies operation `op`, issued at byte `pos` of the command, which is
    /// at `line` and `column`. A pop of more scopes than are open is refused
    /// and leaves the machine unchanged.
    pub fn apply(&mut self, op: &ScopeOp, line: usize, column: usize, pos: usize) -> (r: Result<(), TokenizeError>)
        ensures
            match step(old(self)@, *op, line as nat, column as nat, pos as nat) {
                Some(st) => r is Ok && final(self)@ == st,
                None => r == Err::<(), TokenizeError>(TokenizeError::UnbalancedPop) && final(self)@ == old(self)@,
            },
    {
        let ghost st = self@;
        match op {
            ScopeOp::Push(scope) => {
                self.stack.push(OpenScope { scope: scope.clone(), line, column, start: pos });
                assert(self@.stash =~= st.stash);
                Ok(())
            },
            ScopeOp::Pop(count) => {
                let count = *count;
                if count > self.stack.len() {
                    return Err(TokenizeError::UnbalancedPop);
                }
                let _ = self.pop_scopes(count, pos);
                assert(self@.stash =~= st.stash);
                Ok(())
            },
            ScopeOp::Clear(amount) => {
                let len = self.stack.len();
                let count = match amount {
                    ClearCount::TopN(n) => if *n < len { *n } else { len },
                    ClearCount::All => len,
                };
                let popped = self.pop_scopes(count, pos);
                self.stash.push(popped);
                assert(self@.stash =~= st.stash.push(popped_top(st.stack, count as nat)));
                Ok(())
            },
            ScopeOp::Restore => {
                if self.stash.len() > 0 {
                    let mut s = self.stash.pop().unwrap();
                    let ghost s0 = s@;
                    let ghost stack0 = self.stack@;
                    assert(s0 == st.stash.last());
                    assert(self@.stash =~= st.stash.drop_last());
                    let ghost stash1 = self.stash@;
                    while s.len() > 0
                        invariant
                            s@ == s0.take(s@.len() as int),
                            s@.len() <= s0.len(),
                            self.stack@ == stack0 + popped_top(s0, (s0.len() - s@.len()) as nat),
                            self.stash@ == stash1,
                            self.tokens@ == st.tokens,
                        decreases s@.len(),
                    {
                        let ghost j = s0.len() - s@.len();
                        let e = s.pop().unwrap();
                        assert(e == s0[s0.len() - 1 - j]);
                        assert(s0.take(s0.len() - j).drop_last() =~= s0.take(s0.len() - j - 1));
                        self.stack.push(e);
                        assert(self.stack@ =~= stack0 + popped_top(s0, (j + 1) as nat));
                    }
                    assert(self@.stash =~= st.stash.drop_last());
                }
                Ok(())
            },
            ScopeOp::Noop => Ok(()),
        }
    }

    /// Closes all scopes that are still open at the end of a command of
    /// `end` bytes, innermost first, and returns all tokens.
    pub fn finish(self, end: usize) -> (r: Vec<Token>)
        ensures
            r@ == self@.tokens + close_at_end(popped_top(self@.stack, self@.stack.len()), end as nat),
    {
        let ScopeTracker { mut stack, stash: _, mut tokens } = self;
        let ghost s0 = stack@;
        let ghost t0 = tokens@;
        while stack.len() > 0
            invariant
                stack@.len() <= s0.len(),
                stack@ == s0.take(stack@.len() as int),
                tokens@ == t0 + close_at_end(popped_top(s0, (s0.len() - stack@.len()) as nat), end as nat),
            decreases stack@.len(),
        {
            let ghost j = s0.len() - stack@.len();
            let e = stack.pop().unwrap();
            assert(e == s0[s0.len() - 1 - j]);
            assert(s0.take(s0.len() - j).drop_last() =~= s0.take(s0.len() - j - 1));
            tokens.push(Token { scope: e.scope, line: e.line, column: e.column, range: Range { start: e.start, end } });
            assert(tokens@ =~= t0 + close_at_end(popped_top(s0, (j + 1) as nat), end as nat));
        }
        tokens
    }
}

/// The number of characters that the UTF-8 bytes `b` encode: the bytes that
/// are not continuation bytes.
pub open spec fn char_count(b: Seq<u8>) -> nat
    decreases b.len(),
{
    if b.len() == 0 {
        0
    } else {
        char_count(b.drop_last()) + if is_continuation_byte(b.last()) {
            0nat
        } else {
            1nat
        }
    }
}

/// Whether a continuation byte of UTF-8 (`10xxxxxx`).
pub open spec fn is_continuation_byte(b: u8) -> bool {
    0x80 <= b <= 0xbf
}

/// Whether byte offset `i` of a line is a character boundary at which the
/// line can be cut.
pub open spec fn offset_in_line(line: Seq<u8>, i: nat) -> bool {
    i <= line.len() && (i == line.len() || !is_continuation_byte(line[i as int]))
}

/// Whether byte offset `i` of a line is the end of a line that ends with a
/// line feed, which is the start of the next line.
pub open spec fn after_line_feed(line: Seq<u8>, i: nat) -> bool {
    i == line.len() && line.len() > 0 && line.last() == 10
}

/// The 1-based line number of byte offset `i` of line `ln` (0-based).
pub open spec fn line_at(line: Seq<u8>, ln: nat, i: nat) -> nat {
    if after_line_feed(line, i) {
        ln + 2
    } else {
        ln + 1
    }
}

/// The 1-based column of byte offset `i` of a line.
pub open spec fn column_at(line: Seq<u8>, i: nat) -> nat {
    if after_line_feed(line, i) {
        1
    } else {
        char_count(line.take(i as int)) + 1
    }
}

/// The outcome of the parser's operation `op` at byte `i` of line `line`
/// (0-based index `ln`, starting at byte `offset` of the command): a push
/// must come at a character boundary of its line, and every operation's
/// position in the command must fit in `usize`.
pub open spec fn op_outcome(
    st: TrackerState,
    line: Seq<u8>,
    ln: nat,
    offset: nat,
    i: nat,
    op: ScopeOp,
) -> Result<TrackerState, TokenizeError> {
    if offset + i > usize::MAX {
        Err(TokenizeError::BadOffset)
    } else if op is Push && !offset_in_line(line, i) {
        Err(TokenizeError::BadOffset)
    } else {
        match step(st, op, line_at(line, ln, i), column_at(line, i), offset + i) {
            Some(s) => Ok(s),
            None => Err(TokenizeError::UnbalancedPop),
        }
    }
}

/// The outcome of the operations `ops` that the parser gives for one line.
pub open spec fn line_outcome(
    st: TrackerState,
    line: Seq<u8>,
    ln: nat,
    offset: nat,
    ops: Seq<(usize, ScopeOp)>,
) -> Result<TrackerState, TokenizeError>
    decreases ops.len(),
{
    if ops.len() == 0 {
        Ok(st)
    } else {
        match line_outcome(st, line, ln, offset, ops.drop_last()) {
            Ok(s) => op_outcome(s, line, ln, offset, ops.last().0 as nat, ops.last().1),
            Err(e) => Err(e),
        }
    }
}

/// Counts the characters in the first `i` bytes of `line`.
pub(crate) fn count_chars(line: &[u8], i: usize) -> (n: usize)
    requires
        i <= line@.len(),
    ensures
        n == char_count(line@.take(i as int)),
        n <= i,
{
    let mut n: usize = 0;
    let mut j: usize = 0;
    assert(line@.take(0) =~= Seq::<u8>::empty());
    while j < i
        invariant
            j <= i,
            i <= line@.len(),
            n <= j,
            n == char_count(line@.take(j as int)),
        decreases i - j,
    {
        assert(line@.take(j + 1).drop_last() =~= line@.take(j as int));
        if !(0x80 <= line[j] && line[j] <= 0xbf) {
            n = n + 1;
        }
        j = j + 1;
    }
    n
}

impl ScopeTracker {
    /// Applies the operations that the parser gives for one line (0-based
    /// index `line_index`, starting at byte `offset` of the command), in
    /// order, stopping at the first that fails.
    pub fn apply_line(
        &mut self,
        line: &[u8],
        line_index: usize,
        offset: usize,
        ops: &Vec<(usize, ScopeOp)>,
    ) -> (r: Result<(), TokenizeError>)
        requires
            line_index + 2 <= usize::MAX,
            line@.len() < usize::MAX,
        ensures
            match line_outcome(old(self)@, line@, line_index as nat, offset as nat, ops@) {
                Ok(st) => r is Ok && final(self)@ == st,
                Err(e) => r == Err::<(), TokenizeError>(e),
            },
            r is Err ==> exists|k: int|
                0 <= k < ops@.len() && #[trigger] line_outcome(old(self)@, line@, line_index as nat, offset as nat, ops@.take(k))
                    == Ok::<TrackerState, TokenizeError>(final(self)@),
    {
        let mut k: usize = 0;
        assert(ops@.take(0) =~= Seq::<(usize, ScopeOp)>::empty());
        while k < ops.len()
            invariant
                k <= ops@.len(),
                line_index + 2 <= usize::MAX,
                line@.len() < usize::MAX,
                line_outcome(old(self)@, line@, line_index as nat, offset as nat, ops@.take(k as int)) == Ok::<TrackerState, TokenizeError>(self@),
            decreases ops@.len() - k,
        {
            let ghost before = self@;
            assert(ops@.take(k + 1).drop_last() =~= ops@.take(k as int));
            assert(ops@.take(k + 1).last() == ops@[k as int]);
            let i = ops[k].0;
            let op = &ops[k].1;
            if offset > usize::MAX - i {
                proof {
                    lemma_line_outcome_stops(old(self)@, line@, line_index as nat, offset as nat, ops@, k as int);
                }
                assert(line_outcome(old(self)@, line@, line_index as nat, offset as nat, ops@.take(k as int)) == Ok::<TrackerState, TokenizeError>(self@));
                return Err(TokenizeError::BadOffset);
            }
            let after_feed = i == line.len() && line.len() > 0 && line[line.len() - 1] == 10;
            let column = if let ScopeOp::Push(_) = op {
                if i > line.len() || (i < line.len() && 0x80 <= line[i] && line[i] <= 0xbf) {
                    proof {
                        lemma_line_outcome_stops(old(self)@, line@, line_index as nat, offset as nat, ops@, k as int);
                    }
                    assert(line_outcome(old(self)@, line@, line_index as nat, offset as nat, ops@.take(k as int)) == Ok::<TrackerState, TokenizeError>(self@));
                    return Err(TokenizeError::BadOffset);
                }
                if after_feed {
                    1
                } else {
                    count_chars(line, i) + 1
                }
            } else {
                0
            };
            let line_number = if after_feed { line_index + 2 } else { line_index + 1 };
            let ghost col: nat = column_at(line@, i as nat);
            let ghost pre = self@;
            assert(after_feed == after_line_feed(line@, i as nat));
            let res = self.apply(op, line_number, column, offset + i);
            assert(step(pre, *op, line_number as nat, column as nat, (offset + i) as nat)
                == step(pre, *op, line_at(line@, line_index as nat, i as nat), col, (offset + i) as nat));
            if res.is_err() {
                proof {
                    lemma_line_outcome_stops(old(self)@, line@, line_index as nat, offset as nat, ops@, k as int);
                }
                assert(line_outcome(old(self)@, line@, line_index as nat, offset as nat, ops@.take(k as int)) == Ok::<TrackerState, TokenizeError>(self@));
                return Err(TokenizeError::UnbalancedPop);
            }
            k = k + 1;
        }
        assert(ops@.take(k as int) =~= ops@);
        Ok(())
    }
}

/// Once the operations of a line fail, the operations after them do not
/// change the failure.
proof fn lemma_line_outcome_stops(
    st: TrackerState,
    line: Seq<u8>,
    ln: nat,
    offset: nat,
    ops: Seq<(usize, ScopeOp)>,
    k: int,
)
    requires
        0 <= k < ops.len(),
        line_outcome(st, line, ln, offset, ops.take(k + 1)) is Err,
    ensures
        line_outcome(st, line, ln, offset, ops) == line_outcome(st, line, ln, offset, ops.take(k + 1)),
    decreases ops.len(),
{
    if k + 1 < ops.len() {
        assert(ops.drop_last().take(k + 1) =~= ops.take(k + 1));
        lemma_line_outcome_stops(st, line, ln, offset, ops.drop_last(), k);
    } else {
        assert(ops.take(k + 1) =~= ops);
    }
}


/// The length of `b` without its trailing ASCII whitespace.
pub open spec fn trimmed_len(b: Seq<u8>) -> nat
    decreases b.len(),
{
    if b.len() > 0 && is_ascii_whitespace(b.last()) {
        trimmed_len(b.drop_last())
    } else {
        b.len()
    }
}

/// The length of the first line of `b`, its line feed included (all of `b`
/// if it has none).
pub open spec fn line_end(b: Seq<u8>) -> nat
    decreases b.len(),
{
    if b.len() == 0 {
        0
    } else if b[0] == 10 {
        1
    } else {
        1 + line_end(b.drop_first())
    }
}

pub proof fn lemma_line_end(b: Seq<u8>)
    ensures
        line_end(b) <= b.len(),
        b.len() > 0 ==> line_end(b) >= 1,
        b.len() > 0 ==> (b[line_end(b) - 1] == 10 || line_end(b) == b.len()),
        forall|j: int| 0 <= j < line_end(b) - 1 ==> b[j] != 10,
    decreases b.len(),
{
    if b.len() > 0 && b[0] != 10 {
        lemma_line_end(b.drop_first());
        assert forall|j: int| 0 <= j < line_end(b) - 1 implies b[j] != 10 by {
            if j > 0 {
                assert(b[j] == b.drop_first()[j - 1]);
            }
        }
        if b.drop_first().len() > 0 {
            assert(b[line_end(b) - 1] == b.drop_first()[line_end(b.drop_first()) - 1]);
        }
    }
}

/// The lines of `b`, each with its line feed; the last one may lack it.
pub open spec fn split_lines(b: Seq<u8>) -> Seq<Seq<u8>>
    decreases b.len(),
{
    if b.len() == 0 {
        Seq::empty()
    } else {
        proof {
            lemma_line_end(b);
        }
        seq![b.take(line_end(b) as int)] + split_lines(b.skip(line_end(b) as int))
    }
}

/// The total number of bytes of `lines`.
pub open spec fn total_len(lines: Seq<Seq<u8>>) -> nat
    decreases lines.len(),
{
    if lines.len() == 0 {
        0
    } else {
        total_len(lines.drop_last()) + lines.last().len()
    }
}

/// The machine with no open scopes, nothing set aside and no tokens.
pub open spec fn initial_state() -> TrackerState {
    TrackerState { stack: Seq::empty(), stash: Seq::empty(), tokens: Seq::empty() }
}

/// The outcome of the parser's operations `ops`, one sequence per line of
/// `lines`.
pub open spec fn lines_outcome(lines: Seq<Seq<u8>>, ops: Seq<Seq<(usize, ScopeOp)>>) -> Result<TrackerState, TokenizeError>
    decreases lines.len(),
{
    if lines.len() == 0 || ops.len() != lines.len() {
        Ok(initial_state())
    } else {
        let n = (lines.len() - 1) as nat;
        match lines_outcome(lines.drop_last(), ops.drop_last()) {
            Ok(st) => line_outcome(st, lines.last(), n, total_len(lines.drop_last()), ops.last()),
            Err(e) => Err(e),
        }
    }
}

/// The lines that a command is parsed in: those of the command without its
/// trailing ASCII whitespace.
pub open spec fn command_lines(command: Seq<u8>) -> Seq<Seq<u8>> {
    split_lines(command.take(trimmed_len(command) as int))
}

/// The tokens of a command of `len` bytes once all lines are processed: the
/// tokens produced, then the scopes still open, innermost first, closed at
/// the end of the command.
pub open spec fn final_tokens(st: TrackerState, len: nat) -> Seq<Token> {
    st.tokens + close_at_end(popped_top(st.stack, st.stack.len()), len)
}

/// The tokens that the scope-stack machine makes of the command `command`
/// when the parser gives the operations `ops`, one sequence per line; `None`
/// if the number of sequences is not the number of lines or the machine
/// refuses an operation.
pub open spec fn command_result(command: Seq<u8>, ops: Seq<Seq<(usize, ScopeOp)>>) -> Option<Seq<Token>> {
    if ops.len() == command_lines(command).len() {
        match lines_outcome(command_lines(command), ops) {
            Ok(st) => Some(final_tokens(st, command.len())),
            Err(_) => None,
        }
    } else {
        None
    }
}

/// Whether the operations come in order of their byte offsets.
pub open spec fn offsets_ordered<A>(ops: Seq<(usize, A)>) -> bool {
    forall|i: int, j: int| 0 <= i <= j < ops.len() ==> #[trigger] ops[i].0 <= #[trigger] ops[j].0
}

/// Whether `tokens` is what the scope-stack machine makes of the command
/// `command` for some scope operations that a parser gives for its lines,
/// each line's operations in order of their offsets.
pub open spec fn tokens_of_command(command: Seq<u8>, tokens: Seq<Token>) -> bool {
    exists|ops: Seq<Seq<(usize, ScopeOp)>>|
        #[trigger] command_result(command, ops) == Some(tokens)
            && (forall|k: int| 0 <= k < ops.len() ==> offsets_ordered(#[trigger] ops[k]))
            && all_offsets_in_lines(command_lines(command), ops)
}

/// An open scope pushed at or before byte `bound`, on a line and column
/// that count from 1.
pub open spec fn open_scope_within(e: OpenScope, bound: nat) -> bool {
    e.start <= bound && e.line >= 1 && e.column >= 1
}

/// A token that does not end before it starts, on a line and column that
/// count from 1.
pub open spec fn token_well_formed(t: Token) -> bool {
    t.range.start <= t.range.end && t.line >= 1 && t.column >= 1
}

/// Every open or set-aside scope was pushed at or before byte `bound`, and
/// every token is well formed.
pub open spec fn state_within(st: TrackerState, bound: nat) -> bool {
    &&& forall|i: int| 0 <= i < st.stack.len() ==> open_scope_within(#[trigger] st.stack[i], bound)
    &&& forall|j: int, i: int|
        0 <= j < st.stash.len() && 0 <= i < st.stash[j].len() ==> open_scope_within(#[trigger] st.stash[j][i], bound)
    &&& forall|i: int| 0 <= i < st.tokens.len() ==> token_well_formed(#[trigger] st.tokens[i]) && st.tokens[i].range.start <= bound
}

proof fn lemma_close_popped_well_formed(p: Seq<OpenScope>, pos: nat, bound: nat)
    requires
        pos <= usize::MAX,
        forall|i: int| 0 <= i < p.len() ==> open_scope_within(#[trigger] p[i], bound),
    ensures
        forall|i: int| 0 <= i < close_popped(p, pos).len() ==> token_well_formed(#[trigger] close_popped(p, pos)[i])
            && close_popped(p, pos)[i].range.start <= bound,
    decreases p.len(),
{
    if p.len() > 0 {
        let q = p.drop_last();
        assert forall|i: int| 0 <= i < q.len() implies open_scope_within(#[trigger] q[i], bound) by {
            assert(q[i] == p[i]);
        }
        lemma_close_popped_well_formed(q, pos, bound);
        let c = close_popped(p, pos);
        let a = close_popped(q, pos);
        assert forall|i: int| 0 <= i < c.len() implies token_well_formed(#[trigger] c[i]) && c[i].range.start <= bound by {
            if i < a.len() {
                assert(c[i] == a[i]);
            }
        }
    }
}

proof fn lemma_step_within(st: TrackerState, op: ScopeOp, line: nat, column: nat, pos: nat, bound: nat, bound2: nat)
    requires
        state_within(st, bound),
        bound <= bound2,
        line >= 1,
        column >= 1,
        line <= usize::MAX,
        column <= usize::MAX,
        pos <= usize::MAX,
        op is Push ==> pos <= bound2,
    ensures
        step(st, op, line, column, pos) matches Some(s) ==> state_within(s, bound2),
{
    if let Some(s) = step(st, op, line, column, pos) {
        let len = st.stack.len();
        match op {
            ScopeOp::Push(_) => {
                assert forall|i: int| 0 <= i < s.stack.len() implies open_scope_within(#[trigger] s.stack[i], bound2) by {
                    if i < len {
                        assert(s.stack[i] == st.stack[i]);
                    }
                }
            },
            ScopeOp::Pop(count) => {
                let p = popped_top(st.stack, count as nat);
                assert forall|i: int| 0 <= i < p.len() implies open_scope_within(#[trigger] p[i], bound) by {
                    assert(open_scope_within(st.stack[len - 1 - i], bound));
                }
                lemma_close_popped_well_formed(p, pos, bound);
                assert forall|i: int| 0 <= i < s.tokens.len() implies token_well_formed(#[trigger] s.tokens[i]) && s.tokens[i].range.start <= bound2 by {
                    if i >= st.tokens.len() {
                        assert(s.tokens[i] == close_popped(p, pos)[i - st.tokens.len()]);
                    }
                }
                assert forall|i: int| 0 <= i < s.stack.len() implies open_scope_within(#[trigger] s.stack[i], bound2) by {
                    assert(s.stack[i] == st.stack[i]);
                }
            },
            ScopeOp::Clear(amount) => {
                let k = clear_count(amount, len);
                let p = popped_top(st.stack, k);
                assert forall|i: int| 0 <= i < p.len() implies open_scope_within(#[trigger] p[i], bound) by {
                    assert(open_scope_within(st.stack[len - 1 - i], bound));
                }
                lemma_close_popped_well_formed(p, pos, bound);
                assert forall|i: int| 0 <= i < s.tokens.len() implies token_well_formed(#[trigger] s.tokens[i]) && s.tokens[i].range.start <= bound2 by {
                    if i >= st.tokens.len() {
                        assert(s.tokens[i] == close_popped(p, pos)[i - st.tokens.len()]);
                    }
                }
                assert forall|i: int| 0 <= i < s.stack.len() implies open_scope_within(#[trigger] s.stack[i], bound2) by {
                    assert(s.stack[i] == st.stack[i]);
                }
                assert forall|j: int, i: int|
                    0 <= j < s.stash.len() && 0 <= i < s.stash[j].len() implies open_scope_within(#[trigger] s.stash[j][i], bound2) by {
                    if j < st.stash.len() {
                        assert(s.stash[j] == st.stash[j]);
                    } else {
                        assert(s.stash[j][i] == st.stack[len - 1 - i]);
                    }
                }
            },
            ScopeOp::Restore => {
                if st.stash.len() > 0 {
                    let t = st.stash.last();
                    let n = (st.stash.len() - 1) as int;
                    assert forall|i: int| 0 <= i < s.stack.len() implies open_scope_within(#[trigger] s.stack[i], bound2) by {
                        if i < len {
                            assert(s.stack[i] == st.stack[i]);
                        } else {
                            assert(s.stack[i] == t[t.len() - 1 - (i - len)]);
                            assert(open_scope_within(st.stash[n][t.len() - 1 - (i - len)], bound));
                        }
                    }
                    assert forall|j: int, i: int|
                        0 <= j < s.stash.len() && 0 <= i < s.stash[j].len() implies open_scope_within(#[trigger] s.stash[j][i], bound2) by {
                        assert(s.stash[j] == st.stash[j]);
                    }
                }
            },
            ScopeOp::Noop => {},
        }
    }
}

proof fn lemma_line_within(
    st: TrackerState,
    line: Seq<u8>,
    ln: nat,
    offset: nat,
    ops: Seq<(usize, ScopeOp)>,
)
    requires
        state_within(st, offset),
        ln + 2 <= usize::MAX,
        line.len() < usize::MAX,
    ensures
        line_outcome(st, line, ln, offset, ops) matches Ok(s) ==> state_within(s, offset + line.len()),
    decreases ops.len(),
{
    if ops.len() > 0 {
        lemma_line_within(st, line, ln, offset, ops.drop_last());
        if let Ok(s1) = line_outcome(st, line, ln, offset, ops.drop_last()) {
            let i = ops.last().0 as nat;
            let op = ops.last().1;
            if offset + i <= usize::MAX && !(op is Push && !offset_in_line(line, i)) {
                if op is Push {
                    assert(line.take(i as int).len() == i);
                    lemma_char_count_le(line.take(i as int));
                }
                let col = if op is Push { column_at(line, i) } else { 1 };
                lemma_step_within(s1, op, line_at(line, ln, i), col, offset + i, offset + line.len(), offset + line.len());
                assert(step(s1, op, line_at(line, ln, i), col, offset + i) == step(s1, op, line_at(line, ln, i), column_at(line, i), offset + i));
            }
        }
    } else {
        lemma_within_grows(st, offset, offset + line.len());
    }
}

pub proof fn lemma_char_count_le(b: Seq<u8>)
    ensures
        char_count(b) <= b.len(),
    decreases b.len(),
{
    if b.len() > 0 {
        lemma_char_count_le(b.drop_last());
    }
}

proof fn lemma_within_grows(st: TrackerState, bound: nat, bound2: nat)
    requires
        state_within(st, bound),
        bound <= bound2,
    ensures
        state_within(st, bound2),
{
}

proof fn lemma_lines_within(lines: Seq<Seq<u8>>, ops: Seq<Seq<(usize, ScopeOp)>>)
    requires
        total_len(lines) < usize::MAX,
        forall|k: int| 0 <= k < lines.len() ==> (#[trigger] lines[k]).len() > 0,
    ensures
        lines_outcome(lines, ops) matches Ok(s) ==> state_within(s, total_len(lines)),
        lines.len() <= total_len(lines),
    decreases lines.len(),
{
    if lines.len() > 0 {
        let rest = lines.drop_last();
        assert forall|k: int| 0 <= k < rest.len() implies (#[trigger] rest[k]).len() > 0 by {
            assert(rest[k] == lines[k]);
        }
        assert(lines.last() == lines[lines.len() - 1]);
        lemma_lines_within(rest, ops.drop_last());
        if ops.len() == lines.len() {
            if let Ok(s1) = lines_outcome(rest, ops.drop_last()) {
                lemma_line_within(s1, lines.last(), (lines.len() - 1) as nat, total_len(rest), ops.last());
            }
        } else {
            assert(state_within(initial_state(), total_len(lines)));
        }
    } else {
        assert(state_within(initial_state(), 0));
    }
}

proof fn lemma_total_len_prepend(x: Seq<u8>, rest: Seq<Seq<u8>>)
    ensures
        total_len(seq![x] + rest) == x.len() + total_len(rest),
    decreases rest.len(),
{
    if rest.len() > 0 {
        assert((seq![x] + rest).drop_last() =~= seq![x] + rest.drop_last());
        assert((seq![x] + rest).last() == rest.last());
        lemma_total_len_prepend(x, rest.drop_last());
    } else {
        assert(seq![x] + rest =~= seq![x]);
        assert(seq![x].drop_last() =~= Seq::<Seq<u8>>::empty());
        assert(total_len(Seq::<Seq<u8>>::empty()) == 0);
        assert(seq![x].last() == x);
    }
}

proof fn lemma_split_lines_total(b: Seq<u8>)
    ensures
        total_len(split_lines(b)) == b.len(),
        forall|k: int| 0 <= k < split_lines(b).len() ==> (#[trigger] split_lines(b)[k]).len() > 0,
    decreases b.len(),
{
    if b.len() > 0 {
        lemma_line_end(b);
        let k = line_end(b) as int;
        let rest = split_lines(b.skip(k));
        lemma_split_lines_total(b.skip(k));
        lemma_total_len_prepend(b.take(k), rest);
        let all = split_lines(b);
        assert(all == seq![b.take(k)] + rest);
        assert forall|j: int| 0 <= j < all.len() implies (#[trigger] all[j]).len() > 0 by {
            if j > 0 {
                assert(all[j] == rest[j - 1]);
            }
        }
    }
}

pub proof fn lemma_trimmed_len(b: Seq<u8>)
    ensures
        trimmed_len(b) <= b.len(),
        trimmed_len(b) < b.len() ==> is_ascii_whitespace(b[trimmed_len(b) as int]),
    decreases b.len(),
{
    if b.len() > 0 && is_ascii_whitespace(b.last()) {
        lemma_trimmed_len(b.drop_last());
        if trimmed_len(b) < b.len() - 1 {
            assert(b[trimmed_len(b) as int] == b.drop_last()[trimmed_len(b) as int]);
        }
    }
}

/// Every token that tokenizing a command gives, for any scope operations a
/// parser may give, starts no later than it ends and no later than the end
/// of the command, and has a line and a column that count from 1.
pub proof fn lemma_command_tokens_well_formed(command: Seq<u8>, ops: Seq<Seq<(usize, ScopeOp)>>)
    requires
        command.len() < usize::MAX,
    ensures
        command_result(command, ops) matches Some(tokens) ==> forall|i: int|
            0 <= i < tokens.len() ==> token_well_formed(#[trigger] tokens[i]) && tokens[i].range.start
                <= command.len(),
{
    let lines = command_lines(command);
    let t = command.take(trimmed_len(command) as int);
    lemma_trimmed_len(command);
    lemma_split_lines_total(t);
    lemma_lines_within(lines, ops);
    if let Some(tokens) = command_result(command, ops) {
        let st = lines_outcome(lines, ops).unwrap();
        let bound = total_len(lines);
        let rest = close_at_end(popped_top(st.stack, st.stack.len()), command.len());
        assert forall|i: int| 0 <= i < tokens.len() implies token_well_formed(#[trigger] tokens[i])
            && tokens[i].range.start <= command.len() by {
            if i < st.tokens.len() {
                assert(tokens[i] == st.tokens[i]);
                assert(token_well_formed(st.tokens[i]));
            } else {
                let j = i - st.tokens.len();
                let e = st.stack[st.stack.len() - 1 - j];
                assert(open_scope_within(e, bound));
                assert(tokens[i] == closed_token(e, command.len()));
            }
        }
    }
}

/// The tokens come in order of their ends, and none ends after byte `p`.
pub open spec fn tokens_sorted_upto(tokens: Seq<Token>, p: nat) -> bool {
    &&& forall|i: int, j: int| 0 <= i <= j < tokens.len() ==> #[trigger] tokens[i].range.end <= #[trigger] tokens[j].range.end
    &&& forall|i: int| 0 <= i < tokens.len() ==> #[trigger] tokens[i].range.end <= p
}

proof fn lemma_close_popped_ends(p: Seq<OpenScope>, pos: nat)
    requires
        pos <= usize::MAX,
    ensures
        forall|i: int| 0 <= i < close_popped(p, pos).len() ==> #[trigger] close_popped(p, pos)[i].range.end == pos,
    decreases p.len(),
{
    if p.len() > 0 {
        lemma_close_popped_ends(p.drop_last(), pos);
        let c = close_popped(p, pos);
        let a = close_popped(p.drop_last(), pos);
        assert forall|i: int| 0 <= i < c.len() implies #[trigger] c[i].range.end == pos by {
            if i < a.len() {
                assert(c[i] == a[i]);
            }
        }
    }
}

proof fn lemma_sorted_append_at(tokens: Seq<Token>, more: Seq<Token>, p: nat, pos: nat)
    requires
        tokens_sorted_upto(tokens, p),
        p <= pos,
        forall|i: int| 0 <= i < more.len() ==> #[trigger] more[i].range.end == pos,
    ensures
        tokens_sorted_upto(tokens + more, pos),
{
    let all = tokens + more;
    assert forall|i: int, j: int| 0 <= i <= j < all.len() implies #[trigger] all[i].range.end <= #[trigger] all[j].range.end by {
        if j >= tokens.len() {
            assert(all[j] == more[j - tokens.len()]);
            if i >= tokens.len() {
                assert(all[i] == more[i - tokens.len()]);
            } else {
                assert(all[i] == tokens[i]);
            }
        } else {
            assert(all[i] == tokens[i] && all[j] == tokens[j]);
        }
    }
    assert forall|i: int| 0 <= i < all.len() implies #[trigger] all[i].range.end <= pos by {
        if i >= tokens.len() {
            assert(all[i] == more[i - tokens.len()]);
        } else {
            assert(all[i] == tokens[i]);
        }
    }
}

proof fn lemma_step_sorted(st: TrackerState, op: ScopeOp, line: nat, column: nat, p: nat, pos: nat)
    requires
        tokens_sorted_upto(st.tokens, p),
        p <= pos,
        pos <= usize::MAX,
    ensures
        step(st, op, line, column, pos) matches Some(s) ==> tokens_sorted_upto(s.tokens, pos),
{
    if let Some(s) = step(st, op, line, column, pos) {
        let len = st.stack.len();
        match op {
            ScopeOp::Pop(count) => {
                let c = close_popped(popped_top(st.stack, count as nat), pos);
                lemma_close_popped_ends(popped_top(st.stack, count as nat), pos);
                lemma_sorted_append_at(st.tokens, c, p, pos);
            },
            ScopeOp::Clear(amount) => {
                let c = close_popped(popped_top(st.stack, clear_count(amount, len)), pos);
                lemma_close_popped_ends(popped_top(st.stack, clear_count(amount, len)), pos);
                lemma_sorted_append_at(st.tokens, c, p, pos);
            },
            _ => {
                lemma_sorted_append_at(st.tokens, Seq::empty(), p, pos);
                assert(st.tokens + Seq::<Token>::empty() =~= st.tokens);
            },
        }
    }
}

/// Whether every operation's offset lies within its line.
pub open spec fn offsets_in_line<A>(ops: Seq<(usize, A)>, line: Seq<u8>) -> bool {
    forall|j: int| 0 <= j < ops.len() ==> #[trigger] ops[j].0 <= line.len()
}

proof fn lemma_line_sorted(
    st: TrackerState,
    line: Seq<u8>,
    ln: nat,
    offset: nat,
    ops: Seq<(usize, ScopeOp)>,
)
    requires
        tokens_sorted_upto(st.tokens, offset),
        offsets_ordered(ops),
        offsets_in_line(ops, line),
    ensures
        line_outcome(st, line, ln, offset, ops) matches Ok(s) ==> tokens_sorted_upto(
            s.tokens,
            offset + if ops.len() > 0 { ops.last().0 as nat } else { 0nat },
        ),
    decreases ops.len(),
{
    if ops.len() > 0 {
        let q = ops.drop_last();
        assert(offsets_ordered(q)) by {
            assert forall|i: int, j: int| 0 <= i <= j < q.len() implies #[trigger] q[i].0 <= #[trigger] q[j].0 by {
                assert(q[i] == ops[i] && q[j] == ops[j]);
                assert(ops[i].0 <= ops[j].0);
            }
        }
        assert(offsets_in_line(q, line)) by {
            assert forall|j: int| 0 <= j < q.len() implies #[trigger] q[j].0 <= line.len() by {
                assert(q[j] == ops[j]);
                assert(ops[j].0 <= line.len());
            }
        }
        lemma_line_sorted(st, line, ln, offset, q);
        if let Ok(s1) = line_outcome(st, line, ln, offset, q) {
            let i = ops.last().0 as nat;
            let prev = if q.len() > 0 { q.last().0 as nat } else { 0nat };
            if q.len() > 0 {
                assert(q.last() == ops[q.len() - 1]);
                assert(ops[q.len() - 1].0 <= ops[ops.len() - 1].0);
            }
            if offset + i <= usize::MAX {
                lemma_step_sorted(s1, ops.last().1, line_at(line, ln, i), column_at(line, i), offset + prev, offset + i);
            }
        }
    }
}

proof fn lemma_sorted_grows(tokens: Seq<Token>, p: nat, q: nat)
    requires
        tokens_sorted_upto(tokens, p),
        p <= q,
    ensures
        tokens_sorted_upto(tokens, q),
{
}

/// Whether the operations of every line lie within that line.
pub open spec fn all_offsets_in_lines(lines: Seq<Seq<u8>>, ops: Seq<Seq<(usize, ScopeOp)>>) -> bool {
    forall|k: int| 0 <= k < ops.len() && k < lines.len() ==> offsets_in_line(#[trigger] ops[k], lines[k])
}

proof fn lemma_lines_sorted(lines: Seq<Seq<u8>>, ops: Seq<Seq<(usize, ScopeOp)>>)
    requires
        forall|k: int| 0 <= k < ops.len() ==> offsets_ordered(#[trigger] ops[k]),
        all_offsets_in_lines(lines, ops),
    ensures
        lines_outcome(lines, ops) matches Ok(s) ==> tokens_sorted_upto(s.tokens, total_len(lines)),
    decreases lines.len(),
{
    if lines.len() > 0 && ops.len() == lines.len() {
        let rest = lines.drop_last();
        let ro = ops.drop_last();
        assert forall|k: int| 0 <= k < ro.len() implies offsets_ordered(#[trigger] ro[k]) by {
            assert(ro[k] == ops[k]);
        }
        assert(all_offsets_in_lines(rest, ro)) by {
            assert forall|k: int| 0 <= k < ro.len() && k < rest.len() implies offsets_in_line(#[trigger] ro[k], rest[k]) by {
                assert(ro[k] == ops[k] && rest[k] == lines[k]);
            }
        }
        lemma_lines_sorted(rest, ro);
        if let Ok(s1) = lines_outcome(rest, ro) {
            let last = (lines.len() - 1) as int;
            assert(ops.last() == ops[last] && lines.last() == lines[last]);
            assert(offsets_ordered(ops[last]));
            assert(offsets_in_line(ops[last], lines[last]));
            lemma_line_sorted(s1, lines.last(), last as nat, total_len(rest), ops.last());
            if let Ok(s) = lines_outcome(lines, ops) {
                if ops.last().len() > 0 {
                    assert(ops.last()[ops.last().len() - 1].0 <= lines.last().len());
                }
                lemma_sorted_grows(s.tokens, total_len(rest) + if ops.last().len() > 0 {
                    ops.last().last().0 as nat
                } else {
                    0nat
                }, total_len(lines));
            }
        }
    }
}

/// When the parser gives each line's operations in order of their offsets
/// and within the line, tokenizing a command gives tokens in order of their
/// ends, none of which ends after the end of the command.
pub proof fn lemma_command_tokens_sorted(command: Seq<u8>, ops: Seq<Seq<(usize, ScopeOp)>>)
    requires
        command.len() < usize::MAX,
        forall|k: int| 0 <= k < ops.len() ==> offsets_ordered(#[trigger] ops[k]),
        all_offsets_in_lines(command_lines(command), ops),
    ensures
        command_result(command, ops) matches Some(tokens) ==> tokens_sorted_upto(tokens, command.len()),
{
    let lines = command_lines(command);
    let t = command.take(trimmed_len(command) as int);
    lemma_trimmed_len(command);
    lemma_split_lines_total(t);
    lemma_lines_sorted(lines, ops);
    if let Some(tokens) = command_result(command, ops) {
        let st = lines_outcome(lines, ops).unwrap();
        let rest = close_at_end(popped_top(st.stack, st.stack.len()), command.len());
        lemma_sorted_append_at(st.tokens, rest, total_len(lines), command.len());
    }
}

/// The length of `b` without its trailing ASCII whitespace.
pub fn trim_end_len(b: &[u8]) -> (n: usize)
    ensures
        n == trimmed_len(b@),
{
    let mut n = b.len();
    assert(b@.take(n as int) =~= b@);
    while n > 0 && (b[n - 1] == 32 || b[n - 1] == 9 || b[n - 1] == 10 || b[n - 1] == 12 || b[n - 1] == 13)
        invariant
            n <= b@.len(),
            trimmed_len(b@) == trimmed_len(b@.take(n as int)),
        decreases n,
    {
        assert(b@.take(n as int).drop_last() =~= b@.take(n - 1));
        n = n - 1;
    }
    n
}

/// The length of the first line of `b`, its line feed included.
pub fn find_line_end(b: &[u8]) -> (n: usize)
    ensures
        n == line_end(b@),
{
    let mut j: usize = 0;
    assert(b@.skip(0) =~= b@);
    while j < b.len() && b[j] != 10
        invariant
            j <= b@.len(),
            line_end(b@) == j + line_end(b@.skip(j as int)),
        decreases b@.len() - j,
    {
        assert(b@.skip(j as int).drop_first() =~= b@.skip(j + 1));
        j = j + 1;
    }
    if j < b.len() {
        j + 1
    } else {
        j
    }
}

/// Characters are counted piece by piece: the characters of two byte
/// strings one after the other are those of the first and those of the
/// second.
pub proof fn lemma_char_count_concat(a: Seq<u8>, b: Seq<u8>)
    ensures
        char_count(a + b) == char_count(a) + char_count(b),
    decreases b.len(),
{
    if b.len() == 0 {
        assert(a + b =~= a);
    } else {
        assert((a + b).drop_last() =~= a + b.drop_last());
        lemma_char_count_concat(a, b.drop_last());
    }
}

/// A prefix has no more characters than the whole.
pub proof fn lemma_char_count_prefix(b: Seq<u8>, k: int)
    requires
        0 <= k <= b.len(),
    ensures
        char_count(b.take(k)) <= char_count(b),
{
    assert(b =~= b.take(k) + b.skip(k));
    lemma_char_count_concat(b.take(k), b.skip(k));
}

/// In ASCII text every byte is a character.
pub proof fn lemma_char_count_ascii(b: Seq<u8>)
    requires
        forall|i: int| 0 <= i < b.len() ==> #[trigger] b[i] < 0x80,
    ensures
        char_count(b) == b.len(),
    decreases b.len(),
{
    if b.len() > 0 {
        assert forall|i: int| 0 <= i < b.drop_last().len() implies #[trigger] b.drop_last()[i] < 0x80 by {
            assert(b.drop_last()[i] == b[i]);
        }
        lemma_char_count_ascii(b.drop_last());
        assert(b.last() == b[b.len() - 1]);
    }
}

} // verus!
