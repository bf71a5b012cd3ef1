use zsh_patina::highlighting::parse::{tokenize, tokenize_command, Syntaxes};
use zsh_patina::highlighting::tokenize::{
    find_line_end, trim_end_len, ClearCount, ScopeOp, ScopeTracker, TokenizeError,
};
use zsh_patina::highlighting::Token;

fn push(s: &str) -> ScopeOp {
    ScopeOp::Push(s.to_string())
}

fn plain(tokens: &[Token]) -> Vec<(String, usize, usize, usize, usize)> {
    tokens
        .iter()
        .map(|t| (t.scope.clone(), t.line, t.column, t.range.start, t.range.end))
        .collect()
}

#[test]
fn push_pop_makes_tokens() {
    let mut m = ScopeTracker::new();
    m.apply(&push("source.shell"), 1, 1, 0).unwrap();
    m.apply(&push("keyword"), 1, 3, 2).unwrap();
    m.apply(&ScopeOp::Pop(1), 1, 0, 6).unwrap();
    m.apply(&ScopeOp::Noop, 1, 0, 6).unwrap();
    let tokens = m.finish(10);
    assert_eq!(
        plain(&tokens),
        vec![
            ("keyword".to_string(), 1, 3, 2, 6),
            ("source.shell".to_string(), 1, 1, 0, 10),
        ]
    );
}

#[test]
fn pop_before_push_position_gives_no_token() {
    let mut m = ScopeTracker::new();
    m.apply(&push("a"), 1, 5, 4).unwrap();
    m.apply(&ScopeOp::Pop(1), 1, 0, 3).unwrap();
    assert!(m.finish(9).is_empty());
}

#[test]
fn unbalanced_pop_is_refused() {
    let mut m = ScopeTracker::new();
    m.apply(&push("a"), 1, 1, 0).unwrap();
    assert_eq!(m.apply(&ScopeOp::Pop(2), 1, 0, 1), Err(TokenizeError::UnbalancedPop));
    // nothing changed
    assert_eq!(plain(&m.finish(1)), vec![("a".to_string(), 1, 1, 0, 1)]);
}

#[test]
fn clear_and_restore() {
    let mut m = ScopeTracker::new();
    m.apply(&push("a"), 1, 1, 0).unwrap();
    m.apply(&push("b"), 1, 2, 1).unwrap();
    m.apply(&push("c"), 1, 3, 2).unwrap();
    m.apply(&ScopeOp::Clear(ClearCount::TopN(2)), 1, 0, 4).unwrap();
    m.apply(&ScopeOp::Restore, 1, 0, 5).unwrap();
    let tokens = m.finish(8);
    assert_eq!(
        plain(&tokens),
        vec![
            ("c".to_string(), 1, 3, 2, 4),
            ("b".to_string(), 1, 2, 1, 4),
            ("c".to_string(), 1, 3, 2, 8),
            ("b".to_string(), 1, 2, 1, 8),
            ("a".to_string(), 1, 1, 0, 8),
        ]
    );
    let mut m = ScopeTracker::new();
    m.apply(&push("a"), 1, 1, 0).unwrap();
    m.apply(&ScopeOp::Clear(ClearCount::All), 1, 0, 1).unwrap();
    m.apply(&ScopeOp::Clear(ClearCount::TopN(3)), 1, 0, 1).unwrap();
    m.apply(&ScopeOp::Restore, 1, 0, 2).unwrap();
    m.apply(&ScopeOp::Restore, 1, 0, 2).unwrap();
    m.apply(&ScopeOp::Restore, 1, 0, 2).unwrap();
    assert_eq!(
        plain(&m.finish(3)),
        vec![("a".to_string(), 1, 1, 0, 1), ("a".to_string(), 1, 1, 0, 3)]
    );
}

#[test]
fn line_operations_and_columns() {
    let mut m = ScopeTracker::new();
    let line = "é x\n".as_bytes();
    let ops = vec![(0, push("a")), (3, push("b")), (4, ScopeOp::Pop(1))];
    m.apply_line(line, 0, 10, &ops).unwrap();
    // the column counts characters, the range bytes
    assert_eq!(
        plain(&m.finish(20)),
        vec![("b".to_string(), 1, 3, 13, 14), ("a".to_string(), 1, 1, 10, 20)]
    );
    let mut m = ScopeTracker::new();
    assert_eq!(m.apply_line(line, 0, 0, &vec![(1, push("a"))]), Err(TokenizeError::BadOffset));
    let mut m = ScopeTracker::new();
    assert_eq!(m.apply_line(line, 0, 0, &vec![(6, push("a"))]), Err(TokenizeError::BadOffset));
    let mut m = ScopeTracker::new();
    assert_eq!(m.apply_line(line, 0, 0, &vec![(0, ScopeOp::Pop(1))]), Err(TokenizeError::UnbalancedPop));
}

#[test]
fn push_after_a_line_feed_starts_the_next_line() {
    let mut m = ScopeTracker::new();
    let line = "ab\n".as_bytes();
    m.apply_line(line, 2, 5, &vec![(1, push("a")), (3, push("b"))]).unwrap();
    // `b` starts after the line feed: on the next line, in its first column
    assert_eq!(
        plain(&m.finish(9)),
        vec![("b".to_string(), 4, 1, 8, 9), ("a".to_string(), 3, 2, 6, 9)]
    );
    // at the end of a line without a line feed, the line goes on
    let mut m = ScopeTracker::new();
    m.apply_line("ab".as_bytes(), 0, 0, &vec![(2, push("c"))]).unwrap();
    assert_eq!(plain(&m.finish(2)), vec![("c".to_string(), 1, 3, 2, 2)]);
}

#[test]
fn trimming_and_lines() {
    assert_eq!(trim_end_len(b"ls -l \t\n"), 5);
    assert_eq!(trim_end_len(b"   "), 0);
    assert_eq!(trim_end_len(b"a\x0b"), 2);
    assert_eq!(find_line_end(b"ab\ncd"), 3);
    assert_eq!(find_line_end(b"abcd"), 4);
    assert_eq!(find_line_end(b""), 0);
}

fn syntaxes() -> Syntaxes {
    Syntaxes::load()
}

fn well_formed(command: &str, tokens: &[Token]) {
    assert!(!tokens.is_empty());
    for t in tokens {
        assert!(t.range.start <= t.range.end, "{:?}", t);
        assert!(t.range.end <= command.len(), "{:?}", t);
        assert!(t.line >= 1 && t.column >= 1);
    }
}

#[test]
fn tokenize_simple_command() {
    let ss = syntaxes();
    let command = "echo hello";
    let tokens = tokenize_command(command, &ss).unwrap();
    well_formed(command, &tokens);
    // the outermost scope covers the whole command
    assert!(tokens.iter().any(|t| t.scope == "source.shell.bash" && t.range == (0..command.len())));
    assert!(tokens.iter().any(|t| t.scope.contains("support.function.echo") || t.scope.contains("function")));
}

#[test]
fn tokenize_with_time_prefix() {
    let ss = syntaxes();
    let command = "time ls -l";
    let tokens = tokenize(command, &ss).unwrap();
    well_formed(command, &tokens);
    let prefix = tokenize_command("time ", &ss).unwrap();
    let rest = tokenize_command("ls -l", &ss).unwrap();
    assert_eq!(tokens.len(), prefix.len() + rest.len());
    for (t, r) in tokens[prefix.len()..].iter().zip(rest.iter()) {
        assert_eq!(t.scope, r.scope);
        assert_eq!(t.range, (r.range.start + 5)..(r.range.end + 5));
        assert_eq!(t.column, r.column + 5);
    }
}

#[test]
fn tokenize_time_prefix_after_line_feed() {
    let ss = syntaxes();
    let command = "\ntime ls";
    let tokens = tokenize(command, &ss).unwrap();
    well_formed(command, &tokens);
    let prefix = tokenize_command("\ntime ", &ss).unwrap();
    let rest = tokenize_command("ls", &ss).unwrap();
    assert_eq!(tokens.len(), prefix.len() + rest.len());
    for (t, r) in tokens[prefix.len()..].iter().zip(rest.iter()) {
        assert_eq!(t.scope, r.scope);
        assert_eq!(t.range, (r.range.start + 6)..(r.range.end + 6));
        // the rest starts on line 2, in column 6
        assert_eq!(t.line, r.line + 1);
        if r.line == 1 {
            assert_eq!(t.column, r.column + 5);
        } else {
            assert_eq!(t.column, r.column);
        }
    }
    assert!(tokens[prefix.len()..].iter().any(|t| t.line == 2 && t.column == 6));
}

#[test]
fn tokenize_multiple_lines() {
    let ss = syntaxes();
    let command = "echo a \\\n  b  \n";
    let tokens = tokenize(command, &ss).unwrap();
    well_formed(command, &tokens);
    assert!(tokens.iter().any(|t| t.line == 2));
    // scopes still open at the end reach the end of the whole command
    assert!(tokens.iter().any(|t| t.range.end == command.len()));
}
