# zsh_patina

Verified building blocks of a zsh syntax highlighter, written in Verus.

- `src/unescape.rs`: decoding of one zsh escape sequence (`\n`, `\x41`,
  `\u2580`, `\U0001F60E`, `\101`, `\-`, ...) with an exact specification
  over the sequence's bytes, and laws on the escapes that decode to a given
  character.
- `src/highlighting/dynamic.rs`, `src/highlighting/highlighter.rs`: grouping
  of adjacent command, argument, escape and tilde tokens whose style is
  decided at run time; splitting off a `time` prefix; turning theme styles
  into span styles; grouping the kinds of callables by style; the
  `Highlighter` that holds a syntax set, a theme, its colour and style
  tables and the limits, and highlights or tokenizes commands with them.
- `src/highlighting/tokenize.rs`: the scope-stack machine that turns the
  grammar's push, pop, clear and restore operations into tokens, with laws
  (restore undoes clear, pop undoes push, tokens are well formed).
- `src/highlighting/parse.rs`: tokenizing a command with a syntect syntax
  set; syntect's parser is called through a few trusted wrappers.
- `src/highlighting/parse.rs` also holds `Syntaxes`, the syntaxes that
  syntect ships, and names what its parser gives for a line.
- `src/highlighting/spans.rs`: highlighting a command with syntect's
  theme-driven highlighter: foreground colours name scopes, kept pieces
  become spans counted in characters of the command; long lines, the time
  limit and the caller's predicate are part of the specification.
- `src/highlighting/paths.rs`: the spans of grouped command names and
  arguments, from what their shell words name in the file system.
- `app/lib.rs`: escape decoding with `anyhow` errors and readable messages;
  looking up shell words in the file system for highlighting.
