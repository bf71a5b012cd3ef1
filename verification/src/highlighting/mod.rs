//! Types shared by the highlighter: spans, styles, tokens and the scope
//! names that the shell grammar assigns.

use std::ops::Range;
use vstd::prelude::*;

pub mod dynamic;
pub mod highlighter;
pub mod parse;
pub mod paths;
pub mod spans;
pub mod tokenize;

pub use highlighter::Highlighter;

verus! {

pub const ARGUMENTS: &'static str = "meta.function-call.arguments.shell";

pub const DYNAMIC_PATH_DIRECTORY: &'static str = "dynamic.path.directory.shell";

pub const DYNAMIC_PATH_FILE: &'static str = "dynamic.path.file.shell";

pub const CALLABLE: &'static str = "variable.function.shell";

pub const DYNAMIC_CALLABLE_ALIAS: &'static str = "dynamic.callable.alias.shell";

pub const DYNAMIC_CALLABLE_BUILTIN: &'static str = "dynamic.callable.builtin.shell";

pub const DYNAMIC_CALLABLE_COMMAND: &'static str = "dynamic.callable.command.shell";

pub const DYNAMIC_CALLABLE_FUNCTION: &'static str = "dynamic.callable.function.shell";

pub const DYNAMIC_CALLABLE_MISSING: &'static str = "dynamic.callable.missing.shell";

pub const CHARACTER_ESCAPE: &'static str = "constant.character.escape.shell";

pub const TILDE: &'static str = "variable.language.tilde.shell";

pub const STRING_QUOTED_DOUBLE: &'static str = "string.quoted.double.shell";

pub const STRING_QUOTED_DOUBLE_CALLABLE: &'static str = "variable.function.shell string.quoted.double.shell";

pub const STRING_QUOTED_DOUBLE_ARGUMENTS: &'static str =
    "meta.function-call.arguments.shell string.quoted.double.shell";

/// A span of text with a foreground color. The range is specified in terms of
/// character indices, not byte indices.
#[derive(PartialEq, Eq, Debug)]
pub struct Span {
    /// The starting character index of the span (inclusive)
    pub start: usize,
    /// The ending character index of the span (exclusive)
    pub end: usize,
    /// The span's style
    pub style: SpanStyle,
}

#[derive(Clone, PartialEq, Eq, Hash, Debug)]
pub struct StaticStyle {
    /// The foreground color of the span
    pub foreground_color: Option<String>,
    /// The background color of the span
    pub background_color: Option<String>,
    /// `true` if the text should be shown in bold
    pub bold: bool,
    /// `true` if the text should be shown underlined
    pub underline: bool,
}

#[derive(PartialEq, Eq, Debug)]
pub enum DynamicStyle {
    Callable,
}

#[derive(PartialEq, Eq, Debug)]
pub enum SpanStyle {
    Static(StaticStyle),
    Dynamic(DynamicStyle),
}

/// A token with a scope, line and column number, and range in the input command
/// (byte indices). The line and column numbers are 1-based.
#[derive(Debug)]
pub struct Token {
    /// The scope of the token (e.g. `keyword.control.for.shell`)
    pub scope: String,
    /// The line number of the token (1-based)
    pub line: usize,
    /// The column of the token (1-based)
    pub column: usize,
    /// The range of the token in the input command (byte indices)
    pub range: Range<usize>,
}

} // verus!
