//! Groups of adjacent tokens whose final style is decided at run time.

use std::ops::Range;
use vstd::prelude::*;

verus! {

/// One token of a dynamic group: a character range and the scope it got.
#[derive(Debug)]
pub struct DynamicToken<'a> {
    range: Range<usize>,
    scope: &'a str,
}

impl<'a> DynamicToken<'a> {
    /// The token's character range.
    pub closed spec fn spec_range(&self) -> Range<usize> {
        self.range
    }

    /// The token's scope.
    pub closed spec fn spec_scope(&self) -> &'a str {
        self.scope
    }

    pub fn new(range: &Range<usize>, scope: &'a str) -> (r: Self)
        ensures
            r.spec_range() == *range,
            r.spec_scope() == scope,
    {
        Self { range: Range { start: range.start, end: range.end }, scope }
    }

    /// The token's character range.
    pub fn range(&self) -> (r: Range<usize>)
        ensures
            r == self.spec_range(),
    {
        Range { start: self.range.start, end: self.range.end }
    }

    /// The token's scope.
    pub fn scope(&self) -> (r: &'a str)
        ensures
            r == self.spec_scope(),
    {
        self.scope
    }
}

#[derive(Clone, Copy, PartialEq, Eq, Debug)]
pub enum DynamicType<'a> {
    Unknown(&'a str),
    Callable,
    Arguments,
}

#[derive(Debug)]
pub struct DynamicTokenGroup<'a> {
    pub range: Range<usize>,
    pub dynamic_type: DynamicType<'a>,
    pub tokens: Vec<DynamicToken<'a>>,
}

impl<'a> DynamicTokenGroup<'a> {
    /// A group that holds one token, the given range with the given scope.
    pub fn new(range: &Range<usize>, dynamic_type: DynamicType<'a>, scope: &'a str) -> (r: Self)
        ensures
            r.range == *range,
            r.dynamic_type == dynamic_type,
            r.tokens@.len() == 1,
            r.tokens@[0].spec_range() == *range,
            r.tokens@[0].spec_scope() == scope,
    {
        Self {
            range: Range { start: range.start, end: range.end },
            dynamic_type,
            tokens: vec![DynamicToken::new(range, scope)],
        }
    }
}

} // verus!
