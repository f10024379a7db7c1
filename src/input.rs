use vstd::prelude::*;

verus! {

/// A region of query source text, as byte offsets.
#[derive(Clone, Copy, Debug, PartialEq, Eq, Structural)]
pub struct SourceSpan {
    pub start: usize,
    pub end: usize,
}

/// A payload paired with an optional source span.
#[derive(Debug)]
pub struct Spanning<T> {
    pub item: T,
    pub span: Option<SourceSpan>,
}

impl<T> Spanning<T> {
    /// Wraps `item` with no source location.
    pub fn unlocated(item: T) -> (r: Spanning<T>)
        ensures
            r.item == item,
            r.span is None,
    {
        Spanning { item, span: None }
    }
}

/// A literal as written in query input.
#[derive(Debug)]
pub enum InputValue {
    Null,
    Int(i32),
    /// IEEE-754 binary64 bit pattern.
    Float(u64),
    String(String),
    Boolean(bool),
    Enum(String),
    Variable(String),
    List(Vec<Spanning<InputValue>>),
    Object(Vec<(Spanning<String>, Spanning<InputValue>)>),
}

} // verus!
