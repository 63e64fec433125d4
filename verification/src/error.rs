//! What the reader and the tree builder report when they give up.
use vstd::prelude::*;

verus! {

/// Why no token starts at a place in the input.
#[derive(Debug, Clone, Copy, PartialEq, Eq, Structural)]
pub enum ErrorKind {
    /// A `)` or `]` stands where a token should start.
    Not,
    /// A blank stands where a token should start, or the input has ended.
    TakeTill1,
    /// A quoted atom does not end, or holds a backslash before anything but
    /// `"`, `n` or `\`.
    Escaped,
    /// A list, a vector or a text with properties lacks what it needs: an
    /// item, a quoted text, a token where an item should be, or its closing
    /// bracket.
    SeparatedList,
    /// A `#<` has no `>` after it.
    Tag,
}

/// An error of the application's own, with the input it is about.
#[derive(Debug, PartialEq)]
pub struct MyError<I>(pub I);

/// An error of the reader, with the input that was left when it arose.
#[derive(Debug, PartialEq)]
pub enum CustomError<I> {
    /// The application rejected the input.
    MyError(MyError<I>),
    /// The input does not fit the grammar at this place.
    Nom(I, ErrorKind),
}

/// Why a text could not be unquoted.
#[derive(Debug, Clone, Copy, PartialEq, Eq, Structural)]
pub enum UnquoteError {
    /// The text does not start with a quote.
    MissingOpeningQuote,
    /// The text does not end with a quote of its own.
    MissingClosingQuote,
    /// A backslash stands before something else than `n`, `\` or `"`.
    UnknownEscape,
}

/// The three ways in which a dump can be unfit for a tree.
#[derive(Debug, Clone, Copy, PartialEq, Eq, Structural)]
pub enum ErrorCategory {
    /// The text is no S-expression.
    Grammar,
    /// The S-expression does not have the shape of a document tree.
    Schema,
    /// An attribute is there, and its value makes no sense.
    Value,
}

/// The first defect that stopped the building of a tree.
#[derive(Debug, Clone, Copy, PartialEq, Eq, Structural)]
pub enum ReconstructError {
    /// No token starts at byte `offset` of the dump.
    Grammar { kind: ErrorKind, offset: usize },
    /// A token is of another kind than its place asks for.
    WrongTokenType,
    /// A list has no first element to name it.
    MissingName,
    /// The root is named otherwise than expected.
    UnexpectedName,
    /// A list has no second element to hold its attributes.
    MissingAttributes,
    /// An attribute list has a key without a value.
    OddAttributes,
    /// A node says nowhere where it begins.
    MissingBegin,
    /// A node says nowhere where it ends.
    MissingEnd,
    /// A node says nowhere where its contents begin.
    MissingContentsBegin,
    /// A text stands in a node that says nowhere where its contents begin.
    MissingReference,
    /// A text lacks the first of its two offsets.
    MissingTextBegin,
    /// A text lacks the second of its two offsets.
    MissingTextEnd,
    /// An offset is neither `nil` nor a decimal number that fits the machine.
    InvalidNumber,
    /// A range starts before the first character, ends before it starts, or
    /// lies beyond what the machine can count.
    InvalidRange,
}

impl ReconstructError {
    /// The category of each defect.
    pub open spec fn spec_category(self) -> ErrorCategory {
        match self {
            ReconstructError::Grammar { .. } => ErrorCategory::Grammar,
            ReconstructError::InvalidNumber | ReconstructError::InvalidRange => ErrorCategory::Value,
            _ => ErrorCategory::Schema,
        }
    }

    /// Tells malformed text from a well-formed dump of the wrong shape, and
    /// both from a value that makes no sense.
    #[verifier::when_used_as_spec(spec_category)]
    pub fn category(self) -> (r: ErrorCategory)
        ensures
            r == self.spec_category(),
    {
        match self {
            ReconstructError::Grammar { .. } => ErrorCategory::Grammar,
            ReconstructError::InvalidNumber | ReconstructError::InvalidRange => ErrorCategory::Value,
            _ => ErrorCategory::Schema,
        }
    }
}

} // verus!
