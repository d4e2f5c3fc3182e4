//! What a parser reports when the text is not what its grammar asks for.
use vstd::prelude::*;

verus! {

/// What the grammar asked for at the place where the text failed it.
#[derive(Copy, Clone, Debug, PartialEq, Eq)]
pub enum Expected {
    /// A value: an object, an array, a string, a number, `true`, `false` or
    /// `null`.
    Value,
    /// The key of a member of an object.
    Key,
    /// The `:` between a key and its value.
    Colon,
    /// A `,` before the next element, or the `]` that closes the array.
    CommaOrBracket,
    /// A `,` before the next member, or the `}` that closes the object.
    CommaOrBrace,
    /// The quote that closes a string.
    ClosingQuote,
    /// A decimal digit.
    Digit,
    /// A number that ends where its literal ends.
    Number,
    /// The `*/` that closes a comment.
    CommentEnd,
    /// The token that stands for the root, at the start of a line.
    Root,
    /// The delimiter after the root.
    Delimiter,
    /// A step of a path.
    Segment,
    /// The token between a path and its value.
    Equal,
    /// A character that belongs to a date or a time.
    DateTime,
    /// The end of the line.
    LineEnd,
}

/// The kind of a failure.
#[derive(Copy, Clone, Debug, PartialEq, Eq)]
pub enum ErrorKind {
    /// The text does not match the grammar.
    Syntax(Expected),
    /// An integer literal denotes a number outside the range of `Int`.
    NumericRange,
    /// A backslash sequence is malformed, or names no character.
    InvalidEscape,
    /// A date, a time or an offset has a part out of range, or an offset
    /// stands without a date and a time.
    InvalidDateTime,
    /// Something other than white space follows the value.
    UnexpectedTrailingInput,
}

/// A failure, and where in the text it was found.
///
/// All three numbers count from zero, in characters.
#[derive(Copy, Clone, Debug, PartialEq, Eq)]
pub struct ParseError {
    pub kind: ErrorKind,
    /// The number of characters before the place.
    pub offset: usize,
    /// The number of line feeds before the place.
    pub line: usize,
    /// The number of characters between the last line feed and the place.
    pub column: usize,
}

/// The number of line feeds among the first `at` characters of `s`.
pub open spec fn line_of(s: Seq<char>, at: int) -> nat
    decreases at,
{
    if at <= 0 || at > s.len() {
        0
    } else if s[at - 1] == '\n' {
        line_of(s, at - 1) + 1
    } else {
        line_of(s, at - 1)
    }
}

/// The number of characters between the last line feed before `at` and
/// `at`.
pub open spec fn column_of(s: Seq<char>, at: int) -> nat
    decreases at,
{
    if at <= 0 || at > s.len() || s[at - 1] == '\n' {
        0
    } else {
        column_of(s, at - 1) + 1
    }
}

/// The failure of kind `kind` at the position `at` of `s`.
pub open spec fn error_at(s: Seq<char>, kind: ErrorKind, at: int) -> ParseError {
    ParseError {
        kind,
        offset: at as usize,
        line: line_of(s, at) as usize,
        column: column_of(s, at) as usize,
    }
}

/// Finds the line and the column of the position `at`.
pub fn locate(s: &Vec<char>, kind: ErrorKind, at: usize) -> (e: ParseError)
    requires
        at <= s.len(),
    ensures
        e == error_at(s@, kind, at as int),
{
    let mut line: usize = 0;
    let mut column: usize = 0;
    let mut i: usize = 0;
    while i < at
        invariant
            i <= at <= s.len(),
            line == line_of(s@, i as int),
            column == column_of(s@, i as int),
            line <= i,
            column <= i,
        decreases at - i,
    {
        if s[i] == '\n' {
            line += 1;
            column = 0;
        } else {
            column += 1;
        }
        i += 1;
    }
    ParseError { kind, offset: at, line, column }
}

} // verus!
