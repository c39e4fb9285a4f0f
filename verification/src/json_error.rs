//! Errors reported by the JSON tokenizer and by the decode of escape sequences.

use vstd::prelude::*;
use vstd::string::StringExecFns;

verus! {

/// The character of a decimal digit.
pub open spec fn digit_char(digit: nat) -> char {
    if digit == 0 {
        '0'
    } else if digit == 1 {
        '1'
    } else if digit == 2 {
        '2'
    } else if digit == 3 {
        '3'
    } else if digit == 4 {
        '4'
    } else if digit == 5 {
        '5'
    } else if digit == 6 {
        '6'
    } else if digit == 7 {
        '7'
    } else if digit == 8 {
        '8'
    } else {
        '9'
    }
}

/// The decimal notation of `value`, with no sign and no leading zero.
pub open spec fn decimal(value: nat) -> Seq<char>
    decreases value,
{
    if value < 10 {
        seq![digit_char(value)]
    } else {
        decimal(value / 10) + seq![digit_char(value % 10)]
    }
}

/// The one-character text of `digit`.
fn digit_str(digit: u64) -> (text: &'static str)
    requires
        digit < 10,
    ensures
        text@ == seq![digit_char(digit as nat)],
{
    if digit == 0 {
        proof { reveal_strlit("0"); }
        "0"
    } else if digit == 1 {
        proof { reveal_strlit("1"); }
        "1"
    } else if digit == 2 {
        proof { reveal_strlit("2"); }
        "2"
    } else if digit == 3 {
        proof { reveal_strlit("3"); }
        "3"
    } else if digit == 4 {
        proof { reveal_strlit("4"); }
        "4"
    } else if digit == 5 {
        proof { reveal_strlit("5"); }
        "5"
    } else if digit == 6 {
        proof { reveal_strlit("6"); }
        "6"
    } else if digit == 7 {
        proof { reveal_strlit("7"); }
        "7"
    } else if digit == 8 {
        proof { reveal_strlit("8"); }
        "8"
    } else {
        proof { reveal_strlit("9"); }
        "9"
    }
}

/// Appends the decimal notation of `value` to `text`.
pub(crate) fn append_decimal(value: u64, text: &mut String)
    ensures
        final(text)@ == old(text)@ + decimal(value as nat),
    decreases value,
{
    if value >= 10 {
        append_decimal(value / 10, text);
    }
    let digit = digit_str(value % 10);
    text.append(digit);
    proof {
        if value >= 10 {
            assert(decimal(value as nat) == decimal((value / 10) as nat) + seq![digit_char(
                (value % 10) as nat,
            )]);
        }
    }
}

/// The decimal notation of `value`, as `Display` writes it.
pub(crate) fn usize_text(value: usize) -> (text: String)
    ensures
        text@ == decimal(value as nat),
{
    let mut text = String::new();
    append_decimal(value as u64, &mut text);
    assert(text@ =~= decimal(value as nat));
    text
}

/// The reason a JSON input was rejected.
#[derive(Clone, Copy, Debug, PartialEq, Eq, Structural)]
#[non_exhaustive]
pub enum ErrorKind {
    /// The input ended in the middle of a token or container.
    UnexpectedEof,
    /// A byte appeared where the JSON grammar does not allow it.
    UnexpectedByte,
    /// Non-whitespace bytes followed the top-level value.
    TrailingData,
    /// A number did not match the JSON number grammar.
    InvalidNumber,
    /// A string had no closing quote.
    UnterminatedString,
    /// A raw control byte below `0x20` appeared inside a string.
    ControlCharacter,
    /// A backslash was not followed by a valid escape sequence.
    InvalidEscape,
    /// An object member name was not a string.
    ExpectedKey,
    /// An object member name was not followed by `:`.
    ExpectedColon,
    /// Container nesting exceeded the maximum depth of the tokenizer.
    DepthExceeded,
    /// A `\u` escape sequence named one half of a surrogate pair, and there is
    /// no valid partner for it. Only an expansion of the escape sequences
    /// causes this error.
    LoneSurrogate,
    /// The caller's buffer was too small to hold the unescaped string.
    BufferTooSmall,
}

/// The stable description of each error kind.
pub open spec fn kind_description(kind: ErrorKind) -> Seq<char> {
    match kind {
        ErrorKind::UnexpectedEof => "input ended unexpectedly"@,
        ErrorKind::UnexpectedByte => "unexpected byte"@,
        ErrorKind::TrailingData => "trailing data after the top-level value"@,
        ErrorKind::InvalidNumber => "invalid number"@,
        ErrorKind::UnterminatedString => "unterminated string"@,
        ErrorKind::ControlCharacter => "unescaped control character in a string"@,
        ErrorKind::InvalidEscape => "invalid escape sequence"@,
        ErrorKind::ExpectedKey => "expected an object member name"@,
        ErrorKind::ExpectedColon => "expected `:` after an object member name"@,
        ErrorKind::DepthExceeded => "maximum nesting depth exceeded"@,
        ErrorKind::LoneSurrogate => "lone surrogate in a `\\u` escape"@,
        ErrorKind::BufferTooSmall => "buffer too small"@,
    }
}

impl ErrorKind {
    /// Returns a short, stable description of this error kind.
    pub fn as_str(self) -> (text: &'static str)
        ensures
            text@ == kind_description(self),
    {
        match self {
            ErrorKind::UnexpectedEof => "input ended unexpectedly",
            ErrorKind::UnexpectedByte => "unexpected byte",
            ErrorKind::TrailingData => "trailing data after the top-level value",
            ErrorKind::InvalidNumber => "invalid number",
            ErrorKind::UnterminatedString => "unterminated string",
            ErrorKind::ControlCharacter => "unescaped control character in a string",
            ErrorKind::InvalidEscape => "invalid escape sequence",
            ErrorKind::ExpectedKey => "expected an object member name",
            ErrorKind::ExpectedColon => "expected `:` after an object member name",
            ErrorKind::DepthExceeded => "maximum nesting depth exceeded",
            ErrorKind::LoneSurrogate => "lone surrogate in a `\\u` escape",
            ErrorKind::BufferTooSmall => "buffer too small",
        }
    }
}

/// An error from the tokenizer, with the byte offset of the rejected input.
#[derive(Clone, Copy, Debug, PartialEq, Eq, Structural)]
pub struct Error {
    kind: ErrorKind,
    offset: usize,
}

/// The error of `kind` at `offset`.
pub closed spec fn json_error(kind: ErrorKind, offset: usize) -> Error {
    Error { kind, offset }
}

impl Error {
    /// The reason of this error.
    pub closed spec fn spec_kind(self) -> ErrorKind {
        self.kind
    }

    /// The byte offset of this error.
    pub closed spec fn spec_offset(self) -> usize {
        self.offset
    }

    /// Creates an error of `kind` positioned at `offset`.
    pub fn new(kind: ErrorKind, offset: usize) -> (error: Self)
        ensures
            error == json_error(kind, offset),
    {
        Self { kind, offset }
    }

    /// Returns the reason the input was rejected.
    pub fn kind(&self) -> (kind: ErrorKind)
        ensures
            kind == self.spec_kind(),
    {
        self.kind
    }

    /// Describes the error as "KIND at byte OFFSET", where KIND is the
    /// description of its kind.
    pub fn to_string(&self) -> (text: String)
        ensures
            text@ == kind_description(self.spec_kind()) + " at byte "@ + decimal(
                self.spec_offset() as nat,
            ),
    {
        let mut text = String::from_str(self.kind.as_str());
        text.append(" at byte ");
        let number = usize_text(self.offset);
        text.append(number.as_str());
        text
    }

    /// Returns the byte offset at which the input was rejected.
    ///
    /// An offset from an expansion of escape sequences is relative to the
    /// string body and not to the full document.
    pub fn offset(&self) -> (offset: usize)
        ensures
            offset == self.spec_offset(),
    {
        self.offset
    }
}

/// An error is the pair of its kind and its offset: the accessors read back
/// what [`Error::new`] stored, and two errors with the same kind and offset are
/// the same error.
pub broadcast proof fn lemma_json_error_fields(kind: ErrorKind, offset: usize)
    ensures
        #[trigger] json_error(kind, offset).spec_kind() == kind,
        json_error(kind, offset).spec_offset() == offset,
{
}

/// Each error is the error made from its own kind and offset.
pub broadcast proof fn lemma_json_error_identity(error: Error)
    ensures
        #[trigger] json_error(error.spec_kind(), error.spec_offset()) == error,
{
}

pub broadcast group group_json_error {
    lemma_json_error_fields,
    lemma_json_error_identity,
}

} // verus!
