//! The JSON grammar that the tokenizer follows, stated over the bytes of the
//! document.
//!
//! The scanner is a state machine. [`spec_step`] says what one call of the
//! scanner does from a given position: it reports one token, completes the
//! document, or rejects it. [`spec_complete`] and [`spec_advance`] repeat that
//! step until the end of the document or until a given number of tokens.

use vstd::prelude::*;

use crate::json_error::{group_json_error, json_error, Error, ErrorKind};

verus! {

broadcast use group_json_error;

/// The deepest container nesting that the tokenizer accepts.
pub const MAX_DEPTH: usize = 256;

/// The position of the scanner in the document grammar.
#[derive(Clone, Copy, Debug, PartialEq, Eq, Structural)]
pub enum ScanState {
    /// Before the top-level value.
    Start,
    /// The top-level value is complete. Only whitespace can follow.
    Done,
    /// After `{`. A member name or `}` can follow.
    ObjectFirstKey,
    /// After a `,` inside an object. A member name must follow.
    ObjectNextKey,
    /// After `name:`. A value must follow.
    ObjectValue,
    /// After a member value. A `,` or a `}` must follow.
    ObjectComma,
    /// After `[`. A value or `]` can follow.
    ArrayFirstValue,
    /// After a `,` inside an array. A value must follow.
    ArrayNextValue,
    /// After an element. A `,` or a `]` must follow.
    ArrayComma,
}

/// The abstract state of a tokenizer: the cursor, the grammar state, the open
/// containers from the outermost to the innermost (`true` for an array), and
/// the failure that the tokenizer reported, if any.
pub struct ScanView {
    pub offset: int,
    pub state: ScanState,
    pub levels: Seq<bool>,
    pub failure: Option<Error>,
}

/// A token, located by byte offsets in the document.
#[derive(PartialEq, Eq, Structural)]
pub enum TokenView {
    ObjectStart,
    ObjectEnd,
    ArrayStart,
    ArrayEnd,
    /// A member name; the body is `start..end`.
    Key { start: int, end: int, escaped: bool },
    /// A string value; the body is `start..end`.
    Str { start: int, end: int, escaped: bool },
    /// A number; its text is `start..end`.
    Number { start: int, end: int },
    Boolean(bool),
    Null,
}

/// What one step of the scanner does.
pub enum StepView {
    /// The scanner reports a token and moves to a new state.
    Emit(ScanView, TokenView),
    /// The document is complete and only whitespace follows it.
    Finish(ScanView),
    /// The document violates the grammar.
    Fail(ScanView, Error),
}

/// The result of repeated steps.
pub enum Walk {
    /// The requested number of tokens was reported; the scan can continue.
    Paused(ScanView),
    /// The document is complete.
    Complete(ScanView),
    /// The document was rejected with this error.
    Rejected(ScanView, Error),
}

/// The state of a new tokenizer.
pub open spec fn initial_view() -> ScanView {
    ScanView { offset: 0, state: ScanState::Start, levels: Seq::empty(), failure: None }
}

/// The bytes that JSON accepts as insignificant whitespace.
pub open spec fn is_json_whitespace(byte: u8) -> bool {
    byte == 0x20 || byte == 0x09 || byte == 0x0a || byte == 0x0d
}

pub open spec fn is_digit(byte: u8) -> bool {
    0x30 <= byte <= 0x39
}

pub open spec fn is_hex_digit(byte: u8) -> bool {
    (0x30 <= byte <= 0x39) || (0x41 <= byte <= 0x46) || (0x61 <= byte <= 0x66)
}

/// The first position at or after `index` that is not whitespace.
pub open spec fn skip_ws(bytes: Seq<u8>, index: int) -> int
    decreases bytes.len() - index,
{
    if 0 <= index < bytes.len() && is_json_whitespace(bytes[index]) {
        skip_ws(bytes, index + 1)
    } else {
        index
    }
}

/// The first position at or after `index` that is not an ASCII digit.
pub open spec fn skip_digits_spec(bytes: Seq<u8>, index: int) -> int
    decreases bytes.len() - index,
{
    if 0 <= index < bytes.len() && is_digit(bytes[index]) {
        skip_digits_spec(bytes, index + 1)
    } else {
        index
    }
}

/// The error of `kind` at the position `at`.
pub open spec fn err_at(kind: ErrorKind, at: int) -> Error {
    json_error(kind, at as usize)
}

/// Validates the escape sequence whose backslash is at `at`, and returns the
/// position after the sequence.
pub open spec fn escape_end(bytes: Seq<u8>, at: int) -> Result<int, Error> {
    let next = at + 1;
    if next >= bytes.len() {
        Err(err_at(ErrorKind::UnterminatedString, next))
    } else {
        let escape = bytes[next];
        if escape == 0x22 || escape == 0x5c || escape == 0x2f || escape == 0x62 || escape == 0x66
            || escape == 0x6e || escape == 0x72 || escape == 0x74 {
            Ok(at + 2)
        } else if escape == 0x75 {
            if at + 6 > bytes.len() {
                Err(err_at(ErrorKind::InvalidEscape, at))
            } else if forall|k: int| at + 2 <= k < at + 6 ==> is_hex_digit(#[trigger] bytes[k]) {
                Ok(at + 6)
            } else {
                Err(err_at(ErrorKind::InvalidEscape, at))
            }
        } else {
            Err(err_at(ErrorKind::InvalidEscape, at))
        }
    }
}

/// Scans a string body from `cursor` to its closing quote. The result is the
/// position of the closing quote and whether the body holds an escape
/// sequence.
pub open spec fn string_end(bytes: Seq<u8>, cursor: int, escaped: bool) -> Result<
    (int, bool),
    Error,
>
    decreases bytes.len() - cursor,
{
    if cursor < 0 || cursor >= bytes.len() {
        Err(err_at(ErrorKind::UnterminatedString, cursor))
    } else if bytes[cursor] == 0x22 {
        Ok((cursor, escaped))
    } else if bytes[cursor] == 0x5c {
        match escape_end(bytes, cursor) {
            Ok(next) => string_end(bytes, next, true),
            Err(error) => Err(error),
        }
    } else if bytes[cursor] < 0x20 {
        Err(err_at(ErrorKind::ControlCharacter, cursor))
    } else {
        string_end(bytes, cursor + 1, escaped)
    }
}

/// The integer part of a number whose first digit (after an optional minus
/// sign) is at `at`. The result is the position after it.
pub open spec fn integer_part_end(bytes: Seq<u8>, at: int) -> Result<int, Error> {
    if at >= bytes.len() {
        Err(err_at(ErrorKind::UnexpectedEof, at))
    } else if bytes[at] == 0x30 {
        if at + 1 < bytes.len() && is_digit(bytes[at + 1]) {
            Err(err_at(ErrorKind::InvalidNumber, at + 1))
        } else {
            Ok(at + 1)
        }
    } else if is_digit(bytes[at]) {
        Ok(skip_digits_spec(bytes, at))
    } else {
        Err(err_at(ErrorKind::InvalidNumber, at))
    }
}

/// The optional fraction of a number, which starts at `at`.
pub open spec fn fraction_end(bytes: Seq<u8>, at: int) -> Result<int, Error> {
    if at < bytes.len() && bytes[at] == 0x2e {
        let after = skip_digits_spec(bytes, at + 1);
        if after == at + 1 {
            Err(err_at(ErrorKind::InvalidNumber, at + 1))
        } else {
            Ok(after)
        }
    } else {
        Ok(at)
    }
}

/// The optional exponent of a number, which starts at `at`.
pub open spec fn exponent_end(bytes: Seq<u8>, at: int) -> Result<int, Error> {
    if at < bytes.len() && (bytes[at] == 0x65 || bytes[at] == 0x45) {
        let sign = at + 1;
        let digits = if sign < bytes.len() && (bytes[sign] == 0x2b || bytes[sign] == 0x2d) {
            sign + 1
        } else {
            sign
        };
        let after = skip_digits_spec(bytes, digits);
        if after == digits {
            Err(err_at(ErrorKind::InvalidNumber, digits))
        } else {
            Ok(after)
        }
    } else {
        Ok(at)
    }
}

/// Scans a number that starts at `start` and returns the position after it.
pub open spec fn number_end(bytes: Seq<u8>, start: int) -> Result<int, Error> {
    let digits = if start < bytes.len() && bytes[start] == 0x2d {
        start + 1
    } else {
        start
    };
    match integer_part_end(bytes, digits) {
        Err(error) => Err(error),
        Ok(integer) => match fraction_end(bytes, integer) {
            Err(error) => Err(error),
            Ok(fraction) => exponent_end(bytes, fraction),
        },
    }
}

pub open spec fn word_true() -> Seq<u8> {
    seq![0x74u8, 0x72u8, 0x75u8, 0x65u8]
}

pub open spec fn word_false() -> Seq<u8> {
    seq![0x66u8, 0x61u8, 0x6cu8, 0x73u8, 0x65u8]
}

pub open spec fn word_null() -> Seq<u8> {
    seq![0x6eu8, 0x75u8, 0x6cu8, 0x6cu8]
}

/// Consumes the keyword `word` at `at` and returns the position after it.
pub open spec fn literal_end(bytes: Seq<u8>, at: int, word: Seq<u8>) -> Result<int, Error> {
    if at + word.len() > bytes.len() {
        Err(err_at(ErrorKind::UnexpectedEof, at))
    } else if bytes.subrange(at, at + word.len()) == word {
        Ok(at + word.len())
    } else {
        Err(err_at(ErrorKind::UnexpectedByte, at))
    }
}

/// The grammar state after a complete value.
pub open spec fn state_after_value(levels: Seq<bool>) -> ScanState {
    if levels.len() == 0 {
        ScanState::Done
    } else if levels.last() {
        ScanState::ArrayComma
    } else {
        ScanState::ObjectComma
    }
}

/// Moves the cursor to `offset` and the grammar to `state`.
pub open spec fn moved(view: ScanView, offset: int, state: ScanState) -> ScanView {
    ScanView { offset, state, ..view }
}

/// Moves the cursor to `offset`.
pub open spec fn at_offset(view: ScanView, offset: int) -> ScanView {
    ScanView { offset, ..view }
}

/// Completes a value that ends before `offset`.
pub open spec fn value_done(view: ScanView, offset: int) -> ScanView {
    moved(view, offset, state_after_value(view.levels))
}

/// Closes the innermost container, whose closing byte is at the cursor.
pub open spec fn closed_container(view: ScanView) -> ScanView {
    let levels = view.levels.drop_last();
    ScanView {
        offset: view.offset + 1,
        state: state_after_value(levels),
        levels,
        failure: view.failure,
    }
}

/// Opens a container whose opening byte is at the cursor.
pub open spec fn opened_container(view: ScanView, is_array: bool) -> StepView {
    if view.levels.len() >= MAX_DEPTH {
        StepView::Fail(view, err_at(ErrorKind::DepthExceeded, view.offset))
    } else {
        StepView::Emit(
            ScanView {
                offset: view.offset + 1,
                state: if is_array {
                    ScanState::ArrayFirstValue
                } else {
                    ScanState::ObjectFirstKey
                },
                levels: view.levels.push(is_array),
                failure: view.failure,
            },
            if is_array {
                TokenView::ArrayStart
            } else {
                TokenView::ObjectStart
            },
        )
    }
}

/// Reports a scalar that ends at `end` with the token `token`, or the failure
/// of its scan.
pub open spec fn scalar_step(view: ScanView, end: Result<int, Error>, token: TokenView) -> StepView {
    match end {
        Ok(end) => StepView::Emit(value_done(view, end), token),
        Err(error) => StepView::Fail(view, error),
    }
}

/// Scans a value that starts at the cursor.
pub open spec fn scan_value_step(bytes: Seq<u8>, view: ScanView) -> StepView {
    let at = view.offset;
    let byte = bytes[at];
    if byte == 0x7b {
        opened_container(view, false)
    } else if byte == 0x5b {
        opened_container(view, true)
    } else if byte == 0x22 {
        match string_end(bytes, at + 1, false) {
            Ok((end, escaped)) => StepView::Emit(
                value_done(view, end + 1),
                TokenView::Str { start: at + 1, end, escaped },
            ),
            Err(error) => StepView::Fail(view, error),
        }
    } else if byte == 0x74 {
        scalar_step(view, literal_end(bytes, at, word_true()), TokenView::Boolean(true))
    } else if byte == 0x66 {
        scalar_step(view, literal_end(bytes, at, word_false()), TokenView::Boolean(false))
    } else if byte == 0x6e {
        scalar_step(view, literal_end(bytes, at, word_null()), TokenView::Null)
    } else if byte == 0x2d || is_digit(byte) {
        match number_end(bytes, at) {
            Ok(end) => StepView::Emit(value_done(view, end), TokenView::Number { start: at, end }),
            Err(error) => StepView::Fail(view, error),
        }
    } else {
        StepView::Fail(view, err_at(ErrorKind::UnexpectedByte, at))
    }
}

/// Scans a member name at the cursor and the `:` that must follow it.
pub open spec fn scan_key_step(bytes: Seq<u8>, view: ScanView) -> StepView {
    let at = view.offset;
    if bytes[at] != 0x22 {
        StepView::Fail(view, err_at(ErrorKind::ExpectedKey, at))
    } else {
        match string_end(bytes, at + 1, false) {
            Err(error) => StepView::Fail(view, error),
            Ok((end, escaped)) => {
                let colon = skip_ws(bytes, end + 1);
                if colon < bytes.len() && bytes[colon] == 0x3a {
                    StepView::Emit(
                        moved(view, colon + 1, ScanState::ObjectValue),
                        TokenView::Key { start: at + 1, end, escaped },
                    )
                } else {
                    StepView::Fail(
                        at_offset(view, colon),
                        err_at(ErrorKind::ExpectedColon, colon),
                    )
                }
            },
        }
    }
}

/// Acts on the byte at the cursor, which is not whitespace.
pub open spec fn dispatch_step(bytes: Seq<u8>, view: ScanView) -> StepView {
    let at = view.offset;
    if at >= bytes.len() {
        if view.state == ScanState::Done {
            StepView::Finish(view)
        } else {
            StepView::Fail(view, err_at(ErrorKind::UnexpectedEof, at))
        }
    } else {
        let byte = bytes[at];
        match view.state {
            ScanState::Done => StepView::Fail(view, err_at(ErrorKind::TrailingData, at)),
            ScanState::Start | ScanState::ObjectValue | ScanState::ArrayNextValue => {
                scan_value_step(bytes, view)
            },
            ScanState::ArrayFirstValue => if byte == 0x5d {
                StepView::Emit(closed_container(view), TokenView::ArrayEnd)
            } else {
                scan_value_step(bytes, view)
            },
            ScanState::ObjectFirstKey => if byte == 0x7d {
                StepView::Emit(closed_container(view), TokenView::ObjectEnd)
            } else {
                scan_key_step(bytes, view)
            },
            ScanState::ObjectNextKey => scan_key_step(bytes, view),
            ScanState::ObjectComma => if byte == 0x7d {
                StepView::Emit(closed_container(view), TokenView::ObjectEnd)
            } else {
                StepView::Fail(view, err_at(ErrorKind::UnexpectedByte, at))
            },
            ScanState::ArrayComma => if byte == 0x5d {
                StepView::Emit(closed_container(view), TokenView::ArrayEnd)
            } else {
                StepView::Fail(view, err_at(ErrorKind::UnexpectedByte, at))
            },
        }
    }
}

/// Whether the scanner is between the elements of a container and the next
/// byte is the `,` that separates them.
pub open spec fn at_separator(bytes: Seq<u8>, view: ScanView) -> bool {
    &&& view.state == ScanState::ObjectComma || view.state == ScanState::ArrayComma
    &&& 0 <= view.offset < bytes.len()
    &&& bytes[view.offset] == 0x2c
}

/// The state after the `,` at the cursor.
pub open spec fn after_separator(bytes: Seq<u8>, view: ScanView) -> ScanView {
    moved(
        view,
        skip_ws(bytes, view.offset + 1),
        if view.state == ScanState::ObjectComma {
            ScanState::ObjectNextKey
        } else {
            ScanState::ArrayNextValue
        },
    )
}

/// One step of the scanner: skip whitespace, consume a separating `,`, and
/// then report the next token, complete the document, or reject it.
pub open spec fn spec_step(bytes: Seq<u8>, view: ScanView) -> StepView {
    let skipped = at_offset(view, skip_ws(bytes, view.offset));
    if at_separator(bytes, skipped) {
        dispatch_step(bytes, after_separator(bytes, skipped))
    } else {
        dispatch_step(bytes, skipped)
    }
}

/// Repeats [`spec_step`] until the document is complete or rejected.
pub open spec fn spec_complete(bytes: Seq<u8>, view: ScanView) -> Walk
    decreases bytes.len() - view.offset,
    when 0 <= view.offset <= bytes.len()
    via spec_complete_decreases
{
    match spec_step(bytes, view) {
        StepView::Emit(next, _) => spec_complete(bytes, next),
        StepView::Finish(next) => Walk::Complete(next),
        StepView::Fail(next, error) => Walk::Rejected(next, error),
    }
}

#[via_fn]
proof fn spec_complete_decreases(bytes: Seq<u8>, view: ScanView) {
    lemma_step_progress(bytes, view);
}

/// Repeats [`spec_step`] until `count` tokens are reported, or until the
/// document is complete or rejected.
pub open spec fn spec_advance(bytes: Seq<u8>, view: ScanView, count: nat) -> Walk
    decreases count,
{
    if count == 0 {
        Walk::Paused(view)
    } else {
        match spec_step(bytes, view) {
            StepView::Emit(next, _) => spec_advance(bytes, next, (count - 1) as nat),
            StepView::Finish(next) => Walk::Complete(next),
            StepView::Fail(next, error) => Walk::Rejected(next, error),
        }
    }
}

/// The tokens that a scan from `view` reports, in order, until the document
/// is complete or rejected.
pub open spec fn spec_tokens(bytes: Seq<u8>, view: ScanView) -> Seq<TokenView>
    decreases bytes.len() - view.offset,
    when 0 <= view.offset <= bytes.len()
    via spec_tokens_decreases
{
    match spec_step(bytes, view) {
        StepView::Emit(next, token) => seq![token] + spec_tokens(bytes, next),
        _ => Seq::empty(),
    }
}

#[via_fn]
proof fn spec_tokens_decreases(bytes: Seq<u8>, view: ScanView) {
    lemma_step_progress(bytes, view);
}

/// The first `count` tokens that a scan from `view` reports.
pub open spec fn spec_first_tokens(bytes: Seq<u8>, view: ScanView, count: nat) -> Seq<TokenView>
    decreases count,
{
    if count == 0 {
        Seq::empty()
    } else {
        match spec_step(bytes, view) {
            StepView::Emit(next, token) => seq![token] + spec_first_tokens(
                bytes,
                next,
                (count - 1) as nat,
            ),
            _ => Seq::empty(),
        }
    }
}

/// Reporting one more token after `count` tokens is the same as asking for
/// `count + 1` tokens.
pub proof fn lemma_advance_extend(bytes: Seq<u8>, start: ScanView, count: nat, current: ScanView)
    requires
        spec_advance(bytes, start, count) == Walk::Paused(current),
        spec_step(bytes, current) is Emit,
    ensures
        spec_advance(bytes, start, count + 1) == Walk::Paused(spec_step(bytes, current)->Emit_0),
    decreases count,
{
    if count == 0 {
        reveal_with_fuel(spec_advance, 2);
    } else {
        if let StepView::Emit(next, _) = spec_step(bytes, start) {
            lemma_advance_extend(bytes, next, (count - 1) as nat, current);
        }
    }
}

/// The first `count + 1` tokens are the first `count` tokens followed by the
/// token that the next step reports.
pub proof fn lemma_first_tokens_extend(bytes: Seq<u8>, start: ScanView, count: nat, current: ScanView)
    requires
        spec_advance(bytes, start, count) == Walk::Paused(current),
        spec_step(bytes, current) is Emit,
    ensures
        spec_first_tokens(bytes, start, count + 1) == spec_first_tokens(bytes, start, count).push(
            spec_step(bytes, current)->Emit_1,
        ),
    decreases count,
{
    if count == 0 {
        reveal_with_fuel(spec_first_tokens, 2);
        assert(spec_first_tokens(bytes, start, 1) =~= seq![spec_step(bytes, current)->Emit_1]);
    } else {
        if let StepView::Emit(next, token) = spec_step(bytes, start) {
            lemma_first_tokens_extend(bytes, next, (count - 1) as nat, current);
            assert(spec_first_tokens(bytes, start, count + 1) =~= seq![token]
                + spec_first_tokens(bytes, next, count as nat));
            assert(seq![token] + spec_first_tokens(bytes, next, (count - 1) as nat).push(
                spec_step(bytes, current)->Emit_1,
            ) =~= (seq![token] + spec_first_tokens(bytes, next, (count - 1) as nat)).push(
                spec_step(bytes, current)->Emit_1,
            ));
        }
    }
}

// ---------------------------------------------------------------------------
// Facts about the scan functions
// ---------------------------------------------------------------------------

pub proof fn lemma_skip_ws(bytes: Seq<u8>, index: int)
    requires
        0 <= index <= bytes.len(),
    ensures
        index <= skip_ws(bytes, index) <= bytes.len(),
        skip_ws(bytes, index) < bytes.len() ==> !is_json_whitespace(
            bytes[skip_ws(bytes, index)],
        ),
    decreases bytes.len() - index,
{
    if index < bytes.len() && is_json_whitespace(bytes[index]) {
        lemma_skip_ws(bytes, index + 1);
    }
}

pub proof fn lemma_skip_digits(bytes: Seq<u8>, index: int)
    requires
        0 <= index <= bytes.len(),
    ensures
        index <= skip_digits_spec(bytes, index) <= bytes.len(),
        skip_digits_spec(bytes, index) < bytes.len() ==> !is_digit(
            bytes[skip_digits_spec(bytes, index)],
        ),
        forall|k: int| index <= k < skip_digits_spec(bytes, index) ==> is_digit(#[trigger] bytes[k]),
    decreases bytes.len() - index,
{
    if index < bytes.len() && is_digit(bytes[index]) {
        lemma_skip_digits(bytes, index + 1);
    }
}

pub proof fn lemma_string_end(bytes: Seq<u8>, cursor: int, escaped: bool)
    requires
        0 <= cursor <= bytes.len(),
    ensures
        string_end(bytes, cursor, escaped) matches Ok((end, _)) ==> cursor <= end < bytes.len()
            && bytes[end] == 0x22,
    decreases bytes.len() - cursor,
{
    if cursor < bytes.len() && bytes[cursor] != 0x22 {
        if bytes[cursor] == 0x5c {
            if let Ok(next) = escape_end(bytes, cursor) {
                lemma_string_end(bytes, next, true);
            }
        } else if bytes[cursor] >= 0x20 {
            lemma_string_end(bytes, cursor + 1, escaped);
        }
    }
}

pub proof fn lemma_number_end(bytes: Seq<u8>, start: int)
    requires
        0 <= start < bytes.len(),
    ensures
        number_end(bytes, start) matches Ok(end) ==> start < end <= bytes.len() && is_digit(
            bytes[end - 1],
        ),
{
    let digits = if bytes[start] == 0x2d {
        start + 1
    } else {
        start
    };
    if digits < bytes.len() {
        lemma_skip_digits(bytes, digits);
        if digits + 1 <= bytes.len() {
            lemma_skip_digits(bytes, digits + 1);
        }
        if let Ok(integer) = integer_part_end(bytes, digits) {
            if integer < bytes.len() {
                lemma_skip_digits(bytes, integer + 1);
            }
            if let Ok(fraction) = fraction_end(bytes, integer) {
                if fraction + 1 <= bytes.len() {
                    lemma_skip_digits(bytes, fraction + 1);
                }
                if fraction + 2 <= bytes.len() {
                    lemma_skip_digits(bytes, fraction + 2);
                }
            }
        }
    }
}

/// Each step that reports a token moves the cursor forward and keeps it
/// inside the document.
pub proof fn lemma_step_progress(bytes: Seq<u8>, view: ScanView)
    requires
        0 <= view.offset <= bytes.len(),
    ensures
        spec_step(bytes, view) matches StepView::Emit(next, _) ==> view.offset < next.offset
            <= bytes.len(),
        spec_step(bytes, view) matches StepView::Finish(next) ==> view.offset <= next.offset
            <= bytes.len(),
        spec_step(bytes, view) matches StepView::Fail(next, _) ==> view.offset <= next.offset
            <= bytes.len(),
{
    let first = skip_ws(bytes, view.offset);
    lemma_skip_ws(bytes, view.offset);
    let skipped = at_offset(view, first);
    let current = if at_separator(bytes, skipped) {
        lemma_skip_ws(bytes, first + 1);
        after_separator(bytes, skipped)
    } else {
        skipped
    };
    let at = current.offset;
    if at < bytes.len() {
        lemma_string_end(bytes, at + 1, false);
        if at + 1 <= bytes.len() {
            if let Ok((end, _)) = string_end(bytes, at + 1, false) {
                lemma_skip_ws(bytes, end + 1);
            }
        }
        lemma_number_end(bytes, at);
    }
}

} // verus!
