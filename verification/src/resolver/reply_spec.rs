//! The meaning of a `ResolveHostname` reply: the state machine that reads the
//! tokens of the reply, and the items and the verdict that a full decode
//! produces.

use vstd::prelude::*;
use vstd::utf8::encode_utf8;

use crate::json_error::{group_json_error, Error};
use crate::resolver::varlink_reply::{ReplyErrorKind, MAX_DEPTH};
use crate::tokenizer_spec::{
    initial_view, lemma_step_progress, spec_step, ScanView, StepView, TokenView,
};
use crate::unescape_spec::unescaped;

verus! {

broadcast use group_json_error;

/// The largest number of address bytes of any address family.
pub const MAX_ADDRESS_BYTES: usize = 16;

/// The position of the decoder in the reply.
#[derive(Clone, Copy, Debug, PartialEq, Eq, Structural)]
pub enum ReplyState {
    /// Before the `{` that opens the reply.
    Start,
    /// Between the members of the reply object.
    Reply,
    /// Reading the value of the top-level `error` member.
    ReplyError,
    /// Reading the value of the top-level `parameters` member.
    ReplyParameters,
    /// Between the members of `parameters`.
    Parameters,
    /// Reading the value of `parameters.addresses`.
    ParametersAddresses,
    /// Reading the value of `parameters.name`.
    ParametersName,
    /// Reading the value of `parameters.flags`.
    ParametersFlags,
    /// Between the elements of the `addresses` array.
    Addresses,
    /// Between the members of one address object.
    Address,
    /// Reading the value of the `ifindex` member of an address entry.
    AddressIfindex,
    /// Reading the value of the `family` member of an address entry.
    AddressFamily,
    /// Reading the value of the `address` member of an address entry.
    AddressOctetsStart,
    /// Between the elements of the `address` array of an address entry.
    AddressOctets,
    /// Discarding the value of a member that the schema does not name.
    Skip,
    /// The reply object is closed.
    Complete,
}

/// The members of the address entry that is being read.
pub struct PendingView {
    pub ifindex: Option<i32>,
    pub family: Option<i32>,
    /// The bytes of the `address` array read so far.
    pub octets: Seq<u8>,
    /// Whether an `address` array occurred, empty or not.
    pub has_octets: bool,
}

/// The abstract state of the decoder.
pub struct DecoderView {
    pub state: ReplyState,
    /// How many containers of a discarded value are open.
    pub skip_depth: nat,
    /// The state to return to after a discarded value is complete.
    pub skip_resume: ReplyState,
    /// How many containers are open.
    pub depth: nat,
    pub pending: PendingView,
    /// Whether a top-level `error` member occurred.
    pub seen_error: bool,
    /// Whether a `parameters.addresses` array occurred, empty or not.
    pub seen_addresses: bool,
}

/// One address of a reply.
pub struct AddressView {
    pub ifindex: i32,
    pub family: i32,
    pub octets: Seq<u8>,
}

/// One item that the decoder reports, with text located by byte offsets in
/// the reply.
pub enum ItemView {
    Address(AddressView),
    /// The body of the `error` string is `start..end`.
    Error { start: int, end: int },
    /// The body of the plain `name` string is `start..end`.
    Name { start: int, end: int },
    /// The undecoded body of the escaped `name` string is `start..end`.
    EscapeName { start: int, end: int },
    Flags(u64),
}

/// What the decoder does with one token.
pub enum Reaction {
    /// The decoder moves to a new state and reports nothing.
    Continue(DecoderView),
    /// The decoder moves to a new state and reports an item.
    Report(DecoderView, ItemView),
    /// The decoder rejects the reply.
    Reject(ReplyErrorKind),
}

/// What a decode reports: its items in their order, and at its end either `Ok`
/// for an accepted reply or the kind and the byte offset of the rejection.
pub struct ReplyRun {
    pub items: Seq<ItemView>,
    pub end: Result<(), (ReplyErrorKind, int)>,
}

/// An address entry with no member.
pub open spec fn empty_pending() -> PendingView {
    PendingView { ifindex: None, family: None, octets: Seq::empty(), has_octets: false }
}

/// The decoder before the first token.
pub open spec fn initial_decoder() -> DecoderView {
    DecoderView {
        state: ReplyState::Start,
        skip_depth: 0,
        skip_resume: ReplyState::Reply,
        depth: 0,
        pending: empty_pending(),
        seen_error: false,
        seen_addresses: false,
    }
}

/// The invariant of a decoder: the nesting and the address stay within their
/// limits, and the count of discarded containers is zero outside of a
/// discarded value and at most the nesting inside one.
pub open spec fn decoder_wf(d: DecoderView) -> bool {
    &&& d.depth <= MAX_DEPTH
    &&& d.state == ReplyState::Skip ==> d.skip_depth <= d.depth
    &&& d.state != ReplyState::Skip ==> d.skip_depth == 0
    &&& d.skip_resume != ReplyState::Skip
    &&& d.pending.octets.len() <= MAX_ADDRESS_BYTES
}

// ---------------------------------------------------------------------------
// Numbers
// ---------------------------------------------------------------------------

pub open spec fn is_ascii_digit(byte: u8) -> bool {
    0x30 <= byte <= 0x39
}

/// The value of a sequence of decimal digits.
pub open spec fn digits_value(digits: Seq<u8>) -> int
    decreases digits.len(),
{
    if digits.len() == 0 {
        0
    } else {
        digits_value(digits.drop_last()) * 10 + (digits.last() - 0x30)
    }
}

/// Whether `text` starts with a sign.
pub open spec fn integer_signed(text: Seq<u8>) -> bool {
    text.len() > 0 && (text[0] == 0x2b || text[0] == 0x2d)
}

/// The digits of `text` after its optional sign.
pub open spec fn integer_digits(text: Seq<u8>) -> Seq<u8> {
    if integer_signed(text) {
        text.skip(1)
    } else {
        text
    }
}

/// The integer that `text` spells with an optional sign and at least one
/// decimal digit, as Rust's integer parsing reads it; `None` for other text.
pub open spec fn parsed_integer(text: Seq<u8>) -> Option<int> {
    let digits = integer_digits(text);
    if digits.len() == 0 || exists|k: int| 0 <= k < digits.len() && !is_ascii_digit(#[trigger] digits[k]) {
        None
    } else if integer_signed(text) && text[0] == 0x2d {
        Some(-digits_value(digits))
    } else {
        Some(digits_value(digits))
    }
}

/// A byte that starts a fraction or an exponent.
pub open spec fn is_fraction_or_exponent(byte: u8) -> bool {
    byte == 0x2e || byte == 0x65 || byte == 0x45
}

/// Whether `text` holds a fraction or an exponent.
pub open spec fn has_fraction_or_exponent(text: Seq<u8>) -> bool {
    exists|k: int| 0 <= k < text.len() && is_fraction_or_exponent(#[trigger] text[k])
}

/// Reads a JSON number for which the schema declares an integer: a fraction
/// or an exponent is the wrong type, and an integer outside of `i128` is out
/// of range.
pub open spec fn json_integer(text: Seq<u8>) -> Result<int, ReplyErrorKind> {
    if has_fraction_or_exponent(text) {
        Err(ReplyErrorKind::UnexpectedType)
    } else {
        match parsed_integer(text) {
            Some(value) => if i128::MIN <= value <= i128::MAX {
                Ok(value)
            } else {
                Err(ReplyErrorKind::NumberOutOfRange)
            },
            None => Err(ReplyErrorKind::NumberOutOfRange),
        }
    }
}

/// Reads an integer that must lie in `low..=high`.
pub open spec fn integer_in(text: Seq<u8>, low: int, high: int) -> Result<int, ReplyErrorKind> {
    match json_integer(text) {
        Ok(value) => if low <= value <= high {
            Ok(value)
        } else {
            Err(ReplyErrorKind::NumberOutOfRange)
        },
        Err(kind) => Err(kind),
    }
}

// ---------------------------------------------------------------------------
// Member names
// ---------------------------------------------------------------------------

pub open spec fn word_error() -> Seq<char> {
    seq!['e', 'r', 'r', 'o', 'r']
}

pub open spec fn word_parameters() -> Seq<char> {
    seq!['p', 'a', 'r', 'a', 'm', 'e', 't', 'e', 'r', 's']
}

pub open spec fn word_addresses() -> Seq<char> {
    seq!['a', 'd', 'd', 'r', 'e', 's', 's', 'e', 's']
}

pub open spec fn word_name() -> Seq<char> {
    seq!['n', 'a', 'm', 'e']
}

pub open spec fn word_flags() -> Seq<char> {
    seq!['f', 'l', 'a', 'g', 's']
}

pub open spec fn word_ifindex() -> Seq<char> {
    seq!['i', 'f', 'i', 'n', 'd', 'e', 'x']
}

pub open spec fn word_family() -> Seq<char> {
    seq!['f', 'a', 'm', 'i', 'l', 'y']
}

pub open spec fn word_address() -> Seq<char> {
    seq!['a', 'd', 'd', 'r', 'e', 's', 's']
}

/// Whether the member name at `start..end` names `word`. An escaped name is
/// compared after its escape sequences are decoded.
pub open spec fn key_is(bytes: Seq<u8>, start: int, end: int, escaped: bool, word: Seq<char>) -> bool {
    if escaped {
        unescaped(bytes.subrange(start, end)) == (word, None::<Error>)
    } else {
        bytes.subrange(start, end) == encode_utf8(word)
    }
}

// ---------------------------------------------------------------------------
// The state machine
// ---------------------------------------------------------------------------

/// The decoder in `state`.
pub open spec fn with_state(d: DecoderView, state: ReplyState) -> DecoderView {
    DecoderView { state, ..d }
}

/// Starts to discard the value that follows an unknown member name.
pub open spec fn begin_skip(d: DecoderView, resume: ReplyState) -> DecoderView {
    DecoderView { skip_resume: resume, skip_depth: 0, state: ReplyState::Skip, ..d }
}

/// Leaves the skip state once the discarded value is complete.
pub open spec fn end_skipped_value(d: DecoderView) -> DecoderView {
    if d.skip_depth == 0 {
        with_state(d, d.skip_resume)
    } else {
        d
    }
}

/// Closes one container of a discarded value.
pub open spec fn close_skipped(d: DecoderView) -> DecoderView {
    end_skipped_value(
        DecoderView {
            skip_depth: if d.skip_depth == 0 {
                0
            } else {
                (d.skip_depth - 1) as nat
            },
            ..d
        },
    )
}

/// Counts a closed container.
pub open spec fn closed(d: DecoderView) -> DecoderView {
    DecoderView {
        depth: if d.depth == 0 {
            0
        } else {
            (d.depth - 1) as nat
        },
        ..d
    }
}

/// `{`: opens a container within [`MAX_DEPTH`].
pub open spec fn object_start_reaction(d: DecoderView) -> Reaction {
    if d.depth + 1 > MAX_DEPTH {
        Reaction::Reject(ReplyErrorKind::DepthExceeded)
    } else {
        let d = DecoderView { depth: d.depth + 1, ..d };
        match d.state {
            ReplyState::Start => Reaction::Continue(with_state(d, ReplyState::Reply)),
            ReplyState::ReplyParameters => Reaction::Continue(
                with_state(d, ReplyState::Parameters),
            ),
            ReplyState::Addresses => Reaction::Continue(
                DecoderView { pending: empty_pending(), state: ReplyState::Address, ..d },
            ),
            ReplyState::Skip => Reaction::Continue(
                DecoderView { skip_depth: d.skip_depth + 1, ..d },
            ),
            _ => Reaction::Reject(ReplyErrorKind::UnexpectedType),
        }
    }
}

/// `[`: opens a container within [`MAX_DEPTH`].
pub open spec fn array_start_reaction(d: DecoderView) -> Reaction {
    if d.depth + 1 > MAX_DEPTH {
        Reaction::Reject(ReplyErrorKind::DepthExceeded)
    } else {
        let d = DecoderView { depth: d.depth + 1, ..d };
        match d.state {
            ReplyState::ParametersAddresses => Reaction::Continue(
                DecoderView { seen_addresses: true, state: ReplyState::Addresses, ..d },
            ),
            ReplyState::AddressOctetsStart => Reaction::Continue(
                DecoderView {
                    pending: PendingView {
                        octets: Seq::empty(),
                        has_octets: true,
                        ..d.pending
                    },
                    state: ReplyState::AddressOctets,
                    ..d
                },
            ),
            ReplyState::Skip => Reaction::Continue(
                DecoderView { skip_depth: d.skip_depth + 1, ..d },
            ),
            _ => Reaction::Reject(ReplyErrorKind::UnexpectedType),
        }
    }
}

/// `]`.
pub open spec fn array_end_reaction(d: DecoderView) -> Reaction {
    let d = closed(d);
    match d.state {
        ReplyState::Addresses => Reaction::Continue(with_state(d, ReplyState::Parameters)),
        ReplyState::AddressOctets => Reaction::Continue(with_state(d, ReplyState::Address)),
        ReplyState::Skip => Reaction::Continue(close_skipped(d)),
        _ => Reaction::Reject(ReplyErrorKind::UnexpectedType),
    }
}

/// The address entry whose object closed: `family` and `address` are
/// required, and an absent `ifindex` is `0`.
pub open spec fn completed_address(pending: PendingView) -> Option<AddressView> {
    match pending.family {
        Some(family) => if pending.has_octets {
            Some(
                AddressView {
                    ifindex: match pending.ifindex {
                        Some(ifindex) => ifindex,
                        None => 0,
                    },
                    family,
                    octets: pending.octets,
                },
            )
        } else {
            None
        },
        None => None,
    }
}

/// `}`: an address entry is reported when its object closes.
pub open spec fn object_end_reaction(d: DecoderView) -> Reaction {
    let d = closed(d);
    match d.state {
        ReplyState::Reply => Reaction::Continue(with_state(d, ReplyState::Complete)),
        ReplyState::Parameters => Reaction::Continue(with_state(d, ReplyState::Reply)),
        ReplyState::Address => match completed_address(d.pending) {
            Some(address) => Reaction::Report(
                with_state(d, ReplyState::Addresses),
                ItemView::Address(address),
            ),
            None => Reaction::Reject(ReplyErrorKind::MissingMember),
        },
        ReplyState::Skip => Reaction::Continue(close_skipped(d)),
        _ => Reaction::Reject(ReplyErrorKind::UnexpectedType),
    }
}

/// A member name at `start..end`.
pub open spec fn key_reaction(
    d: DecoderView,
    bytes: Seq<u8>,
    start: int,
    end: int,
    escaped: bool,
) -> Reaction {
    let is = |word: Seq<char>| key_is(bytes, start, end, escaped, word);
    match d.state {
        ReplyState::Reply => Reaction::Continue(
            if is(word_error()) {
                with_state(d, ReplyState::ReplyError)
            } else if is(word_parameters()) {
                with_state(d, ReplyState::ReplyParameters)
            } else {
                begin_skip(d, ReplyState::Reply)
            },
        ),
        ReplyState::Parameters => Reaction::Continue(
            if is(word_addresses()) {
                with_state(d, ReplyState::ParametersAddresses)
            } else if is(word_name()) {
                with_state(d, ReplyState::ParametersName)
            } else if is(word_flags()) {
                with_state(d, ReplyState::ParametersFlags)
            } else {
                begin_skip(d, ReplyState::Parameters)
            },
        ),
        ReplyState::Address => Reaction::Continue(
            if is(word_ifindex()) {
                with_state(d, ReplyState::AddressIfindex)
            } else if is(word_family()) {
                with_state(d, ReplyState::AddressFamily)
            } else if is(word_address()) {
                with_state(d, ReplyState::AddressOctetsStart)
            } else {
                begin_skip(d, ReplyState::Address)
            },
        ),
        ReplyState::Skip => Reaction::Continue(d),
        _ => Reaction::Reject(ReplyErrorKind::UnexpectedType),
    }
}

/// A string value at `start..end`. The `error` name must be plain.
pub open spec fn string_reaction(d: DecoderView, start: int, end: int, escaped: bool) -> Reaction {
    match d.state {
        ReplyState::ReplyError => if escaped {
            Reaction::Reject(ReplyErrorKind::UnexpectedEscape)
        } else {
            Reaction::Report(
                DecoderView { seen_error: true, state: ReplyState::Reply, ..d },
                ItemView::Error { start, end },
            )
        },
        ReplyState::ParametersName => Reaction::Report(
            with_state(d, ReplyState::Parameters),
            if escaped {
                ItemView::EscapeName { start, end }
            } else {
                ItemView::Name { start, end }
            },
        ),
        ReplyState::Skip => Reaction::Continue(end_skipped_value(d)),
        _ => Reaction::Reject(ReplyErrorKind::UnexpectedType),
    }
}

/// A number whose text is `text`.
pub open spec fn number_reaction(d: DecoderView, text: Seq<u8>) -> Reaction {
    match d.state {
        ReplyState::ParametersFlags => match integer_in(text, 0, u64::MAX as int) {
            Ok(value) => Reaction::Report(
                with_state(d, ReplyState::Parameters),
                ItemView::Flags(value as u64),
            ),
            Err(kind) => Reaction::Reject(kind),
        },
        ReplyState::AddressIfindex => match integer_in(text, i32::MIN as int, i32::MAX as int) {
            Ok(value) => Reaction::Continue(
                DecoderView {
                    pending: PendingView { ifindex: Some(value as i32), ..d.pending },
                    state: ReplyState::Address,
                    ..d
                },
            ),
            Err(kind) => Reaction::Reject(kind),
        },
        ReplyState::AddressFamily => match integer_in(text, i32::MIN as int, i32::MAX as int) {
            Ok(value) => Reaction::Continue(
                DecoderView {
                    pending: PendingView { family: Some(value as i32), ..d.pending },
                    state: ReplyState::Address,
                    ..d
                },
            ),
            Err(kind) => Reaction::Reject(kind),
        },
        ReplyState::AddressOctets => if d.pending.octets.len() >= MAX_ADDRESS_BYTES {
            Reaction::Reject(ReplyErrorKind::AddressTooLong)
        } else {
            match integer_in(text, 0, 255) {
                Ok(value) => Reaction::Continue(
                    DecoderView {
                        pending: PendingView {
                            octets: d.pending.octets.push(value as u8),
                            ..d.pending
                        },
                        ..d
                    },
                ),
                Err(kind) => Reaction::Reject(kind),
            }
        },
        ReplyState::Skip => Reaction::Continue(end_skipped_value(d)),
        _ => Reaction::Reject(ReplyErrorKind::UnexpectedType),
    }
}

/// `true`, `false` or `null`: legal only inside a discarded value.
pub open spec fn scalar_reaction(d: DecoderView) -> Reaction {
    if d.state == ReplyState::Skip {
        Reaction::Continue(end_skipped_value(d))
    } else {
        Reaction::Reject(ReplyErrorKind::UnexpectedType)
    }
}

/// What the decoder does with `token`.
#[verifier::opaque]
pub open spec fn react(d: DecoderView, bytes: Seq<u8>, token: TokenView) -> Reaction {
    match token {
        TokenView::ObjectStart => object_start_reaction(d),
        TokenView::ObjectEnd => object_end_reaction(d),
        TokenView::ArrayStart => array_start_reaction(d),
        TokenView::ArrayEnd => array_end_reaction(d),
        TokenView::Key { start, end, escaped } => key_reaction(d, bytes, start, end, escaped),
        TokenView::Str { start, end, escaped } => string_reaction(d, start, end, escaped),
        TokenView::Number { start, end } => number_reaction(d, bytes.subrange(start, end)),
        TokenView::Boolean(_) => scalar_reaction(d),
        TokenView::Null => scalar_reaction(d),
    }
}

/// The decoder after it reads `tokens` in order from `d`, or `None` if one of
/// them makes it report an item or reject the reply.
pub open spec fn react_tokens(d: DecoderView, bytes: Seq<u8>, tokens: Seq<TokenView>) -> Option<
    DecoderView,
>
    decreases tokens.len(),
{
    if tokens.len() == 0 {
        Some(d)
    } else {
        match react(d, bytes, tokens[0]) {
            Reaction::Continue(next) => react_tokens(next, bytes, tokens.drop_first()),
            _ => None,
        }
    }
}

/// Whether `token` is a member name that names `word`.
pub open spec fn names(bytes: Seq<u8>, token: TokenView, word: Seq<char>) -> bool {
    token matches TokenView::Key { start, end, escaped } && key_is(bytes, start, end, escaped, word)
}

/// Whether `token` is a number that reads as `value` within `low..=high`.
pub open spec fn reads_as(bytes: Seq<u8>, token: TokenView, low: int, high: int, value: int) -> bool {
    token matches TokenView::Number { start, end } && integer_in(bytes.subrange(start, end), low, high)
        == Ok::<int, ReplyErrorKind>(value)
}

/// Whether `tokens` are the member `"ifindex": value` of an address object.
pub open spec fn ifindex_member(bytes: Seq<u8>, tokens: Seq<TokenView>, value: i32) -> bool {
    &&& tokens.len() == 2
    &&& names(bytes, tokens[0], word_ifindex())
    &&& reads_as(bytes, tokens[1], i32::MIN as int, i32::MAX as int, value as int)
}

/// Whether `tokens` are the member `"family": value` of an address object.
pub open spec fn family_member(bytes: Seq<u8>, tokens: Seq<TokenView>, value: i32) -> bool {
    &&& tokens.len() == 2
    &&& names(bytes, tokens[0], word_family())
    &&& reads_as(bytes, tokens[1], i32::MIN as int, i32::MAX as int, value as int)
}

/// Whether `tokens` are the member `"address": [..]` of an address object,
/// whose array holds `octets`.
pub open spec fn address_member(bytes: Seq<u8>, tokens: Seq<TokenView>, octets: Seq<u8>) -> bool {
    &&& octets.len() <= MAX_ADDRESS_BYTES
    &&& tokens.len() == octets.len() + 3
    &&& names(bytes, tokens[0], word_address())
    &&& tokens[1] == TokenView::ArrayStart
    &&& forall|k: int| 0 <= k < octets.len() ==> reads_as(bytes, tokens[k + 2], 0, 255, #[trigger] octets[k] as int)
    &&& tokens.last() == TokenView::ArrayEnd
}

/// The decode from the scanner state `scan` and the decoder state `d` to the
/// end of the reply: the items that it reports, and its verdict.
///
/// A complete JSON document is accepted when an `error` member or a
/// `parameters.addresses` array occurred. A rejection by the decoder carries
/// the offset after the token that caused it; a JSON violation carries the
/// offset that the tokenizer reported.
pub open spec fn reply_walk(bytes: Seq<u8>, scan: ScanView, d: DecoderView) -> ReplyRun
    decreases bytes.len() - scan.offset,
    when 0 <= scan.offset <= bytes.len()
    via reply_walk_decreases
{
    match spec_step(bytes, scan) {
        StepView::Emit(next, token) => match react(d, bytes, token) {
            Reaction::Continue(after) => reply_walk(bytes, next, after),
            Reaction::Report(after, item) => {
                let rest = reply_walk(bytes, next, after);
                ReplyRun { items: seq![item] + rest.items, end: rest.end }
            },
            Reaction::Reject(kind) => ReplyRun { items: Seq::empty(), end: Err((kind, next.offset)) },
        },
        StepView::Finish(next) => ReplyRun {
            items: Seq::empty(),
            end: if d.seen_error || d.seen_addresses {
                Ok(())
            } else {
                Err((ReplyErrorKind::MissingMember, next.offset))
            },
        },
        StepView::Fail(_, error) => ReplyRun {
            items: Seq::empty(),
            end: Err((ReplyErrorKind::Json, error.spec_offset() as int)),
        },
    }
}

/// One step of [`reply_walk`], unfolded.
pub proof fn lemma_walk_step(bytes: Seq<u8>, scan: ScanView, d: DecoderView)
    requires
        0 <= scan.offset <= bytes.len(),
    ensures
        reply_walk(bytes, scan, d) == match spec_step(bytes, scan) {
            StepView::Emit(next, token) => match react(d, bytes, token) {
                Reaction::Continue(after) => reply_walk(bytes, next, after),
                Reaction::Report(after, item) => {
                    let rest = reply_walk(bytes, next, after);
                    ReplyRun { items: seq![item] + rest.items, end: rest.end }
                },
                Reaction::Reject(kind) => ReplyRun {
                    items: Seq::empty(),
                    end: Err((kind, next.offset)),
                },
            },
            StepView::Finish(next) => ReplyRun {
                items: Seq::empty(),
                end: if d.seen_error || d.seen_addresses {
                    Ok(())
                } else {
                    Err((ReplyErrorKind::MissingMember, next.offset))
                },
            },
            StepView::Fail(_, error) => ReplyRun {
                items: Seq::empty(),
                end: Err((ReplyErrorKind::Json, error.spec_offset() as int)),
            },
        },
{
    lemma_step_progress(bytes, scan);
}

#[via_fn]
proof fn reply_walk_decreases(bytes: Seq<u8>, scan: ScanView, d: DecoderView) {
    lemma_step_progress(bytes, scan);
}

/// The full decode of the reply `bytes`.
pub open spec fn reply_run(bytes: Seq<u8>) -> ReplyRun {
    reply_walk(bytes, initial_view(), initial_decoder())
}

} // verus!
