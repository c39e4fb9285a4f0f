//! Decodes systemd-resolved `io.systemd.Resolve.ResolveHostname` replies.
//!
//! The Varlink interface declares:
//!
//! ```text
//! method ResolveHostname(name: ?string, family: ?int, flags: ?int) -> (
//!     addresses: []ResolveHostnameAddress,
//!     name: string,
//!     flags: int
//! )
//! type ResolveHostnameAddress (ifindex: ?int, family: int, address: []int)
//! ```
//!
//! The members can occur in any order, and a reply can contain members that
//! this schema does not name; the decoder skips an unknown member
//! structurally at each level. A method error arrives as a top-level `error`
//! member, such as `{"error":"io.systemd.Resolve.NoSuchResourceRecord",
//! "parameters":{}}`.
//!
//! The decisions that the decoder makes:
//!
//! - Either `error` or `parameters.addresses` must be present; a reply with
//!   neither is rejected with [`ReplyErrorKind::MissingMember`].
//! - An empty `addresses` array is valid and supplies no item. "Present but
//!   empty" means that the service found no address; "absent" means that the
//!   reply is malformed.
//! - An absent `ifindex` becomes `0`, the index of no link.
//! - [`MAX_DEPTH`] is 5, because a well-formed address reply reaches exactly
//!   5 levels: the reply object, `parameters`, the `addresses` array, one
//!   address object, and its `address` byte array. The limit also applies
//!   inside a skipped unknown member.
//! - An escaped `error` name is rejected: a Varlink error name is an
//!   interface-qualified identifier and cannot contain an escape sequence.
//!   `name` can contain escape sequences, and arrives as an [`EscapeString`].
//! - The decoder does not compare the address length with the family; the
//!   caller makes that check.
//!
//! The contracts speak of [`reply_run`], the items and the verdict of a full
//! decode, which [`crate::resolver::reply_spec`] defines.

use vstd::prelude::*;
use vstd::string::{StringExecFns, StringSliceAdditionalSpecFns};

pub use crate::escape_string::EscapeString;
use crate::json_error::{decimal, group_json_error, usize_text, Error};
use crate::resolver::reply_spec::{
    array_end_reaction, array_start_reaction, begin_skip, close_skipped, closed,
    completed_address, decoder_wf, digits_value, empty_pending, end_skipped_value,
    has_fraction_or_exponent, initial_decoder, integer_digits, integer_signed,
    is_fraction_or_exponent, integer_in, is_ascii_digit, json_integer,
    key_reaction, lemma_walk_step, number_reaction, object_end_reaction, object_start_reaction,
    parsed_integer, react, reply_run, reply_walk, scalar_reaction, string_reaction, word_address,
    word_addresses, word_error, word_family, word_flags, word_ifindex, word_name,
    word_parameters, AddressView, DecoderView, ItemView, PendingView, Reaction, ReplyRun,
    ReplyState, MAX_ADDRESS_BYTES,
};
use crate::tokenizer::{continued, lemma_continued_push, token_matches, Step, Token, Tokenizer};
use crate::tokenizer_spec::{initial_view, lemma_step_progress, spec_step, ScanView, TokenView};
use crate::unescape_spec::unescaped;

verus! {

broadcast use group_json_error;

/// The deepest nesting of a well-formed reply, and therefore the deepest
/// nesting that this decoder reads.
///
/// An address reply nests exactly this deep: the reply object, `parameters`,
/// the `addresses` array, one address object, and its `address` byte array.
/// The decoder applies the limit everywhere, also inside a member that it
/// skips.
pub const MAX_DEPTH: usize = 5;

/// The data that a caller needs from a `ResolveHostname` reply.
///
/// The decoder calls one method for each item, in the order of the items on
/// the wire. Each method returns `Option<Self::Output>`: `None` continues the
/// decode, and `Some` stops it and makes [`ResolveHostnameReply::drive`]
/// return that value; a later call continues after the item.
///
/// Each method adds its call, the item and the value that it returns, to the
/// record [`seen`](ReplyVisitor::seen). That record is how the contract of
/// [`ResolveHostnameReply::drive`] says which calls a visitor receives. A
/// visitor that is verified defines `seen`; each method must then keep it,
/// which the empty default record cannot do. For that reason no method has a
/// default body.
pub trait ReplyVisitor<'a> {
    /// The value that a method returns when it stops the decode.
    type Output;

    /// The calls that this visitor received, in order: each item and the
    /// value that its call returned.
    closed spec fn seen(&self) -> Seq<(ReplyItem<'a>, Option<Self::Output>)> {
        Seq::empty()
    }

    /// `parameters.name`, with at least one escape sequence.
    fn escape_name(&mut self, name: EscapeString<'a>) -> (output: Option<Self::Output>)
        ensures
            final(self).seen() == old(self).seen().push((ReplyItem::EscapeName(name), output)),
    ;

    /// A complete entry of the `parameters.addresses` array.
    fn address(&mut self, address: ResolvedAddress) -> (output: Option<Self::Output>)
        ensures
            final(self).seen() == old(self).seen().push((ReplyItem::Address(address), output)),
    ;

    /// A Varlink method error name, such as
    /// `io.systemd.Resolve.NoSuchResourceRecord`. A reply that causes this
    /// call is an answer and is not malformed.
    fn error(&mut self, name: &'a str) -> (output: Option<Self::Output>)
        ensures
            final(self).seen() == old(self).seen().push((ReplyItem::Error(name), output)),
    ;

    /// `parameters.name`, the canonical name, with no escape sequence.
    fn name(&mut self, name: &'a str) -> (output: Option<Self::Output>)
        ensures
            final(self).seen() == old(self).seen().push((ReplyItem::Name(name), output)),
    ;

    /// `parameters.flags`, the lookup flags, in the form that the reply used.
    fn flags(&mut self, flags: u64) -> (output: Option<Self::Output>)
        ensures
            final(self).seen() == old(self).seen().push((ReplyItem::Flags(flags), output)),
    ;
}

/// Whether `calls` is `before` followed by one call for each of `items`, in
/// order, each through the method of the item's kind and with the item that
/// `items` locates in `bytes`.
pub open spec fn replied<'a, O>(
    before: Seq<(ReplyItem<'a>, Option<O>)>,
    calls: Seq<(ReplyItem<'a>, Option<O>)>,
    bytes: Seq<u8>,
    items: Seq<ItemView>,
) -> bool {
    &&& calls.len() == before.len() + items.len()
    &&& calls.take(before.len() as int) == before
    &&& forall|k: int|
        0 <= k < items.len() ==> item_matches(calls[before.len() + k].0, bytes, #[trigger] items[k])
}

/// Adding a call for one more item keeps the record of the reported items.
proof fn lemma_replied_push<'a, O>(
    before: Seq<(ReplyItem<'a>, Option<O>)>,
    calls: Seq<(ReplyItem<'a>, Option<O>)>,
    bytes: Seq<u8>,
    items: Seq<ItemView>,
    item: ReplyItem<'a>,
    output: Option<O>,
    view: ItemView,
)
    requires
        replied(before, calls, bytes, items),
        item_matches(item, bytes, view),
    ensures
        replied(before, calls.push((item, output)), bytes, items.push(view)),
{
    let pushed = calls.push((item, output));
    assert(pushed.take(before.len() as int) =~= calls.take(before.len() as int));
    assert forall|k: int| 0 <= k < items.len() + 1 implies item_matches(
        pushed[before.len() + k].0,
        bytes,
        #[trigger] items.push(view)[k],
    ) by {
        if k < items.len() {
            assert(pushed[before.len() + k] == calls[before.len() + k]);
            assert(items.push(view)[k] == items[k]);
        }
    }
}

/// One address from a `ResolveHostname` reply, stored inline.
///
/// The bytes are in a buffer of fixed size inside this value; the bytes after
/// the length are zero.
#[derive(Clone, Copy, Debug, PartialEq, Eq)]
pub struct ResolvedAddress {
    ifindex: i32,
    family: i32,
    octets: [u8; 16],
    length: u8,
}

impl View for ResolvedAddress {
    type V = AddressView;

    closed spec fn view(&self) -> AddressView {
        AddressView {
            ifindex: self.ifindex,
            family: self.family,
            octets: self.octets@.take(self.length as int),
        }
    }
}

impl ResolvedAddress {
    /// The length stays within the buffer, and the bytes after it are zero.
    #[verifier::type_invariant]
    spec fn inline_bytes(self) -> bool {
        &&& self.length <= MAX_ADDRESS_BYTES
        &&& forall|k: int| self.length <= k < 16 ==> self.octets@[k] == 0
    }

    /// The interface index, or `0` if the reply omitted `ifindex`.
    pub fn ifindex(&self) -> (ifindex: i32)
        ensures
            ifindex == self@.ifindex,
    {
        self.ifindex
    }

    /// The raw `family` value, in the form that the reply used.
    pub fn family(&self) -> (family: i32)
        ensures
            family == self@.family,
    {
        self.family
    }

    /// The address bytes, as many as the reply contained.
    pub fn octets(&self) -> (octets: &[u8])
        ensures
            octets@ == self@.octets,
            octets@.len() <= MAX_ADDRESS_BYTES,
    {
        proof {
            use_type_invariant(self);
        }
        let length = self.length as usize;
        let (octets, _) = self.octets.as_slice().split_at(length);
        octets
    }
}

/// The reason why the decoder rejected a reply.
#[derive(Clone, Copy, Debug, PartialEq, Eq, Structural)]
#[non_exhaustive]
pub enum ReplyErrorKind {
    /// The text was not well-formed JSON.
    Json,
    /// A value had the wrong JSON type for its position in the schema.
    UnexpectedType,
    /// An integer was too large for the field that named it.
    NumberOutOfRange,
    /// An address contained more bytes than any address family uses.
    AddressTooLong,
    /// The reply contained neither `error` nor `parameters.addresses`.
    MissingMember,
    /// The nesting was deeper than [`MAX_DEPTH`].
    DepthExceeded,
    /// An escape sequence occurred where the schema does not permit one.
    UnexpectedEscape,
}

/// The stable description of each kind of rejection.
pub open spec fn reply_kind_description(kind: ReplyErrorKind) -> Seq<char> {
    match kind {
        ReplyErrorKind::Json => "the reply was not well-formed JSON"@,
        ReplyErrorKind::UnexpectedType => "a reply member had the wrong JSON type"@,
        ReplyErrorKind::NumberOutOfRange => "a reply integer was out of range"@,
        ReplyErrorKind::AddressTooLong => "an address held more than 16 bytes"@,
        ReplyErrorKind::MissingMember => "the reply was missing a required member"@,
        ReplyErrorKind::DepthExceeded => "the reply nested too deeply"@,
        ReplyErrorKind::UnexpectedEscape => "a reply string contained an escape sequence"@,
    }
}

impl ReplyErrorKind {
    /// Returns a short, stable description of this error kind.
    fn as_str(self) -> (text: &'static str)
        ensures
            text@ == reply_kind_description(self),
    {
        match self {
            ReplyErrorKind::Json => "the reply was not well-formed JSON",
            ReplyErrorKind::UnexpectedType => "a reply member had the wrong JSON type",
            ReplyErrorKind::NumberOutOfRange => "a reply integer was out of range",
            ReplyErrorKind::AddressTooLong => "an address held more than 16 bytes",
            ReplyErrorKind::MissingMember => "the reply was missing a required member",
            ReplyErrorKind::DepthExceeded => "the reply nested too deeply",
            ReplyErrorKind::UnexpectedEscape => "a reply string contained an escape sequence",
        }
    }

    /// The description of this kind, as text.
    pub fn to_string(self) -> (text: String)
        ensures
            text@ == reply_kind_description(self),
    {
        String::from_str(self.as_str())
    }
}

/// A rejected reply, with the byte offset of the rejection.
#[derive(Clone, Copy, Debug, PartialEq, Eq, Structural)]
pub struct ReplyError {
    kind: ReplyErrorKind,
    offset: usize,
}

impl View for ReplyError {
    type V = (ReplyErrorKind, int);

    closed spec fn view(&self) -> (ReplyErrorKind, int) {
        (self.kind, self.offset as int)
    }
}

impl ReplyError {
    /// Makes an error of `kind` at `offset`.
    fn new(kind: ReplyErrorKind, offset: usize) -> (error: Self)
        ensures
            error@ == (kind, offset as int),
    {
        Self { kind, offset }
    }

    /// Converts a failure of the tokenizer and keeps the offset that the
    /// tokenizer reported.
    fn from_json(error: Error) -> (converted: Self)
        ensures
            converted@ == (ReplyErrorKind::Json, error.spec_offset() as int),
    {
        Self::new(ReplyErrorKind::Json, error.offset())
    }

    /// Returns the reason why the decoder rejected the reply.
    pub fn kind(&self) -> (kind: ReplyErrorKind)
        ensures
            kind == self@.0,
    {
        self.kind
    }

    /// Returns the byte offset at which the reply was rejected.
    pub fn offset(&self) -> (offset: usize)
        ensures
            offset == self@.1,
    {
        self.offset
    }

    /// Describes the error as "KIND at byte OFFSET".
    pub fn to_string(&self) -> (text: String)
        ensures
            text@ == reply_kind_description(self@.0) + " at byte "@ + decimal(self@.1 as nat),
    {
        let mut text = String::from_str(self.kind.as_str());
        text.append(" at byte ");
        let number = usize_text(self.offset);
        text.append(number.as_str());
        text
    }
}

// ---------------------------------------------------------------------------
// Numbers
// ---------------------------------------------------------------------------

/// A prefix of a sequence of digits has no greater value, and appending a
/// digit multiplies the value by ten and adds the digit.
proof fn lemma_digits_prefix(digits: Seq<u8>, count: int)
    requires
        0 <= count <= digits.len(),
        forall|k: int| 0 <= k < digits.len() ==> is_ascii_digit(#[trigger] digits[k]),
    ensures
        0 <= digits_value(digits.take(count)) <= digits_value(digits),
    decreases digits.len(),
{
    if count == digits.len() {
        assert(digits.take(count) =~= digits);
        lemma_digits_nonnegative(digits);
    } else {
        lemma_digits_prefix(digits.drop_last(), count);
        assert(digits.drop_last().take(count) =~= digits.take(count));
        lemma_digits_nonnegative(digits.drop_last());
    }
}

proof fn lemma_digits_nonnegative(digits: Seq<u8>)
    requires
        forall|k: int| 0 <= k < digits.len() ==> is_ascii_digit(#[trigger] digits[k]),
    ensures
        digits_value(digits) >= 0,
    decreases digits.len(),
{
    if digits.len() > 0 {
        lemma_digits_nonnegative(digits.drop_last());
    }
}

/// Reads an optional sign and at least one decimal digit, as Rust's integer
/// parsing does, into an `i128`. Returns `None` for other text and for a value
/// outside of `i128`.
fn parse_i128(text: &[u8]) -> (value: Option<i128>)
    ensures
        match value {
            Some(value) => parsed_integer(text@) == Some(value as int),
            None => match parsed_integer(text@) {
                Some(value) => !(i128::MIN <= value <= i128::MAX),
                None => true,
            },
        },
{
    let length = text.len();
    let signed = length > 0 && (text[0] == 0x2b || text[0] == 0x2d);
    let negative = signed && text[0] == 0x2d;
    let start: usize = if signed {
        1
    } else {
        0
    };
    let ghost digits = integer_digits(text@);
    assert(signed == integer_signed(text@));
    assert(digits =~= text@.subrange(start as int, length as int));
    if start == length {
        return None;
    }
    // 2^127, the magnitude of `i128::MIN`.
    let limit: u128 = 0x8000_0000_0000_0000_0000_0000_0000_0000;
    let mut magnitude: u128 = 0;
    let mut index: usize = start;
    while index < length
        invariant
            start <= index <= length,
            length == text@.len(),
            start == (if integer_signed(text@) {
                1int
            } else {
                0int
            }),
            digits == integer_digits(text@),
            digits =~= text@.subrange(start as int, length as int),
            digits.len() > 0,
            magnitude as int == digits_value(digits.take(index - start)),
            magnitude <= limit,
            limit == 0x8000_0000_0000_0000_0000_0000_0000_0000u128,
            forall|k: int| 0 <= k < index - start ==> is_ascii_digit(#[trigger] digits[k]),
        decreases length - index,
    {
        let byte = text[index];
        if byte < 0x30 || byte > 0x39 {
            assert(!is_ascii_digit(digits[index - start]));
            return None;
        }
    let digit = (byte - 0x30) as u128;
        assert(digits.take(index - start + 1).drop_last() =~= digits.take(index - start));
        if magnitude > 17014118346046923173168730371588410572 || (magnitude
            == 17014118346046923173168730371588410572 && digit > 8) {
            proof {
                if forall|k: int| 0 <= k < digits.len() ==> is_ascii_digit(#[trigger] digits[k]) {
                    lemma_digits_prefix(digits, index - start + 1);
                }
            }
            return None;
        }
        magnitude = magnitude * 10 + digit;
        index = index + 1;
    }
    assert(digits.take(digits.len() as int) =~= digits);
    if negative {
        if magnitude == limit {
            Some(i128::MIN)
        } else {
            Some(-(magnitude as i128))
        }
    } else if magnitude > 0x7fff_ffff_ffff_ffff_ffff_ffff_ffff_ffff {
        None
    } else {
        Some(magnitude as i128)
    }
}

/// Reads a JSON number for which the schema declares an integer.
///
/// `2.0` and `2e0` name the same value as `2`, but the schema declares these
/// members as integers, thus a fraction or an exponent is the wrong type. The
/// value is read as an `i128` first, thus the range check belongs to the field
/// and not to the parser.
fn integer(text: &str) -> (value: Result<i128, ReplyErrorKind>)
    ensures
        match value {
            Ok(value) => json_integer(text.spec_bytes()) == Ok::<int, ReplyErrorKind>(value as int),
            Err(kind) => json_integer(text.spec_bytes()) == Err::<int, ReplyErrorKind>(kind),
        },
{
    let bytes = text.as_bytes();
    let mut index: usize = 0;
    while index < bytes.len()
        invariant
            index <= bytes@.len(),
            bytes@ == text.spec_bytes(),
            forall|k: int| 0 <= k < index ==> !is_fraction_or_exponent(#[trigger] bytes@[k]),
        decreases bytes@.len() - index,
    {
        let byte = bytes[index];
        if byte == 0x2e || byte == 0x65 || byte == 0x45 {
            assert(is_fraction_or_exponent(bytes@[index as int]));
            return Err(ReplyErrorKind::UnexpectedType);
        }
        index = index + 1;
    }
    assert(!has_fraction_or_exponent(bytes@));
    match parse_i128(bytes) {
        Some(value) => Ok(value),
        None => Err(ReplyErrorKind::NumberOutOfRange),
    }
}

/// Reads a JSON number that must fit into an `i32`.
fn integer_i32(text: &str) -> (value: Result<i32, ReplyErrorKind>)
    ensures
        match value {
            Ok(value) => integer_in(text.spec_bytes(), i32::MIN as int, i32::MAX as int) == Ok::<
                int,
                ReplyErrorKind,
            >(value as int),
            Err(kind) => integer_in(text.spec_bytes(), i32::MIN as int, i32::MAX as int) == Err::<
                int,
                ReplyErrorKind,
            >(kind),
        },
{
    let value = match integer(text) {
        Ok(value) => value,
        Err(kind) => return Err(kind),
    };
    if value < -2147483648 || value > 2147483647 {
        Err(ReplyErrorKind::NumberOutOfRange)
    } else {
        Ok(value as i32)
    }
}


// ---------------------------------------------------------------------------
// The state machine
// ---------------------------------------------------------------------------

/// One item that the decoder reports, in the order of the items on the wire.
/// Text borrows from the reply.
#[derive(Clone, Copy, Debug, PartialEq, Eq)]
pub enum ReplyItem<'a> {
    Address(ResolvedAddress),
    Error(&'a str),
    Name(&'a str),
    EscapeName(EscapeString<'a>),
    Flags(u64),
}

/// Whether `item` is the item that `view` locates in `bytes`.
pub open spec fn item_matches(item: ReplyItem, bytes: Seq<u8>, view: ItemView) -> bool {
    match view {
        ItemView::Address(address) => item matches ReplyItem::Address(found) && found@ == address,
        ItemView::Error { start, end } => item matches ReplyItem::Error(text) && text.spec_bytes()
            == bytes.subrange(start, end),
        ItemView::Name { start, end } => item matches ReplyItem::Name(text) && text.spec_bytes()
            == bytes.subrange(start, end),
        ItemView::EscapeName { start, end } => item matches ReplyItem::EscapeName(text)
            && text.raw_bytes() == bytes.subrange(start, end),
        ItemView::Flags(flags) => item == ReplyItem::Flags(flags),
    }
}

/// What the decoder did with one token.
enum Outcome<'a> {
    Continue,
    Report(ReplyItem<'a>),
    Reject(ReplyErrorKind),
}

/// Whether a handler that returns only a rejection did what `reaction` says,
/// leaving the decoder in `after`. A rejection leaves the pending address as
/// it was in `before`.
spec fn reacted(
    reaction: Reaction,
    result: Option<ReplyErrorKind>,
    before: DecoderView,
    after: DecoderView,
) -> bool {
    match reaction {
        Reaction::Continue(next) => result is None && after == next,
        Reaction::Report(_, _) => false,
        Reaction::Reject(kind) => result == Some(kind) && after.pending == before.pending,
    }
}

/// Whether a handler did what `reaction` says, leaving the decoder in
/// `after`.
spec fn outcome_fits(reaction: Reaction, outcome: Outcome, after: DecoderView, bytes: Seq<u8>) -> bool {
    match reaction {
        Reaction::Continue(next) => outcome is Continue && after == next,
        Reaction::Report(next, item) => outcome matches Outcome::Report(found) && item_matches(
            found,
            bytes,
            item,
        ) && after == next,
        Reaction::Reject(kind) => outcome matches Outcome::Reject(found) && found == kind,
    }
}

/// The members of one address entry, collected as they arrive.
#[derive(Clone, Copy, Debug)]
struct PendingAddress {
    ifindex: Option<i32>,
    family: Option<i32>,
    octets: [u8; 16],
    length: u8,
    /// Whether an `address` array occurred. An empty array is present, and
    /// "present but empty" is different from "absent".
    has_octets: bool,
}

impl PendingAddress {
    spec fn spec_view(&self) -> PendingView {
        PendingView {
            ifindex: self.ifindex,
            family: self.family,
            octets: self.octets@.take(self.length as int),
            has_octets: self.has_octets,
        }
    }

    /// The length stays within the buffer, and the bytes after it are zero.
    spec fn wf(&self) -> bool {
        &&& self.length <= MAX_ADDRESS_BYTES
        &&& forall|k: int| self.length <= k < 16 ==> self.octets@[k] == 0
    }

    /// An entry with no decoded member.
    fn empty() -> (pending: Self)
        ensures
            pending.spec_view() == empty_pending(),
            pending.wf(),
    {
        let pending = Self {
            ifindex: None,
            family: None,
            octets: [0u8; 16],
            length: 0,
            has_octets: false,
        };
        assert(pending.spec_view().octets =~= Seq::<u8>::empty());
        pending
    }
}

/// The name of an object member, in either of its two forms.
enum MemberName<'a> {
    Plain(&'a str),
    Escaped(EscapeString<'a>),
}

/// Whether two texts have the same bytes.
fn text_is(text: &str, candidate: &str) -> (equal: bool)
    ensures
        equal == (text.spec_bytes() == candidate.spec_bytes()),
{
    let left = text.as_bytes();
    let right = candidate.as_bytes();
    if left.len() != right.len() {
        return false;
    }
    let mut index: usize = 0;
    while index < left.len()
        invariant
            index <= left@.len(),
            left@.len() == right@.len(),
            left@ == text.spec_bytes(),
            right@ == candidate.spec_bytes(),
            left@.take(index as int) == right@.take(index as int),
        decreases left@.len() - index,
    {
        if left[index] != right[index] {
            assert(left@.take(index + 1)[index as int] != right@.take(index + 1)[index as int]);
            assert(left@[index as int] != right@[index as int]);
            return false;
        }
        assert(left@.take(index + 1) =~= right@.take(index + 1));
        index = index + 1;
    }
    assert(left@ =~= left@.take(index as int));
    assert(right@ =~= right@.take(index as int));
    true
}

impl<'a> MemberName<'a> {
    /// Whether the name is `candidate`. An escaped name is compared after its
    /// escape sequences are decoded, and without a buffer.
    fn is(&self, candidate: &str) -> (equal: bool)
        ensures
            match self {
                MemberName::Plain(text) => equal == (text.spec_bytes() == candidate.spec_bytes()),
                MemberName::Escaped(text) => equal == (unescaped(text.raw_bytes()) == (
                    candidate@,
                    None::<Error>,
                )),
            },
    {
        match self {
            MemberName::Plain(text) => text_is(text, candidate),
            MemberName::Escaped(text) => text.eq_unescaped(candidate),
        }
    }
}

/// Whether `name` is the member name at `start..end` of `bytes`.
spec fn member_located(name: MemberName, bytes: Seq<u8>, start: int, end: int, escaped: bool) -> bool {
    match name {
        MemberName::Plain(text) => !escaped && text.spec_bytes() == bytes.subrange(start, end),
        MemberName::Escaped(text) => escaped && text.raw_bytes() == bytes.subrange(start, end),
    }
}

/// The reply state machine.
///
/// The decoder reads one token at a time, never recurses, and keeps
/// counters and not a stack: the skip logic is a state and a counter, thus
/// malformed input cannot increase the stack.
#[derive(Clone, Copy, Debug)]
struct Decoder {
    state: ReplyState,
    /// How many containers of a discarded value are open.
    skip_depth: usize,
    /// The state to return to after a discarded value is complete.
    skip_resume: ReplyState,
    /// How many containers are open.
    depth: usize,
    address: PendingAddress,
    /// Whether a top-level `error` member occurred.
    seen_error: bool,
    /// Whether a `parameters.addresses` array occurred, empty or not.
    seen_addresses: bool,
}

impl Decoder {
    spec fn spec_view(&self) -> DecoderView {
        DecoderView {
            state: self.state,
            skip_depth: self.skip_depth as nat,
            skip_resume: self.skip_resume,
            depth: self.depth as nat,
            pending: self.address.spec_view(),
            seen_error: self.seen_error,
            seen_addresses: self.seen_addresses,
        }
    }

    spec fn wf(&self) -> bool {
        &&& decoder_wf(self.spec_view())
        &&& self.address.wf()
    }

    /// A decoder that has read nothing.
    fn new() -> (decoder: Self)
        ensures
            decoder.spec_view() == initial_decoder(),
            decoder.wf(),
    {
        Self {
            state: ReplyState::Start,
            skip_depth: 0,
            skip_resume: ReplyState::Reply,
            depth: 0,
            address: PendingAddress::empty(),
            seen_error: false,
            seen_addresses: false,
        }
    }

    /// Counts an opened container and applies [`MAX_DEPTH`]. This runs before
    /// each state, also the state that discards an unknown member.
    fn open(&mut self) -> (exceeded: Option<ReplyErrorKind>)
        requires
            old(self).wf(),
        ensures
            final(self).address == old(self).address,
            old(self).depth + 1 > MAX_DEPTH ==> exceeded == Some(ReplyErrorKind::DepthExceeded),
            old(self).depth + 1 <= MAX_DEPTH ==> exceeded is None && final(self).spec_view() == (
            DecoderView { depth: (old(self).depth + 1) as nat, ..old(self).spec_view() }),
    {
        if self.depth >= MAX_DEPTH {
            return Some(ReplyErrorKind::DepthExceeded);
        }
        self.depth = self.depth + 1;
        None
    }

    /// Counts a closed container.
    fn close(&mut self)
        ensures
            final(self).spec_view() == closed(old(self).spec_view()),
            final(self).address == old(self).address,
    {
        if self.depth > 0 {
            self.depth = self.depth - 1;
        }
    }

    /// Starts to discard the value that follows an unrecognized member name.
    fn begin_skip(&mut self, resume: ReplyState)
        ensures
            final(self).spec_view() == begin_skip(old(self).spec_view(), resume),
            final(self).address == old(self).address,
    {
        self.skip_resume = resume;
        self.skip_depth = 0;
        self.state = ReplyState::Skip;
    }

    /// Leaves the skip state after the discarded value is complete: a scalar
    /// is complete when it arrives, a container when its last closing token
    /// returns the counter to zero.
    fn end_skipped_value(&mut self)
        ensures
            final(self).spec_view() == end_skipped_value(old(self).spec_view()),
            final(self).address == old(self).address,
    {
        if self.skip_depth == 0 {
            self.state = self.skip_resume;
        }
    }

    /// Closes one container of a discarded value.
    fn close_skipped(&mut self)
        ensures
            final(self).spec_view() == close_skipped(old(self).spec_view()),
            final(self).address == old(self).address,
    {
        if self.skip_depth > 0 {
            self.skip_depth = self.skip_depth - 1;
        }
        self.end_skipped_value();
    }

    /// Accepts a scalar that no member of the schema claims, which is legal
    /// only during the discard of a value.
    fn discard_scalar(&mut self) -> (rejected: Option<ReplyErrorKind>)
        ensures
            reacted(scalar_reaction(old(self).spec_view()), rejected, old(self).spec_view(), final(self).spec_view()),
            final(self).address == old(self).address,
    {
        if self.state == ReplyState::Skip {
            self.end_skipped_value();
            None
        } else {
            Some(ReplyErrorKind::UnexpectedType)
        }
    }

    /// Processes a `{`.
    fn object_start(&mut self) -> (rejected: Option<ReplyErrorKind>)
        requires
            old(self).wf(),
        ensures
            reacted(object_start_reaction(old(self).spec_view()), rejected, old(self).spec_view(), final(self).spec_view()),
            final(self).address.wf(),
    {
        if let Some(kind) = self.open() {
            return Some(kind);
        }
        match self.state {
            ReplyState::Start => self.state = ReplyState::Reply,
            ReplyState::ReplyParameters => self.state = ReplyState::Parameters,
            ReplyState::Addresses => {
                self.address = PendingAddress::empty();
                self.state = ReplyState::Address;
            },
            ReplyState::Skip => self.skip_depth = self.skip_depth + 1,
            _ => return Some(ReplyErrorKind::UnexpectedType),
        }
        None
    }

    /// Processes a `[`.
    fn array_start(&mut self) -> (rejected: Option<ReplyErrorKind>)
        requires
            old(self).wf(),
        ensures
            reacted(array_start_reaction(old(self).spec_view()), rejected, old(self).spec_view(), final(self).spec_view()),
            final(self).address.wf(),
    {
        if let Some(kind) = self.open() {
            return Some(kind);
        }
        match self.state {
            ReplyState::ParametersAddresses => {
                // An empty `addresses` array is a real answer of "no
                // addresses", thus the array counts at its `[`.
                self.seen_addresses = true;
                self.state = ReplyState::Addresses;
            },
            ReplyState::AddressOctetsStart => {
                // Clear the full buffer and not only the length: a repeated
                // `address` member leaves no old bytes behind.
                self.address.octets = [0u8; 16];
                self.address.length = 0;
                self.address.has_octets = true;
                self.state = ReplyState::AddressOctets;
                assert(self.address.spec_view().octets =~= Seq::<u8>::empty());
            },
            ReplyState::Skip => self.skip_depth = self.skip_depth + 1,
            _ => return Some(ReplyErrorKind::UnexpectedType),
        }
        None
    }

    /// Processes a `]`.
    fn array_end(&mut self) -> (rejected: Option<ReplyErrorKind>)
        requires
            old(self).wf(),
        ensures
            reacted(array_end_reaction(old(self).spec_view()), rejected, old(self).spec_view(), final(self).spec_view()),
            final(self).address == old(self).address,
    {
        self.close();
        match self.state {
            ReplyState::Addresses => self.state = ReplyState::Parameters,
            ReplyState::AddressOctets => self.state = ReplyState::Address,
            ReplyState::Skip => self.close_skipped(),
            _ => return Some(ReplyErrorKind::UnexpectedType),
        }
        None
    }

    /// Records one byte of the `address` array.
    fn push_octet(&mut self, text: &str) -> (rejected: Option<ReplyErrorKind>)
        requires
            old(self).wf(),
            old(self).state == ReplyState::AddressOctets,
        ensures
            reacted(
                number_reaction(old(self).spec_view(), text.spec_bytes()),
                rejected,
                old(self).spec_view(),
                final(self).spec_view(),
            ),
            final(self).address.wf(),
    {
        let length = self.address.length as usize;
        if length >= MAX_ADDRESS_BYTES {
            return Some(ReplyErrorKind::AddressTooLong);
        }
        let value = match integer(text) {
            Ok(value) => value,
            Err(kind) => return Some(kind),
        };
        if value < 0 || value > 255 {
            return Some(ReplyErrorKind::NumberOutOfRange);
        }
        let ghost before = self.address.octets@;
        self.address.octets[length] = value as u8;
        self.address.length = self.address.length + 1;
        assert(self.address.octets@.take(length + 1) =~= before.take(length as int).push(
            value as u8,
        ));
        None
    }

    /// Processes a number that belongs to an address entry, or to a value
    /// that is being discarded. `parameters.flags` goes to the caller and is
    /// not handled here.
    fn number(&mut self, text: &str) -> (rejected: Option<ReplyErrorKind>)
        requires
            old(self).wf(),
            old(self).state != ReplyState::ParametersFlags,
        ensures
            reacted(
                number_reaction(old(self).spec_view(), text.spec_bytes()),
                rejected,
                old(self).spec_view(),
                final(self).spec_view(),
            ),
            final(self).address.wf(),
    {
        match self.state {
            ReplyState::AddressIfindex => match integer_i32(text) {
                Ok(value) => {
                    self.address.ifindex = Some(value);
                    self.state = ReplyState::Address;
                    None
                },
                Err(kind) => Some(kind),
            },
            ReplyState::AddressFamily => match integer_i32(text) {
                Ok(value) => {
                    self.address.family = Some(value);
                    self.state = ReplyState::Address;
                    None
                },
                Err(kind) => Some(kind),
            },
            ReplyState::AddressOctets => self.push_octet(text),
            ReplyState::Skip => {
                self.end_skipped_value();
                None
            },
            _ => Some(ReplyErrorKind::UnexpectedType),
        }
    }

    /// Processes an object member name in either of its two forms.
    fn member<'a>(
        &mut self,
        name: MemberName<'a>,
        Ghost(bytes): Ghost<Seq<u8>>,
        Ghost(start): Ghost<int>,
        Ghost(end): Ghost<int>,
        Ghost(escaped): Ghost<bool>,
    ) -> (rejected: Option<ReplyErrorKind>)
        requires
            member_located(name, bytes, start, end, escaped),
        ensures
            reacted(
                key_reaction(old(self).spec_view(), bytes, start, end, escaped),
                rejected,
                old(self).spec_view(),
                final(self).spec_view(),
            ),
            final(self).address == old(self).address,
    {
        proof {
            reveal_strlit("error");
            reveal_strlit("parameters");
            reveal_strlit("addresses");
            reveal_strlit("name");
            reveal_strlit("flags");
            reveal_strlit("ifindex");
            reveal_strlit("family");
            reveal_strlit("address");
            assert("error"@ =~= word_error());
            assert("parameters"@ =~= word_parameters());
            assert("addresses"@ =~= word_addresses());
            assert("name"@ =~= word_name());
            assert("flags"@ =~= word_flags());
            assert("ifindex"@ =~= word_ifindex());
            assert("family"@ =~= word_family());
            assert("address"@ =~= word_address());
        }
        match self.state {
            ReplyState::Reply => {
                if name.is("error") {
                    self.state = ReplyState::ReplyError;
                } else if name.is("parameters") {
                    self.state = ReplyState::ReplyParameters;
                } else {
                    self.begin_skip(ReplyState::Reply);
                }
            },
            ReplyState::Parameters => {
                if name.is("addresses") {
                    self.state = ReplyState::ParametersAddresses;
                } else if name.is("name") {
                    self.state = ReplyState::ParametersName;
                } else if name.is("flags") {
                    self.state = ReplyState::ParametersFlags;
                } else {
                    self.begin_skip(ReplyState::Parameters);
                }
            },
            ReplyState::Address => {
                if name.is("ifindex") {
                    self.state = ReplyState::AddressIfindex;
                } else if name.is("family") {
                    self.state = ReplyState::AddressFamily;
                } else if name.is("address") {
                    self.state = ReplyState::AddressOctetsStart;
                } else {
                    self.begin_skip(ReplyState::Address);
                }
            },
            // A member name inside a discarded object says nothing about the
            // schema.
            ReplyState::Skip => {},
            _ => return Some(ReplyErrorKind::UnexpectedType),
        }
        None
    }

    /// Completes the address entry whose object closed.
    fn take_address(&self) -> (address: Result<ResolvedAddress, ReplyErrorKind>)
        requires
            self.address.wf(),
        ensures
            match completed_address(self.address.spec_view()) {
                Some(expected) => address matches Ok(found) && found@ == expected,
                None => address == Err::<ResolvedAddress, ReplyErrorKind>(
                    ReplyErrorKind::MissingMember,
                ),
            },
    {
        let family = match self.address.family {
            Some(family) => family,
            None => return Err(ReplyErrorKind::MissingMember),
        };
        if !self.address.has_octets {
            return Err(ReplyErrorKind::MissingMember);
        }
        // An absent `ifindex` becomes 0 and is not an error.
        let ifindex = match self.address.ifindex {
            Some(ifindex) => ifindex,
            None => 0,
        };
        Ok(
            ResolvedAddress {
                ifindex,
                family,
                octets: self.address.octets,
                length: self.address.length,
            },
        )
    }

    /// Processes a `}`. An address entry is complete only when its object
    /// closes, because its members can arrive in any order.
    fn object_end<'a>(&mut self) -> (outcome: Outcome<'a>)
        requires
            old(self).wf(),
        ensures
            outcome_fits(
                object_end_reaction(old(self).spec_view()),
                outcome,
                final(self).spec_view(),
                Seq::empty(),
            ),
            final(self).address == old(self).address,
    {
        self.close();
        match self.state {
            ReplyState::Reply => self.state = ReplyState::Complete,
            ReplyState::Parameters => self.state = ReplyState::Reply,
            ReplyState::Address => {
                self.state = ReplyState::Addresses;
                return match self.take_address() {
                    Ok(address) => Outcome::Report(ReplyItem::Address(address)),
                    Err(kind) => Outcome::Reject(kind),
                };
            },
            ReplyState::Skip => self.close_skipped(),
            _ => return Outcome::Reject(ReplyErrorKind::UnexpectedType),
        }
        Outcome::Continue
    }

    /// Processes a plain string value.
    fn string<'a>(
        &mut self,
        value: &'a str,
        Ghost(bytes): Ghost<Seq<u8>>,
        Ghost(start): Ghost<int>,
        Ghost(end): Ghost<int>,
    ) -> (outcome: Outcome<'a>)
        requires
            value.spec_bytes() == bytes.subrange(start, end),
        ensures
            outcome_fits(
                string_reaction(old(self).spec_view(), start, end, false),
                outcome,
                final(self).spec_view(),
                bytes,
            ),
            final(self).address == old(self).address,
    {
        match self.state {
            ReplyState::ReplyError => {
                self.seen_error = true;
                self.state = ReplyState::Reply;
                Outcome::Report(ReplyItem::Error(value))
            },
            ReplyState::ParametersName => {
                self.state = ReplyState::Parameters;
                Outcome::Report(ReplyItem::Name(value))
            },
            ReplyState::Skip => {
                self.end_skipped_value();
                Outcome::Continue
            },
            _ => Outcome::Reject(ReplyErrorKind::UnexpectedType),
        }
    }

    /// Processes a string value with at least one escape sequence.
    fn escape_string<'a>(
        &mut self,
        value: EscapeString<'a>,
        Ghost(bytes): Ghost<Seq<u8>>,
        Ghost(start): Ghost<int>,
        Ghost(end): Ghost<int>,
    ) -> (outcome: Outcome<'a>)
        requires
            value.raw_bytes() == bytes.subrange(start, end),
        ensures
            outcome_fits(
                string_reaction(old(self).spec_view(), start, end, true),
                outcome,
                final(self).spec_view(),
                bytes,
            ),
            final(self).address == old(self).address,
    {
        match self.state {
            // A Varlink error name is an interface-qualified identifier: an
            // escape sequence shows a reply that declares an incorrect type.
            ReplyState::ReplyError => Outcome::Reject(ReplyErrorKind::UnexpectedEscape),
            ReplyState::ParametersName => {
                self.state = ReplyState::Parameters;
                Outcome::Report(ReplyItem::EscapeName(value))
            },
            ReplyState::Skip => {
                self.end_skipped_value();
                Outcome::Continue
            },
            _ => Outcome::Reject(ReplyErrorKind::UnexpectedType),
        }
    }

    /// Processes a number. `flags` is the only number that the caller
    /// receives; each other number belongs to an address entry that the
    /// decoder still collects.
    fn number_token<'a>(&mut self, text: &'a str) -> (outcome: Outcome<'a>)
        requires
            old(self).wf(),
        ensures
            outcome_fits(
                number_reaction(old(self).spec_view(), text.spec_bytes()),
                outcome,
                final(self).spec_view(),
                Seq::empty(),
            ),
            final(self).address.wf(),
    {
        if self.state != ReplyState::ParametersFlags {
            return match self.number(text) {
                Some(kind) => Outcome::Reject(kind),
                None => Outcome::Continue,
            };
        }
        self.state = ReplyState::Parameters;
        match integer(text) {
            Ok(value) => if value < 0 || value > 0xffff_ffff_ffff_ffff {
                Outcome::Reject(ReplyErrorKind::NumberOutOfRange)
            } else {
                Outcome::Report(ReplyItem::Flags(value as u64))
            },
            Err(kind) => Outcome::Reject(kind),
        }
    }

    /// Processes one token.
    fn react<'a>(
        &mut self,
        token: Token<'a>,
        Ghost(bytes): Ghost<Seq<u8>>,
        Ghost(view): Ghost<TokenView>,
    ) -> (outcome: Outcome<'a>)
        requires
            old(self).wf(),
            token_matches(token, bytes, view),
        ensures
            outcome_fits(react(old(self).spec_view(), bytes, view), outcome, final(self).spec_view(), bytes),
            !(outcome is Reject) ==> final(self).wf(),
    {
        proof {
            lemma_react_keeps_invariant(self.spec_view(), bytes, view);
            reveal(react);
        }
        match token {
            Token::ObjectStart => match self.object_start() {
                Some(kind) => Outcome::Reject(kind),
                None => Outcome::Continue,
            },
            Token::ObjectEnd => self.object_end(),
            Token::ArrayStart => match self.array_start() {
                Some(kind) => Outcome::Reject(kind),
                None => Outcome::Continue,
            },
            Token::ArrayEnd => match self.array_end() {
                Some(kind) => Outcome::Reject(kind),
                None => Outcome::Continue,
            },
            Token::Key(name) => match self.member(
                MemberName::Plain(name),
                Ghost(bytes),
                Ghost(view->Key_start),
                Ghost(view->Key_end),
                Ghost(false),
            ) {
                Some(kind) => Outcome::Reject(kind),
                None => Outcome::Continue,
            },
            Token::EscapeKey(name) => match self.member(
                MemberName::Escaped(name),
                Ghost(bytes),
                Ghost(view->Key_start),
                Ghost(view->Key_end),
                Ghost(true),
            ) {
                Some(kind) => Outcome::Reject(kind),
                None => Outcome::Continue,
            },
            Token::String(value) => self.string(
                value,
                Ghost(bytes),
                Ghost(view->Str_start),
                Ghost(view->Str_end),
            ),
            Token::EscapeString(value) => self.escape_string(
                value,
                Ghost(bytes),
                Ghost(view->Str_start),
                Ghost(view->Str_end),
            ),
            Token::Number(text) => self.number_token(text),
            Token::Boolean(_) | Token::Null => match self.discard_scalar() {
                Some(kind) => Outcome::Reject(kind),
                None => Outcome::Continue,
            },
        }
    }
}

/// The decoder keeps its invariant: after each token that it does not reject,
/// the nesting stays within [`MAX_DEPTH`], no address holds more than
/// [`MAX_ADDRESS_BYTES`] bytes, and the count of discarded containers agrees
/// with the state.
pub proof fn lemma_react_keeps_invariant(d: DecoderView, bytes: Seq<u8>, token: TokenView)
    requires
        decoder_wf(d),
    ensures
        match react(d, bytes, token) {
            Reaction::Continue(next) => decoder_wf(next),
            Reaction::Report(next, item) => decoder_wf(next) && (item matches ItemView::Address(
                address,
            ) ==> address.octets.len() <= MAX_ADDRESS_BYTES),
            Reaction::Reject(_) => true,
        },
{
    reveal(react);
    match token {
        TokenView::ObjectStart => {},
        TokenView::ObjectEnd => {},
        TokenView::ArrayStart => {},
        TokenView::ArrayEnd => {},
        TokenView::Key { start, end, escaped } => {},
        TokenView::Str { start, end, escaped } => {},
        TokenView::Number { start, end } => {},
        TokenView::Boolean(_) => {},
        TokenView::Null => {},
    }
}

/// A borrowing decoder for a `ResolveHostname` reply. It allocates no memory.
///
/// [`drive`](Self::drive) reads the reply and reports each item to a
/// [`ReplyVisitor`]; [`next_item`](Self::next_item) returns the items one at a
/// time. After the decoder reports a rejection, it is complete: each later
/// call reports completion and does not continue through text that is known
/// to be incorrect.
#[derive(Clone, Debug)]
pub struct ResolveHostnameReply<'a> {
    tokenizer: Tokenizer<'a>,
    decoder: Decoder,
    /// Whether the decode ended, by success or by failure.
    finished: bool,
}

/// The abstract state of a [`ResolveHostnameReply`]: the scanner, the
/// decoder, and whether the decode ended.
pub struct ReplyView {
    pub scan: ScanView,
    pub decoder: DecoderView,
    pub finished: bool,
}

impl<'a> View for ResolveHostnameReply<'a> {
    type V = ReplyView;

    closed spec fn view(&self) -> ReplyView {
        ReplyView {
            scan: self.tokenizer@,
            decoder: self.decoder.spec_view(),
            finished: self.finished,
        }
    }
}

impl<'a> ResolveHostnameReply<'a> {
    /// The bytes of the reply.
    pub closed spec fn bytes(&self) -> Seq<u8> {
        self.tokenizer.bytes()
    }

    /// The invariant of a decode in progress.
    pub closed spec fn wf(&self) -> bool {
        &&& self.tokenizer.wf()
        &&& self.tokenizer@.failure is None
        &&& !self.finished ==> self.decoder.wf()
    }

    /// The items and the verdict of the rest of the decode.
    pub open spec fn remaining(&self) -> ReplyRun {
        reply_walk(self.bytes(), self@.scan, self@.decoder)
    }

    /// Starts a decode of `json`, the body of the frame without its NUL
    /// terminator. The decoder scans nothing until the first call to
    /// [`drive`](Self::drive) or [`next_item`](Self::next_item).
    pub fn new(json: &'a str) -> (reply: Self)
        ensures
            reply.wf(),
            reply.bytes() == json.spec_bytes(),
            reply@ == (ReplyView {
                scan: initial_view(),
                decoder: initial_decoder(),
                finished: false,
            }),
            reply.remaining() == reply_run(json.spec_bytes()),
    {
        Self { tokenizer: Tokenizer::new(json), decoder: Decoder::new(), finished: false }
    }

    /// Reads the reply up to its next item.
    ///
    /// Returns `Ok(Some(item))` for the next item, `Ok(None)` after the
    /// decoder read and accepted the full reply, and the rejection otherwise.
    /// After `Ok(None)` or a rejection, each later call returns `Ok(None)`.
    pub fn next_item(&mut self) -> (item: Result<Option<ReplyItem<'a>>, ReplyError>)
        requires
            old(self).wf(),
        ensures
            final(self).wf(),
            final(self).bytes() == old(self).bytes(),
            old(self)@.finished ==> item == Ok::<Option<ReplyItem<'a>>, ReplyError>(None)
                && final(self)@ == old(self)@,
            !old(self)@.finished ==> match item {
                Ok(Some(found)) => {
                    &&& old(self).remaining().items.len() > 0
                    &&& item_matches(found, old(self).bytes(), old(self).remaining().items[0])
                    &&& !final(self)@.finished
                    &&& final(self).remaining() == (ReplyRun {
                        items: old(self).remaining().items.drop_first(),
                        end: old(self).remaining().end,
                    })
                },
                Ok(None) => {
                    &&& old(self).remaining().items.len() == 0
                    &&& old(self).remaining().end is Ok
                    &&& final(self)@.finished
                },
                Err(error) => {
                    &&& old(self).remaining().items.len() == 0
                    &&& old(self).remaining().end == Err::<(), (ReplyErrorKind, int)>(error@)
                    &&& final(self)@.finished
                },
            },
    {
        if self.finished {
            return Ok(None);
        }
        let ghost bytes = self.bytes();
        let ghost run = self.remaining();
        loop
            invariant
                self.wf(),
                self.bytes() == bytes,
                bytes == old(self).bytes(),
                !self.finished,
                !old(self)@.finished,
                run == old(self).remaining(),
                self.remaining() == run,
            decreases bytes.len() - self.tokenizer@.offset,
        {
            let ghost scan = self.tokenizer@;
            let ghost before = self.decoder.spec_view();
            proof {
                self.tokenizer.lemma_cursor();
                lemma_step_progress(bytes, scan);
                lemma_walk_step(bytes, scan, before);
            }
            match self.tokenizer.step() {
                Step::Emit(token) => {
                    let ghost view = spec_step(bytes, scan)->Emit_1;
                    match self.decoder.react(token, Ghost(bytes), Ghost(view)) {
                        Outcome::Continue => {},
                        Outcome::Report(item) => {
                            proof {
                                let rest = self.remaining();
                                let reported = react(before, bytes, view)->Report_1;
                                assert(run.items =~= seq![reported] + rest.items);
                                assert(run.items.drop_first() =~= rest.items);
                            }
                            return Ok(Some(item));
                        },
                        Outcome::Reject(kind) => {
                            self.finished = true;
                            let offset = self.tokenizer.offset();
                            return Err(ReplyError::new(kind, offset));
                        },
                    }
                },
                // The tokenizer completes only after the top-level value is
                // well formed and only whitespace follows it. The remaining
                // decision is whether the reply answered the request.
                Step::Finish => {
                    self.finished = true;
                    if self.decoder.seen_error || self.decoder.seen_addresses {
                        return Ok(None);
                    }
                    let offset = self.tokenizer.offset();
                    return Err(ReplyError::new(ReplyErrorKind::MissingMember, offset));
                },
                Step::Fail(error) => {
                    self.finished = true;
                    return Err(ReplyError::from_json(error));
                },
            }
        }
    }

    /// Reads the reply and reports each item to `visitor`.
    ///
    /// Returns `Ok(None)` after the decoder read and accepted the full reply,
    /// and `Ok(Some(output))` if a visitor method stopped the decode; a later
    /// call continues after that item.
    ///
    /// # Errors
    ///
    /// Returns a [`ReplyError`] if the text is not well-formed JSON, if it does
    /// not agree with the `ResolveHostname` schema, or if it contains neither
    /// an `error` member nor a `parameters.addresses` member. The rejection is
    /// reported once; after it, each call returns `Ok(None)`.
    pub fn drive<V: ReplyVisitor<'a>>(&mut self, visitor: &mut V) -> (result: Result<
        Option<V::Output>,
        ReplyError,
    >)
        requires
            old(self).wf(),
        ensures
            final(self).wf(),
            final(self).bytes() == old(self).bytes(),
            old(self)@.finished ==> {
                &&& result matches Ok(None)
                &&& final(self)@ == old(self)@
                &&& final(visitor).seen() == old(visitor).seen()
            },
            !old(self)@.finished ==> decoded(
                old(self).bytes(),
                old(self).remaining(),
                final(self).remaining(),
                final(self)@.finished,
                old(visitor).seen(),
                final(visitor).seen(),
                result,
            ),
    {
        if self.finished {
            return Ok(None);
        }
        let ghost bytes = self.bytes();
        let ghost run = self.remaining();
        let ghost before = visitor.seen();
        let ghost mut count: int = 0;
        proof {
            assert(run.items.skip(0) =~= run.items);
            assert(before.take(before.len() as int) =~= before);
            assert(run.items.take(0) =~= Seq::<ItemView>::empty());
        }
        loop
            invariant
                self.wf(),
                self.bytes() == old(self).bytes(),
                self.bytes() == bytes,
                !self.finished,
                !old(self)@.finished,
                run == old(self).remaining(),
                before == old(visitor).seen(),
                0 <= count <= run.items.len(),
                self.remaining() == (ReplyRun { items: run.items.skip(count), end: run.end }),
                replied(before, visitor.seen(), bytes, run.items.take(count)),
                continued(visitor.seen(), before.len() as int, visitor.seen().len() as int),
            decreases run.items.len() - count,
        {
            match self.next_item() {
                Ok(Some(item)) => {
                    let ghost calls = visitor.seen();
                    proof {
                        assert(run.items.skip(count)[0] == run.items[count]);
                        assert(run.items.skip(count).drop_first() =~= run.items.skip(count + 1));
                        assert(run.items.take(count).push(run.items[count]) =~= run.items.take(
                            count + 1,
                        ));
                    }
                    let stop = deliver(visitor, item);
                    proof {
                        lemma_replied_push(
                            before,
                            calls,
                            bytes,
                            run.items.take(count),
                            item,
                            stop,
                            run.items[count],
                        );
                        lemma_continued_push(calls, before.len() as int, (item, stop));
                        count = count + 1;
                    }
                    if stop.is_some() {
                        return Ok(stop);
                    }
                },
                Ok(None) => {
                    assert(run.items.take(count) =~= run.items);
                    return Ok(None);
                },
                Err(error) => {
                    assert(run.items.take(count) =~= run.items);
                    return Err(error);
                },
            }
        }
    }
}

/// What a call of [`ResolveHostnameReply::drive`] did, from the items `run`
/// that remained before it, the items `rest` that remain after it, and the
/// visitor's record before and after it.
///
/// A reply that the decoder accepted or rejected has had each remaining item
/// reported, and each call returned `None`. A stop reported the items up to
/// the first call that returned a value, and returns that value; the decoder
/// stands after that item.
pub open spec fn decoded<'a, O>(
    bytes: Seq<u8>,
    run: ReplyRun,
    rest: ReplyRun,
    finished: bool,
    before: Seq<(ReplyItem<'a>, Option<O>)>,
    after: Seq<(ReplyItem<'a>, Option<O>)>,
    result: Result<Option<O>, ReplyError>,
) -> bool {
    match result {
        Ok(None) => {
            &&& finished
            &&& run.end is Ok
            &&& replied(before, after, bytes, run.items)
            &&& continued(after, before.len() as int, after.len() as int)
        },
        Err(error) => {
            &&& finished
            &&& run.end == Err::<(), (ReplyErrorKind, int)>(error@)
            &&& replied(before, after, bytes, run.items)
            &&& continued(after, before.len() as int, after.len() as int)
        },
        Ok(Some(value)) => {
            let count = after.len() - before.len();
            &&& !finished
            &&& 1 <= count <= run.items.len()
            &&& rest == (ReplyRun { items: run.items.skip(count), end: run.end })
            &&& replied(before, after, bytes, run.items.take(count))
            &&& continued(after, before.len() as int, after.len() - 1)
            &&& after.last().1 == Some(value)
        },
    }
}

/// Calls the method of `visitor` that receives `item`.
fn deliver<'a, V: ReplyVisitor<'a>>(visitor: &mut V, item: ReplyItem<'a>) -> (output: Option<
    V::Output,
>)
    ensures
        final(visitor).seen() == old(visitor).seen().push((item, output)),
{
    match item {
        ReplyItem::Address(address) => visitor.address(address),
        ReplyItem::Error(name) => visitor.error(name),
        ReplyItem::Name(name) => visitor.name(name),
        ReplyItem::EscapeName(name) => visitor.escape_name(name),
        ReplyItem::Flags(flags) => visitor.flags(flags),
    }
}

} // verus!
