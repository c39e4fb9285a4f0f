//! Properties that relate several operations of the library, or hold of every
//! input, stated over the models that the contracts use.

use vstd::prelude::*;
use vstd::string::StringSliceAdditionalSpecFns;
use vstd::utf8::{
    char_u32_cast, decode_first_codepoint, decode_utf8, decode_utf8_first_scalar,
    encode_scalar, encode_utf8, encode_utf8_first_scalar, encode_utf8_valid_utf8,
    length_of_first_codepoint, pop_first_scalar, valid_first_scalar,
    valid_utf8, valid_utf8_concat,
};

use crate::json_error::{group_json_error, Error, ErrorKind};
use crate::resolver::reply_spec::{
    address_member, begin_skip, closed, family_member, ifindex_member, names, object_end_reaction, react_tokens,
    reads_as, with_state, word_address, word_addresses, word_error, word_family, word_flags,
    word_ifindex, word_name, word_parameters, AddressView, PendingView,
    ReplyState, decoder_wf, initial_decoder, lemma_walk_step, react, reply_run, reply_walk, DecoderView,
    ItemView, Reaction, ReplyRun, MAX_ADDRESS_BYTES,
};
use crate::resolver::varlink_reply::{
    MAX_DEPTH, decoded, lemma_react_keeps_invariant, replied, ReplyError, ReplyErrorKind, ReplyItem,
};
use crate::resolver::{decoded_reply, escaped_byte, escaped_json, hex_char};
use crate::tokenizer::{reports, scanned, Token};
use crate::tokenizer_spec::{
    after_separator, at_separator, err_at, is_hex_digit, escape_end, exponent_end, fraction_end, integer_part_end,
    lemma_skip_digits, lemma_skip_ws, lemma_string_end, string_end, at_offset, initial_view, lemma_step_progress, number_end, TokenView, skip_ws, spec_advance, spec_complete, spec_first_tokens,
    spec_step, spec_tokens, ScanState, ScanView, StepView, Walk,
};
use crate::unescape_spec::{
    collected, decode_items, decode_step, fit_count, lemma_decode_items_step, lemma_unescape_items_step,
    unescape_items, hex4, hex_value, lemma_decode_step_rest_valid,
    lemma_decode_step_width, simple_escape, unescape_into_outcome, unescaped, DecodeStep,
};

verus! {

broadcast use group_json_error;

// ---------------------------------------------------------------------------
// The tokenizer
// ---------------------------------------------------------------------------

/// The hexadecimal digits in lower case, each at the index of its value.
pub open spec fn lower_hex_digits() -> Seq<char> {
    seq!['0', '1', '2', '3', '4', '5', '6', '7', '8', '9', 'a', 'b', 'c', 'd', 'e', 'f']
}

/// The hexadecimal digits in upper case, each at the index of its value.
pub open spec fn upper_hex_digits() -> Seq<char> {
    seq!['0', '1', '2', '3', '4', '5', '6', '7', '8', '9', 'A', 'B', 'C', 'D', 'E', 'F']
}

/// Whether `byte` is the hexadecimal digit of `value`, in either case.
pub open spec fn is_digit_of(byte: u8, value: int) -> bool {
    0 <= value < 16 && ((byte as char) == lower_hex_digits()[value] || (byte as char)
        == upper_hex_digits()[value])
}

/// A hexadecimal digit is exactly a byte that writes one of the sixteen
/// digit values, `0`-`9` and then `a`-`f` or `A`-`F`, in either case; and
/// its value is the value that it writes. So case does not matter: `E` and
/// `e` are both the digit fourteen.
pub proof fn law_hex_digits(byte: u8, value: int)
    ensures
        is_hex_digit(byte) <==> exists|v: int| is_digit_of(byte, v),
        is_digit_of(byte, value) ==> is_hex_digit(byte) && hex_value(byte) == value,
{
    let v = if 0x30 <= byte <= 0x39 {
        byte - 0x30
    } else if 0x61 <= byte <= 0x66 {
        byte - 0x61 + 10
    } else {
        byte - 0x41 + 10
    };
    assert(v == 0 || v == 1 || v == 2 || v == 3 || v == 4 || v == 5 || v == 6 || v == 7 || v == 8
        || v == 9 || v == 10 || v == 11 || v == 12 || v == 13 || v == 14 || v == 15 || !is_hex_digit(
        byte,
    ));
    if is_hex_digit(byte) {
        assert(is_digit_of(byte, v));
    }
    if 0 <= value < 16 {
        assert(value == 0 || value == 1 || value == 2 || value == 3 || value == 4 || value == 5
            || value == 6 || value == 7 || value == 8 || value == 9 || value == 10 || value == 11
            || value == 12 || value == 13 || value == 14 || value == 15);
    }
    assert forall|w: int| is_digit_of(byte, w) implies is_hex_digit(byte) by {
        assert(w == 0 || w == 1 || w == 2 || w == 3 || w == 4 || w == 5 || w == 6 || w == 7 || w
            == 8 || w == 9 || w == 10 || w == 11 || w == 12 || w == 13 || w == 14 || w == 15);
    }
}

/// The scanner accepts every `\u` escape of the JSON grammar: a backslash,
/// `u` and four hexadecimal digits in either case end the escape after its
/// sixth byte.
pub proof fn law_unicode_escapes_are_accepted(bytes: Seq<u8>, at: int, digits: Seq<int>)
    requires
        0 <= at,
        at + 6 <= bytes.len(),
        bytes[at] == 0x5c,
        bytes[at + 1] == 0x75,
        digits.len() == 4,
        forall|k: int| 0 <= k < 4 ==> is_digit_of(bytes[at + 2 + k], #[trigger] digits[k]),
    ensures
        escape_end(bytes, at) == Ok::<int, Error>(at + 6),
{
    assert forall|k: int| at + 2 <= k < at + 6 implies is_hex_digit(#[trigger] bytes[k]) by {
        law_hex_digits(bytes[k], digits[k - at - 2]);
    }
}

/// The value of four hexadecimal digits, in either case, is the number that
/// they write in base sixteen.
pub proof fn law_hex4_value(rest: Seq<u8>, at: int, digits: Seq<int>)
    requires
        0 <= at,
        at + 4 <= rest.len(),
        digits.len() == 4,
        forall|k: int| 0 <= k < 4 ==> is_digit_of(rest[at + k], #[trigger] digits[k]),
    ensures
        hex4(rest, at) == Some(
            (digits[0] * 4096 + digits[1] * 256 + digits[2] * 16 + digits[3]) as u32,
        ),
{
    assert(is_digit_of(rest[at + 0], digits[0]));
    assert(is_digit_of(rest[at + 1], digits[1]));
    assert(is_digit_of(rest[at + 2], digits[2]));
    assert(is_digit_of(rest[at + 3], digits[3]));
    law_hex_digits(rest[at], digits[0]);
    law_hex_digits(rest[at + 1], digits[1]);
    law_hex_digits(rest[at + 2], digits[2]);
    law_hex_digits(rest[at + 3], digits[3]);
    assert forall|k: int| at <= k < at + 4 implies is_hex_digit(#[trigger] rest[k]) by {
        law_hex_digits(rest[k], digits[k - at]);
    }
}

/// The number that four hexadecimal digit values write in base sixteen.
pub open spec fn base16(digits: Seq<int>) -> int {
    digits[0] * 4096 + digits[1] * 256 + digits[2] * 16 + digits[3]
}

/// A `\u` escape of a code point that is not a surrogate decodes to the
/// character of that code point, whatever the case of its digits.
pub proof fn law_unicode_escape_decodes(rest: Seq<u8>, offset: int, digits: Seq<int>)
    requires
        rest.len() >= 6,
        rest[0] == 0x5c,
        rest[1] == 0x75,
        digits.len() == 4,
        forall|k: int| 0 <= k < 4 ==> is_digit_of(rest[2 + k], #[trigger] digits[k]),
        !(0xD800 <= base16(digits) < 0xE000),
    ensures
        decode_step(rest, offset) == DecodeStep::Char(base16(digits) as char, 6),
{
    reveal(decode_step);
    law_hex4_value(rest, 2, digits);
    law_hex_digits(rest[2], digits[0]);
    law_hex_digits(rest[3], digits[1]);
    law_hex_digits(rest[4], digits[2]);
    law_hex_digits(rest[5], digits[3]);
    assert(0 <= base16(digits) < 0x10000) by {
        assert(is_digit_of(rest[2], digits[0]));
        assert(is_digit_of(rest[3], digits[1]));
        assert(is_digit_of(rest[4], digits[2]));
        assert(is_digit_of(rest[5], digits[3]));
    }
}

/// A surrogate pair written as two `\u` escapes decodes to the one
/// character whose UTF-16 encoding is that pair: a supplementary character
/// whose offset from `0x10000` has the high surrogate's ten bits above the
/// low surrogate's ten bits.
pub proof fn law_surrogate_pair_decodes(rest: Seq<u8>, offset: int, high: Seq<int>, low: Seq<int>)
    requires
        rest.len() >= 12,
        rest[0] == 0x5c,
        rest[1] == 0x75,
        rest[6] == 0x5c,
        rest[7] == 0x75,
        high.len() == 4,
        low.len() == 4,
        forall|k: int| 0 <= k < 4 ==> is_digit_of(rest[2 + k], #[trigger] high[k]),
        forall|k: int| 0 <= k < 4 ==> is_digit_of(rest[8 + k], #[trigger] low[k]),
        0xD800 <= base16(high) < 0xDC00,
        0xDC00 <= base16(low) < 0xE000,
    ensures
        decode_step(rest, offset) matches DecodeStep::Char(character, width) && width == 12 && {
            let above = character as int - 0x10000;
            &&& 0x10000 <= character as int <= 0x10FFFF
            &&& above / 1024 == base16(high) - 0xD800
            &&& above % 1024 == base16(low) - 0xDC00
        },
{
    reveal(decode_step);
    law_hex4_value(rest, 2, high);
    law_hex4_value(rest, 8, low);
    let h = base16(high) - 0xD800;
    let l = base16(low) - 0xDC00;
    assert(0 <= h < 1024 && 0 <= l < 1024);
    assert(0 <= h * 1024 + l < 0x100000) by (nonlinear_arith)
        requires
            0 <= h < 1024,
            0 <= l < 1024,
    ;
    assert((h * 1024 + l) / 1024 == h && (h * 1024 + l) % 1024 == l) by (nonlinear_arith)
        requires
            0 <= h < 1024,
            0 <= l < 1024,
    ;
}

/// A scan that is suspended after `count` tokens and then resumed reports the
/// same tokens and ends in the same way as a scan that is never suspended:
/// the tokens before the suspension followed by the tokens after it are the
/// tokens of the whole document.
pub proof fn law_scan_resumes(bytes: Seq<u8>, start: ScanView, count: nat)
    requires
        0 <= start.offset <= bytes.len(),
        spec_advance(bytes, start, count) is Paused,
    ensures
        ({
            let resumed = spec_advance(bytes, start, count)->Paused_0;
            &&& spec_complete(bytes, start) == spec_complete(bytes, resumed)
            &&& spec_tokens(bytes, start) == spec_first_tokens(bytes, start, count) + spec_tokens(
                bytes,
                resumed,
            )
        }),
    decreases count,
{
    if count == 0 {
        assert(spec_first_tokens(bytes, start, count) =~= Seq::<crate::tokenizer_spec::TokenView>::empty());
        assert(spec_tokens(bytes, start) =~= spec_first_tokens(bytes, start, count) + spec_tokens(
            bytes,
            start,
        ));
    } else {
        lemma_step_progress(bytes, start);
        if let StepView::Emit(next, token) = spec_step(bytes, start) {
            law_scan_resumes(bytes, next, (count - 1) as nat);
            let resumed = spec_advance(bytes, next, (count - 1) as nat)->Paused_0;
            assert(spec_tokens(bytes, start) =~= seq![token] + spec_tokens(bytes, next));
            assert(spec_first_tokens(bytes, start, count) =~= seq![token] + spec_first_tokens(
                bytes,
                next,
                (count - 1) as nat,
            ));
            assert(spec_tokens(bytes, start) =~= spec_first_tokens(bytes, start, count)
                + spec_tokens(bytes, resumed));
        }
    }
}

/// A `Tokenizer::drive` that a visitor stopped, followed by a `drive` that
/// ran to the end or to a rejection, reports over the two calls the tokens of
/// the whole document, in order, each once, and the scan ends as a scan that
/// was never stopped ends.
pub proof fn law_drive_resumes<'a, O>(
    bytes: Seq<u8>,
    first_start: ScanView,
    stop: ScanView,
    end: ScanView,
    before: Seq<(Token<'a>, Option<O>)>,
    between: Seq<(Token<'a>, Option<O>)>,
    after: Seq<(Token<'a>, Option<O>)>,
    value: O,
    last: Result<Option<O>, Error>,
)
    requires
        0 <= first_start.offset <= bytes.len(),
        scanned(bytes, first_start, stop, before, between, Ok::<Option<O>, Error>(Some(value))),
        scanned(bytes, stop, end, between, after, last),
        !(last matches Ok(Some(_))),
    ensures
        reports(before, after, bytes, spec_tokens(bytes, first_start)),
        spec_complete(bytes, first_start) == spec_complete(bytes, stop),
{
    let count = (between.len() - before.len()) as nat;
    law_scan_resumes(bytes, first_start, count);
    let head = spec_first_tokens(bytes, first_start, count);
    let tail = spec_tokens(bytes, stop);
    assert(after.take(before.len() as int) =~= between.take(before.len() as int)) by {
        assert forall|k: int| 0 <= k < before.len() implies after[k] == between[k] by {
            assert(after.take(between.len() as int)[k] == after[k]);
        }
    }
    assert forall|k: int| 0 <= k < head.len() + tail.len() implies crate::tokenizer::token_matches(
        after[before.len() + k].0,
        bytes,
        #[trigger] (head + tail)[k],
    ) by {
        if k < head.len() {
            assert(after.take(between.len() as int)[before.len() + k] == after[before.len() + k]);
            assert((head + tail)[k] == head[k]);
        } else {
            assert((head + tail)[k] == tail[k - head.len()]);
            assert(between.len() + (k - head.len()) == before.len() + k);
        }
    }
}

/// A scan that is driven again after each suspension, any number of times,
/// until a call completes or rejects the document, reports over all of its
/// calls the tokens of the whole document, in order, each once, and ends as a
/// single call that never suspends ends. Each suspension reports at least one
/// token, so there are at most as many suspensions as tokens.
///
/// Call `i` goes from the scanner state `views[i]` to `views[i + 1]`, takes
/// the visitor's record from `records[i]` to `records[i + 1]`, and returns
/// `results[i]`.
pub proof fn law_drive_chain<'a, O>(
    bytes: Seq<u8>,
    views: Seq<ScanView>,
    records: Seq<Seq<(Token<'a>, Option<O>)>>,
    results: Seq<Result<Option<O>, Error>>,
)
    requires
        results.len() >= 1,
        views.len() == results.len() + 1,
        records.len() == results.len() + 1,
        0 <= views[0].offset <= bytes.len(),
        forall|i: int|
            0 <= i < results.len() ==> scanned(
                bytes,
                views[i],
                views[i + 1],
                records[i],
                records[i + 1],
                #[trigger] results[i],
            ),
        forall|i: int| 0 <= i < results.len() - 1 ==> #[trigger] results[i] matches Ok(Some(_)),
        !(results.last() matches Ok(Some(_))),
    ensures
        reports(records[0], records.last(), bytes, spec_tokens(bytes, views[0])),
        results.last() matches Ok(None) ==> spec_complete(bytes, views[0]) is Complete,
        results.last() matches Err(error) ==> spec_complete(bytes, views[0]) matches Walk::Rejected(
            _,
            found,
        ) && found == error,
        results.len() - 1 <= spec_tokens(bytes, views[0]).len(),
{
    let last = results.len() - 1;
    lemma_drive_chain_prefix(bytes, views, records, results, last);
    let count = (records[last].len() - records[0].len()) as nat;
    law_scan_resumes(bytes, views[0], count);
    lemma_reports_concat(
        records[0],
        records[last],
        records[last + 1],
        bytes,
        spec_first_tokens(bytes, views[0], count),
        spec_tokens(bytes, views[last]),
    );
    assert(records.last() == records[last + 1]);
    assert(results.last() == results[last]);
}

/// After `j` suspended calls, the record holds the first tokens of the
/// document, at least one for each call, and the scanner stands after them.
proof fn lemma_drive_chain_prefix<'a, O>(
    bytes: Seq<u8>,
    views: Seq<ScanView>,
    records: Seq<Seq<(Token<'a>, Option<O>)>>,
    results: Seq<Result<Option<O>, Error>>,
    j: int,
)
    requires
        0 <= j < results.len(),
        views.len() == results.len() + 1,
        records.len() == results.len() + 1,
        0 <= views[0].offset <= bytes.len(),
        forall|i: int|
            0 <= i < results.len() ==> scanned(
                bytes,
                views[i],
                views[i + 1],
                records[i],
                records[i + 1],
                #[trigger] results[i],
            ),
        forall|i: int| 0 <= i < results.len() - 1 ==> #[trigger] results[i] matches Ok(Some(_)),
    ensures
        records[j].len() >= records[0].len() + j,
        spec_advance(bytes, views[0], (records[j].len() - records[0].len()) as nat) == Walk::Paused(
            views[j],
        ),
        reports(
            records[0],
            records[j],
            bytes,
            spec_first_tokens(bytes, views[0], (records[j].len() - records[0].len()) as nat),
        ),
    decreases j,
{
    if j == 0 {
        assert(records[0].take(records[0].len() as int) =~= records[0]);
        assert(spec_first_tokens(bytes, views[0], 0) =~= Seq::<TokenView>::empty());
    } else {
        lemma_drive_chain_prefix(bytes, views, records, results, j - 1);
        let before = (records[j - 1].len() - records[0].len()) as nat;
        let step = (records[j].len() - records[j - 1].len()) as nat;
        assert(results[j - 1] matches Ok(Some(_)));
        assert(scanned(bytes, views[j - 1], views[j], records[j - 1], records[j], results[j - 1]));
        lemma_advance_compose(bytes, views[0], before, views[j - 1], step);
        lemma_reports_concat(
            records[0],
            records[j - 1],
            records[j],
            bytes,
            spec_first_tokens(bytes, views[0], before),
            spec_first_tokens(bytes, views[j - 1], step),
        );
        assert(before + step == records[j].len() - records[0].len());
    }
}

/// Advancing `first` tokens and then `second` more is advancing by their sum,
/// and the tokens that the two report follow each other.
proof fn lemma_advance_compose(bytes: Seq<u8>, start: ScanView, first: nat, middle: ScanView, second: nat)
    requires
        spec_advance(bytes, start, first) == Walk::Paused(middle),
    ensures
        spec_advance(bytes, start, first + second) == spec_advance(bytes, middle, second),
        spec_advance(bytes, middle, second) is Paused ==> spec_first_tokens(bytes, start, first + second)
            == spec_first_tokens(bytes, start, first) + spec_first_tokens(bytes, middle, second),
    decreases first,
{
    if first == 0 {
        assert(spec_first_tokens(bytes, start, 0) + spec_first_tokens(bytes, middle, second)
            =~= spec_first_tokens(bytes, middle, second));
    } else {
        if let StepView::Emit(next, token) = spec_step(bytes, start) {
            lemma_advance_compose(bytes, next, (first - 1) as nat, middle, second);
            assert((first + second - 1) as nat == ((first - 1) as nat + second) as nat);
            if spec_advance(bytes, middle, second) is Paused {
                assert(seq![token] + spec_first_tokens(bytes, next, (first - 1) as nat)
                    + spec_first_tokens(bytes, middle, second) =~= seq![token] + (
                spec_first_tokens(bytes, next, (first - 1) as nat) + spec_first_tokens(
                    bytes,
                    middle,
                    second,
                )));
            }
        }
    }
}

/// Two records that follow each other report the tokens of both in order.
proof fn lemma_reports_concat<'a, O>(
    before: Seq<(Token<'a>, Option<O>)>,
    between: Seq<(Token<'a>, Option<O>)>,
    after: Seq<(Token<'a>, Option<O>)>,
    bytes: Seq<u8>,
    head: Seq<TokenView>,
    tail: Seq<TokenView>,
)
    requires
        reports(before, between, bytes, head),
        reports(between, after, bytes, tail),
    ensures
        reports(before, after, bytes, head + tail),
{
    assert(after.take(before.len() as int) =~= between.take(before.len() as int)) by {
        assert forall|k: int| 0 <= k < before.len() implies after[k] == between[k] by {
            assert(after.take(between.len() as int)[k] == after[k]);
        }
    }
    assert forall|k: int| 0 <= k < head.len() + tail.len() implies crate::tokenizer::token_matches(
        after[before.len() + k].0,
        bytes,
        #[trigger] (head + tail)[k],
    ) by {
        if k < head.len() {
            assert(after.take(between.len() as int)[before.len() + k] == after[before.len() + k]);
            assert((head + tail)[k] == head[k]);
        } else {
            assert((head + tail)[k] == tail[k - head.len()]);
            assert(between.len() + (k - head.len()) == before.len() + k);
        }
    }
}

/// A scan that completed stays complete: from the state in which it completed,
/// the next step completes again without moving, thus each later call of
/// `drive` reports completion again.
pub proof fn law_completion_is_final(bytes: Seq<u8>, start: ScanView)
    requires
        0 <= start.offset <= bytes.len(),
        spec_complete(bytes, start) is Complete,
    ensures
        ({
            let done = spec_complete(bytes, start)->Complete_0;
            &&& spec_step(bytes, done) == StepView::Finish(done)
            &&& spec_complete(bytes, done) == Walk::Complete(done)
            &&& done.state == ScanState::Done
            &&& done.offset == bytes.len()
        }),
    decreases bytes.len() - start.offset,
{
    lemma_step_progress(bytes, start);
    match spec_step(bytes, start) {
        StepView::Emit(next, _) => {
            law_completion_is_final(bytes, next);
        },
        StepView::Finish(done) => {
            assert(skip_ws(bytes, done.offset) == done.offset);
            assert(at_offset(done, done.offset) == done);
        },
        StepView::Fail(_, _) => {},
    }
}

/// Once a scan completed, a further call of `Tokenizer::drive` reports no
/// token: it gives its visitor no call, returns `Ok(None)`, and leaves the
/// scanner where it stands.
pub proof fn law_no_call_after_completion<'a, O>(
    bytes: Seq<u8>,
    done: ScanView,
    end: ScanView,
    before: Seq<(Token<'a>, Option<O>)>,
    after: Seq<(Token<'a>, Option<O>)>,
    result: Result<Option<O>, Error>,
)
    requires
        0 <= done.offset <= bytes.len(),
        spec_step(bytes, done) == StepView::Finish(done),
        scanned(bytes, done, end, before, after, result),
    ensures
        result == Ok::<Option<O>, Error>(None),
        after == before,
        end == done,
{
    assert(spec_tokens(bytes, done) =~= Seq::<TokenView>::empty());
    if let Ok(Some(value)) = result {
        let count = (after.len() - before.len()) as nat;
        assert(spec_advance(bytes, done, count) == Walk::Complete(done));
    }
    assert(after =~= after.take(before.len() as int));
}

/// Each error that a scan reports lies inside the input or at its end: its
/// offset is at most the length of the input.
pub proof fn law_error_offsets_within_input(bytes: Seq<u8>, start: ScanView)
    requires
        0 <= start.offset <= bytes.len(),
        bytes.len() <= usize::MAX,
    ensures
        spec_complete(bytes, start) matches Walk::Rejected(_, error) ==> error.spec_offset()
            <= bytes.len(),
    decreases bytes.len() - start.offset,
{
    lemma_step_progress(bytes, start);
    lemma_step_error_within(bytes, start);
    if let StepView::Emit(next, _) = spec_step(bytes, start) {
        law_error_offsets_within_input(bytes, next);
    }
}

/// An error made at a position that fits a `usize` reports that position.
proof fn lemma_err_at_offset()
    ensures
        forall|kind: ErrorKind, at: int|
            0 <= at <= usize::MAX ==> #[trigger] err_at(kind, at).spec_offset() == at,
{
    assert forall|kind: ErrorKind, at: int| 0 <= at <= usize::MAX implies #[trigger] err_at(
        kind,
        at,
    ).spec_offset() == at by {
        crate::json_error::lemma_json_error_fields(kind, at as usize);
    }
}

/// The error of one step lies inside the input or at its end.
pub(crate) proof fn lemma_step_error_within(bytes: Seq<u8>, view: ScanView)
    requires
        0 <= view.offset <= bytes.len(),
        bytes.len() <= usize::MAX,
    ensures
        spec_step(bytes, view) matches StepView::Fail(_, error) ==> error.spec_offset()
            <= bytes.len(),
{
    lemma_err_at_offset();
    let first = skip_ws(bytes, view.offset);
    lemma_skip_ws(bytes, view.offset);
    let skipped = at_offset(view, first);
    let current = if at_separator(bytes, skipped) {
        lemma_skip_ws(bytes, first + 1);
        after_separator(bytes, skipped)
    } else {
        skipped
    };
    let at = current.offset;
    if at < bytes.len() {
        lemma_string_end(bytes, at + 1, false);
        lemma_string_end_error_within(bytes, at + 1, false);
        if let Ok((end, _)) = string_end(bytes, at + 1, false) {
            lemma_skip_ws(bytes, end + 1);
        }
        lemma_number_error_within(bytes, at);
    }
}

/// The error of a string body lies inside the input or at its end.
proof fn lemma_string_end_error_within(bytes: Seq<u8>, cursor: int, escaped: bool)
    requires
        0 <= cursor <= bytes.len(),
        bytes.len() <= usize::MAX,
    ensures
        string_end(bytes, cursor, escaped) matches Err(error) ==> error.spec_offset()
            <= bytes.len(),
    decreases bytes.len() - cursor,
{
    lemma_err_at_offset();
    if cursor < bytes.len() && bytes[cursor] != 0x22 {
        if bytes[cursor] == 0x5c {
            if let Ok(next) = escape_end(bytes, cursor) {
                lemma_string_end_error_within(bytes, next, true);
            }
        } else if bytes[cursor] >= 0x20 {
            lemma_string_end_error_within(bytes, cursor + 1, escaped);
        }
    }
}

/// The error of a number lies inside the input or at its end.
proof fn lemma_number_error_within(bytes: Seq<u8>, start: int)
    requires
        0 <= start < bytes.len(),
        bytes.len() <= usize::MAX,
    ensures
        number_end(bytes, start) matches Err(error) ==> error.spec_offset() <= bytes.len(),
{
    lemma_err_at_offset();
    let digits = if bytes[start] == 0x2d {
        start + 1
    } else {
        start
    };
    lemma_skip_digits(bytes, digits);
    if let Ok(integer) = integer_part_end(bytes, digits) {
        if integer < bytes.len() {
            lemma_skip_digits(bytes, integer + 1);
        }
        if let Ok(fraction) = fraction_end(bytes, integer) {
            if fraction < bytes.len() {
                let sign = fraction + 1;
                lemma_skip_digits(bytes, sign);
                if sign < bytes.len() {
                    lemma_skip_digits(bytes, sign + 1);
                }
            }
        }
    }
}

/// Whether each number among `tokens` spans text that the JSON number grammar
/// accepts, from its first byte to its last.
pub open spec fn numbers_are_json(bytes: Seq<u8>, tokens: Seq<TokenView>) -> bool {
    forall|k: int|
        0 <= k < tokens.len() ==> (#[trigger] tokens[k] matches TokenView::Number { start, end }
            ==> number_end(bytes, start) == Ok::<int, Error>(end))
}

/// The text of each number that a scan reports agrees with the JSON number
/// grammar: a scan never reports a number that the grammar does not accept.
pub proof fn law_number_tokens_are_json(bytes: Seq<u8>, start: ScanView)
    requires
        0 <= start.offset <= bytes.len(),
    ensures
        numbers_are_json(bytes, spec_tokens(bytes, start)),
    decreases bytes.len() - start.offset,
{
    lemma_step_progress(bytes, start);
    if let StepView::Emit(next, token) = spec_step(bytes, start) {
        law_number_tokens_are_json(bytes, next);
        let rest = spec_tokens(bytes, next);
        assert(spec_tokens(bytes, start) == seq![token] + rest);
        assert(token matches TokenView::Number { start: first, end } ==> number_end(bytes, first)
            == Ok::<int, Error>(end));
        assert forall|k: int| 0 <= k < rest.len() + 1 implies #[trigger] (seq![token] + rest)[k]
            matches TokenView::Number { start: first, end } ==> number_end(bytes, first) == Ok::<
            int,
            Error,
        >(end) by {
            if k > 0 {
                assert((seq![token] + rest)[k] == rest[k - 1]);
            }
        }
    }
}

// ---------------------------------------------------------------------------
// Escape sequences
// ---------------------------------------------------------------------------

/// Each character that one decode step yields takes no more bytes in UTF-8
/// than the escape sequence or the character that it came from.
proof fn lemma_step_not_longer(rest: Seq<u8>, offset: int)
    requires
        valid_utf8(rest),
    ensures
        decode_step(rest, offset) matches DecodeStep::Char(character, width) ==> encode_scalar(
            character as u32,
        ).len() <= width,
{
    reveal(decode_step);
    if let DecodeStep::Char(character, width) = decode_step(rest, offset) {
        if rest[0] != 0x5c {
            decode_utf8_first_scalar(rest);
        }
    }
}

/// A decode never makes a body longer: the UTF-8 encoding of the decoded
/// characters takes no more bytes than the body.
proof fn lemma_decode_not_longer(rest: Seq<u8>, offset: int)
    requires
        valid_utf8(rest),
    ensures
        encode_utf8(decode_items(rest, offset).0).len() <= rest.len(),
    decreases rest.len(),
{
    lemma_decode_step_width(rest, offset);
    lemma_decode_step_rest_valid(rest, offset);
    lemma_step_not_longer(rest, offset);
    if let DecodeStep::Char(character, width) = decode_step(rest, offset) {
        let tail = rest.subrange(width as int, rest.len() as int);
        lemma_decode_not_longer(tail, offset + width);
        let later = decode_items(tail, offset + width).0;
        let all = seq![character] + later;
        assert(all[0] == character);
        assert(all.drop_first() =~= later);
        assert(encode_utf8(all) == encode_scalar(character as u32) + encode_utf8(later));
    }
}

/// Characters whose encoding fits into the room that is left all fit.
proof fn lemma_all_fit(chars: Seq<char>, written: int, capacity: int)
    requires
        written + encode_utf8(chars).len() <= capacity,
    ensures
        fit_count(chars, written, capacity) == chars.len(),
    decreases chars.len(),
{
    if chars.len() > 0 {
        lemma_all_fit(chars.drop_first(), written + encode_scalar(chars[0] as u32).len(), capacity);
    }
}

/// The decode of a body ends exactly when no byte is left. `Unescape::next`
/// leaves no byte after an error and leaves the bytes as they are at the end,
/// thus after it returned an error or `None`, each later call returns `None`.
pub proof fn law_unescape_is_fused(rest: Seq<u8>, offset: int)
    ensures
        decode_step(rest, offset) is End <==> rest.len() == 0,
{
    reveal(decode_step);
    if rest.len() > 0 && rest[0] == 0x5c && rest.len() >= 2 && rest[1] == 0x75 {
        assert(!(crate::unescape_spec::unicode_escape_step(rest, offset) is End));
    }
}

/// A decode yields at most one character for each byte of the body, so a
/// loop over the characters of a body ends.
pub proof fn law_unescape_item_bound(rest: Seq<u8>, offset: int)
    requires
        valid_utf8(rest),
    ensures
        decode_items(rest, offset).0.len() <= rest.len(),
    decreases rest.len(),
{
    lemma_decode_step_width(rest, offset);
    if let DecodeStep::Char(_, width) = decode_step(rest, offset) {
        lemma_decode_step_rest_valid(rest, offset);
        law_unescape_item_bound(rest.subrange(width as int, rest.len() as int), offset + width);
    }
}

/// The iterator and the buffer decode agree: `EscapeString::unescape` starts
/// at the state from which the decode of `raw` yields all of
/// `unescaped(raw)`, and from a state that yields the characters of the
/// decode from position `count` on, the next call of `Unescape::next` yields
/// character `count`, or, once all were yielded, ends or reports the error
/// that stops the buffer decode.
pub proof fn law_unescape_iterator_matches_buffer(raw: Seq<u8>, rest: Seq<u8>, offset: int, count: nat)
    requires
        valid_utf8(rest),
        count <= unescaped(raw).0.len(),
        decode_items(rest, offset) == (unescaped(raw).0.skip(count as int), unescaped(raw).1),
    ensures
        decode_items(raw, 0) == (unescaped(raw).0.skip(0), unescaped(raw).1),
        decode_step(rest, offset) is End ==> count == unescaped(raw).0.len() && unescaped(raw).1
            is None,
        decode_step(rest, offset) matches DecodeStep::Fail(error) ==> count == unescaped(raw).0.len()
            && unescaped(raw).1 == Some(error),
        decode_step(rest, offset) matches DecodeStep::Char(character, width) ==> {
            &&& count < unescaped(raw).0.len()
            &&& unescaped(raw).0[count as int] == character
            &&& decode_items(rest.subrange(width as int, rest.len() as int), offset + width) == (
                unescaped(raw).0.skip(count as int + 1),
                unescaped(raw).1,
            )
        },
{
    assert(unescaped(raw).0.skip(0) =~= unescaped(raw).0);
    lemma_decode_items_step(rest, offset, unescaped(raw).0, unescaped(raw).1, count);
}

/// The items that the iterator over a body yields over all of its calls: at
/// most one for each byte of the body, and an error only as the last of
/// them, thus at most one error.
pub proof fn law_unescape_items_shape(rest: Seq<u8>, offset: int)
    requires
        valid_utf8(rest),
    ensures
        unescape_items(rest, offset).len() <= rest.len(),
        forall|k: int|
            0 <= k < unescape_items(rest, offset).len() - 1 ==> #[trigger] unescape_items(
                rest,
                offset,
            )[k] is Ok,
    decreases rest.len(),
{
    lemma_unescape_items_step(rest, offset);
    law_unescape_is_fused(rest, offset);
    lemma_decode_step_width(rest, offset);
    if let DecodeStep::Char(character, width) = decode_step(rest, offset) {
        lemma_decode_step_rest_valid(rest, offset);
        let next = rest.subrange(width as int, rest.len() as int);
        law_unescape_items_shape(next, offset + width);
        let items = unescape_items(rest, offset);
        let later = unescape_items(next, offset + width);
        assert forall|k: int| 0 <= k < items.len() - 1 implies #[trigger] items[k] is Ok by {
            if k > 0 {
                assert(items[k] == later[k - 1]);
            }
        }
    }
}

/// Collecting the iterator over a body into a `Result` gives what a decode
/// into a buffer of the raw length gives: the same text, or the same error.
pub proof fn law_unescape_collect_matches_buffer(raw: Seq<u8>, capacity: int)
    requires
        valid_utf8(raw),
        raw.len() <= capacity,
    ensures
        collected(unescape_items(raw, 0)) == match unescape_into_outcome(raw, capacity) {
            Ok(()) => Ok::<Seq<char>, Error>(unescaped(raw).0),
            Err(error) => Err(error),
        },
{
    law_raw_length_suffices(raw, capacity);
    lemma_collected_items(unescaped(raw).0, unescaped(raw).1);
}

/// Collecting characters followed by an optional error.
proof fn lemma_collected_items(chars: Seq<char>, error: Option<Error>)
    ensures
        collected(
            chars.map_values(|character: char| Ok::<char, Error>(character)) + match error {
                Some(error) => seq![Err::<char, Error>(error)],
                None => Seq::empty(),
            },
        ) == match error {
            Some(error) => Err::<Seq<char>, Error>(error),
            None => Ok(chars),
        },
    decreases chars.len(),
{
    let items = chars.map_values(|character: char| Ok::<char, Error>(character)) + match error {
        Some(error) => seq![Err::<char, Error>(error)],
        None => Seq::empty(),
    };
    if chars.len() == 0 {
        assert(chars.map_values(|character: char| Ok::<char, Error>(character)) =~= Seq::empty());
        if error is None {
            assert(items =~= Seq::<Result<char, Error>>::empty());
            assert(chars =~= Seq::<char>::empty());
        } else {
            assert(items[0] == Err::<char, Error>(error->0));
        }
    } else {
        let rest = chars.drop_first();
        lemma_collected_items(rest, error);
        let later = rest.map_values(|character: char| Ok::<char, Error>(character)) + match error {
            Some(error) => seq![Err::<char, Error>(error)],
            None => Seq::empty(),
        };
        assert(items.drop_first() =~= later);
        assert(items[0] == Ok::<char, Error>(chars[0]));
        assert(seq![chars[0]] + rest =~= chars);
        assert(collected(items) == match collected(later) {
            Ok(text) => Ok::<Seq<char>, Error>(seq![chars[0]] + text),
            Err(error) => Err(error),
        });
    }
}

/// The length of the raw body is always a sufficient buffer size for a decode
/// into a buffer: with at least that many bytes, the decode fails only for an
/// error of the body itself, and never for a lack of room.
pub proof fn law_raw_length_suffices(raw: Seq<u8>, capacity: int)
    requires
        valid_utf8(raw),
        raw.len() <= capacity,
    ensures
        encode_utf8(unescaped(raw).0).len() <= raw.len(),
        unescape_into_outcome(raw, capacity) == match unescaped(raw).1 {
            Some(error) => Err::<(), Error>(error),
            None => Ok(()),
        },
{
    lemma_decode_not_longer(raw, 0);
    lemma_all_fit(unescaped(raw).0, 0, capacity);
}

// ---------------------------------------------------------------------------
// The reply decoder
// ---------------------------------------------------------------------------

/// Whether each address among `items` holds at most [`MAX_ADDRESS_BYTES`]
/// bytes.
pub open spec fn addresses_fit(items: Seq<ItemView>) -> bool {
    forall|k: int|
        0 <= k < items.len() ==> (#[trigger] items[k] matches ItemView::Address(address)
            ==> address.octets.len() <= MAX_ADDRESS_BYTES)
}

proof fn lemma_walk_addresses_fit(bytes: Seq<u8>, scan: ScanView, d: DecoderView)
    requires
        0 <= scan.offset <= bytes.len(),
        decoder_wf(d),
    ensures
        addresses_fit(reply_walk(bytes, scan, d).items),
    decreases bytes.len() - scan.offset,
{
    lemma_step_progress(bytes, scan);
    lemma_walk_step(bytes, scan, d);
    if let StepView::Emit(next, token) = spec_step(bytes, scan) {
        lemma_react_keeps_invariant(d, bytes, token);
        match react(d, bytes, token) {
            Reaction::Continue(after) => {
                lemma_walk_addresses_fit(bytes, next, after);
            },
            Reaction::Report(after, item) => {
                lemma_walk_addresses_fit(bytes, next, after);
                let rest = reply_walk(bytes, next, after).items;
                assert forall|k: int| 0 <= k < rest.len() + 1 implies #[trigger] (seq![item]
                    + rest)[k] matches ItemView::Address(address) ==> address.octets.len()
                    <= MAX_ADDRESS_BYTES by {
                    if k > 0 {
                        assert((seq![item] + rest)[k] == rest[k - 1]);
                    }
                }
            },
            Reaction::Reject(_) => {},
        }
    }
}

/// No reply makes the decoder report an address of more than
/// [`MAX_ADDRESS_BYTES`] bytes, whatever the reply holds: a longer address is
/// rejected, and is never truncated.
pub proof fn law_reported_addresses_fit(bytes: Seq<u8>)
    ensures
        addresses_fit(reply_run(bytes).items),
{
    lemma_walk_addresses_fit(bytes, initial_view(), initial_decoder());
}

/// A `ResolveHostnameReply::drive` that a visitor stopped, followed by a
/// `drive` that ran to the end or to a rejection, reports over the two calls
/// each item of the reply once, in order, and ends as a decode that was never
/// stopped ends.
pub proof fn law_reply_drive_resumes<'a, O>(
    bytes: Seq<u8>,
    run: ReplyRun,
    rest: ReplyRun,
    end: ReplyRun,
    before: Seq<(ReplyItem<'a>, Option<O>)>,
    between: Seq<(ReplyItem<'a>, Option<O>)>,
    after: Seq<(ReplyItem<'a>, Option<O>)>,
    value: O,
    last: Result<Option<O>, ReplyError>,
)
    requires
        decoded(bytes, run, rest, false, before, between, Ok::<Option<O>, ReplyError>(Some(value))),
        decoded(bytes, rest, end, true, between, after, last),
        !(last matches Ok(Some(_))),
    ensures
        replied(before, after, bytes, run.items),
        last matches Ok(None) ==> run.end is Ok,
        last matches Err(error) ==> run.end == Err::<(), (ReplyErrorKind, int)>(error@),
{
    let count = between.len() - before.len();
    let head = run.items.take(count);
    let tail = run.items.skip(count);
    assert(run.items =~= head + tail);
    assert(after.take(before.len() as int) =~= between.take(before.len() as int)) by {
        assert forall|k: int| 0 <= k < before.len() implies after[k] == between[k] by {
            assert(after.take(between.len() as int)[k] == after[k]);
        }
    }
    assert forall|k: int| 0 <= k < run.items.len() implies crate::resolver::varlink_reply::item_matches(
        after[before.len() + k].0,
        bytes,
        #[trigger] run.items[k],
    ) by {
        if k < count {
            assert(after.take(between.len() as int)[before.len() + k] == after[before.len() + k]);
            assert(head[k] == run.items[k]);
        } else {
            assert(tail[k - count] == run.items[k]);
            assert(between.len() + (k - count) == before.len() + k);
        }
    }
}

/// Each rejection of a reply lies inside the reply or at its end: its offset
/// is at most the length of the reply.
pub proof fn law_reply_error_offsets_within_input(bytes: Seq<u8>)
    requires
        bytes.len() <= usize::MAX,
    ensures
        reply_run(bytes).end matches Err((_, offset)) ==> 0 <= offset <= bytes.len(),
{
    lemma_walk_errors_within(bytes, initial_view(), initial_decoder());
}

proof fn lemma_walk_errors_within(bytes: Seq<u8>, scan: ScanView, d: DecoderView)
    requires
        0 <= scan.offset <= bytes.len(),
        bytes.len() <= usize::MAX,
    ensures
        reply_walk(bytes, scan, d).end matches Err((_, offset)) ==> 0 <= offset <= bytes.len(),
    decreases bytes.len() - scan.offset,
{
    lemma_step_progress(bytes, scan);
    lemma_step_error_within(bytes, scan);
    lemma_walk_step(bytes, scan, d);
    if let StepView::Emit(next, token) = spec_step(bytes, scan) {
        match react(d, bytes, token) {
            Reaction::Continue(after) => lemma_walk_errors_within(bytes, next, after),
            Reaction::Report(after, _) => lemma_walk_errors_within(bytes, next, after),
            Reaction::Reject(_) => {},
        }
    }
}

/// The three members of an address object can come in any order: `ifindex`,
/// `family` and `address`, read in any of their six orders from the state
/// between the members of an address object, leave the decoder in the same
/// state, and the `}` that closes the object then reports the same address.
pub proof fn law_address_members_in_any_order(
    d: DecoderView,
    bytes: Seq<u8>,
    ifindex_tokens: Seq<TokenView>,
    family_tokens: Seq<TokenView>,
    address_tokens: Seq<TokenView>,
    ifindex: i32,
    family: i32,
    octets: Seq<u8>,
    first: int,
    second: int,
    third: int,
)
    requires
        d.state == ReplyState::Address,
        d.depth < MAX_DEPTH,
        ifindex_member(bytes, ifindex_tokens, ifindex),
        family_member(bytes, family_tokens, family),
        address_member(bytes, address_tokens, octets),
        0 <= first < 3,
        0 <= second < 3,
        0 <= third < 3,
        first != second,
        first != third,
        second != third,
    ensures
        ({
            let members = seq![ifindex_tokens, family_tokens, address_tokens];
            let read = DecoderView {
                pending: PendingView {
                    ifindex: Some(ifindex),
                    family: Some(family),
                    octets,
                    has_octets: true,
                },
                ..d
            };
            &&& react_tokens(d, bytes, members[first] + members[second] + members[third]) == Some(
                read,
            )
            &&& object_end_reaction(read) == Reaction::Report(
                with_state(closed(read), ReplyState::Addresses),
                ItemView::Address(AddressView { ifindex, family, octets }),
            )
        }),
{
    let members = seq![ifindex_tokens, family_tokens, address_tokens];
    let d1 = member_read(d, first, ifindex, family, octets);
    let d2 = member_read(d1, second, ifindex, family, octets);
    let d3 = member_read(d2, third, ifindex, family, octets);
    lemma_member_effect(d, bytes, members, first, ifindex, family, octets);
    lemma_member_effect(d1, bytes, members, second, ifindex, family, octets);
    lemma_member_effect(d2, bytes, members, third, ifindex, family, octets);
    lemma_react_tokens_concat(d, bytes, members[first], members[second]);
    lemma_react_tokens_concat(d, bytes, members[first] + members[second], members[third]);
    assert(d3.pending == PendingView { ifindex: Some(ifindex), family: Some(family), octets, has_octets: true });
}

/// A member that the schema does not name, with a scalar value, may stand
/// anywhere among the members of an address object: the decoder skips it and
/// returns to the state between the members with nothing read, changing only
/// the state that a later skip starts from again.
pub proof fn law_unknown_address_member_is_skipped(
    d: DecoderView,
    bytes: Seq<u8>,
    tokens: Seq<TokenView>,
)
    requires
        decoder_wf(d),
        d.state == ReplyState::Address,
        tokens.len() == 2,
        tokens[0] is Key,
        !names(bytes, tokens[0], word_ifindex()),
        !names(bytes, tokens[0], word_family()),
        !names(bytes, tokens[0], word_address()),
        tokens[1] is Str || tokens[1] is Number || tokens[1] is Boolean || tokens[1] is Null,
    ensures
        react_tokens(d, bytes, tokens) == Some(
            DecoderView { skip_resume: ReplyState::Address, ..d },
        ),
{
    reveal(react);
    let rest = tokens.drop_first();
    assert(rest[0] == tokens[1]);
    assert(rest.drop_first().len() == 0);
    let skipping = begin_skip(d, ReplyState::Address);
    assert(react(d, bytes, tokens[0]) == Reaction::Continue(skipping));
    let done = DecoderView { skip_resume: ReplyState::Address, ..d };
    assert(react(skipping, bytes, rest[0]) == Reaction::Continue(done));
    assert(react_tokens(done, bytes, rest.drop_first()) == Some(done));
    assert(react_tokens(skipping, bytes, rest) == Some(done));
}

/// The member names that the schema gives to the object in which the decoder
/// stands in `state`: the reply, `parameters`, or an address entry.
pub open spec fn schema_names(state: ReplyState) -> Seq<Seq<char>> {
    match state {
        ReplyState::Reply => seq![word_error(), word_parameters()],
        ReplyState::Parameters => seq![word_addresses(), word_name(), word_flags()],
        ReplyState::Address => seq![word_ifindex(), word_family(), word_address()],
        _ => Seq::empty(),
    }
}

/// A member that the schema does not name, with a scalar value, may stand
/// among the members of the reply, of `parameters` or of an address entry:
/// the decoder skips it and returns to the state between the members of that
/// object with nothing read, changing only the state that a later skip
/// starts from again.
pub proof fn law_unknown_member_is_skipped(d: DecoderView, bytes: Seq<u8>, tokens: Seq<TokenView>)
    requires
        decoder_wf(d),
        d.state == ReplyState::Reply || d.state == ReplyState::Parameters || d.state
            == ReplyState::Address,
        tokens.len() == 2,
        tokens[0] is Key,
        forall|k: int|
            0 <= k < schema_names(d.state).len() ==> !names(
                bytes,
                tokens[0],
                #[trigger] schema_names(d.state)[k],
            ),
        tokens[1] is Str || tokens[1] is Number || tokens[1] is Boolean || tokens[1] is Null,
    ensures
        react_tokens(d, bytes, tokens) == Some(DecoderView { skip_resume: d.state, ..d }),
{
    reveal(react);
    let words = schema_names(d.state);
    assert(!names(bytes, tokens[0], words[0]));
    assert(!names(bytes, tokens[0], words[1]));
    if d.state == ReplyState::Parameters || d.state == ReplyState::Address {
        assert(!names(bytes, tokens[0], words[2]));
    }
    let rest = tokens.drop_first();
    assert(rest[0] == tokens[1]);
    assert(rest.drop_first().len() == 0);
    let skipping = begin_skip(d, d.state);
    assert(react(d, bytes, tokens[0]) == Reaction::Continue(skipping));
    let done = DecoderView { skip_resume: d.state, ..d };
    assert(react(skipping, bytes, rest[0]) == Reaction::Continue(done));
    assert(react_tokens(done, bytes, rest.drop_first()) == Some(done));
    assert(react_tokens(skipping, bytes, rest) == Some(done));
}

/// How a token changes the nesting of containers: `{` and `[` open one
/// level, `}` and `]` close one, and any other token leaves it.
pub open spec fn nesting_change(token: TokenView) -> int {
    match token {
        TokenView::ObjectStart | TokenView::ArrayStart => 1,
        TokenView::ObjectEnd | TokenView::ArrayEnd => -1,
        _ => 0,
    }
}

/// The nesting after the first `count` tokens of `tokens`.
pub open spec fn nesting(tokens: Seq<TokenView>, count: int) -> int
    decreases count,
{
    if count <= 0 {
        0
    } else {
        nesting(tokens, count - 1) + nesting_change(tokens[count - 1])
    }
}

/// Whether `tokens` are one container value: its first token opens it, its
/// last token closes it, each level in between stays open, and it nests at
/// most `room` levels deep.
pub open spec fn container_value(tokens: Seq<TokenView>, room: int) -> bool {
    &&& tokens.len() >= 2
    &&& (tokens[0] is ObjectStart || tokens[0] is ArrayStart)
    &&& nesting(tokens, tokens.len() as int) == 0
    &&& forall|count: int| 1 <= count < tokens.len() ==> 1 <= #[trigger] nesting(tokens, count) <= room
}

/// A member that the schema does not name, whose value is an object or an
/// array of any content within the depth limit, may stand among the members
/// of the reply, of `parameters` or of an address entry: the decoder skips
/// the whole value and returns to the state between the members of that
/// object with nothing read, changing only the state that a later skip starts
/// from again.
pub proof fn law_unknown_container_member_is_skipped(
    d: DecoderView,
    bytes: Seq<u8>,
    key: TokenView,
    value: Seq<TokenView>,
)
    requires
        decoder_wf(d),
        d.state == ReplyState::Reply || d.state == ReplyState::Parameters || d.state
            == ReplyState::Address,
        key is Key,
        forall|k: int|
            0 <= k < schema_names(d.state).len() ==> !names(
                bytes,
                key,
                #[trigger] schema_names(d.state)[k],
            ),
        container_value(value, MAX_DEPTH - d.depth),
    ensures
        react_tokens(d, bytes, seq![key] + value) == Some(
            DecoderView { skip_resume: d.state, ..d },
        ),
{
    reveal(react);
    let words = schema_names(d.state);
    assert(!names(bytes, key, words[0]));
    assert(!names(bytes, key, words[1]));
    if d.state == ReplyState::Parameters || d.state == ReplyState::Address {
        assert(!names(bytes, key, words[2]));
    }
    assert(react(d, bytes, key) == Reaction::Continue(skipped_at(d, 0)));
    assert((seq![key] + value).drop_first() =~= value);
    assert((seq![key] + value)[0] == key);
    assert(value.subrange(0, value.len() as int) =~= value);
    lemma_skip_walk(d, bytes, value, 0);
}

/// The decoder inside a skipped value of the object around `d`, `level`
/// containers deep.
spec fn skipped_at(d: DecoderView, level: int) -> DecoderView {
    DecoderView {
        state: ReplyState::Skip,
        skip_depth: level as nat,
        skip_resume: d.state,
        depth: (d.depth + level) as nat,
        ..d
    }
}

proof fn lemma_skip_walk(d: DecoderView, bytes: Seq<u8>, value: Seq<TokenView>, count: int)
    requires
        decoder_wf(d),
        d.state != ReplyState::Skip,
        container_value(value, MAX_DEPTH - d.depth),
        0 <= count < value.len(),
    ensures
        react_tokens(
            skipped_at(d, nesting(value, count)),
            bytes,
            value.subrange(count, value.len() as int),
        ) == Some(DecoderView { skip_resume: d.state, ..d }),
    decreases value.len() - count,
{
    reveal(react);
    let level = nesting(value, count);
    let token = value[count];
    let rest = value.subrange(count, value.len() as int);
    assert(rest[0] == token);
    assert(rest.drop_first() =~= value.subrange(count + 1, value.len() as int));
    assert(nesting(value, count + 1) == level + nesting_change(token));
    if count == 0 {
        assert(level == 0);
    } else {
        assert(1 <= nesting(value, count));
    }
    let done = DecoderView { skip_resume: d.state, ..d };
    if count + 1 == value.len() {
        assert(count >= 1);
        assert(react(skipped_at(d, level), bytes, token) == Reaction::Continue(done));
        assert(rest.drop_first().len() == 0);
        assert(react_tokens(done, bytes, rest.drop_first()) == Some(done));
    } else {
        assert(1 <= nesting(value, count + 1) <= MAX_DEPTH - d.depth);
        let next = skipped_at(d, nesting(value, count + 1));
        assert(react(skipped_at(d, level), bytes, token) == Reaction::Continue(next));
        lemma_skip_walk(d, bytes, value, count + 1);
    }
}

/// The address that the `}` of an address object reports does not depend on
/// the state that a skip returns to.
pub proof fn law_address_report_ignores_skip_state(d: DecoderView, resume: ReplyState)
    ensures
        object_end_reaction(DecoderView { skip_resume: resume, ..d }) matches Reaction::Report(
            _,
            item,
        ) ==> object_end_reaction(d) matches Reaction::Report(_, other) && item == other,
        object_end_reaction(d) is Report <==> object_end_reaction(
            DecoderView { skip_resume: resume, ..d },
        ) is Report,
{
}

/// The decoder after it read member `which` (`ifindex`, `family` or
/// `address`) of an address object.
spec fn member_read(d: DecoderView, which: int, ifindex: i32, family: i32, octets: Seq<u8>) -> DecoderView {
    DecoderView {
        pending: if which == 0 {
            PendingView { ifindex: Some(ifindex), ..d.pending }
        } else if which == 1 {
            PendingView { family: Some(family), ..d.pending }
        } else {
            PendingView { octets, has_octets: true, ..d.pending }
        },
        ..d
    }
}

proof fn lemma_member_effect(
    d: DecoderView,
    bytes: Seq<u8>,
    members: Seq<Seq<TokenView>>,
    which: int,
    ifindex: i32,
    family: i32,
    octets: Seq<u8>,
)
    requires
        d.state == ReplyState::Address,
        d.depth < MAX_DEPTH,
        members.len() == 3,
        0 <= which < 3,
        ifindex_member(bytes, members[0], ifindex),
        family_member(bytes, members[1], family),
        address_member(bytes, members[2], octets),
    ensures
        react_tokens(d, bytes, members[which]) == Some(member_read(d, which, ifindex, family, octets)),
{
    if which == 0 {
        lemma_ifindex_effect(d, bytes, members[0], ifindex);
    } else if which == 1 {
        lemma_family_effect(d, bytes, members[1], family);
    } else {
        lemma_address_effect(d, bytes, members[2], octets);
    }
}

/// Reading `a` and then `b` is reading `a + b`.
proof fn lemma_react_tokens_concat(d: DecoderView, bytes: Seq<u8>, a: Seq<TokenView>, b: Seq<TokenView>)
    ensures
        react_tokens(d, bytes, a + b) == match react_tokens(d, bytes, a) {
            Some(next) => react_tokens(next, bytes, b),
            None => None,
        },
    decreases a.len(),
{
    if a.len() == 0 {
        assert(a + b =~= b);
    } else {
        assert((a + b)[0] == a[0]);
        assert((a + b).drop_first() =~= a.drop_first() + b);
        if let Reaction::Continue(next) = react(d, bytes, a[0]) {
            lemma_react_tokens_concat(next, bytes, a.drop_first(), b);
        }
    }
}

/// A member name names at most one word.
proof fn lemma_names_one_word(bytes: Seq<u8>, token: TokenView, one: Seq<char>, other: Seq<char>)
    requires
        names(bytes, token, one),
        names(bytes, token, other),
    ensures
        one == other,
{
    broadcast use vstd::utf8::encode_utf8_decode_utf8;

    assert(decode_utf8(encode_utf8(one)) == one);
    assert(decode_utf8(encode_utf8(other)) == other);
}

/// The distinct member names of an address object.
proof fn lemma_address_words_differ()
    ensures
        word_ifindex() != word_family(),
        word_ifindex() != word_address(),
        word_family() != word_address(),
{
    assert(word_ifindex().len() != word_family().len());
    assert(word_ifindex()[0] != word_address()[0]);
    assert(word_family().len() != word_address().len());
}

proof fn lemma_ifindex_effect(d: DecoderView, bytes: Seq<u8>, tokens: Seq<TokenView>, value: i32)
    requires
        d.state == ReplyState::Address,
        ifindex_member(bytes, tokens, value),
    ensures
        react_tokens(d, bytes, tokens) == Some(
            DecoderView { pending: PendingView { ifindex: Some(value), ..d.pending }, ..d },
        ),
{
    reveal(react);
    let rest = tokens.drop_first();
    assert(rest[0] == tokens[1]);
    assert(rest.drop_first().len() == 0);
    let d1 = with_state(d, ReplyState::AddressIfindex);
    assert(react(d, bytes, tokens[0]) == Reaction::Continue(d1));
    assert(react_tokens(d1, bytes, rest) == react_tokens(
        DecoderView { pending: PendingView { ifindex: Some(value), ..d.pending }, ..d },
        bytes,
        rest.drop_first(),
    ));
}

proof fn lemma_family_effect(d: DecoderView, bytes: Seq<u8>, tokens: Seq<TokenView>, value: i32)
    requires
        d.state == ReplyState::Address,
        family_member(bytes, tokens, value),
    ensures
        react_tokens(d, bytes, tokens) == Some(
            DecoderView { pending: PendingView { family: Some(value), ..d.pending }, ..d },
        ),
{
    reveal(react);
    lemma_address_words_differ();
    if names(bytes, tokens[0], word_ifindex()) {
        lemma_names_one_word(bytes, tokens[0], word_ifindex(), word_family());
    }
    let rest = tokens.drop_first();
    assert(rest[0] == tokens[1]);
    assert(rest.drop_first().len() == 0);
    let d1 = with_state(d, ReplyState::AddressFamily);
    assert(react(d, bytes, tokens[0]) == Reaction::Continue(d1));
    assert(react_tokens(d1, bytes, rest) == react_tokens(
        DecoderView { pending: PendingView { family: Some(value), ..d.pending }, ..d },
        bytes,
        rest.drop_first(),
    ));
}

proof fn lemma_address_effect(d: DecoderView, bytes: Seq<u8>, tokens: Seq<TokenView>, octets: Seq<u8>)
    requires
        d.state == ReplyState::Address,
        d.depth < MAX_DEPTH,
        address_member(bytes, tokens, octets),
    ensures
        react_tokens(d, bytes, tokens) == Some(
            DecoderView { pending: PendingView { octets, has_octets: true, ..d.pending }, ..d },
        ),
{
    reveal(react);
    lemma_address_words_differ();
    if names(bytes, tokens[0], word_ifindex()) {
        lemma_names_one_word(bytes, tokens[0], word_ifindex(), word_address());
    }
    if names(bytes, tokens[0], word_family()) {
        lemma_names_one_word(bytes, tokens[0], word_family(), word_address());
    }
    let d1 = with_state(d, ReplyState::AddressOctetsStart);
    assert(react(d, bytes, tokens[0]) == Reaction::Continue(d1));
    let rest = tokens.drop_first();
    assert(rest[0] == tokens[1]);
    let d2 = DecoderView {
        pending: PendingView { octets: Seq::empty(), has_octets: true, ..d.pending },
        state: ReplyState::AddressOctets,
        depth: d.depth + 1,
        ..d
    };
    assert(react(d1, bytes, rest[0]) == Reaction::Continue(d2));
    assert(rest.drop_first() =~= tokens.subrange(2, tokens.len() as int));
    assert(octets.take(0) =~= Seq::<u8>::empty());
    lemma_octets_effect(d2, bytes, tokens, octets, 0);
    assert(tokens.subrange(0int + 2, tokens.len() as int) =~= rest.drop_first());
    assert(react_tokens(d1, bytes, rest) == react_tokens(d2, bytes, rest.drop_first()));
    assert(react_tokens(d, bytes, tokens) == react_tokens(d1, bytes, rest));
}

proof fn lemma_octets_effect(
    m: DecoderView,
    bytes: Seq<u8>,
    tokens: Seq<TokenView>,
    octets: Seq<u8>,
    k: int,
)
    requires
        address_member(bytes, tokens, octets),
        0 <= k <= octets.len(),
        m.state == ReplyState::AddressOctets,
        m.pending.octets == octets.take(k),
    ensures
        react_tokens(m, bytes, tokens.subrange(k + 2, tokens.len() as int)) == Some(
            with_state(
                closed(DecoderView { pending: PendingView { octets, ..m.pending }, ..m }),
                ReplyState::Address,
            ),
        ),
    decreases octets.len() - k,
{
    reveal(react);
    let rest = tokens.subrange(k + 2, tokens.len() as int);
    assert(rest[0] == tokens[k + 2]);
    if k == octets.len() {
        assert(octets.take(k) =~= octets);
        assert(tokens[k + 2] == tokens.last());
        assert(rest.drop_first().len() == 0);
        let done = with_state(closed(m), ReplyState::Address);
        assert(react(m, bytes, rest[0]) == Reaction::Continue(done));
        assert(react_tokens(done, bytes, rest.drop_first()) == Some(done));
    } else {
        assert(reads_as(bytes, tokens[k + 2], 0, 255, octets[k] as int));
        let next = DecoderView {
            pending: PendingView { octets: m.pending.octets.push(octets[k]), ..m.pending },
            ..m
        };
        assert(octets.take(k).push(octets[k]) =~= octets.take(k + 1));
        assert(react(m, bytes, rest[0]) == Reaction::Continue(next));
        assert(rest.drop_first() =~= tokens.subrange(k + 3, tokens.len() as int));
        lemma_octets_effect(next, bytes, tokens, octets, k + 1);
        assert(react_tokens(m, bytes, rest) == react_tokens(next, bytes, rest.drop_first()));
    }
}

// ---------------------------------------------------------------------------
// The resolver
// ---------------------------------------------------------------------------

/// The decode of a reply never answers with an empty list: an accepted reply
/// without addresses means that the host was not found.
pub proof fn law_answers_hold_an_address(reply: Seq<u8>, host: Seq<char>, port: u16)
    ensures
        decoded_reply(reply, host, port) matches Ok(addresses) ==> addresses.len() > 0,
{
}

/// The escaped form of a concatenation is the concatenation of the escaped
/// forms.
proof fn lemma_escaped_concat(left: Seq<u8>, right: Seq<u8>)
    ensures
        escaped_json(left + right) == escaped_json(left) + escaped_json(right),
    decreases right.len(),
{
    if right.len() == 0 {
        assert(left + right =~= left);
        assert(escaped_json(left) + escaped_json(right) =~= escaped_json(left));
    } else {
        lemma_escaped_concat(left, right.drop_last());
        assert((left + right).drop_last() =~= left + right.drop_last());
        assert(escaped_json(left + right) =~= escaped_json(left) + escaped_json(right));
    }
}

/// Bytes outside of ASCII are copied as they are.
proof fn lemma_escaped_high_bytes(bytes: Seq<u8>)
    requires
        forall|k: int| 0 <= k < bytes.len() ==> bytes[k] >= 0x80,
    ensures
        escaped_json(bytes) == bytes,
    decreases bytes.len(),
{
    if bytes.len() > 0 {
        lemma_escaped_high_bytes(bytes.drop_last());
        assert(escaped_json(bytes) =~= bytes.drop_last() + seq![bytes.last()]);
        assert(bytes.drop_last() + seq![bytes.last()] =~= bytes);
    }
}

/// A sequence of ASCII bytes is valid UTF-8.
proof fn lemma_ascii_valid(bytes: Seq<u8>)
    requires
        forall|k: int| 0 <= k < bytes.len() ==> bytes[k] < 0x80,
    ensures
        valid_utf8(bytes),
    decreases bytes.len(),
{
    if bytes.len() > 0 {
        let first = bytes[0];
        assert(first & 0x7f == first) by (bit_vector)
            requires
                first < 0x80,
        ;
        assert(valid_first_scalar(bytes));
        lemma_ascii_valid(pop_first_scalar(bytes));
    }
}

/// The value of the hexadecimal digit of a nibble is the nibble.
proof fn lemma_hex_round_trip(value: int)
    requires
        0 <= value < 16,
    ensures
        crate::tokenizer_spec::is_hex_digit(hex_char(value)),
        hex_value(hex_char(value)) == value,
{
}

/// The escaped form of one character, followed by anything, decodes to that
/// character and consumes exactly its escaped form.
proof fn lemma_escaped_char_decodes(chars: Seq<char>, later: Seq<u8>, offset: int)
    requires
        chars.len() > 0,
        valid_utf8(escaped_json(encode_scalar(chars[0] as u32)) + later),
    ensures
        decode_step(escaped_json(encode_scalar(chars[0] as u32)) + later, offset) == DecodeStep::Char(
            chars[0],
            escaped_json(encode_scalar(chars[0] as u32)).len(),
        ),
{
    reveal(decode_step);
    let character = chars[0];
    let value = character as u32;
    let encoded = encode_scalar(value);
    let escaped = escaped_json(encoded);
    let rest = escaped + later;
    encode_utf8_first_scalar(chars);
    let whole = encode_utf8(chars);
    assert(whole =~= encoded + encode_utf8(chars.drop_first()));
    char_u32_cast(character, value);
    if value < 0x80 {
        let byte = encoded[0];
        assert(encoded.len() == 1);
        assert(byte == whole[0]);
        assert(byte & 0x7f == byte) by (bit_vector)
            requires
                byte < 0x80,
        ;
        assert(byte as u32 == value);
        assert(encoded.drop_last() =~= Seq::<u8>::empty());
        assert(escaped_json(encoded.drop_last()) =~= Seq::<u8>::empty());
        assert(encoded.last() == byte);
        assert(escaped =~= escaped_byte(byte));
        if byte == 0x22 || byte == 0x5c || byte == 0x2f || byte == 0x08 || byte == 0x0c || byte
            == 0x0a || byte == 0x0d || byte == 0x09 {
            assert(rest[0] == 0x5c);
            assert(rest[1] == escaped[1]);
            assert(simple_escape(rest[1]) == Some(character));
        } else if byte < 0x20 {
            let high = (byte / 16) as int;
            let low = (byte % 16) as int;
            lemma_hex_round_trip(high);
            lemma_hex_round_trip(low);
            assert(rest[0] == 0x5c && rest[1] == 0x75);
            assert(rest[2] == 0x30 && rest[3] == 0x30 && rest[4] == hex_char(high) && rest[5]
                == hex_char(low));
            assert(hex4(rest, 2) == Some(value));
        } else {
            assert(rest[0] == byte);
            assert(decode_first_codepoint(rest) == decode_first_codepoint(whole));
            assert(length_of_first_codepoint(rest) == length_of_first_codepoint(whole));
        }
    } else {
        assert(valid_first_scalar(whole));
        let width = encoded.len();
        assert(2 <= width <= 4);
        assert forall|k: int| 0 <= k < width implies #[trigger] encoded[k] >= 0x80 by {
            assert(encoded[k] == whole[k]);
        }
        lemma_escaped_high_bytes(encoded);
        assert forall|k: int| 0 <= k < width implies #[trigger] rest[k] == whole[k] by {}
        assert(decode_first_codepoint(rest) == decode_first_codepoint(whole));
        assert(length_of_first_codepoint(rest) == length_of_first_codepoint(whole));
        assert(rest[0] != 0x5c);
    }
}

/// The escaped form of UTF-8 text is valid UTF-8, and its decode as the
/// contents of a JSON string gives back the text, with no error.
proof fn lemma_escape_round_trip(chars: Seq<char>, offset: int)
    ensures
        valid_utf8(escaped_json(encode_utf8(chars))),
        decode_items(escaped_json(encode_utf8(chars)), offset) == (chars, None::<Error>),
    decreases chars.len(),
{
    let bytes = encode_utf8(chars);
    if chars.len() == 0 {
        reveal(decode_step);
        assert(escaped_json(bytes) =~= Seq::<u8>::empty());
        lemma_ascii_valid(escaped_json(bytes));
        assert(chars =~= Seq::<char>::empty());
    } else {
        let character = chars[0];
        let encoded = encode_scalar(character as u32);
        let tail = encode_utf8(chars.drop_first());
        assert(bytes =~= encoded + tail);
        lemma_escaped_concat(encoded, tail);
        let escaped = escaped_json(encoded);
        let escaped_tail = escaped_json(tail);
        lemma_escape_round_trip(chars.drop_first(), offset + escaped.len());
        // The escaped form of the first character is valid UTF-8.
        if (character as u32) < 0x80 {
            encode_utf8_first_scalar(chars);
            assert(encoded.len() == 1);
            assert(encoded.drop_last() =~= Seq::<u8>::empty());
            assert(escaped_json(encoded.drop_last()) =~= Seq::<u8>::empty());
            assert(encoded.last() == encoded[0]);
            assert(escaped =~= escaped_byte(encoded[0]));
            assert forall|k: int| 0 <= k < escaped.len() implies #[trigger] escaped[k] < 0x80 by {
                lemma_hex_round_trip((encoded[0] / 16) as int);
                lemma_hex_round_trip((encoded[0] % 16) as int);
            }
            lemma_ascii_valid(escaped);
        } else {
            encode_utf8_first_scalar(chars);
            assert(valid_first_scalar(bytes));
            assert forall|k: int| 0 <= k < encoded.len() implies #[trigger] encoded[k] >= 0x80 by {
                assert(encoded[k] == bytes[k]);
            }
            lemma_escaped_high_bytes(encoded);
            encode_utf8_valid_utf8(seq![character]);
            assert(encode_utf8(seq![character]) =~= encoded) by {
                reveal_with_fuel(encode_utf8, 2);
                assert(seq![character].drop_first() =~= Seq::<char>::empty());
            }
        }
        valid_utf8_concat(escaped, escaped_tail);
        assert(escaped_json(bytes) =~= escaped + escaped_tail);
        lemma_escaped_char_decodes(chars, escaped_tail, offset);
        let all = escaped + escaped_tail;
        assert(all.subrange(escaped.len() as int, all.len() as int) =~= escaped_tail);
        assert(chars =~= seq![character] + chars.drop_first());
    }
}

/// The host name that a request carries arrives unchanged: the contents of
/// the JSON string that the request encoder writes decode, with the escape
/// sequences of JSON, to exactly the characters of the host name.
pub proof fn law_request_name_round_trips(host: &str)
    ensures
        unescaped(escaped_json(host.spec_bytes())) == (host@, None::<Error>),
{
    lemma_escape_round_trip(host@, 0);
}

} // verus!
