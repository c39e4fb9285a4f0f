//! The meaning of the escape sequences of a JSON string body, stated over the
//! bytes of the body.

use vstd::prelude::*;
use vstd::utf8::{
    decode_first_scalar, encode_scalar, encode_utf8, is_char_boundary_start_end_of_seq,
    length_of_first_scalar, valid_first_scalar, valid_utf8, valid_utf8_split,
};

use crate::text::{lemma_ascii_boundaries, lemma_next_boundary};

use crate::json_error::{group_json_error, json_error, Error, ErrorKind};
use crate::tokenizer_spec::is_hex_digit;

verus! {

broadcast use group_json_error;

/// What the decode of the next character of a body does.
pub enum DecodeStep {
    /// The body is exhausted.
    End,
    /// The next character, and the number of body bytes that encode it.
    Char(char, nat),
    /// The body holds an escape sequence that cannot be decoded here.
    Fail(Error),
}

/// The value of one hexadecimal digit.
pub open spec fn hex_value(byte: u8) -> u32 {
    if 0x30 <= byte <= 0x39 {
        (byte - 0x30) as u32
    } else if 0x61 <= byte <= 0x66 {
        (byte - 0x61 + 10) as u32
    } else {
        (byte - 0x41 + 10) as u32
    }
}

/// The value of the four hexadecimal digits that start `at` bytes into the
/// body, if there are four such digits.
pub open spec fn hex4(rest: Seq<u8>, at: int) -> Option<u32> {
    if at + 4 > rest.len() {
        None
    } else if forall|k: int| at <= k < at + 4 ==> is_hex_digit(#[trigger] rest[k]) {
        Some(
            (hex_value(rest[at]) * 4096 + hex_value(rest[at + 1]) * 256 + hex_value(rest[at + 2])
                * 16 + hex_value(rest[at + 3])) as u32,
        )
    } else {
        None
    }
}

/// The character that a simple escape `\x` names, for the byte `x`.
pub open spec fn simple_escape(escape: u8) -> Option<char> {
    if escape == 0x22 {
        Some('"')
    } else if escape == 0x5c {
        Some('\\')
    } else if escape == 0x2f {
        Some('/')
    } else if escape == 0x62 {
        Some('\u{0008}')
    } else if escape == 0x66 {
        Some('\u{000C}')
    } else if escape == 0x6e {
        Some('\n')
    } else if escape == 0x72 {
        Some('\r')
    } else if escape == 0x74 {
        Some('\t')
    } else {
        None
    }
}

pub open spec fn is_high_surrogate(value: u32) -> bool {
    0xD800 <= value < 0xDC00
}

pub open spec fn is_low_surrogate(value: u32) -> bool {
    0xDC00 <= value < 0xE000
}

/// The scalar value that a surrogate pair names.
pub open spec fn surrogate_pair_value(high: u32, low: u32) -> u32 {
    (0x10000 + (high - 0xD800) * 1024 + (low - 0xDC00)) as u32
}

/// Decodes the `\u` escape sequence at the start of `rest`. A high surrogate
/// must be followed by a `\u` escape of a low surrogate, and the two join.
pub open spec fn unicode_escape_step(rest: Seq<u8>, offset: int) -> DecodeStep {
    match hex4(rest, 2) {
        None => DecodeStep::Fail(json_error(ErrorKind::InvalidEscape, offset as usize)),
        Some(leading) => if is_high_surrogate(leading) {
            if !(rest.len() >= 8 && rest[6] == 0x5c && rest[7] == 0x75) {
                DecodeStep::Fail(json_error(ErrorKind::LoneSurrogate, offset as usize))
            } else {
                match hex4(rest, 8) {
                    None => DecodeStep::Fail(json_error(ErrorKind::InvalidEscape, offset as usize)),
                    Some(trailing) => if is_low_surrogate(trailing) {
                        DecodeStep::Char(surrogate_pair_value(leading, trailing) as char, 12)
                    } else {
                        DecodeStep::Fail(json_error(ErrorKind::LoneSurrogate, offset as usize))
                    },
                }
            }
        } else if is_low_surrogate(leading) {
            DecodeStep::Fail(json_error(ErrorKind::LoneSurrogate, offset as usize))
        } else {
            DecodeStep::Char(leading as char, 6)
        },
    }
}

/// Decodes the next character of `rest`, the part of a body that starts
/// `offset` bytes into it. An error reports `offset`.
#[verifier::opaque]
pub open spec fn decode_step(rest: Seq<u8>, offset: int) -> DecodeStep {
    if rest.len() == 0 {
        DecodeStep::End
    } else if rest[0] != 0x5c {
        DecodeStep::Char(decode_first_scalar(rest) as char, length_of_first_scalar(rest) as nat)
    } else if rest.len() < 2 {
        DecodeStep::Fail(json_error(ErrorKind::InvalidEscape, offset as usize))
    } else if rest[1] == 0x75 {
        unicode_escape_step(rest, offset)
    } else {
        match simple_escape(rest[1]) {
            Some(character) => DecodeStep::Char(character, 2),
            None => DecodeStep::Fail(json_error(ErrorKind::InvalidEscape, offset as usize)),
        }
    }
}

/// The characters that a decode of `rest` yields, and the error that stops
/// it, if any.
pub open spec fn decode_items(rest: Seq<u8>, offset: int) -> (Seq<char>, Option<Error>)
    decreases rest.len(),
    when valid_utf8(rest)
    via decode_items_decreases
{
    match decode_step(rest, offset) {
        DecodeStep::End => (Seq::empty(), None),
        DecodeStep::Fail(error) => (Seq::empty(), Some(error)),
        DecodeStep::Char(character, width) => {
            let later = decode_items(rest.subrange(width as int, rest.len() as int), offset + width);
            (seq![character] + later.0, later.1)
        },
    }
}

#[via_fn]
proof fn decode_items_decreases(rest: Seq<u8>, offset: int) {
    lemma_decode_step_width(rest, offset);
}

/// The decoded text of a whole body, and the error that stops the decode.
pub open spec fn unescaped(raw: Seq<u8>) -> (Seq<char>, Option<Error>) {
    decode_items(raw, 0)
}

/// The items that an iterator over the decode of `rest` still yields, in
/// order: each decoded character, and then the error that stops the decode,
/// if there is one.
pub open spec fn unescape_items(rest: Seq<u8>, offset: int) -> Seq<Result<char, Error>> {
    let (chars, error) = decode_items(rest, offset);
    chars.map_values(|character: char| Ok::<char, Error>(character)) + match error {
        Some(error) => seq![Err::<char, Error>(error)],
        None => Seq::empty(),
    }
}

/// The text that collecting `items` into a `Result` gives: all of the
/// characters, or the first error.
pub open spec fn collected(items: Seq<Result<char, Error>>) -> Result<Seq<char>, Error>
    decreases items.len(),
{
    if items.len() == 0 {
        Ok(Seq::empty())
    } else {
        match items[0] {
            Err(error) => Err(error),
            Ok(character) => match collected(items.drop_first()) {
                Ok(rest) => Ok(seq![character] + rest),
                Err(error) => Err(error),
            },
        }
    }
}

/// One step of the decode, seen as the items that remain: the end leaves no
/// item, a character is the first item, and an error is the last one.
pub proof fn lemma_unescape_items_step(rest: Seq<u8>, offset: int)
    requires
        valid_utf8(rest),
    ensures
        unescape_items(Seq::empty(), offset).len() == 0,
        decode_step(rest, offset) is End ==> unescape_items(rest, offset).len() == 0,
        decode_step(rest, offset) matches DecodeStep::Fail(error) ==> unescape_items(rest, offset)
            == seq![Err::<char, Error>(error)],
        decode_step(rest, offset) matches DecodeStep::Char(character, width) ==> unescape_items(
            rest,
            offset,
        ) == seq![Ok::<char, Error>(character)] + unescape_items(
            rest.subrange(width as int, rest.len() as int),
            offset + width,
        ),
{
    reveal(decode_step);
    assert(decode_step(Seq::<u8>::empty(), offset) is End);
    assert(unescape_items(Seq::empty(), offset) =~= Seq::<Result<char, Error>>::empty());
    lemma_decode_step_width(rest, offset);
    match decode_step(rest, offset) {
        DecodeStep::End => {
            assert(unescape_items(rest, offset) =~= Seq::<Result<char, Error>>::empty());
        },
        DecodeStep::Fail(error) => {
            assert(unescape_items(rest, offset) =~= seq![Err::<char, Error>(error)]);
        },
        DecodeStep::Char(character, width) => {
            lemma_decode_step_rest_valid(rest, offset);
            let next = rest.subrange(width as int, rest.len() as int);
            let later = decode_items(next, offset + width);
            assert(decode_items(rest, offset) == (seq![character] + later.0, later.1));
            let all = unescape_items(rest, offset);
            let expected = seq![Ok::<char, Error>(character)] + unescape_items(next, offset + width);
            assert(all.len() == expected.len());
            assert forall|i: int| 0 <= i < all.len() implies all[i] == expected[i] by {
                if i == 0 {
                } else if i <= later.0.len() {
                    assert((seq![character] + later.0)[i] == later.0[i - 1]);
                } else {
                }
            }
            assert(all =~= expected);
        },
    }
}

/// A decoded character consumes at least one byte and no more bytes than are
/// left, and the bytes that remain are valid UTF-8 again.
pub proof fn lemma_decode_step_width(rest: Seq<u8>, offset: int)
    requires
        valid_utf8(rest),
    ensures
        decode_step(rest, offset) matches DecodeStep::Char(_, width) ==> 1 <= width <= rest.len(),
{
    reveal(decode_step);
    if rest.len() > 0 && rest[0] != 0x5c {
        assert(valid_first_scalar(rest));
    }
}

/// The characters of a decode come one at a time: when the decode of `rest`
/// yields the characters of `all` from position `count` on, the next step
/// yields `all[count]` and leaves the characters after it, or ends the
/// sequence.
pub proof fn lemma_decode_items_step(
    rest: Seq<u8>,
    offset: int,
    all: Seq<char>,
    error: Option<Error>,
    count: nat,
)
    requires
        valid_utf8(rest),
        count <= all.len(),
        decode_items(rest, offset) == (all.skip(count as int), error),
    ensures
        decode_step(rest, offset) is End ==> count == all.len() && error is None,
        decode_step(rest, offset) matches DecodeStep::Fail(e) ==> count == all.len() && error
            == Some(e),
        decode_step(rest, offset) matches DecodeStep::Char(character, width) ==> {
            &&& count < all.len()
            &&& all[count as int] == character
            &&& 1 <= width <= rest.len()
            &&& valid_utf8(rest.subrange(width as int, rest.len() as int))
            &&& decode_items(rest.subrange(width as int, rest.len() as int), offset + width) == (
                all.skip(count as int + 1),
                error,
            )
        },
{
    lemma_decode_step_width(rest, offset);
    match decode_step(rest, offset) {
        DecodeStep::End => {
            assert(all.skip(count as int).len() == 0);
        },
        DecodeStep::Fail(_) => {
            assert(all.skip(count as int).len() == 0);
        },
        DecodeStep::Char(character, width) => {
            lemma_decode_step_rest_valid(rest, offset);
            let later = decode_items(rest.subrange(width as int, rest.len() as int), offset + width);
            assert(all.skip(count as int) == seq![character] + later.0);
            assert(all.skip(count as int)[0] == all[count as int]);
            assert(all.skip(count as int + 1) =~= all.skip(count as int).drop_first());
            assert(later.0 =~= (seq![character] + later.0).drop_first());
        },
    }
}

/// After a decoded character, the bytes that remain are valid UTF-8 again.
pub proof fn lemma_decode_step_rest_valid(rest: Seq<u8>, offset: int)
    requires
        valid_utf8(rest),
    ensures
        decode_step(rest, offset) matches DecodeStep::Char(_, width) ==> valid_utf8(
            rest.subrange(width as int, rest.len() as int),
        ),
{
    lemma_decode_step_width(rest, offset);
    reveal(decode_step);
    if let DecodeStep::Char(_, width) = decode_step(rest, offset) {
        if rest[0] != 0x5c {
            is_char_boundary_start_end_of_seq(rest);
            lemma_next_boundary(rest, 0);
            assert(rest.subrange(0, rest.len() as int) =~= rest);
        } else {
            assert(rest[width - 1] < 0x80);
            lemma_ascii_boundaries(rest, width - 1);
        }
        valid_utf8_split(rest, width as int);
    }
}

/// When the whole of `all` encodes to `bytes`, and its first `count`
/// characters encode to the first `position` bytes, the next character
/// encodes to the bytes that follow.
pub proof fn lemma_encoding_continues(all: Seq<char>, count: int, bytes: Seq<u8>, position: int)
    requires
        0 <= count < all.len(),
        encode_utf8(all) == bytes,
        encode_utf8(all.take(count)) == bytes.subrange(0, position),
        0 <= position <= bytes.len(),
    ensures
        position + encode_scalar(all[count] as u32).len() <= bytes.len(),
        bytes.subrange(position, position + encode_scalar(all[count] as u32).len()) == encode_scalar(
            all[count] as u32,
        ),
{
    lemma_encoding_prefix(all, count + 1);
    assert(all.take(count + 1) =~= all.take(count).push(all[count]));
    lemma_encode_push(all.take(count), all[count]);
    let width = encode_scalar(all[count] as u32).len();
    assert(bytes.subrange(position, position + width) =~= encode_utf8(all.take(count + 1)).subrange(
        position,
        position + width,
    ));
}

/// When a sequence of characters is encoded, the encoding of each prefix of it
/// is a prefix of the encoding of the whole.
pub proof fn lemma_encoding_prefix(chars: Seq<char>, count: int)
    requires
        0 <= count <= chars.len(),
    ensures
        encode_utf8(chars.take(count)).len() <= encode_utf8(chars).len(),
        encode_utf8(chars.take(count)) == encode_utf8(chars).subrange(
            0,
            encode_utf8(chars.take(count)).len() as int,
        ),
    decreases chars.len() - count,
{
    if count < chars.len() {
        lemma_encoding_prefix(chars, count + 1);
        assert(chars.take(count + 1) =~= chars.take(count).push(chars[count]));
        lemma_encode_push(chars.take(count), chars[count]);
        assert(encode_utf8(chars.take(count)) =~= encode_utf8(chars.take(count + 1)).subrange(
            0,
            encode_utf8(chars.take(count)).len() as int,
        ));
    } else {
        assert(chars.take(count) =~= chars);
    }
}

/// How many of `chars`, written one after the other from byte `written`
/// on, fit into `capacity` bytes.
pub open spec fn fit_count(chars: Seq<char>, written: int, capacity: int) -> nat
    decreases chars.len(),
{
    if chars.len() == 0 {
        0
    } else {
        let width = encode_scalar(chars[0] as u32).len();
        if written + width > capacity {
            0
        } else {
            1 + fit_count(chars.drop_first(), written + width, capacity)
        }
    }
}

/// The number of bytes that the UTF-8 encoding of the first `count` of
/// `chars` takes.
pub open spec fn encoded_len(chars: Seq<char>, count: nat) -> nat {
    encode_utf8(chars.take(count as int)).len()
}

/// The outcome of a decode of `raw` into a buffer of `capacity` bytes: the
/// first character that does not fit causes `BufferTooSmall` at the number of
/// bytes written so far; otherwise an error of the decode itself is reported.
pub open spec fn unescape_into_outcome(raw: Seq<u8>, capacity: int) -> Result<(), Error> {
    let (chars, error) = unescaped(raw);
    let fit = fit_count(chars, 0, capacity);
    if fit < chars.len() {
        Err(json_error(ErrorKind::BufferTooSmall, encoded_len(chars, fit) as usize))
    } else {
        match error {
            Some(error) => Err(error),
            None => Ok(()),
        }
    }
}

/// The encoding of a sequence with one more character is the encoding of the
/// sequence followed by the encoding of that character.
pub proof fn lemma_encode_push(chars: Seq<char>, last: char)
    ensures
        encode_utf8(chars.push(last)) == encode_utf8(chars) + encode_scalar(last as u32),
    decreases chars.len(),
{
    if chars.len() == 0 {
        reveal_with_fuel(encode_utf8, 2);
        assert(chars.push(last).drop_first() =~= Seq::<char>::empty());
        assert(chars.push(last)[0] == last);
        assert(encode_utf8(chars.push(last)) =~= encode_scalar(last as u32));
    } else {
        lemma_encode_push(chars.drop_first(), last);
        assert(chars.push(last).drop_first() =~= chars.drop_first().push(last));
        assert(encode_utf8(chars.push(last)) =~= encode_utf8(chars) + encode_scalar(last as u32));
    }
}

} // verus!
