//! A borrowed JSON string body that contains escape sequences.

use vstd::prelude::*;
use vstd::slice::slice_subrange;
use vstd::string::{StringExecFns, StringSliceAdditionalSpecFns};
use vstd::utf8::{
    char_u32_cast, decode_utf8, encode_scalar, encode_utf8, encode_utf8_first_scalar,
    is_char_boundary, is_scalar, valid_utf8,
};

use crate::json_error::{group_json_error, json_error, Error, ErrorKind};
use crate::text::{
    lemma_ascii_boundaries, lemma_next_boundary, lemma_str_bytes_valid, utf8_text,
};
use crate::tokenizer_spec::is_hex_digit;
use crate::unescape_spec::{
    decode_items, decode_step, encoded_len, fit_count, hex4, hex_value, lemma_decode_items_step,
    lemma_encode_push, lemma_encoding_continues, lemma_unescape_items_step, surrogate_pair_value,
    unescape_items, unescape_into_outcome,
    unescaped, unicode_escape_step, DecodeStep,
};

verus! {

broadcast use group_json_error, vstd::utf8::group_utf8_lib, vstd::string::group_string_axioms;

/// `char::from_u32` gives the character of a Unicode scalar value, and `None`
/// for a value that is not one (a surrogate or a value above `0x10FFFF`).
pub assume_specification[ char::from_u32 ](value: u32) -> (character: Option<char>)
    ensures
        is_scalar(value) ==> character == Some(value as char),
        !is_scalar(value) ==> character is None,
;

/// The number of bytes of the UTF-8 encoding of `character`.
fn utf8_width(character: char) -> (width: usize)
    ensures
        width == encode_scalar(character as u32).len(),
        1 <= width <= 4,
{
    let value = character as u32;
    if value < 0x80 {
        1
    } else if value < 0x800 {
        2
    } else if value < 0x10000 {
        3
    } else {
        4
    }
}

/// The UTF-8 encoding of `character`: its bytes, and how many of the four are
/// used.
fn encode_char(character: char) -> (encoded: ([u8; 4], usize))
    ensures
        encoded.1 == encode_scalar(character as u32).len(),
        1 <= encoded.1 <= 4,
        encoded.0@.subrange(0, encoded.1 as int) == encode_scalar(character as u32),
{
    let value = character as u32;
    if value < 0x80 {
        let bytes: [u8; 4] = [(value & 0x7F) as u8, 0, 0, 0];
        assert(bytes@.subrange(0, 1) =~= encode_scalar(value));
        (bytes, 1)
    } else if value < 0x800 {
        let bytes: [u8; 4] = [0xC0 | ((value >> 6) & 0x1F) as u8, 0x80 | (value & 0x3F) as u8, 0, 0];
        assert(bytes@.subrange(0, 2) =~= encode_scalar(value));
        (bytes, 2)
    } else if value < 0x10000 {
        let bytes: [u8; 4] = [
            0xE0 | ((value >> 12) & 0x0F) as u8,
            0x80 | ((value >> 6) & 0x3F) as u8,
            0x80 | (value & 0x3F) as u8,
            0,
        ];
        assert(bytes@.subrange(0, 3) =~= encode_scalar(value));
        (bytes, 3)
    } else {
        let bytes: [u8; 4] = [
            0xF0 | ((value >> 18) & 0x7) as u8,
            0x80 | ((value >> 12) & 0x3F) as u8,
            0x80 | ((value >> 6) & 0x3F) as u8,
            0x80 | (value & 0x3F) as u8,
        ];
        assert(bytes@.subrange(0, 4) =~= encode_scalar(value));
        (bytes, 4)
    }
}

/// Whether the `width` bytes of `expected` from `at` on are the first `width`
/// bytes of `encoded`.
fn bytes_equal_at(expected: &[u8], at: usize, encoded: &[u8; 4], width: usize) -> (equal: bool)
    requires
        width <= 4,
        at + width <= expected@.len(),
    ensures
        equal == (expected@.subrange(at as int, at + width) == encoded@.subrange(0, width as int)),
{
    let _ = expected.len();
    let mut index: usize = 0;
    while index < width
        invariant
            index <= width <= 4,
            at + width <= expected@.len(),
            expected@.len() <= usize::MAX,
            forall|k: int| 0 <= k < index ==> expected@[at + k] == #[trigger] encoded@[k],
        decreases width - index,
    {
        if expected[at + index] != encoded[index] {
            assert(expected@.subrange(at as int, at + width)[index as int] != encoded@.subrange(
                0,
                width as int,
            )[index as int]);
            return false;
        }
        index = index + 1;
    }
    assert(expected@.subrange(at as int, at + width) =~= encoded@.subrange(0, width as int));
    true
}

/// Writes the first `width` bytes of `encoded` into `buffer` at `at`.
fn store(buffer: &mut [u8], at: usize, encoded: &[u8; 4], width: usize)
    requires
        width <= 4,
        at + width <= old(buffer)@.len(),
    ensures
        final(buffer)@ == old(buffer)@.subrange(0, at as int) + encoded@.subrange(0, width as int)
            + old(buffer)@.skip(at + width),
{
    let _ = buffer.len();
    let mut index: usize = 0;
    while index < width
        invariant
            index <= width <= 4,
            at + width <= old(buffer)@.len(),
            old(buffer)@.len() <= usize::MAX,
            buffer@.len() == old(buffer)@.len(),
            buffer@ == old(buffer)@.subrange(0, at as int) + encoded@.subrange(0, index as int)
                + old(buffer)@.skip(at + index),
        decreases width - index,
    {
        buffer[at + index] = encoded[index];
        assert(buffer@ =~= old(buffer)@.subrange(0, at as int) + encoded@.subrange(0, index + 1)
            + old(buffer)@.skip(at + index + 1));
        index = index + 1;
    }
}

/// The value of one hexadecimal digit, if `byte` is one.
fn nibble(byte: u8) -> (value: Option<u32>)
    ensures
        is_hex_digit(byte) ==> value == Some(hex_value(byte)),
        !is_hex_digit(byte) ==> value is None,
{
    if 0x30 <= byte && byte <= 0x39 {
        Some((byte - 0x30) as u32)
    } else if 0x61 <= byte && byte <= 0x66 {
        Some((byte - 0x61 + 10) as u32)
    } else if 0x41 <= byte && byte <= 0x46 {
        Some((byte - 0x41 + 10) as u32)
    } else {
        None
    }
}

/// The body of a JSON string that contains at least one escape sequence. The
/// body borrows from the input, and the escape sequences keep the form that
/// they have in the input.
///
/// The type has no `Deref<Target = str>` and no `PartialEq<str>`: an
/// undecoded body must not be used as text by accident.
///
/// `Debug` shows the raw body, because the raw body is the content of this
/// type: `EscapeString("caf\\u00e9")`.
#[derive(Clone, Copy, Debug, PartialEq, Eq)]
pub struct EscapeString<'a>(&'a str);

impl<'a> EscapeString<'a> {
    /// The undecoded bytes of the body.
    pub closed spec fn raw_bytes(self) -> Seq<u8> {
        self.0.spec_bytes()
    }

    /// The undecoded characters of the body.
    pub closed spec fn raw_text(self) -> Seq<char> {
        self.0@
    }

    pub(crate) fn new(raw: &'a str) -> (text: Self)
        ensures
            text.raw_bytes() == raw.spec_bytes(),
    {
        Self(raw)
    }

    /// Returns the body in the form that it has in the input, with the escape
    /// sequences unchanged.
    pub fn as_raw_str(self) -> (raw: &'a str)
        ensures
            raw.spec_bytes() == self.raw_bytes(),
    {
        self.0
    }

    /// Returns the length of the undecoded body in bytes. A decode never
    /// increases the length of a body, thus this length is always a sufficient
    /// buffer size for [`unescape_into`](Self::unescape_into).
    pub fn raw_len(self) -> (length: usize)
        ensures
            length == self.raw_bytes().len(),
    {
        self.0.as_bytes().len()
    }

    /// Returns an iterator over the decoded characters. The iterator reports
    /// one error at the most and then stops.
    pub fn unescape(self) -> (characters: Unescape<'a>)
        ensures
            characters.wf(),
            characters.rest_bytes() == self.raw_bytes(),
            characters.spec_offset() == 0,
    {
        let _ = self.0.as_bytes().len();
        Unescape { rest: self.0, offset: 0 }
    }

    /// Compares the decoded value with `other`, and uses no buffer.
    pub fn eq_unescaped(self, other: &str) -> (equal: bool)
        ensures
            equal == (unescaped(self.raw_bytes()) == (other@, None::<Error>)),
    {
        let expected = other.as_bytes();
        let ghost all = unescaped(self.raw_bytes());
        let mut characters = self.unescape();
        let mut position: usize = 0;
        let ghost mut count: nat = 0;
        proof {
            assert(all.0.skip(0) =~= all.0);
            assert(all.0.take(0) =~= Seq::<char>::empty());
        }
        loop
            invariant
                characters.wf(),
                all == unescaped(self.raw_bytes()),
                expected@ == other.spec_bytes(),
                count <= all.0.len(),
                decode_items(characters.rest_bytes(), characters.spec_offset()) == (
                    all.0.skip(count as int),
                    all.1,
                ),
                position <= expected@.len(),
                encode_utf8(all.0.take(count as int)) == expected@.subrange(0, position as int),
            decreases characters.rest_bytes().len(),
        {
            let ghost rest = characters.rest_bytes();
            let ghost offset = characters.spec_offset();
            proof {
                characters.lemma_valid();
                lemma_decode_items_step(rest, offset, all.0, all.1, count);
            }
            match characters.next() {
                None => {
                    assert(decode_step(rest, offset) is End);
                    assert(count == all.0.len());
                    let equal = position == expected.len();
                    proof {
                        assert(all.0.take(count as int) =~= all.0);
                        if equal {
                            assert(expected@.subrange(0, position as int) =~= other.spec_bytes());
                            assert(decode_utf8(encode_utf8(all.0)) == all.0);
                            assert(decode_utf8(encode_utf8(other@)) == other@);
                        } else if all == (other@, None::<Error>) {
                            assert(encode_utf8(all.0).len() == other.spec_bytes().len());
                        }
                    }
                    return equal;
                },
                Some(Err(_)) => {
                    assert(decode_step(rest, offset) is Fail);
                    assert(all.1 is Some);
                    return false;
                },
                Some(Ok(character)) => {
                    let (encoded, width) = encode_char(character);
                    proof {
                        assert(all.0.take(count as int + 1) =~= all.0.take(count as int).push(
                            character,
                        ));
                        lemma_encode_push(all.0.take(count as int), character);
                        if all == (other@, None::<Error>) {
                            lemma_encoding_continues(all.0, count as int, expected@, position as int);
                        }
                    }
                    if width > expected.len() - position || !bytes_equal_at(
                        expected,
                        position,
                        &encoded,
                        width,
                    ) {
                        return false;
                    }
                    proof {
                        assert(expected@.subrange(0, position + width) =~= expected@.subrange(
                            0,
                            position as int,
                        ) + encode_scalar(character as u32));
                        count = count + 1;
                    }
                    position = position + width;
                },
            }
        }
    }

    /// Decodes the body into `buffer` and returns the result. The length of
    /// the raw body is always a sufficient size.
    ///
    /// Returns `BufferTooSmall` if `buffer` cannot hold the result, and
    /// `LoneSurrogate` if a `\u` escape sequence names one half of a surrogate
    /// pair and there is no valid partner for it.
    pub fn unescape_into<'b>(self, buffer: &'b mut [u8]) -> (result: Result<&'b str, Error>)
        ensures
            final(buffer)@ == encode_utf8(
                unescaped(self.raw_bytes()).0.take(
                    fit_count(unescaped(self.raw_bytes()).0, 0, old(buffer)@.len() as int) as int,
                ),
            ) + old(buffer)@.skip(
                encoded_len(
                    unescaped(self.raw_bytes()).0,
                    fit_count(unescaped(self.raw_bytes()).0, 0, old(buffer)@.len() as int),
                ) as int,
            ),
            match unescape_into_outcome(self.raw_bytes(), old(buffer)@.len() as int) {
                Ok(()) => result matches Ok(text) && text@ == unescaped(self.raw_bytes()).0,
                Err(error) => result == Err::<&'b str, Error>(error),
            },
    {
        let capacity = buffer.len();
        let ghost initial = buffer@;
        let ghost all = unescaped(self.raw_bytes());
        let ghost fit = fit_count(all.0, 0, capacity as int);
        let mut characters = self.unescape();
        let mut written: usize = 0;
        let ghost mut count: nat = 0;
        proof {
            assert(all.0.skip(0) =~= all.0);
            assert(all.0.take(0) =~= Seq::<char>::empty());
            assert(initial.skip(0) =~= initial);
        }
        loop
            invariant
                characters.wf(),
                buffer@.len() == capacity,
                initial.len() == capacity,
                initial == old(buffer)@,
                all == unescaped(self.raw_bytes()),
                fit == fit_count(all.0, 0, capacity as int),
                count <= all.0.len(),
                decode_items(characters.rest_bytes(), characters.spec_offset()) == (
                    all.0.skip(count as int),
                    all.1,
                ),
                written <= capacity,
                written == encoded_len(all.0, count),
                fit == count + fit_count(all.0.skip(count as int), written as int, capacity as int),
                buffer@ == encode_utf8(all.0.take(count as int)) + initial.skip(written as int),
            decreases characters.rest_bytes().len(),
        {
            let ghost rest = characters.rest_bytes();
            let ghost offset = characters.spec_offset();
            proof {
                characters.lemma_valid();
                lemma_decode_items_step(rest, offset, all.0, all.1, count);
            }
            match characters.next() {
                None => {
                    proof {
                        assert(all.0.take(count as int) =~= all.0);
                    }
                    let filled: &'b [u8] = buffer;
                    let decoded = slice_subrange(filled, 0, written);
                    proof {
                        assert(decoded@ =~= encode_utf8(all.0));
                    }
                    return match utf8_text(decoded) {
                        Ok(text) => {
                            proof {
                                assert(decode_utf8(encode_utf8(text@)) == text@);
                                assert(decode_utf8(encode_utf8(all.0)) == all.0);
                            }
                            Ok(text)
                        },
                        Err(_) => Err(Error::new(ErrorKind::BufferTooSmall, written)),
                    };
                },
                Some(Err(error)) => {
                    return Err(error);
                },
                Some(Ok(character)) => {
                    let (encoded, width) = encode_char(character);
                    let ghost before = all.0.take(count as int);
                    proof {
                        assert(all.0.take(count as int + 1) =~= before.push(character));
                        lemma_encode_push(before, character);
                        assert(all.0.skip(count as int + 1) =~= all.0.skip(count as int).drop_first());
                    }
                    if width > capacity - written {
                        return Err(Error::new(ErrorKind::BufferTooSmall, written));
                    }
                    store(buffer, written, &encoded, width);
                    proof {
                        assert(buffer@ =~= encode_utf8(all.0.take(count as int + 1)) + initial.skip(
                            written + width,
                        ));
                        count = count + 1;
                    }
                    written = written + width;
                },
            }
        }
    }
}

/// An iterator over the decoded characters of an [`EscapeString`].
///
/// The iterator reports one error at the most, and is exhausted after it, thus
/// a loop over its items always terminates.
#[derive(Clone, Debug)]
pub struct Unescape<'a> {
    rest: &'a str,
    offset: usize,
}

impl<'a> Unescape<'a> {
    /// The undecoded bytes that remain.
    pub closed spec fn rest_bytes(&self) -> Seq<u8> {
        self.rest.spec_bytes()
    }

    /// How many bytes of the body were consumed.
    pub closed spec fn spec_offset(&self) -> int {
        self.offset as int
    }

    /// The offset and the remaining length fit in a `usize`.
    pub closed spec fn wf(&self) -> bool {
        self.offset + self.rest.spec_bytes().len() <= usize::MAX
    }

    /// The remaining bytes are valid UTF-8, because they are text.
    pub proof fn lemma_valid(&self)
        ensures
            valid_utf8(self.rest_bytes()),
    {
        lemma_str_bytes_valid(self.rest);
    }

    /// Consumes `count` bytes of the remaining body.
    fn advance(&mut self, count: usize)
        requires
            old(self).wf(),
            count <= old(self).rest_bytes().len(),
            is_char_boundary(old(self).rest_bytes(), count as int),
        ensures
            final(self).wf(),
            final(self).rest_bytes() == old(self).rest_bytes().subrange(
                count as int,
                old(self).rest_bytes().len() as int,
            ),
            final(self).spec_offset() == old(self).spec_offset() + count,
    {
        let (_, tail) = self.rest.split_at(count);
        self.rest = tail;
        self.offset = self.offset + count;
    }

    /// Reads the four hexadecimal digits that start `at` bytes into the body.
    fn hex4(&self, at: usize) -> (value: Result<u32, Error>)
        ensures
            match hex4(self.rest_bytes(), at as int) {
                Some(digits) => value == Ok::<u32, Error>(digits),
                None => value == Err::<u32, Error>(
                    json_error(ErrorKind::InvalidEscape, self.offset),
                ),
            },
    {
        let bytes = self.rest.as_bytes();
        if bytes.len() < 4 || at > bytes.len() - 4 {
            return Err(Error::new(ErrorKind::InvalidEscape, self.offset));
        }
        let first = match nibble(bytes[at]) {
            Some(value) => value,
            None => return Err(Error::new(ErrorKind::InvalidEscape, self.offset)),
        };
        let second = match nibble(bytes[at + 1]) {
            Some(value) => value,
            None => return Err(Error::new(ErrorKind::InvalidEscape, self.offset)),
        };
        let third = match nibble(bytes[at + 2]) {
            Some(value) => value,
            None => return Err(Error::new(ErrorKind::InvalidEscape, self.offset)),
        };
        let fourth = match nibble(bytes[at + 3]) {
            Some(value) => value,
            None => return Err(Error::new(ErrorKind::InvalidEscape, self.offset)),
        };
        proof {
            assert forall|k: int| at <= k < at + 4 implies is_hex_digit(#[trigger] bytes@[k]) by {
                if k == at + 1 {
                } else if k == at + 2 {
                } else if k == at + 3 {
                }
            }
        }
        Ok(first * 4096 + second * 256 + third * 16 + fourth)
    }

    /// Decodes the `\u` escape sequence at the start of the body. If a
    /// surrogate pair is present, this method joins the two halves.
    fn decode_unicode_escape(&mut self) -> (decoded: Result<char, Error>)
        requires
            old(self).wf(),
            old(self).rest_bytes().len() >= 2,
            old(self).rest_bytes()[0] == 0x5c,
            old(self).rest_bytes()[1] == 0x75,
        ensures
            final(self).wf(),
            match unicode_escape_step(old(self).rest_bytes(), old(self).spec_offset()) {
                DecodeStep::Char(character, width) => decoded == Ok::<char, Error>(character)
                    && final(self).rest_bytes() == old(self).rest_bytes().subrange(
                    width as int,
                    old(self).rest_bytes().len() as int,
                ) && final(self).spec_offset() == old(self).spec_offset() + width,
                DecodeStep::Fail(error) => decoded == Err::<char, Error>(error) && *final(self)
                    == *old(self),
                DecodeStep::End => false,
            },
    {
        let ghost bytes = self.rest_bytes();
        proof {
            lemma_str_bytes_valid(self.rest);
        }
        let leading = match self.hex4(2) {
            Ok(value) => value,
            Err(error) => return Err(error),
        };
        if 0xD800 <= leading && leading < 0xDC00 {
            let raw = self.rest.as_bytes();
            if !(raw.len() >= 8 && raw[6] == 0x5c && raw[7] == 0x75) {
                return Err(Error::new(ErrorKind::LoneSurrogate, self.offset));
            }
            let trailing = match self.hex4(8) {
                Ok(value) => value,
                Err(error) => return Err(error),
            };
            if !(0xDC00 <= trailing && trailing < 0xE000) {
                return Err(Error::new(ErrorKind::LoneSurrogate, self.offset));
            }
            let combined = 0x1_0000 + (leading - 0xD800) * 1024 + (trailing - 0xDC00);
            assert(combined == surrogate_pair_value(leading, trailing));
            let character = match char::from_u32(combined) {
                Some(character) => character,
                None => return Err(Error::new(ErrorKind::LoneSurrogate, self.offset)),
            };
            proof {
                lemma_ascii_boundaries(bytes, 11);
            }
            self.advance(12);
            return Ok(character);
        }
        if 0xDC00 <= leading && leading < 0xE000 {
            return Err(Error::new(ErrorKind::LoneSurrogate, self.offset));
        }
        let character = match char::from_u32(leading) {
            Some(character) => character,
            None => return Err(Error::new(ErrorKind::LoneSurrogate, self.offset)),
        };
        proof {
            lemma_ascii_boundaries(bytes, 5);
        }
        self.advance(6);
        Ok(character)
    }

    /// Decodes the next character, and does not stop the iterator after an
    /// error as `next` does.
    fn step(&mut self) -> (decoded: Option<Result<char, Error>>)
        requires
            old(self).wf(),
        ensures
            final(self).wf(),
            match decode_step(old(self).rest_bytes(), old(self).spec_offset()) {
                DecodeStep::End => decoded is None && *final(self) == *old(self),
                DecodeStep::Char(character, width) => decoded == Some(Ok::<char, Error>(character))
                    && final(self).rest_bytes() == old(self).rest_bytes().subrange(
                    width as int,
                    old(self).rest_bytes().len() as int,
                ) && final(self).spec_offset() == old(self).spec_offset() + width,
                DecodeStep::Fail(error) => decoded == Some(Err::<char, Error>(error)) && *final(self) == *old(self),
            },
    {
        reveal(decode_step);
        let ghost text = self.rest@;
        let bytes = self.rest.as_bytes();
        proof {
            lemma_str_bytes_valid(self.rest);
        }
        if bytes.len() == 0 {
            return None;
        }
        if bytes[0] != 0x5c {
            let mut characters = self.rest.chars();
            let character = match characters.next() {
                Some(character) => character,
                None => return None,
            };
            let width = utf8_width(character);
            proof {
                assert(text.len() > 0);
                assert(character == text[0]);
                encode_utf8_first_scalar(text);
                char_u32_cast(character, character as u32);
                lemma_next_boundary(bytes@, 0);
                assert(bytes@.subrange(0, bytes@.len() as int) =~= bytes@);
            }
            self.advance(width);
            return Some(Ok(character));
        }
        if bytes.len() < 2 {
            return Some(Err(Error::new(ErrorKind::InvalidEscape, self.offset)));
        }
        let escape = bytes[1];
        let simple = if escape == 0x22 {
            '"'
        } else if escape == 0x5c {
            '\\'
        } else if escape == 0x2f {
            '/'
        } else if escape == 0x62 {
            '\u{0008}'
        } else if escape == 0x66 {
            '\u{000C}'
        } else if escape == 0x6e {
            '\n'
        } else if escape == 0x72 {
            '\r'
        } else if escape == 0x74 {
            '\t'
        } else if escape == 0x75 {
            return Some(self.decode_unicode_escape());
        } else {
            return Some(Err(Error::new(ErrorKind::InvalidEscape, self.offset)));
        };
        proof {
            lemma_ascii_boundaries(bytes@, 1);
        }
        self.advance(2);
        Some(Ok(simple))
    }

    /// Returns the next decoded character, or the error that stops the
    /// decode. After an error the iterator is exhausted.
    pub fn next(&mut self) -> (item: Option<Result<char, Error>>)
        requires
            old(self).wf(),
        ensures
            final(self).wf(),
            match decode_step(old(self).rest_bytes(), old(self).spec_offset()) {
                DecodeStep::End => {
                    &&& item is None
                    &&& final(self).rest_bytes() == old(self).rest_bytes()
                    &&& final(self).spec_offset() == old(self).spec_offset()
                },
                DecodeStep::Char(character, width) => item == Some(Ok::<char, Error>(character))
                    && final(self).rest_bytes() == old(self).rest_bytes().subrange(
                    width as int,
                    old(self).rest_bytes().len() as int,
                ) && final(self).spec_offset() == old(self).spec_offset() + width,
                DecodeStep::Fail(error) => {
                    &&& item == Some(Err::<char, Error>(error))
                    &&& final(self).rest_bytes().len() == 0
                    &&& final(self).spec_offset() == old(self).spec_offset()
                },
            },
            ({
                let items = unescape_items(old(self).rest_bytes(), old(self).spec_offset());
                let later = unescape_items(final(self).rest_bytes(), final(self).spec_offset());
                &&& items.len() == 0 ==> item is None && later.len() == 0
                &&& items.len() > 0 ==> item == Some(items[0]) && later == items.drop_first()
            }),
    {
        proof {
            self.lemma_valid();
            lemma_unescape_items_step(self.rest_bytes(), self.spec_offset());
        }
        let decoded = self.step();
        if let Some(Err(_)) = decoded {
            // Stop after one report of a failure, thus a loop over all the
            // items of the iterator terminates.
            self.rest = "";
            proof {
                reveal_strlit("");
            }
        }
        decoded
    }
}

} // verus!
