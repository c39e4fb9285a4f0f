//! Facts about the UTF-8 bytes of a `&str`, and the slicing of a `&str` at
//! byte offsets that those facts permit.

use vstd::prelude::*;
use vstd::string::StringSliceAdditionalSpecFns;
use vstd::utf8::*;

verus! {

broadcast use vstd::utf8::group_utf8_lib;

/// The bytes of a `str` are always valid UTF-8.
pub proof fn lemma_str_bytes_valid(s: &str)
    ensures
        valid_utf8(s.spec_bytes()),
{
    encode_utf8_valid_utf8(s@);
}

/// A byte that is not a continuation byte starts a character, and the end of
/// the text is also a character boundary.
pub proof fn lemma_boundary_at(bytes: Seq<u8>, index: int)
    requires
        valid_utf8(bytes),
        0 <= index <= bytes.len(),
        index == bytes.len() || !is_continuation_byte(bytes[index]),
    ensures
        is_char_boundary(bytes, index),
{
    if index == bytes.len() {
        is_char_boundary_start_end_of_seq(bytes);
    } else {
        is_char_boundary_iff_not_is_continuation_byte(bytes, index);
    }
}

/// At a character boundary, the remaining bytes begin with one whole
/// character, and the position after that character is a boundary again.
pub proof fn lemma_next_boundary(bytes: Seq<u8>, index: int)
    requires
        valid_utf8(bytes),
        0 <= index < bytes.len(),
        is_char_boundary(bytes, index),
    ensures
        valid_utf8(bytes.subrange(index, bytes.len() as int)),
        valid_first_scalar(bytes.subrange(index, bytes.len() as int)),
        1 <= length_of_first_scalar(bytes.subrange(index, bytes.len() as int)),
        index + length_of_first_scalar(bytes.subrange(index, bytes.len() as int)) <= bytes.len(),
        is_char_boundary(
            bytes,
            index + length_of_first_scalar(bytes.subrange(index, bytes.len() as int)),
        ),
{
    valid_utf8_split(bytes, index);
    let suffix = bytes.subrange(index, bytes.len() as int);
    assert(valid_first_scalar(suffix) && valid_utf8(pop_first_scalar(suffix)));
    let width = length_of_first_scalar(suffix);
    let next = index + width;
    let rest = pop_first_scalar(suffix);
    assert(rest =~= bytes.subrange(next, bytes.len() as int));
    if next < bytes.len() {
        assert(rest[0] == bytes[next]);
        assert(valid_first_scalar(rest));
    }
    lemma_boundary_at(bytes, next);
}

/// An ASCII byte is a whole character: both its position and the position
/// after it are character boundaries.
pub proof fn lemma_ascii_boundaries(bytes: Seq<u8>, index: int)
    requires
        valid_utf8(bytes),
        0 <= index < bytes.len(),
        bytes[index] < 0x80,
    ensures
        is_char_boundary(bytes, index),
        is_char_boundary(bytes, index + 1),
{
    lemma_boundary_at(bytes, index);
    lemma_next_boundary(bytes, index);
}

/// A boundary of the whole text is also a boundary of each suffix that starts
/// at an earlier boundary.
pub proof fn lemma_boundary_in_suffix(bytes: Seq<u8>, start: int, index: int)
    requires
        valid_utf8(bytes),
        0 <= start <= index <= bytes.len(),
        is_char_boundary(bytes, start),
        is_char_boundary(bytes, index),
    ensures
        valid_utf8(bytes.subrange(start, bytes.len() as int)),
        is_char_boundary(bytes.subrange(start, bytes.len() as int), index - start),
{
    valid_utf8_split(bytes, start);
    let suffix = bytes.subrange(start, bytes.len() as int);
    if index < bytes.len() {
        is_char_boundary_iff_not_is_continuation_byte(bytes, index);
        assert(suffix[index - start] == bytes[index]);
    }
    lemma_boundary_at(suffix, index - start);
}

/// The part of `text` between the byte offsets `start` and `end`. Both offsets
/// must be character boundaries.
pub fn sub_str<'a>(text: &'a str, start: usize, end: usize) -> (part: &'a str)
    requires
        start <= end <= text.spec_bytes().len(),
        is_char_boundary(text.spec_bytes(), start as int),
        is_char_boundary(text.spec_bytes(), end as int),
    ensures
        part.spec_bytes() == text.spec_bytes().subrange(start as int, end as int),
{
    proof {
        lemma_str_bytes_valid(text);
        lemma_boundary_in_suffix(text.spec_bytes(), start as int, end as int);
    }
    let (_, tail) = text.split_at(start);
    let (part, _) = tail.split_at(end - start);
    proof {
        assert(part.spec_bytes() =~= text.spec_bytes().subrange(start as int, end as int));
    }
    part
}

/// The length of the longest prefix of `bytes` that is valid UTF-8.
pub open spec fn utf8_valid_up_to(bytes: Seq<u8>) -> nat {
    choose|length: nat|
        length <= bytes.len() && valid_utf8(bytes.take(length as int)) && forall|longer: nat|
            length < longer <= bytes.len() ==> !valid_utf8(#[trigger] bytes.take(longer as int))
}

/// `core::str::from_utf8`: the bytes as text if they are valid UTF-8, and
/// otherwise `valid_up_to` of the error, the largest length of a prefix that
/// is valid UTF-8.
#[verifier::external_body]
pub(crate) fn utf8_text<'b>(bytes: &'b [u8]) -> (text: Result<&'b str, usize>)
    ensures
        text is Ok <==> valid_utf8(bytes@),
        text matches Ok(text) ==> text.spec_bytes() == bytes@,
        text matches Err(length) ==> {
            &&& length <= bytes@.len()
            &&& valid_utf8(bytes@.take(length as int))
            &&& forall|longer: nat|
                length < longer <= bytes@.len() ==> !valid_utf8(#[trigger] bytes@.take(longer as int))
        },
{
    match core::str::from_utf8(bytes) {
        Ok(text) => Ok(text),
        Err(error) => Err(error.valid_up_to()),
    }
}

/// A length that `utf8_text` reports is the one that [`utf8_valid_up_to`]
/// names: the longest valid prefix is unique.
pub proof fn lemma_valid_up_to(bytes: Seq<u8>, length: nat)
    requires
        length <= bytes.len(),
        valid_utf8(bytes.take(length as int)),
        forall|longer: nat|
            length < longer <= bytes.len() ==> !valid_utf8(#[trigger] bytes.take(longer as int)),
    ensures
        utf8_valid_up_to(bytes) == length,
{
    let chosen = utf8_valid_up_to(bytes);
    assert(chosen <= bytes.len() && valid_utf8(bytes.take(chosen as int)) && forall|longer: nat|
        chosen < longer <= bytes.len() ==> !valid_utf8(#[trigger] bytes.take(longer as int)));
    if chosen < length {
        assert(!valid_utf8(bytes.take(length as int)));
    } else if length < chosen {
        assert(!valid_utf8(bytes.take(chosen as int)));
    }
}

} // verus!
