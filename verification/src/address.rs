//! Addresses: an envelope behind the letter `S`.
//!
//! The letter is a tag for the reader's eye. It is written by the encoder
//! and dropped unread by the decoder, and no checksum covers it.

use vstd::prelude::*;
use vstd::utf8::{encode_utf8, is_ascii_chars, is_ascii_chars_encode_utf8};
use crate::alphabet::digit_of;
use crate::checksum::checksum;
use crate::codec::c32_max_len;
use crate::envelope::{
    c32_check_decode, c32_check_encode_prefixed, envelope, envelope_decoding, payload_view,
    text_view, wrapped, written_for, lemma_envelope_opens, lemma_envelope_round_trip,
    lemma_envelope_spelling, lemma_opened_len, lemma_same_payload_same_symbols,
};
use crate::error::Error;
use crate::text::{ascii_codes, ascii_text, behind_first_char, lemma_ascii_text_codes};

verus! {

/// The letter `S`, which every address starts with.
pub const ADDRESS_PREFIX: u8 = 0x53;

/// The address of a payload under a version.
pub open spec fn address_text(version: u8, payload: Seq<u8>) -> Seq<char> {
    ascii_text(seq![ADDRESS_PREFIX] + envelope(version, payload, checksum(version, payload)))
}

/// What encoding an address gives: the address, or no address for a
/// version that does not fit in five bits.
pub open spec fn address_encoding(version: u8, payload: Seq<u8>) -> Result<Seq<char>, Error> {
    wrapped(ADDRESS_PREFIX, version, payload, checksum(version, payload))
}

/// What decoding an address gives. An address of five bytes or fewer, in
/// UTF-8, is too short. The first character is dropped unread, whatever it
/// is: what follows it is the envelope.
pub open spec fn address_decoding(text: Seq<char>) -> Result<(u8, Seq<u8>), Error> {
    if encode_utf8(text).len() <= 5 {
        Err(Error::InvalidFormat)
    } else {
        envelope_decoding(text.drop_first())
    }
}

/// Decodes an address: the version and the payload it was made from.
pub fn c32_address_decode(c32_address_str: &str) -> (decoded: Result<(u8, Vec<u8>), Error>)
    ensures
        payload_view(decoded) == address_decoding(c32_address_str@),
{
    if c32_address_str.as_bytes().len() <= 5 {
        Err(Error::InvalidFormat)
    } else {
        c32_check_decode(behind_first_char(c32_address_str))
    }
}

/// The address of `data` under `version`.
pub fn c32_address(version: u8, data: &[u8]) -> (address: Result<String, Error>)
    requires
        c32_max_len(data@.len() + 4) <= usize::MAX,
    ensures
        text_view(address) == address_encoding(version, data@),
        version < 32 ==> text_view(address) == Ok::<Seq<char>, Error>(address_text(version, data@)),
        version >= 32 ==> address == Err::<String, Error>(Error::InvalidVersion(version)),
{
    c32_check_encode_prefixed(version, data, ADDRESS_PREFIX)
}

/// An address is its letter followed by its envelope.
proof fn lemma_address_parts(version: u8, payload: Seq<u8>)
    requires
        version < 32,
    ensures
        address_text(version, payload).len() >= 6,
        is_ascii_chars(address_text(version, payload)),
        address_text(version, payload).drop_first() == ascii_text(
            envelope(version, payload, checksum(version, payload)),
        ),
{
    let sum = checksum(version, payload);
    lemma_envelope_opens(version, payload, sum);
    lemma_ascii_text_codes(seq![ADDRESS_PREFIX] + envelope(version, payload, sum));
}

/// Decoding the address of a payload gives back version and payload, for
/// every version below 32 and every payload.
pub proof fn lemma_address_round_trip(version: u8, payload: Seq<u8>)
    requires
        version < 32,
    ensures
        address_decoding(address_text(version, payload)) == Ok::<(u8, Seq<u8>), Error>(
            (version, payload),
        ),
{
    lemma_address_parts(version, payload);
    is_ascii_chars_encode_utf8(address_text(version, payload));
    lemma_envelope_round_trip(version, payload);
}

/// A text of `len` characters takes at least `len` bytes in UTF-8.
proof fn lemma_utf8_len(text: Seq<char>)
    ensures
        text.len() <= encode_utf8(text).len(),
    decreases text.len(),
{
    if text.len() > 0 {
        lemma_utf8_len(text.drop_first());
    }
}

/// An address that decodes has at least six characters, all but the first
/// of them ASCII.
proof fn lemma_decoded_address(address: Seq<char>)
    requires
        address_decoding(address) is Ok,
    ensures
        address.len() >= 6,
        is_ascii_chars(address.drop_first()),
{
    lemma_opened_len(ascii_codes(address.drop_first()));
}

/// However an address is spelled, it decodes alike: with letters in lower
/// case, with `O` for a zero, with `I` or `L` for a one, in any mixture,
/// and with any character at all in the first place.
pub proof fn lemma_spelling_is_immaterial(address: Seq<char>, respelled: Seq<char>)
    requires
        address_decoding(address) is Ok,
        respelled.len() == address.len(),
        forall|i: int| 1 <= i < address.len() ==> written_for(address[i], respelled[i]),
    ensures
        address_decoding(respelled) == address_decoding(address),
{
    lemma_decoded_address(address);
    lemma_envelope_spelling(address.drop_first(), respelled.drop_first());
    lemma_utf8_len(respelled);
}

/// Two addresses decode to the same version and payload only if they are
/// of one length and, from the version on, their characters stand for the
/// same values. So no change of a character's value in an address goes
/// unnoticed: the changed address is refused, or it decodes to another
/// version or payload, whose checksum it then holds.
pub proof fn lemma_same_address_same_symbols(first: Seq<char>, second: Seq<char>)
    requires
        address_decoding(first) is Ok,
        address_decoding(second) == address_decoding(first),
    ensures
        first.len() == second.len(),
        forall|i: int|
            1 <= i < first.len() ==> digit_of(#[trigger] first[i] as u8) == digit_of(
                second[i] as u8,
            ),
{
    lemma_decoded_address(first);
    lemma_decoded_address(second);
    lemma_same_payload_same_symbols(first.drop_first(), second.drop_first());
    assert forall|i: int| 1 <= i < first.len() implies digit_of(#[trigger] first[i] as u8)
        == digit_of(second[i] as u8) by {
        assert(first.drop_first()[i - 1] == first[i]);
    }
}

} // verus!
