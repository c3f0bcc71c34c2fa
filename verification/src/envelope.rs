//! The checksummed envelope: one symbol for the version, then the symbols
//! of the payload followed by its four checksum bytes.
//!
//! Encoding computes the checksum and wraps; decoding unwraps, computes the
//! checksum anew and compares. Each half is also there with the checksum
//! handed in, so that it can be used, and tried, without a hash.

use vstd::prelude::*;
use vstd::slice::slice_subrange;
use vstd::utf8::is_ascii_chars;
use crate::alphabet::{digit_of, index_for, symbol, symbol_for, lemma_symbol_reads_back};
use crate::checksum::{c32_checksum, checksum, checksum_as_u32, le_u32};
use crate::codec::{
    c32_decode_ascii, c32_encode_to_buffer, c32_max_len, decoding, encoding,
    get_max_c32_encode_output_len, values, lemma_decode_encode, lemma_decoding_by_value,
    lemma_decoding_injective, lemma_encoding_is_symbols, lemma_encoding_len,
    lemma_values_in_base,
};
use crate::error::Error;
use crate::radix::{rebase, lemma_rebase_len, lemma_rebase_round_trip};
use crate::text::{
    all_ascii, ascii_codes, ascii_text, push_ascii, lemma_ascii_bytes, lemma_ascii_codes_text,
    lemma_ascii_text_codes,
};

verus! {

/// The envelope of a payload with the given checksum, as ASCII codes: the
/// symbol of the version, then the encoding of payload and checksum.
pub open spec fn envelope(version: u8, payload: Seq<u8>, sum: Seq<u8>) -> Seq<u8> {
    seq![symbol(version)] + encoding(payload + sum)
}

/// What wrapping gives: behind the character `prefix` the envelope, as
/// text; no text for a version that does not fit in five bits.
pub open spec fn wrapped(
    prefix: u8,
    version: u8,
    payload: Seq<u8>,
    sum: Seq<u8>,
) -> Result<Seq<char>, Error> {
    if version >= 32 {
        Err(Error::InvalidVersion(version))
    } else {
        Ok(ascii_text(seq![prefix] + envelope(version, payload, sum)))
    }
}

/// What an envelope holds, the envelope given by the codes of its
/// characters: the version, the payload, and the checksum written behind
/// the payload. The version is read first, then what follows it.
pub open spec fn opened(codes: Seq<u8>) -> Result<(u8, Seq<u8>, Seq<u8>), Error> {
    if codes.len() < 2 {
        Err(Error::InvalidFormat)
    } else {
        match (digit_of(codes[0]), decoding(codes.skip(1))) {
            (None, _) => Err(Error::InvalidAlphabetSymbol),
            (Some(_), Err(error)) => Err(error),
            (Some(version), Ok(bytes)) => {
                let cut = bytes.len() - 4;
                if cut < 0 {
                    Err(Error::InvalidFormat)
                } else {
                    Ok((version, bytes.take(cut), bytes.skip(cut)))
                }
            },
        }
    }
}

/// What an envelope holds, the envelope given as text. Text that is not
/// ASCII is refused before anything else.
pub open spec fn opened_text(text: Seq<char>) -> Result<(u8, Seq<u8>, Seq<u8>), Error> {
    if !is_ascii_chars(text) {
        Err(Error::NonAsciiInput)
    } else {
        opened(ascii_codes(text))
    }
}

/// The verdict on a payload whose envelope held the checksum `found`,
/// where `computed` is the checksum of version and payload.
pub open spec fn verdict(
    version: u8,
    payload: Seq<u8>,
    found: Seq<u8>,
    computed: Seq<u8>,
) -> Result<(u8, Seq<u8>), Error> {
    if computed == found {
        Ok((version, payload))
    } else {
        Err(Error::BadChecksum(le_u32(computed), le_u32(found)))
    }
}

/// What decoding an envelope gives.
pub open spec fn envelope_decoding(text: Seq<char>) -> Result<(u8, Seq<u8>), Error> {
    match opened_text(text) {
        Err(error) => Err(error),
        Ok((version, payload, found)) => verdict(
            version,
            payload,
            found,
            checksum(version, payload),
        ),
    }
}

/// A text or an error, the text by its characters.
pub open spec fn text_view(text: Result<String, Error>) -> Result<Seq<char>, Error> {
    match text {
        Ok(text) => Ok(text@),
        Err(error) => Err(error),
    }
}

/// The parts of an envelope or an error, the parts by their bytes.
pub open spec fn parts_view(parts: Result<(u8, Vec<u8>, [u8; 4]), Error>) -> Result<
    (u8, Seq<u8>, Seq<u8>),
    Error,
> {
    match parts {
        Ok((version, payload, found)) => Ok((version, payload@, found@)),
        Err(error) => Err(error),
    }
}

/// Version and payload or an error, the payload by its bytes.
pub open spec fn payload_view(decoded: Result<(u8, Vec<u8>), Error>) -> Result<
    (u8, Seq<u8>),
    Error,
> {
    match decoded {
        Ok((version, payload)) => Ok((version, payload@)),
        Err(error) => Err(error),
    }
}

/// Wraps `data` and the checksum `sum`, which is taken as it is, behind the
/// character `prefix`.
pub fn c32_check_encode_with_sum(
    version: u8,
    data: &[u8],
    sum: &[u8; 4],
    prefix: u8,
) -> (text: Result<String, Error>)
    requires
        c32_max_len(data@.len() + 4) <= usize::MAX,
    ensures
        text_view(text) == wrapped(prefix, version, data@, sum@),
{
    if version >= 32 {
        return Err(Error::InvalidVersion(version));
    }
    let mut buffer: Vec<u8> = Vec::new();
    let mut index: usize = 0;
    while index < data.len()
        invariant
            index <= data@.len(),
            buffer@ == data@.take(index as int),
        decreases data@.len() - index,
    {
        buffer.push(data[index]);
        index += 1;
    }
    buffer.push(sum[0]);
    buffer.push(sum[1]);
    buffer.push(sum[2]);
    buffer.push(sum[3]);
    assert(buffer@ =~= data@ + sum@);

    let capacity = get_max_c32_encode_output_len(buffer.len());
    let mut result: Vec<u8> = vec![0; capacity];
    let bytes_written = c32_encode_to_buffer(buffer.as_slice(), result.as_mut_slice()).unwrap();
    proof {
        lemma_encoding_len(buffer@);
    }
    result.truncate(bytes_written);

    let mut text = String::new();
    text.push(prefix as char);
    text.push(symbol_for(version) as char);
    push_ascii(&mut text, result.as_slice());
    assert(text@ =~= ascii_text(seq![prefix] + envelope(version, data@, sum@)));
    Ok(text)
}

/// Wraps `data` under `version`, with its checksum, behind the character
/// `prefix`. A version above 31 is refused before anything is hashed.
pub fn c32_check_encode_prefixed(version: u8, data: &[u8], prefix: u8) -> (text: Result<
    String,
    Error,
>)
    requires
        c32_max_len(data@.len() + 4) <= usize::MAX,
    ensures
        text_view(text) == wrapped(prefix, version, data@, checksum(version, data@)),
{
    if version >= 32 {
        return Err(Error::InvalidVersion(version));
    }
    let sum = c32_checksum(version, data);
    c32_check_encode_with_sum(version, data, &sum, prefix)
}

/// Opens an envelope: the version, the payload, and the checksum that the
/// text holds behind the payload. The checksum is handed out untested.
pub fn c32_check_split(check_data_unsanitized: &str) -> (parts: Result<
    (u8, Vec<u8>, [u8; 4]),
    Error,
>)
    ensures
        parts_view(parts) == opened_text(check_data_unsanitized@),
{
    if !check_data_unsanitized.is_ascii() {
        return Err(Error::NonAsciiInput);
    }
    proof {
        lemma_ascii_bytes(check_data_unsanitized);
    }
    let ascii_bytes = check_data_unsanitized.as_bytes();
    if ascii_bytes.len() < 2 {
        return Err(Error::InvalidFormat);
    }
    let version = match index_for(ascii_bytes[0]) {
        Some(version) => version,
        None => {
            return Err(Error::InvalidAlphabetSymbol);
        },
    };
    let data = slice_subrange(ascii_bytes, 1, ascii_bytes.len());

    let mut data_sum_bytes = match c32_decode_ascii(data) {
        Ok(bytes) => bytes,
        Err(error) => {
            return Err(error);
        },
    };
    let len = data_sum_bytes.len();
    if len < 4 {
        return Err(Error::InvalidFormat);
    }
    let expected_sum = [
        data_sum_bytes[len - 4],
        data_sum_bytes[len - 3],
        data_sum_bytes[len - 2],
        data_sum_bytes[len - 1],
    ];
    assert(expected_sum@ =~= data_sum_bytes@.skip(len - 4));
    data_sum_bytes.truncate(len - 4);
    Ok((version, data_sum_bytes, expected_sum))
}

/// Compares the checksum found in an envelope with the one computed from
/// version and payload, byte by byte, and hands version and payload on
/// where the two agree.
pub fn c32_check_verify(
    version: u8,
    payload: Vec<u8>,
    found: &[u8; 4],
    computed: &[u8; 4],
) -> (decoded: Result<(u8, Vec<u8>), Error>)
    ensures
        payload_view(decoded) == verdict(version, payload@, found@, computed@),
{
    let checksum_ok = computed[0] == found[0] && computed[1] == found[1] && computed[2] == found[2]
        && computed[3] == found[3];
    assert(checksum_ok <==> computed@ =~= found@);
    if !checksum_ok {
        return Err(Error::BadChecksum(checksum_as_u32(computed), checksum_as_u32(found)));
    }
    Ok((version, payload))
}

/// Decodes an envelope: opens it, computes the checksum of what it holds,
/// and compares.
pub fn c32_check_decode(check_data_unsanitized: &str) -> (decoded: Result<(u8, Vec<u8>), Error>)
    ensures
        payload_view(decoded) == envelope_decoding(check_data_unsanitized@),
{
    let (version, payload, expected_sum) = match c32_check_split(check_data_unsanitized) {
        Ok(parts) => parts,
        Err(error) => {
            return Err(error);
        },
    };
    let computed_sum = c32_checksum(version, payload.as_slice());
    c32_check_verify(version, payload, &expected_sum, &computed_sum)
}

/// The lower-case form of an upper-case ASCII letter; any other character
/// is left alone.
pub open spec fn lower_case(ch: char) -> char {
    if 'A' <= ch <= 'Z' {
        ((ch as u8 + 0x20) as u8) as char
    } else {
        ch
    }
}

/// The character `other` may be written for `ch`: it is `ch` itself, or
/// the lower-case form of the letter `ch`, or `O` or `o` where `ch` stands
/// for zero, or one of `I`, `i`, `L`, `l` where `ch` stands for one.
pub open spec fn written_for(ch: char, other: char) -> bool {
    ||| other == ch
    ||| other == lower_case(ch)
    ||| ch <= '\u{7f}' && digit_of(ch as u8) == Some(0u8) && (other == 'O' || other == 'o')
    ||| ch <= '\u{7f}' && digit_of(ch as u8) == Some(1u8) && (other == 'I' || other == 'i' || other
        == 'L' || other == 'l')
}

/// A character written for another stands for the same value, and is
/// ASCII where the other is.
pub proof fn lemma_written_for(ch: char, other: char)
    requires
        written_for(ch, other),
    ensures
        ch <= '\u{7f}' <==> other <= '\u{7f}',
        ch <= '\u{7f}' ==> digit_of(other as u8) == digit_of(ch as u8),
{
}

/// An envelope holds what it was made of: opening it gives the version,
/// the payload and the checksum back. It is ASCII and at least five
/// characters long.
pub proof fn lemma_envelope_opens(version: u8, payload: Seq<u8>, sum: Seq<u8>)
    requires
        version < 32,
        sum.len() == 4,
    ensures
        all_ascii(envelope(version, payload, sum)),
        envelope(version, payload, sum).len() >= 5,
        opened(envelope(version, payload, sum)) == Ok::<(u8, Seq<u8>, Seq<u8>), Error>(
            (version, payload, sum),
        ),
{
    let body = payload + sum;
    let inner = envelope(version, payload, sum);
    lemma_symbol_reads_back(version);
    lemma_encoding_is_symbols(body);
    lemma_encoding_len(body);
    lemma_decode_encode(body);
    assert(inner.skip(1) =~= encoding(body));
    assert(body.take(body.len() - 4) =~= payload);
    assert(body.skip(body.len() - 4) =~= sum);
}

/// Decoding the envelope of a payload gives back version and payload, for
/// every version below 32 and every payload.
pub proof fn lemma_envelope_round_trip(version: u8, payload: Seq<u8>)
    requires
        version < 32,
    ensures
        envelope_decoding(ascii_text(envelope(version, payload, checksum(version, payload))))
            == Ok::<(u8, Seq<u8>), Error>((version, payload)),
{
    let sum = checksum(version, payload);
    lemma_envelope_opens(version, payload, sum);
    lemma_ascii_text_codes(envelope(version, payload, sum));
}

/// An envelope that can be opened has at least five characters: the
/// version and no fewer symbols than the four checksum bytes.
pub proof fn lemma_opened_len(codes: Seq<u8>)
    requires
        opened(codes) is Ok,
    ensures
        codes.len() >= 5,
{
    let digits = values(codes.skip(1));
    lemma_values_in_base(codes.skip(1));
    lemma_rebase_round_trip(digits, 32, 256);
    lemma_rebase_len(rebase(digits, 32, 256), 256, 32);
}

/// However an envelope is spelled, it decodes alike: with letters in lower
/// case, with `O` for a zero, with `I` or `L` for a one, in any mixture.
pub proof fn lemma_envelope_spelling(envelope: Seq<char>, respelled: Seq<char>)
    requires
        is_ascii_chars(envelope),
        respelled.len() == envelope.len(),
        forall|i: int| 0 <= i < envelope.len() ==> written_for(envelope[i], respelled[i]),
    ensures
        envelope_decoding(respelled) == envelope_decoding(envelope),
{
    assert forall|i: int| 0 <= i < envelope.len() implies #[trigger] respelled[i] <= '\u{7f}'
        && digit_of(respelled[i] as u8) == digit_of(envelope[i] as u8) by {
        lemma_written_for(envelope[i], respelled[i]);
    }
    if envelope.len() >= 2 {
        lemma_ascii_codes_text(envelope);
        lemma_ascii_codes_text(respelled);
        let first = ascii_codes(envelope).skip(1);
        let second = ascii_codes(respelled).skip(1);
        assert(all_ascii(first) && all_ascii(second));
        lemma_decoding_by_value(first, second);
    }
}

/// Two envelopes decode to the same version and payload only if they are
/// of one length and their characters stand for the same values, place by
/// place. So no change of a character's value goes unnoticed: the changed
/// envelope is refused, or it decodes to another version or payload, whose
/// checksum it then holds.
pub proof fn lemma_same_payload_same_symbols(first: Seq<char>, second: Seq<char>)
    requires
        envelope_decoding(first) is Ok,
        envelope_decoding(second) == envelope_decoding(first),
    ensures
        first.len() == second.len(),
        forall|i: int|
            0 <= i < first.len() ==> digit_of(#[trigger] first[i] as u8) == digit_of(
                second[i] as u8,
            ),
{
    let a = ascii_codes(first).skip(1);
    let b = ascii_codes(second).skip(1);
    let bytes_a = decoding(a).unwrap();
    let bytes_b = decoding(b).unwrap();
    // Payload and checksum are the same, so what was decoded is the same.
    assert(bytes_a =~= bytes_a.take(bytes_a.len() - 4) + bytes_a.skip(bytes_a.len() - 4));
    assert(bytes_b =~= bytes_b.take(bytes_b.len() - 4) + bytes_b.skip(bytes_b.len() - 4));
    lemma_decoding_injective(a, b);
    assert forall|i: int| 0 <= i < first.len() implies digit_of(#[trigger] first[i] as u8)
        == digit_of(second[i] as u8) by {
        if i > 0 {
            assert(values(a)[i - 1] == values(b)[i - 1]);
        }
    }
}

} // verus!
