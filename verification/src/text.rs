//! ASCII text: strings as the bytes of their characters, and back.

use vstd::prelude::*;
use vstd::string::StringSliceAdditionalSpecFns;
use vstd::utf8::{
    encode_utf8, encode_utf8_decode_utf8, encode_utf8_first_scalar, encode_utf8_valid_utf8,
    is_ascii_chars, is_ascii_chars_encode_utf8, is_char_boundary, length_of_first_scalar,
    pop_first_scalar,
};

verus! {

/// Taken on trust: `String::push` of the standard library appends the
/// character to the end of the string, as its documentation says. The
/// string afterwards is the string before followed by that character.
pub assume_specification[ String::push ](text: &mut String, ch: char)
    ensures
        final(text)@ == old(text)@.push(ch),
;

/// Every byte is an ASCII code.
pub open spec fn all_ascii(codes: Seq<u8>) -> bool {
    forall|i: int| 0 <= i < codes.len() ==> #[trigger] codes[i] < 128
}

/// The characters with the given codes.
pub open spec fn ascii_text(codes: Seq<u8>) -> Seq<char> {
    codes.map_values(|code: u8| code as char)
}

/// The codes of the given characters (of ASCII text: each character's own).
pub open spec fn ascii_codes(text: Seq<char>) -> Seq<u8> {
    text.map_values(|ch: char| ch as u8)
}

/// ASCII codes survive the way to text and back.
pub proof fn lemma_ascii_text_codes(codes: Seq<u8>)
    requires
        all_ascii(codes),
    ensures
        is_ascii_chars(ascii_text(codes)),
        ascii_codes(ascii_text(codes)) == codes,
{
    let text = ascii_text(codes);
    assert forall|i: int| 0 <= i < text.len() implies '\0' <= #[trigger] text[i] <= '\u{7f}' by {
        assert(codes[i] < 128);
    }
    assert(ascii_codes(text) =~= codes);
}

/// ASCII text survives the way to codes and back.
pub proof fn lemma_ascii_codes_text(text: Seq<char>)
    requires
        is_ascii_chars(text),
    ensures
        all_ascii(ascii_codes(text)),
        ascii_text(ascii_codes(text)) == text,
{
    assert forall|i: int| 0 <= i < text.len() implies (#[trigger] text[i] as u8) < 128 && (
    text[i] as u8) as char == text[i] by {
        assert('\0' <= text[i] <= '\u{7f}');
    }
    assert(ascii_text(ascii_codes(text)) =~= text);
}

/// The bytes of an ASCII string are the codes of its characters.
pub proof fn lemma_ascii_bytes(text: &str)
    requires
        is_ascii_chars(text@),
    ensures
        text.spec_bytes() == ascii_codes(text@),
        all_ascii(text.spec_bytes()),
{
    is_ascii_chars_encode_utf8(text@);
    assert(text.spec_bytes() =~= ascii_codes(text@));
    lemma_ascii_codes_text(text@);
}

/// Appends to `text` the characters whose codes `codes` holds.
pub fn push_ascii(text: &mut String, codes: &[u8])
    ensures
        final(text)@ == old(text)@ + ascii_text(codes@),
{
    let mut index: usize = 0;
    while index < codes.len()
        invariant
            index <= codes@.len(),
            text@ == old(text)@ + ascii_text(codes@.take(index as int)),
        decreases codes@.len() - index,
    {
        text.push(codes[index] as char);
        index += 1;
        assert(text@ =~= old(text)@ + ascii_text(codes@.take(index as int)));
    }
    assert(codes@.take(index as int) =~= codes@);
}

/// The text behind its first character, whatever that character is and
/// however many bytes it takes.
pub fn behind_first_char(text: &str) -> (rest: &str)
    requires
        text@.len() > 0,
    ensures
        rest@ == text@.drop_first(),
{
    let ghost bytes = text.spec_bytes();
    proof {
        encode_utf8_first_scalar(text@);
        encode_utf8_valid_utf8(text@);
    }
    let first: u8 = text.as_bytes()[0];
    let width: usize = if first < 0x80 {
        1
    } else if first < 0xe0 {
        2
    } else if first < 0xf0 {
        3
    } else {
        4
    };
    proof {
        assert(width == length_of_first_scalar(bytes));
        assert(is_char_boundary(bytes, width as int)) by {
            reveal_with_fuel(is_char_boundary, 2);
        }
        assert(pop_first_scalar(bytes) =~= encode_utf8(text@.drop_first()));
    }
    let (_, rest) = text.split_at(width);
    proof {
        assert(rest.spec_bytes() == pop_first_scalar(bytes));
        encode_utf8_decode_utf8(rest@);
        encode_utf8_decode_utf8(text@.drop_first());
    }
    rest
}

} // verus!
