//! The raw transform between bytes and symbols.
//!
//! A byte string is read as digits in base 256, its symbols as digits in
//! base 32: both stand for the same number, and a zero byte in front
//! becomes a zero symbol in front, one for one.

use vstd::prelude::*;
use vstd::utf8::is_ascii_chars;
use crate::alphabet::{
    C32_CHARACTERS, digit_of, index_for, symbol, symbol_for, lemma_digit_of_bound,
    lemma_place_inverts_symbol, lemma_symbol_reads_back,
};
use crate::error::Error;
use crate::radix::{
    in_base, leading_zeros, rebase, repacking, value_of, zeros,
    lemma_bytes_fit_symbols, lemma_digits_of_len, lemma_digits_of_value, lemma_leading_zeros,
    lemma_leading_zeros_prefix, lemma_rebase_in_base, lemma_rebase_len, lemma_rebase_round_trip,
    lemma_repacking_begins, lemma_repacking_ends, lemma_repacking_gives, lemma_repacking_takes,
    lemma_value_of_bound, lemma_value_of_leading_zero, lemma_value_of_zeros,
};
use crate::text::{
    all_ascii, ascii_codes, ascii_text, push_ascii, lemma_ascii_bytes, lemma_ascii_text_codes,
};

verus! {

/// The most symbols that `input_len` bytes can need: their bits in groups
/// of five, the last group filled up.
pub open spec fn c32_max_len(input_len: nat) -> nat {
    (8 * input_len + 4) / 5
}

/// The symbols for the digits given, as ASCII codes.
pub open spec fn symbols(digits: Seq<u8>) -> Seq<u8> {
    digits.map_values(|digit: u8| symbol(digit))
}

/// The encoding of a byte string, as ASCII codes.
pub open spec fn encoding(bytes: Seq<u8>) -> Seq<u8> {
    symbols(rebase(bytes, 256, 32))
}

/// The encoding of a byte string, as text.
pub open spec fn encoded_text(bytes: Seq<u8>) -> Seq<char> {
    ascii_text(encoding(bytes))
}

/// Every code stands for a value.
pub open spec fn all_symbols(codes: Seq<u8>) -> bool {
    forall|i: int| 0 <= i < codes.len() ==> (#[trigger] digit_of(codes[i])) is Some
}

/// The values that the codes stand for.
pub open spec fn values(codes: Seq<u8>) -> Seq<u8> {
    codes.map_values(|code: u8| digit_of(code).unwrap())
}

/// What decoding a string of bytes gives: the first byte above `0x7f`
/// anywhere is reported before any character that is no symbol.
pub open spec fn decoding(codes: Seq<u8>) -> Result<Seq<u8>, Error> {
    if !all_ascii(codes) {
        Err(Error::NonAsciiInput)
    } else if !all_symbols(codes) {
        Err(Error::InvalidAlphabetSymbol)
    } else {
        Ok(rebase(values(codes), 32, 256))
    }
}

/// What decoding a text gives.
pub open spec fn decoded_text(text: Seq<char>) -> Result<Seq<u8>, Error> {
    if !is_ascii_chars(text) {
        Err(Error::NonAsciiInput)
    } else {
        decoding(ascii_codes(text))
    }
}

/// Bytes or an error, the bytes as a sequence.
pub open spec fn decoded_view(decoded: Result<Vec<u8>, Error>) -> Result<Seq<u8>, Error> {
    match decoded {
        Ok(bytes) => Ok(bytes@),
        Err(error) => Err(error),
    }
}

/// A byte joins a carry of `bits` bits, at most four: five bits leave as a
/// symbol value, the others stay.
proof fn lemma_byte_joins_carry(current: u8, carry: u8, bits: u32)
    by (bit_vector)
    requires
        bits <= 4,
        carry < (1u8 << bits),
    ensures
        ({
            let take = (5 - bits) as u32;
            let low = current & (((1u8 << take) - 1) as u8);
            let left = current >> take;
            &&& 1 <= (1u8 << take)
            &&& (low << bits) + carry < 32
            &&& carry + current * (1u8 << bits) == ((low << bits) + carry) + 32 * left
            &&& (1u8 << ((bits + 3) as u32)) == 8 * (1u8 << bits)
        }),
{
}

/// A carry of five to seven bits gives off a symbol value.
proof fn lemma_carry_gives_symbol(carry: u8, bits: u32)
    by (bit_vector)
    requires
        5 <= bits <= 7,
        carry < (1u8 << bits),
    ensures
        carry & 31 < 32,
        carry == (carry & 31) + 32 * (carry >> 5),
        (1u8 << bits) == 32 * (1u8 << ((bits - 5) as u32)),
{
}

/// A carry of at most four bits is a symbol value, and is nothing when no
/// bit is left.
proof fn lemma_last_symbol(carry: u8, bits: u32)
    by (bit_vector)
    requires
        bits <= 4,
        carry < (1u8 << bits),
    ensures
        carry < 32,
        bits == 0 ==> carry == 0,
{
}

/// A symbol value joins a carry of `bits` bits, at most seven.
proof fn lemma_symbol_joins_carry(digit: u8, carry: u16, bits: u32)
    by (bit_vector)
    requires
        bits <= 7,
        digit < 32,
        carry < (1u16 << bits),
    ensures
        carry + ((digit as u16) << bits) < 4096,
        ((digit as u16) << bits) == digit * (1u16 << bits),
        (1u16 << ((bits + 5) as u32)) == 32 * (1u16 << bits),
{
}

/// A carry of eight to twelve bits gives off a byte.
proof fn lemma_carry_gives_byte(carry: u16, bits: u32)
    by (bit_vector)
    requires
        8 <= bits <= 12,
        carry < (1u16 << bits),
    ensures
        carry & 0xff < 256,
        carry == (carry & 0xff) + 256 * (carry >> 8),
        (1u16 << bits) == 256 * (1u16 << ((bits - 8) as u32)),
{
}

/// A carry of at most seven bits fits in a byte, and is nothing when no
/// bit is left.
proof fn lemma_last_byte(carry: u16, bits: u32)
    by (bit_vector)
    requires
        bits <= 7,
        carry < (1u16 << bits),
    ensures
        carry < 128,
        bits == 0 ==> carry == 0,
{
}

/// No encoding is longer than `c32_max_len` says, and none is shorter than
/// the bytes it stands for.
pub proof fn lemma_encoding_len(bytes: Seq<u8>)
    ensures
        encoding(bytes).len() <= c32_max_len(bytes.len()),
        bytes.len() <= encoding(bytes).len(),
{
    let count = leading_zeros(bytes);
    let tail = bytes.skip(count as int);
    let number = value_of(bytes, 256);
    lemma_leading_zeros(bytes);
    lemma_value_of_zeros(count, tail, 256);
    lemma_value_of_bound(tail, 256);
    lemma_bytes_fit_symbols(tail.len(), c32_max_len(tail.len()));
    lemma_digits_of_len(number, 32, c32_max_len(tail.len()));
    lemma_rebase_len(bytes, 256, 32);
}

/// The most symbols that `input_len` bytes can need.
pub fn get_max_c32_encode_output_len(input_len: usize) -> (capacity: usize)
    requires
        c32_max_len(input_len as nat) <= usize::MAX,
    ensures
        capacity == c32_max_len(input_len as nat),
{
    input_len / 5 * 8 + ((input_len % 5) * 8 + 4) / 5
}

/// Whether `capacity` symbols are enough for any `input_len` bytes.
fn capacity_suffices(input_len: usize, capacity: usize) -> (enough: bool)
    ensures
        enough == (c32_max_len(input_len as nat) <= capacity),
{
    let needed: u128 = (8 * (input_len as u128) + 4) / 5;
    needed <= capacity as u128
}

/// Puts the first `len` bytes of the buffer in the opposite order.
fn reverse_prefix(buffer: &mut [u8], len: usize)
    requires
        len <= old(buffer)@.len(),
    ensures
        final(buffer)@ == old(buffer)@.take(len as int).reverse() + old(buffer)@.skip(len as int),
{
    let mut low: usize = 0;
    let mut high: usize = len;
    while low + 1 < high
        invariant
            low <= high <= len <= buffer@.len(),
            low + high == len,
            buffer@.len() == old(buffer)@.len(),
            forall|i: int| 0 <= i < low ==> buffer@[i] == old(buffer)@[len - 1 - i],
            forall|i: int| high <= i < len ==> buffer@[i] == old(buffer)@[len - 1 - i],
            forall|i: int| low <= i < high ==> buffer@[i] == old(buffer)@[i],
            forall|i: int| len <= i < buffer@.len() ==> buffer@[i] == old(buffer)@[i],
        decreases high - low,
    {
        high -= 1;
        let front: u8 = buffer[low];
        let back: u8 = buffer[high];
        buffer[low] = back;
        buffer[high] = front;
        low += 1;
    }
}

/// A buffer after the encoding of `bytes` was written into it: the symbols,
/// then the symbol for zero up to `c32_max_len(bytes.len())`, then what
/// the buffer held before.
pub open spec fn encoded_into(buffer: Seq<u8>, bytes: Seq<u8>) -> Seq<u8> {
    let max_len = c32_max_len(bytes.len());
    let written = encoding(bytes);
    written + symbols(zeros((max_len - written.len()) as nat)) + buffer.skip(max_len as int)
}

/// The buffer while it is written: it holds the symbols of `digits` with
/// the last digit first, then the symbol for zero up to `max_len`, then
/// what it held before.
spec fn packed_into(buffer: Seq<u8>, before: Seq<u8>, digits: Seq<u8>, max_len: nat) -> bool {
    &&& buffer.len() == before.len()
    &&& digits.len() <= max_len <= buffer.len()
    &&& buffer.take(digits.len() as int) == symbols(digits).reverse()
    &&& forall|i: int| digits.len() <= i < max_len ==> buffer[i] == symbol(0)
    &&& forall|i: int| max_len <= i < buffer.len() ==> buffer[i] == before[i]
}

/// Writing the symbol of one more digit behind those that are there puts
/// that digit in front of the digits held.
proof fn lemma_packed_one_more(
    buffer: Seq<u8>,
    before: Seq<u8>,
    digits: Seq<u8>,
    max_len: nat,
    digit: u8,
)
    requires
        buffer.len() == before.len(),
        digits.len() < max_len <= buffer.len(),
        buffer.take(digits.len() as int) == symbols(digits).reverse(),
        forall|i: int| max_len <= i < buffer.len() ==> buffer[i] == before[i],
    ensures
        buffer.update(digits.len() as int, symbol(digit)).take(digits.len() as int + 1) == symbols(
            seq![digit] + digits,
        ).reverse(),
{
    let len = digits.len() as int;
    let after = buffer.update(len, symbol(digit));
    let wanted = symbols(seq![digit] + digits).reverse();
    assert forall|i: int| 0 <= i < len + 1 implies after.take(len + 1)[i] == wanted[i] by {
        if i < len {
            assert(symbols(digits).reverse()[i] == symbol(digits[len - 1 - i]));
        }
    }
}

/// The last symbol in the buffer is that of the first digit held; without
/// it the buffer holds the digits behind the first.
proof fn lemma_packed_one_less(buffer: Seq<u8>, digits: Seq<u8>)
    requires
        0 < digits.len() <= buffer.len(),
        buffer.take(digits.len() as int) == symbols(digits).reverse(),
    ensures
        buffer[digits.len() - 1] == symbol(digits[0]),
        buffer.take(digits.len() - 1) == symbols(digits.skip(1)).reverse(),
{
    let len = digits.len() as int;
    assert(buffer[len - 1] == buffer.take(len)[len - 1]);
    assert forall|i: int| 0 <= i < len - 1 implies buffer.take(len - 1)[i] == symbols(
        digits.skip(1),
    ).reverse()[i] by {
        assert(buffer[i] == buffer.take(len)[i]);
    }
    assert(buffer.take(len - 1) =~= symbols(digits.skip(1)).reverse());
}

/// With the symbols turned round, a buffer that holds all the digits of an
/// encoding is the buffer after encoding.
proof fn lemma_packed_turned(buffer: Seq<u8>, before: Seq<u8>, bytes: Seq<u8>)
    requires
        packed_into(buffer, before, rebase(bytes, 256, 32), c32_max_len(bytes.len())),
    ensures
        buffer.take(encoding(bytes).len() as int).reverse() + buffer.skip(
            encoding(bytes).len() as int,
        ) == encoded_into(before, bytes),
{
    let len = encoding(bytes).len() as int;
    assert(buffer.take(len).reverse() + buffer.skip(len) =~= encoded_into(before, bytes));
}

/// Writes the symbols of `input_bytes` at the front of `output_buffer` and
/// returns how many there are. A buffer shorter than
/// `c32_max_len(input_bytes.len())` is refused and left as it was. Behind
/// the symbols, up to that length, the buffer holds the symbol for zero;
/// from there on it is untouched.
pub fn c32_encode_to_buffer(input_bytes: &[u8], output_buffer: &mut [u8]) -> (written: Result<
    usize,
    Error,
>)
    ensures
        old(output_buffer)@.len() < c32_max_len(input_bytes@.len()) ==> {
            &&& written == Err::<usize, Error>(Error::BufferTooSmall)
            &&& final(output_buffer)@ == old(output_buffer)@
        },
        old(output_buffer)@.len() >= c32_max_len(input_bytes@.len()) ==> {
            &&& written == Ok::<usize, Error>(encoding(input_bytes@).len() as usize)
            &&& final(output_buffer)@ == encoded_into(old(output_buffer)@, input_bytes@)
        },
{
    let input_len = input_bytes.len();
    if !capacity_suffices(input_len, output_buffer.len()) {
        return Err(Error::BufferTooSmall);
    }
    let ghost max_len = c32_max_len(input_len as nat);
    let mut carry: u8 = 0;
    let mut carry_bits: u32 = 0;
    let mut position: usize = 0;
    // The values of the symbols in the buffer, the last written first.
    let ghost mut digits: Seq<u8> = Seq::empty();

    proof {
        assert((1u8 << 0u32) == 1) by (bit_vector);
        lemma_repacking_begins(256, 32);
    }
    // The bytes from the last to the first, five bits to a symbol.
    let mut index: usize = input_len;
    while index > 0
        invariant
            index <= input_len == input_bytes@.len(),
            max_len == c32_max_len(input_len as nat),
            carry_bits <= 4,
            5 * position + carry_bits == 8 * (input_len - index),
            position == digits.len(),
            in_base(digits, 32),
            repacking(
                input_bytes@.skip(index as int),
                256,
                digits,
                32,
                carry as int,
                (1u8 << carry_bits) as int,
            ),
            output_buffer@.len() == old(output_buffer)@.len(),
            max_len <= output_buffer@.len(),
            output_buffer@.take(position as int) == symbols(digits).reverse(),
            forall|i: int|
                max_len <= i < output_buffer@.len() ==> output_buffer@[i] == old(output_buffer)@[i],
        decreases index,
    {
        let ghost suffix = input_bytes@.skip(index as int);
        let ghost scale = (1u8 << carry_bits) as int;
        index -= 1;
        let current_value: u8 = input_bytes[index];
        proof {
            lemma_byte_joins_carry(current_value, carry, carry_bits);
            lemma_repacking_takes(suffix, 256, digits, 32, carry as int, scale, current_value);
            assert(input_bytes@.skip(index as int) =~= seq![current_value] + suffix);
        }
        let low_bits_to_take: u32 = 5 - carry_bits;
        let low_bits: u8 = current_value & ((1u8 << low_bits_to_take) - 1);
        let c32_value: u8 = (low_bits << carry_bits) + carry;
        proof {
            lemma_repacking_gives(
                input_bytes@.skip(index as int),
                256,
                digits,
                32,
                carry + current_value * scale,
                256 * scale,
                c32_value,
                (current_value >> low_bits_to_take) as int,
                8 * scale,
            );
            lemma_packed_one_more(output_buffer@, old(output_buffer)@, digits, max_len, c32_value);
            digits = seq![c32_value] + digits;
        }
        output_buffer[position] = symbol_for(c32_value);
        position += 1;

        carry_bits = (8 + carry_bits) - 5;
        carry = current_value >> (8 - carry_bits);

        if carry_bits >= 5 {
            proof {
                lemma_carry_gives_symbol(carry, carry_bits);
            }
            let c32_value: u8 = carry & 31;
            proof {
                lemma_repacking_gives(
                    input_bytes@.skip(index as int),
                    256,
                    digits,
                    32,
                    carry as int,
                    (1u8 << carry_bits) as int,
                    c32_value,
                    (carry >> 5) as int,
                    (1u8 << ((carry_bits - 5) as u32)) as int,
                );
                lemma_packed_one_more(
                    output_buffer@,
                    old(output_buffer)@,
                    digits,
                    max_len,
                    c32_value,
                );
                digits = seq![c32_value] + digits;
            }
            output_buffer[position] = symbol_for(c32_value);
            position += 1;

            carry_bits = carry_bits - 5;
            carry = carry >> 5;
        }
    }

    let ghost number = value_of(input_bytes@, 256);
    proof {
        assert(input_bytes@.skip(0) =~= input_bytes@);
        lemma_last_symbol(carry, carry_bits);
        lemma_repacking_ends(input_bytes@, 256, digits, 32, carry, (1u8 << carry_bits) as int);
    }
    if carry_bits > 0 {
        proof {
            lemma_packed_one_more(output_buffer@, old(output_buffer)@, digits, max_len, carry);
            digits = seq![carry] + digits;
        }
        output_buffer[position] = symbol_for(carry);
        position += 1;
    }

    // Zero symbols in front of the number are packing, not content.
    while position > 0 && output_buffer[position - 1] == C32_CHARACTERS[0]
        invariant
            position == digits.len(),
            in_base(digits, 32),
            value_of(digits, 32) == number,
            symbol(0) == C32_CHARACTERS[0],
            packed_into(output_buffer@, old(output_buffer)@, digits, max_len),
        decreases position,
    {
        proof {
            lemma_packed_one_less(output_buffer@, digits);
            lemma_place_inverts_symbol(C32_CHARACTERS[0], digits[0]);
            lemma_value_of_leading_zero(digits, 32);
            digits = digits.skip(1);
        }
        position -= 1;
    }

    proof {
        if position > 0 {
            lemma_packed_one_less(output_buffer@, digits);
        }
        lemma_digits_of_value(digits, 32);
        lemma_encoding_len(input_bytes@);
    }
    let ghost shortest = digits;

    // One zero symbol for each zero byte in front of the input.
    let mut count: usize = 0;
    while count < input_len && input_bytes[count] == 0
        invariant
            count <= input_len == input_bytes@.len(),
            forall|i: int| 0 <= i < count ==> input_bytes@[i] == 0,
            shortest.len() + leading_zeros(input_bytes@) <= max_len,
            position == digits.len(),
            digits == zeros(count as nat) + shortest,
            symbol(0) == C32_CHARACTERS[0],
            packed_into(output_buffer@, old(output_buffer)@, digits, max_len),
        decreases input_len - count,
    {
        proof {
            lemma_leading_zeros_prefix(input_bytes@, (count + 1) as nat);
            lemma_packed_one_more(output_buffer@, old(output_buffer)@, digits, max_len, 0);
            digits = seq![0u8] + digits;
        }
        output_buffer[position] = C32_CHARACTERS[0];
        position += 1;
        count += 1;
    }
    proof {
        lemma_leading_zeros_prefix(input_bytes@, count as nat);
        lemma_packed_turned(output_buffer@, old(output_buffer)@, input_bytes@);
    }

    reverse_prefix(output_buffer, position);
    Ok(position)
}

/// The symbols of `input_bytes`, as a string.
pub fn c32_encode(input_bytes: &[u8]) -> (text: String)
    requires
        c32_max_len(input_bytes@.len()) <= usize::MAX,
    ensures
        text@ == encoded_text(input_bytes@),
{
    let capacity = get_max_c32_encode_output_len(input_bytes.len());
    let mut buffer: Vec<u8> = vec![0; capacity];
    let bytes_written = c32_encode_to_buffer(input_bytes, buffer.as_mut_slice()).unwrap();
    proof {
        lemma_encoding_len(input_bytes@);
    }
    buffer.truncate(bytes_written);
    let mut text = String::new();
    push_ascii(&mut text, buffer.as_slice());
    text
}

/// The bytes that the characters of `input_str` stand for. The characters
/// are given by their codes; a code above `0x7f` anywhere is reported
/// first, then a character that is no symbol.
pub fn c32_decode_ascii(input_str: &[u8]) -> (decoded: Result<Vec<u8>, Error>)
    ensures
        decoded_view(decoded) == decoding(input_str@),
{
    let input_len = input_str.len();
    let mut scanned: usize = 0;
    while scanned < input_len
        invariant
            scanned <= input_len == input_str@.len(),
            forall|i: int| 0 <= i < scanned ==> input_str@[i] < 128,
        decreases input_len - scanned,
    {
        if input_str[scanned] >= 128 {
            return Err(Error::NonAsciiInput);
        }
        scanned += 1;
    }

    let mut result: Vec<u8> = Vec::with_capacity(input_len);
    let mut carry: u16 = 0;
    let mut carry_bits: u32 = 0;

    // The values of the symbols, the last one first.
    let mut c32_digits: Vec<u8> = vec![0u8; input_len];
    let mut filled: usize = 0;
    while filled < input_len
        invariant
            filled <= input_len == input_str@.len(),
            c32_digits@.len() == input_len,
            all_ascii(input_str@),
            forall|i: int|
                input_len - filled <= i < input_len ==> #[trigger] digit_of(input_str@[i])
                    == Some(c32_digits@[input_len - 1 - i]),
        decreases input_len - filled,
    {
        match index_for(input_str[input_len - 1 - filled]) {
            Some(value) => {
                c32_digits[filled] = value;
            },
            None => {
                return Err(Error::InvalidAlphabetSymbol);
            },
        }
        filled += 1;
    }

    let ghost digits = values(input_str@);
    let ghost number = value_of(digits, 32);
    // The bytes pushed so far, the last pushed first.
    let ghost mut bytes: Seq<u8> = Seq::empty();
    proof {
        assert(c32_digits@ =~= digits.reverse());
        lemma_values_in_base(input_str@);
        assert((1u16 << 0u32) == 1) by (bit_vector);
        lemma_repacking_begins(32, 256);
    }

    // The values from the last to the first, eight bits to a byte.
    let mut taken: usize = 0;
    while taken < input_len
        invariant
            taken <= input_len == digits.len(),
            c32_digits@ == digits.reverse(),
            in_base(digits, 32),
            carry_bits <= 7,
            8 * result@.len() + carry_bits == 5 * taken,
            repacking(
                digits.skip(input_len - taken),
                32,
                bytes,
                256,
                carry as int,
                (1u16 << carry_bits) as int,
            ),
            result@ == bytes.reverse(),
        decreases input_len - taken,
    {
        let ghost suffix = digits.skip(input_len - taken);
        let current_5bit: u8 = c32_digits[taken];
        proof {
            lemma_symbol_joins_carry(current_5bit, carry, carry_bits);
            lemma_repacking_takes(
                suffix,
                32,
                bytes,
                256,
                carry as int,
                (1u16 << carry_bits) as int,
                current_5bit,
            );
            assert(digits.skip(input_len - taken - 1) =~= seq![current_5bit] + suffix);
        }
        carry += (current_5bit as u16) << carry_bits;
        carry_bits += 5;
        taken += 1;

        if carry_bits >= 8 {
            proof {
                lemma_carry_gives_byte(carry, carry_bits);
            }
            let byte: u8 = (carry & 0xff) as u8;
            proof {
                lemma_repacking_gives(
                    digits.skip(input_len - taken),
                    32,
                    bytes,
                    256,
                    carry as int,
                    (1u16 << carry_bits) as int,
                    byte,
                    (carry >> 8) as int,
                    (1u16 << ((carry_bits - 8) as u32)) as int,
                );
                bytes = seq![byte] + bytes;
            }
            result.push(byte);
            carry_bits -= 8;
            carry = carry >> 8;
        }
    }

    proof {
        assert(digits.skip(0) =~= digits);
        lemma_last_byte(carry, carry_bits);
        lemma_repacking_ends(digits, 32, bytes, 256, carry as u8, (1u16 << carry_bits) as int);
    }
    if carry_bits > 0 {
        let byte: u8 = carry as u8;
        proof {
            bytes = seq![byte] + bytes;
        }
        result.push(byte);
    }

    // Zero bytes in front of the number are packing, not content.
    let mut kept: usize = result.len();
    while kept > 0 && result[kept - 1] == 0
        invariant
            kept == result@.len(),
            value_of(bytes, 256) == number,
            result@ == bytes.reverse(),
        decreases kept,
    {
        proof {
            lemma_value_of_leading_zero(bytes, 256);
            bytes = bytes.skip(1);
        }
        kept -= 1;
        result.truncate(kept);
    }

    proof {
        lemma_digits_of_value(bytes, 256);
    }
    let ghost shortest = bytes;

    // One zero byte for each zero symbol in front of the input.
    let mut count: usize = 0;
    while count < input_len && c32_digits[input_len - 1 - count] == 0
        invariant
            count <= input_len == digits.len(),
            c32_digits@ == digits.reverse(),
            forall|i: int| 0 <= i < count ==> digits[i] == 0,
            bytes == zeros(count as nat) + shortest,
            result@ == bytes.reverse(),
        decreases input_len - count,
    {
        proof {
            bytes = seq![0u8] + bytes;
        }
        result.push(0);
        count += 1;
    }
    proof {
        lemma_leading_zeros_prefix(digits, count as nat);
    }

    let len = result.len();
    reverse_prefix(result.as_mut_slice(), len);
    assert(result@ =~= bytes);
    Ok(result)
}

/// The bytes that a text stands for.
pub fn c32_decode(input_str: &str) -> (decoded: Result<Vec<u8>, Error>)
    ensures
        decoded_view(decoded) == decoded_text(input_str@),
{
    if !input_str.is_ascii() {
        return Err(Error::NonAsciiInput);
    }
    proof {
        lemma_ascii_bytes(input_str);
    }
    c32_decode_ascii(input_str.as_bytes())
}

/// What is true of every encoding: its characters are symbols, ASCII codes
/// that stand for the digits they were made from.
pub proof fn lemma_encoding_is_symbols(bytes: Seq<u8>)
    ensures
        all_ascii(encoding(bytes)),
        all_symbols(encoding(bytes)),
        values(encoding(bytes)) == rebase(bytes, 256, 32),
{
    let digits = rebase(bytes, 256, 32);
    let codes = encoding(bytes);
    lemma_rebase_in_base(bytes, 256, 32);
    assert forall|i: int| 0 <= i < codes.len() implies #[trigger] codes[i] < 128 && digit_of(
        codes[i],
    ) == Some(digits[i]) by {
        lemma_symbol_reads_back(digits[i]);
    }
}

/// Decoding an encoding gives back the bytes it was made from, whatever
/// they are: none, zero bytes in front, zero bytes within.
pub proof fn lemma_decode_encode(bytes: Seq<u8>)
    ensures
        decoding(encoding(bytes)) == Ok::<Seq<u8>, Error>(bytes),
        decoded_text(encoded_text(bytes)) == Ok::<Seq<u8>, Error>(bytes),
{
    lemma_encoding_is_symbols(bytes);
    lemma_rebase_round_trip(bytes, 256, 32);
    lemma_ascii_text_codes(encoding(bytes));
}

/// Encoding what a text decodes to gives the text in its plain spelling:
/// each character replaced by the symbol of its value.
pub proof fn lemma_encode_decode(codes: Seq<u8>)
    requires
        decoding(codes) is Ok,
    ensures
        encoding(decoding(codes).unwrap()) == symbols(values(codes)),
{
    lemma_values_in_base(codes);
    lemma_rebase_round_trip(values(codes), 32, 256);
}

/// The values of a string of symbols are digits in base 32.
pub proof fn lemma_values_in_base(codes: Seq<u8>)
    requires
        all_symbols(codes),
    ensures
        in_base(values(codes), 32),
{
    assert forall|i: int| 0 <= i < codes.len() implies (#[trigger] values(codes)[i] as nat)
        < 32 by {
        lemma_digit_of_bound(codes[i]);
    }
}

/// Decoding looks at the values of the characters alone: two strings of
/// ASCII codes whose characters stand for the same values, place by place,
/// decode alike.
pub proof fn lemma_decoding_by_value(first: Seq<u8>, second: Seq<u8>)
    requires
        all_ascii(first),
        all_ascii(second),
        first.len() == second.len(),
        forall|i: int| 0 <= i < first.len() ==> digit_of(first[i]) == digit_of(second[i]),
    ensures
        decoding(first) == decoding(second),
{
    if all_symbols(first) {
        assert(all_symbols(second));
        assert(values(first) =~= values(second));
    }
}

/// Two strings decode to the same bytes only if their characters stand
/// for the same values, place by place.
pub proof fn lemma_decoding_injective(first: Seq<u8>, second: Seq<u8>)
    requires
        decoding(first) is Ok,
        decoding(first) == decoding(second),
    ensures
        values(first) == values(second),
        first.len() == second.len(),
{
    lemma_values_in_base(first);
    lemma_values_in_base(second);
    lemma_rebase_round_trip(values(first), 32, 256);
    lemma_rebase_round_trip(values(second), 32, 256);
}

} // verus!
