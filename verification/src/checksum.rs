//! The checksum: the first four bytes of the SHA-256 digest of the SHA-256
//! digest of the version byte followed by the payload.

use vstd::prelude::*;
use sha2::{Digest, Sha256};

verus! {

/// The SHA-256 digest of a message. What it is on a given message is left
/// to the `sha2` crate: nothing is said of it here but that it depends on
/// the message alone.
pub uninterp spec fn sha256(message: Seq<u8>) -> Seq<u8>;

/// Taken on trust: `Sha256::digest` of the `sha2` crate, which feeds the
/// whole message to a fresh hasher and finalises it. The 32 bytes that come
/// back are the digest of the message and of nothing else: the same
/// message gives the same bytes, whenever and wherever it is hashed.
#[verifier::external_body]
fn sha256_digest(message: &[u8]) -> (digest: [u8; 32])
    ensures
        digest@ == sha256(message@),
{
    Sha256::digest(message).into()
}

/// The first four bytes of a digest.
pub open spec fn leading_four(digest: Seq<u8>) -> Seq<u8> {
    seq![digest[0], digest[1], digest[2], digest[3]]
}

/// The message that is hashed: the version as one byte, then the payload.
pub open spec fn checked_message(version: u8, payload: Seq<u8>) -> Seq<u8> {
    seq![version] + payload
}

/// The checksum of a payload under a version.
pub open spec fn checksum(version: u8, payload: Seq<u8>) -> Seq<u8> {
    leading_four(sha256(sha256(checked_message(version, payload))))
}

/// Four bytes read as a 32-bit integer, least significant byte first.
pub open spec fn le_u32(bytes: Seq<u8>) -> u32 {
    (bytes[0] as int + bytes[1] as int * 0x100 + bytes[2] as int * 0x1_0000 + bytes[3] as int
        * 0x100_0000) as u32
}

/// The first four bytes of a digest.
pub fn checksum_of_digest(digest: &[u8; 32]) -> (sum: [u8; 4])
    ensures
        sum@ == leading_four(digest@),
{
    let sum = [digest[0], digest[1], digest[2], digest[3]];
    sum
}

/// The version as one byte, followed by the payload.
pub fn message_to_check(version: u8, data: &[u8]) -> (message: Vec<u8>)
    ensures
        message@ == checked_message(version, data@),
{
    let mut message: Vec<u8> = Vec::new();
    message.push(version);
    let mut index: usize = 0;
    while index < data.len()
        invariant
            index <= data@.len(),
            message@ == checked_message(version, data@.take(index as int)),
        decreases data@.len() - index,
    {
        message.push(data[index]);
        index += 1;
    }
    message
}

/// The checksum of `data` under `version`.
pub fn c32_checksum(version: u8, data: &[u8]) -> (sum: [u8; 4])
    ensures
        sum@ == checksum(version, data@),
{
    let message = message_to_check(version, data);
    let inner = sha256_digest(message.as_slice());
    let outer = sha256_digest(inner.as_slice());
    checksum_of_digest(&outer)
}

/// Four bytes as a 32-bit integer, least significant byte first.
pub fn checksum_as_u32(sum: &[u8; 4]) -> (value: u32)
    ensures
        value == le_u32(sum@),
{
    let b0: u8 = sum[0];
    let b1: u8 = sum[1];
    let b2: u8 = sum[2];
    let b3: u8 = sum[3];
    let value: u32 = (b0 as u32) | ((b1 as u32) << 8) | ((b2 as u32) << 16) | ((b3 as u32) << 24);
    assert(value == b0 + b1 * 0x100 + b2 * 0x1_0000 + b3 * 0x100_0000) by (bit_vector)
        requires
            value == (b0 as u32) | ((b1 as u32) << 8) | ((b2 as u32) << 16) | ((b3 as u32) << 24),
    ;
    value
}

} // verus!
