//! The content hash of a transaction: a 64-bit FNV-1a style fingerprint of
//! the account, the timestamp, the amount and the description.
//!
//! Two transactions with the same four fields always have the same hash, so
//! importing the same bank line twice is detected. The hash is a fingerprint
//! for deduplication and nothing more: it is not a key.

use vstd::prelude::*;
use vstd::utf8::encode_utf8;

verus! {

/// The FNV-1a 64-bit offset basis.
pub const FNV_OFFSET: u64 = 0xcbf2_9ce4_8422_2325;

/// The FNV-1a 64-bit prime.
pub const FNV_PRIME: u64 = 0x0000_0100_0000_01b3;

/// One FNV-1a step: fold `word` into `h`.
pub open spec fn mix(h: u64, word: u64) -> u64 {
    (h ^ word).wrapping_mul(FNV_PRIME)
}

/// A 32-bit signed value as an unsigned word, order kept.
pub open spec fn word32(x: i32) -> u64 {
    (x + 0x8000_0000) as u64
}

/// A 64-bit signed value as an unsigned word, order kept.
pub open spec fn word64(x: i64) -> u64 {
    (x + 0x8000_0000_0000_0000) as u64
}

/// `bytes` folded into `h`, first byte first.
pub open spec fn fold_bytes(h: u64, bytes: Seq<u8>) -> u64
    decreases bytes.len(),
{
    if bytes.len() == 0 {
        h
    } else {
        mix(fold_bytes(h, bytes.drop_last()), bytes.last() as u64)
    }
}

/// The content hash of the four defining fields of a transaction.
pub open spec fn content_hash(account: i32, description: Seq<char>, timestamp: i64, amount: i32) -> u64 {
    fold_bytes(
        mix(mix(mix(FNV_OFFSET, word32(account)), word64(timestamp)), word32(amount)),
        encode_utf8(description),
    )
}

fn mix_word(h: u64, word: u64) -> (r: u64)
    ensures
        r == mix(h, word),
{
    (h ^ word).wrapping_mul(FNV_PRIME)
}

fn to_word32(x: i32) -> (r: u64)
    ensures
        r == word32(x),
{
    let wide: i64 = x as i64 + 0x8000_0000;
    wide as u64
}

fn to_word64(x: i64) -> (r: u64)
    ensures
        r == word64(x),
{
    if x >= 0 {
        x as u64 + 0x8000_0000_0000_0000
    } else {
        (x + i64::MAX + 1) as u64
    }
}

/// Computes the content hash of the four defining fields of a transaction.
pub fn compute_hash(account: i32, description: &str, timestamp: i64, amount: i32) -> (r: u64)
    ensures
        r == content_hash(account, description@, timestamp, amount),
{
    let bytes = description.as_bytes();
    let mut h: u64 = mix_word(FNV_OFFSET, to_word32(account));
    h = mix_word(h, to_word64(timestamp));
    h = mix_word(h, to_word32(amount));
    let ghost seed = h;
    let mut i: usize = 0;
    assert(bytes@.take(0) =~= Seq::<u8>::empty());
    while i < bytes.len()
        invariant
            i <= bytes@.len(),
            h == fold_bytes(seed, bytes@.take(i as int)),
        decreases bytes@.len() - i,
    {
        assert(bytes@.take(i + 1).drop_last() =~= bytes@.take(i as int));
        h = mix_word(h, bytes[i] as u64);
        i += 1;
    }
    assert(bytes@.take(i as int) =~= bytes@);
    h
}

} // verus!
