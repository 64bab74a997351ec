//! FNV-1a content fingerprints and block identities.

use vstd::prelude::*;
use crate::util::text::push_char;

verus! {

/// FNV-1a 64-bit offset basis.
pub const FNV_OFFSET: u64 = 0xcbf2_9ce4_8422_2325;

/// FNV-1a 64-bit prime.
pub const FNV_PRIME: u64 = 0x0000_0100_0000_01b3;

/// One FNV-1a round: xor in the byte, then multiply modulo 2^64.
pub open spec fn fnv_step(hash: u64, byte: u8) -> u64 {
    vstd::wrapping::u64_specs::wrapping_mul(hash ^ (byte as u64), FNV_PRIME)
}

/// FNV-1a over `bytes`, starting from `hash`.
pub open spec fn spec_hash(hash: u64, bytes: Seq<u8>) -> u64
    decreases bytes.len(),
{
    if bytes.len() == 0 {
        hash
    } else {
        fnv_step(spec_hash(hash, bytes.drop_last()), bytes.last())
    }
}

/// The fingerprint of a block of `kind` with source `bytes`.
pub open spec fn spec_fingerprint(kind: u8, bytes: Seq<u8>) -> u64 {
    spec_hash(spec_hash(FNV_OFFSET, seq![kind]), bytes)
}

/// The eight little-endian bytes of `value`.
pub open spec fn le_bytes(value: u64) -> Seq<u8> {
    Seq::new(8, |i: int| (value >> ((8 * i) as u64)) as u8)
}

/// Continue the FNV-1a hash `hash` over `bytes`.
pub fn hash_bytes(hash: u64, bytes: &[u8]) -> (r: u64)
    ensures
        r == spec_hash(hash, bytes@),
{
    let mut result = hash;
    let mut index: usize = 0;
    while index < bytes.len()
        invariant
            index <= bytes@.len(),
            result == spec_hash(hash, bytes@.take(index as int)),
        decreases bytes.len() - index,
    {
        proof {
            assert(bytes@.take(index + 1).drop_last() =~= bytes@.take(index as int));
        }
        result = (result ^ (bytes[index] as u64)).wrapping_mul(FNV_PRIME);
        index += 1;
    }
    proof {
        assert(bytes@.take(bytes@.len() as int) =~= bytes@);
    }
    result
}

/// The fingerprint of a block of `kind` whose source is `bytes`.
pub fn fingerprint(kind: u8, bytes: &[u8]) -> (r: u64)
    ensures
        r == spec_fingerprint(kind, bytes@),
{
    let tag = [kind];
    proof {
        assert(tag@ =~= seq![kind]);
    }
    hash_bytes(hash_bytes(FNV_OFFSET, &tag), bytes)
}

/// Continue the FNV-1a hash `hash` over the little-endian bytes of `value`.
pub fn hash_u64_le(hash: u64, value: u64) -> (r: u64)
    ensures
        r == spec_hash(hash, le_bytes(value)),
{
    let mut bytes: Vec<u8> = Vec::new();
    let mut index: u64 = 0;
    while index < 8
        invariant
            index <= 8,
            bytes@ =~= le_bytes(value).take(index as int),
        decreases 8 - index,
    {
        bytes.push(#[verifier::truncate] ((value >> (8 * index)) as u8));
        index += 1;
    }
    proof {
        assert(le_bytes(value).take(8) =~= le_bytes(value));
    }
    hash_bytes(hash, bytes.as_slice())
}

/// Lowercase hexadecimal digit of `d`.
pub open spec fn hex_char(d: u64) -> char {
    if d < 10 {
        ((d + 0x30) as u8) as char
    } else {
        ((d - 10 + 0x61) as u8) as char
    }
}

/// `n` as sixteen lowercase hexadecimal digits, most significant first.
pub open spec fn hex16(n: u64) -> Seq<char> {
    Seq::new(16, |j: int| hex_char((n >> ((4 * (15 - j)) as u64)) % 16))
}

/// The public text of the block identity `n`.
pub open spec fn block_id_text(n: u64) -> Seq<char> {
    seq!['b', '_'] + hex16(n)
}

/// The public text of the block identity `n`: `b_` and sixteen hexadecimal
/// digits.
pub fn block_id_string(n: u64) -> (r: String)
    ensures
        r@ == block_id_text(n),
{
    let mut result = String::new();
    push_char(&mut result, 'b');
    push_char(&mut result, '_');
    let mut j: u64 = 0;
    while j < 16
        invariant
            j <= 16,
            result@ =~= seq!['b', '_'] + hex16(n).take(j as int),
        decreases 16 - j,
    {
        let d = (n >> (4 * (15 - j))) % 16;
        let c = if d < 10 {
            ((d + 0x30) as u8) as char
        } else {
            ((d - 10 + 0x61) as u8) as char
        };
        push_char(&mut result, c);
        proof {
            assert(hex16(n)[j as int] == c);
        }
        j += 1;
    }
    result
}

/// Take the next block identity from `next`.
pub fn allocate_id(next: &mut u64) -> (r: String)
    requires
        *old(next) < u64::MAX,
    ensures
        r@ == block_id_text(*old(next)),
        *final(next) == *old(next) + 1,
{
    let result = block_id_string(*next);
    *next += 1;
    result
}

/// Equal hexadecimal texts have equal digits.
proof fn lemma_hex_digit(a: u64, b: u64, k: u64)
    requires
        k < 16,
        forall|j: int| 0 <= j < 16 ==> #[trigger] hex16(a)[j] == hex16(b)[j],
    ensures
        (a >> (4 * k)) % 16 == (b >> (4 * k)) % 16,
{
    let j = 15 - k;
    assert(hex16(a)[j as int] == hex16(b)[j as int]);
    assert((4 * (15 - j)) as u64 == 4 * k);
}

/// Distinct identities have distinct texts.
pub proof fn lemma_block_id_text_injective(a: u64, b: u64)
    requires
        block_id_text(a) == block_id_text(b),
    ensures
        a == b,
{
    assert forall|j: int| 0 <= j < 16 implies #[trigger] hex16(a)[j] == hex16(b)[j] by {
        assert(block_id_text(a)[j + 2] == hex16(a)[j]);
        assert(block_id_text(b)[j + 2] == hex16(b)[j]);
    }
    lemma_hex_digit(a, b, 0u64);
    lemma_hex_digit(a, b, 1u64);
    lemma_hex_digit(a, b, 2u64);
    lemma_hex_digit(a, b, 3u64);
    lemma_hex_digit(a, b, 4u64);
    lemma_hex_digit(a, b, 5u64);
    lemma_hex_digit(a, b, 6u64);
    lemma_hex_digit(a, b, 7u64);
    lemma_hex_digit(a, b, 8u64);
    lemma_hex_digit(a, b, 9u64);
    lemma_hex_digit(a, b, 10u64);
    lemma_hex_digit(a, b, 11u64);
    lemma_hex_digit(a, b, 12u64);
    lemma_hex_digit(a, b, 13u64);
    lemma_hex_digit(a, b, 14u64);
    lemma_hex_digit(a, b, 15u64);
    assert(a == b) by (bit_vector)
        requires
            (a >> 0u64) % 16 == (b >> 0u64) % 16,
            (a >> 4u64) % 16 == (b >> 4u64) % 16,
            (a >> 8u64) % 16 == (b >> 8u64) % 16,
            (a >> 12u64) % 16 == (b >> 12u64) % 16,
            (a >> 16u64) % 16 == (b >> 16u64) % 16,
            (a >> 20u64) % 16 == (b >> 20u64) % 16,
            (a >> 24u64) % 16 == (b >> 24u64) % 16,
            (a >> 28u64) % 16 == (b >> 28u64) % 16,
            (a >> 32u64) % 16 == (b >> 32u64) % 16,
            (a >> 36u64) % 16 == (b >> 36u64) % 16,
            (a >> 40u64) % 16 == (b >> 40u64) % 16,
            (a >> 44u64) % 16 == (b >> 44u64) % 16,
            (a >> 48u64) % 16 == (b >> 48u64) % 16,
            (a >> 52u64) % 16 == (b >> 52u64) % 16,
            (a >> 56u64) % 16 == (b >> 56u64) % 16,
            (a >> 60u64) % 16 == (b >> 60u64) % 16,
    ;
}

} // verus!
