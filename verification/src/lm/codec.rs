//! The values of the language models as they are stored.
//!
//! A word id takes three bytes, the most significant first. A cost is
//! stored as a 32-bit IEEE 754 number, the least significant byte first.
//! The unigram model stores under each word its id and its cost, seven
//! bytes; the bigram model stores under the ids of a pair, six bytes, the
//! cost of the pair, four bytes.
use vstd::prelude::*;
use vstd::arithmetic::power2::{lemma2_to64, lemma_pow2_pos, lemma_pow2_unfold, pow2};
use crate::cost::COST_MAX;

verus! {

/// One more than the largest id that three bytes hold.
pub const ID_END: u32 = 0x100_0000;

/// The three bytes of `id`, the most significant first.
pub open spec fn id_bytes(id: int) -> Seq<u8> {
    seq![(id / 0x1_0000 % 0x100) as u8, (id / 0x100 % 0x100) as u8, (id % 0x100) as u8]
}

/// The four bytes of `bits`, the least significant first.
pub open spec fn bits_bytes(bits: int) -> Seq<u8> {
    seq![
        (bits % 0x100) as u8,
        (bits / 0x100 % 0x100) as u8,
        (bits / 0x1_0000 % 0x100) as u8,
        (bits / 0x100_0000 % 0x100) as u8,
    ]
}

/// The id that three bytes hold.
pub open spec fn id_of(bytes: Seq<u8>) -> int {
    bytes[0] * 0x1_0000 + bytes[1] * 0x100 + bytes[2]
}

/// The 32 bits that four bytes hold.
pub open spec fn bits_of(bytes: Seq<u8>) -> int {
    bytes[0] + bytes[1] * 0x100 + bytes[2] * 0x1_0000 + bytes[3] * 0x100_0000
}

/// What the unigram model stores under a word.
pub open spec fn unigram_payload(id: int, bits: int) -> Seq<u8> {
    id_bytes(id) + bits_bytes(bits)
}

/// The key under which the bigram model stores a pair.
pub open spec fn bigram_key(id1: int, id2: int) -> Seq<u8> {
    id_bytes(id1) + id_bytes(id2)
}

/// The bytes of an id hold the id, and those of 32 bits hold the bits.
pub proof fn lemma_bytes_round_trip(id: int, bits: int)
    requires
        0 <= id < ID_END,
        0 <= bits <= u32::MAX,
    ensures
        id_of(id_bytes(id)) == id,
        bits_of(bits_bytes(bits)) == bits,
        id_of(unigram_payload(id, bits).subrange(0, 3)) == id,
        bits_of(unigram_payload(id, bits).subrange(3, 7)) == bits,
{
    assert(unigram_payload(id, bits).subrange(0, 3) =~= id_bytes(id));
    assert(unigram_payload(id, bits).subrange(3, 7) =~= bits_bytes(bits));
}

/// The three bytes of `id`, or `None` for an id that does not fit.
pub fn encode_id(id: u32) -> (r: Option<Vec<u8>>)
    ensures
        r is Some <==> id < ID_END,
        r is Some ==> r->0@ == id_bytes(id as int),
{
    if id >= ID_END {
        return None;
    }
    let mut out: Vec<u8> = Vec::new();
    out.push((id / 0x1_0000 % 0x100) as u8);
    out.push((id / 0x100 % 0x100) as u8);
    out.push((id % 0x100) as u8);
    assert(out@ =~= id_bytes(id as int));
    Some(out)
}

/// The four bytes of `bits`.
pub fn encode_bits(bits: u32) -> (r: Vec<u8>)
    ensures
        r@ == bits_bytes(bits as int),
{
    let mut out: Vec<u8> = Vec::new();
    out.push((bits % 0x100) as u8);
    out.push((bits / 0x100 % 0x100) as u8);
    out.push((bits / 0x1_0000 % 0x100) as u8);
    out.push((bits / 0x100_0000 % 0x100) as u8);
    assert(out@ =~= bits_bytes(bits as int));
    out
}

/// What the unigram model stores for a word with this id and these cost
/// bits, or `None` for an id that does not fit in three bytes.
pub fn encode_unigram_payload(id: u32, bits: u32) -> (r: Option<Vec<u8>>)
    ensures
        r is Some <==> id < ID_END,
        r is Some ==> r->0@ == unigram_payload(id as int, bits as int),
{
    match encode_id(id) {
        None => None,
        Some(mut out) => {
            let mut tail = encode_bits(bits);
            out.append(&mut tail);
            Some(out)
        },
    }
}

/// The id and the cost bits that the unigram model stored, or `None` for
/// a payload that is not seven bytes long.
pub fn decode_unigram_payload(bytes: &[u8]) -> (r: Option<(u32, u32)>)
    ensures
        r is Some <==> bytes@.len() == 7,
        r matches Some(pair) ==> pair.0 == id_of(bytes@.subrange(0, 3)) && pair.1 == bits_of(
            bytes@.subrange(3, 7),
        ),
{
    if bytes.len() != 7 {
        return None;
    }
    let id: u32 = bytes[0] as u32 * 0x1_0000 + bytes[1] as u32 * 0x100 + bytes[2] as u32;
    let bits: u32 = bytes[3] as u32 + bytes[4] as u32 * 0x100 + bytes[5] as u32 * 0x1_0000
        + bytes[6] as u32 * 0x100_0000;
    Some((id, bits))
}

/// The key of a pair in the bigram model, or `None` if one of the ids
/// does not fit in three bytes.
pub fn encode_bigram_key(id1: u32, id2: u32) -> (r: Option<Vec<u8>>)
    ensures
        r is Some <==> id1 < ID_END && id2 < ID_END,
        r is Some ==> r->0@ == bigram_key(id1 as int, id2 as int),
{
    match (encode_id(id1), encode_id(id2)) {
        (Some(mut out), Some(mut tail)) => {
            out.append(&mut tail);
            Some(out)
        },
        _ => None,
    }
}

/// The ids of the pair that a key of the bigram model stands for, or
/// `None` for a key that is not six bytes long.
pub fn decode_bigram_key(bytes: &[u8]) -> (r: Option<(u32, u32)>)
    ensures
        r is Some <==> bytes@.len() == 6,
        r matches Some(pair) ==> pair.0 == id_of(bytes@.subrange(0, 3)) && pair.1 == id_of(
            bytes@.subrange(3, 6),
        ),
{
    if bytes.len() != 6 {
        return None;
    }
    let id1: u32 = bytes[0] as u32 * 0x1_0000 + bytes[1] as u32 * 0x100 + bytes[2] as u32;
    let id2: u32 = bytes[3] as u32 * 0x1_0000 + bytes[4] as u32 * 0x100 + bytes[5] as u32;
    Some((id1, id2))
}

/// The cost bits that the bigram model stored for a pair, or `None` for a
/// value that is not four bytes long.
pub fn decode_bits(bytes: &[u8]) -> (r: Option<u32>)
    ensures
        r is Some <==> bytes@.len() == 4,
        r is Some ==> r->0 == bits_of(bytes@),
{
    if bytes.len() != 4 {
        return None;
    }
    let bits: u32 = bytes[0] as u32 + bytes[1] as u32 * 0x100 + bytes[2] as u32 * 0x1_0000
        + bytes[3] as u32 * 0x100_0000;
    Some(bits)
}

/// The byte that stands between a word and what is stored with it.
pub const WORD_END: u8 = 0xff;

/// The key of a word in the file of the unigram model: the bytes of the
/// word, the byte `WORD_END`, and the id and the cost bits of the word.
pub open spec fn unigram_key(word: Seq<u8>, id: int, bits: int) -> Seq<u8> {
    word.push(WORD_END) + unigram_payload(id, bits)
}

/// The key of a pair in the file of the bigram model: the two ids and the
/// cost bits of the pair.
pub open spec fn bigram_entry(id1: int, id2: int, bits: int) -> Seq<u8> {
    bigram_key(id1, id2) + bits_bytes(bits)
}

/// The key of a word in the file of the unigram model, or `None` for an
/// id that does not fit in three bytes.
pub fn encode_unigram_key(word: &[u8], id: u32, bits: u32) -> (r: Option<Vec<u8>>)
    ensures
        r is Some <==> id < ID_END,
        r is Some ==> r->0@ == unigram_key(word@, id as int, bits as int),
{
    let mut payload = match encode_unigram_payload(id, bits) {
        Some(payload) => payload,
        None => {
            return None;
        },
    };
    let mut key: Vec<u8> = Vec::new();
    let mut i: usize = 0;
    while i < word.len()
        invariant
            i <= word.len(),
            key@ == word@.take(i as int),
        decreases word.len() - i,
    {
        key.push(word[i]);
        assert(word@.take(i + 1) =~= word@.take(i as int).push(word@[i as int]));
        i = i + 1;
    }
    assert(word@.take(word.len() as int) =~= word@);
    key.push(WORD_END);
    key.append(&mut payload);
    Some(key)
}

/// The bytes of the word, the id and the cost bits that a key of the file
/// of the unigram model holds; or `None` for a key that is too short for
/// them or lacks the byte `WORD_END` before the last seven.
pub fn decode_unigram_key(key: &[u8]) -> (r: Option<(Vec<u8>, u32, u32)>)
    ensures
        r is Some <==> key@.len() >= 8 && key@[key@.len() - 8] == WORD_END,
        r matches Some(parts) ==> {
            &&& parts.0@ == key@.take(key@.len() - 8)
            &&& parts.1 == id_of(key@.subrange(key@.len() - 7, key@.len() - 4))
            &&& parts.2 == bits_of(key@.subrange(key@.len() - 4, key@.len() as int))
        },
{
    if key.len() < 8 {
        return None;
    }
    let at: usize = key.len() - 8;
    if key[at] != WORD_END {
        return None;
    }
    let payload = vstd::slice::slice_subrange(key, at + 1, key.len());
    let (id, bits) = match decode_unigram_payload(payload) {
        Some(pair) => pair,
        None => {
            return None;
        },
    };
    proof {
        assert(payload@.subrange(0, 3) =~= key@.subrange(key@.len() - 7, key@.len() - 4));
        assert(payload@.subrange(3, 7) =~= key@.subrange(key@.len() - 4, key@.len() as int));
    }
    let mut word: Vec<u8> = Vec::new();
    let mut i: usize = 0;
    while i < at
        invariant
            i <= at,
            at == key@.len() - 8,
            word@ == key@.take(i as int),
        decreases at - i,
    {
        word.push(key[i]);
        assert(key@.take(i + 1) =~= key@.take(i as int).push(key@[i as int]));
        i = i + 1;
    }
    Some((word, id, bits))
}

/// A key of the file of the unigram model gives back what it was made of.
pub proof fn lemma_unigram_key_round_trip(word: Seq<u8>, id: int, bits: int)
    requires
        0 <= id < ID_END,
        0 <= bits <= u32::MAX,
    ensures
        ({
            let key = unigram_key(word, id, bits);
            &&& key.len() >= 8
            &&& key[key.len() - 8] == WORD_END
            &&& key.take(key.len() - 8) == word
            &&& id_of(key.subrange(key.len() - 7, key.len() - 4)) == id
            &&& bits_of(key.subrange(key.len() - 4, key.len() as int)) == bits
        }),
{
    let key = unigram_key(word, id, bits);
    lemma_bytes_round_trip(id, bits);
    assert(key.take(key.len() - 8) =~= word);
    assert(key.subrange(key.len() - 7, key.len() - 4) =~= id_bytes(id));
    assert(key.subrange(key.len() - 4, key.len() as int) =~= bits_bytes(bits));
}

/// The key of a pair in the file of the bigram model, or `None` if one of
/// the ids does not fit in three bytes.
pub fn encode_bigram_entry(id1: u32, id2: u32, bits: u32) -> (r: Option<Vec<u8>>)
    ensures
        r is Some <==> id1 < ID_END && id2 < ID_END,
        r is Some ==> r->0@ == bigram_entry(id1 as int, id2 as int, bits as int),
{
    match encode_bigram_key(id1, id2) {
        Some(mut key) => {
            let mut tail = encode_bits(bits);
            key.append(&mut tail);
            Some(key)
        },
        None => None,
    }
}

/// The two ids and the cost bits that a key of the file of the bigram
/// model holds, or `None` for a key that is not ten bytes long.
pub fn decode_bigram_entry(key: &[u8]) -> (r: Option<(u32, u32, u32)>)
    ensures
        r is Some <==> key@.len() == 10,
        r matches Some(parts) ==> {
            &&& parts.0 == id_of(key@.subrange(0, 3))
            &&& parts.1 == id_of(key@.subrange(3, 6))
            &&& parts.2 == bits_of(key@.subrange(6, 10))
        },
{
    if key.len() != 10 {
        return None;
    }
    let ids = vstd::slice::slice_subrange(key, 0, 6);
    let tail = vstd::slice::slice_subrange(key, 6, 10);
    proof {
        assert(ids@.subrange(0, 3) =~= key@.subrange(0, 3));
        assert(ids@.subrange(3, 6) =~= key@.subrange(3, 6));
    }
    match (decode_bigram_key(ids), decode_bits(tail)) {
        (Some(pair), Some(bits)) => Some((pair.0, pair.1, bits)),
        _ => None,
    }
}

/// The exponent field of a 32-bit IEEE 754 number.
pub open spec fn exponent_of(bits: int) -> int {
    bits / 0x80_0000 % 0x100
}

/// The significand of a 32-bit IEEE 754 number that is neither zero nor
/// subnormal: the 23 stored bits under the implied leading one.
pub open spec fn significand_of(bits: int) -> int {
    0x80_0000 + bits % 0x80_0000
}

/// The size of the number as a cost, in units of 2^-32 and rounded
/// towards zero. The number is its significand times two to the power of
/// its exponent field less 150; as a cost it is that times 2^32.
pub open spec fn magnitude_of(bits: int) -> int {
    let e = exponent_of(bits);
    if e == 0 {
        0
    } else if e >= 118 {
        significand_of(bits) * pow2((e - 118) as nat)
    } else {
        significand_of(bits) / (pow2((118 - e) as nat) as int)
    }
}

/// The cost that a 32-bit IEEE 754 number stands for: `None` for
/// infinities, for what is not a number, and for a number larger in size
/// than `COST_MAX` allows.
pub open spec fn cost_of_bits(bits: int) -> Option<int> {
    if exponent_of(bits) == 255 || magnitude_of(bits) > COST_MAX {
        None
    } else if bits >= 0x8000_0000 {
        Some(-magnitude_of(bits))
    } else {
        Some(magnitude_of(bits))
    }
}

/// The cost that the 32-bit IEEE 754 number `bits` stands for.
pub fn cost_from_f32_bits(bits: u32) -> (r: Option<i64>)
    ensures
        r is Some <==> cost_of_bits(bits as int) is Some,
        r is Some ==> r->0 == cost_of_bits(bits as int)->0,
        r is Some ==> -COST_MAX <= r->0 <= COST_MAX,
{
    let e: u32 = bits / 0x80_0000 % 0x100;
    if e == 255 {
        return None;
    }
    let negative = bits >= 0x8000_0000;
    let mut size: u64 = 0;
    if e != 0 {
        let significand: u64 = 0x80_0000 + (bits % 0x80_0000) as u64;
        size = significand;
        if e >= 118 {
            let mut left: u32 = e - 118;
            while left > 0 && size <= 0x8000_0000_0000
                invariant
                    0x80_0000 <= significand < 0x100_0000,
                    left <= e - 118 <= 136,
                    size * pow2(left as nat) == significand * pow2((e - 118) as nat),
                    size <= 0x1_0000_0000_0000,
                decreases left,
            {
                proof {
                    lemma_pow2_unfold(left as nat);
                    assert(size * (2 * pow2((left - 1) as nat)) == (size * 2) * pow2(
                        (left - 1) as nat,
                    )) by (nonlinear_arith);
                }
                size = size * 2;
                left = left - 1;
            }
            proof {
                lemma2_to64();
                lemma_pow2_pos(left as nat);
                assert(size * pow2(left as nat) >= size) by (nonlinear_arith)
                    requires
                        pow2(left as nat) >= 1,
                        size >= 0,
                ;
                if left == 0 {
                    assert(size * pow2(0) == size) by (nonlinear_arith)
                        requires
                            pow2(0) == 1,
                    ;
                }
            }
        } else {
            let mut right: u32 = 118 - e;
            proof {
                lemma2_to64();
                assert(significand as int / 1 == significand);
            }
            while right > 0 && size > 0
                invariant
                    0 < e < 118,
                    right <= 118 - e,
                    significand < 0x100_0000,
                    size == significand as int / (pow2((118 - e - right) as nat) as int),
                decreases right,
            {
                proof {
                    let done = (118 - e - right) as nat;
                    lemma_pow2_unfold(done + 1);
                    lemma_pow2_pos(done);
                    vstd::arithmetic::div_mod::lemma_div_denominator(
                        significand as int,
                        pow2(done) as int,
                        2,
                    );
                    assert(pow2(done) * 2 == 2 * pow2(done)) by (nonlinear_arith);
                }
                size = size / 2;
                right = right - 1;
            }
            proof {
                let done = (118 - e - right) as nat;
                let all = (118 - e) as nat;
                if right > 0 {
                    lemma_zero_stays(significand as int, done, all);
                }
                lemma_pow2_pos(all);
                vstd::arithmetic::div_mod::lemma_div_pos_is_pos(significand as int, pow2(all) as int);
                vstd::arithmetic::div_mod::lemma_div_is_ordered_by_denominator(
                    significand as int,
                    1,
                    pow2(all) as int,
                );
            }
        }
    }
    if size > 0x8000_0000_0000 {
        return None;
    }
    if negative {
        Some(-(size as i64))
    } else {
        Some(size as i64)
    }
}

/// The powers of two grow.
proof fn lemma_pow2_grows(a: nat, b: nat)
    requires
        a <= b,
    ensures
        pow2(a) <= pow2(b),
    decreases b - a,
{
    if a < b {
        lemma_pow2_grows(a, (b - 1) as nat);
        lemma_pow2_unfold(b);
    }
}

/// What has been halved to 0 stays 0 when it is halved further.
proof fn lemma_zero_stays(significand: int, done: nat, all: nat)
    requires
        0 <= significand,
        done <= all,
        significand / (pow2(done) as int) == 0,
    ensures
        significand / (pow2(all) as int) == 0,
{
    lemma_pow2_pos(done);
    lemma_pow2_grows(done, all);
    if significand >= pow2(done) {
        vstd::arithmetic::div_mod::lemma_div_non_zero(significand, pow2(done) as int);
    }
    vstd::arithmetic::div_mod::lemma_basic_div(significand, pow2(all) as int);
}

} // verus!
