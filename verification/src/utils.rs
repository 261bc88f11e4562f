//! Conversions between bytes and rows of bits.
//!
//! These model no electrical behavior: no transistor, no signal, no
//! wire. All multi-bit values are least significant bit first, which is
//! the convention of [`bits_value`] and [`value_bits`].

use vstd::arithmetic::power2;
use vstd::prelude::*;

use crate::hardware::{self, Bit};

verus! {

/// A level as a number.
pub open spec fn bit_value(bit: Bit) -> nat {
    match bit {
        Bit::Low => 0,
        Bit::High => 1,
    }
}

/// The number that a row of bits stands for, least significant bit first.
pub open spec fn bits_value(bits: Seq<Bit>) -> nat
    decreases bits.len(),
{
    if bits.len() == 0 {
        0
    } else {
        bit_value(bits[0]) + 2 * bits_value(bits.drop_first())
    }
}

/// The `count` low bits of a number, least significant bit first.
pub open spec fn value_bits(value: nat, count: nat) -> Seq<Bit>
    decreases count,
{
    if count == 0 {
        Seq::empty()
    } else {
        seq![hardware::bit_of(value % 2 == 1)] + value_bits(value / 2, (count - 1) as nat)
    }
}

/// The byte that eight bits stand for.
pub open spec fn byte_of(bits: Seq<Bit>) -> u8 {
    bits_value(bits) as u8
}

/// The eight bits of a byte.
pub open spec fn byte_bits(byte: u8) -> Seq<Bit> {
    value_bits(byte as nat, 8)
}

/// The 16-bit word that sixteen bits stand for.
pub open spec fn word_of(bits: Seq<Bit>) -> u16 {
    bits_value(bits) as u16
}

/// The sixteen bits of a word.
pub open spec fn word_bits(word: u16) -> Seq<Bit> {
    value_bits(word as nat, 16)
}

/// The value of `n` bits is smaller than two to the power of `n`.
pub proof fn lemma_bits_value_bound(bits: Seq<Bit>)
    ensures
        bits_value(bits) < power2::pow2(bits.len()),
    decreases bits.len(),
{
    if bits.len() == 0 {
        power2::lemma2_to64();
    } else {
        lemma_bits_value_bound(bits.drop_first());
        power2::lemma_pow2_unfold(bits.len());
    }
}

/// Packing the bits of a number gives back its low part.
pub proof fn lemma_bits_of_value(value: nat, count: nat)
    ensures
        value_bits(value, count).len() == count,
        value < power2::pow2(count) ==> bits_value(value_bits(value, count)) == value,
    decreases count,
{
    if count == 0 {
        power2::lemma2_to64();
    } else {
        let rest = value_bits(value / 2, (count - 1) as nat);
        lemma_bits_of_value(value / 2, (count - 1) as nat);
        power2::lemma_pow2_unfold(count);
        assert(value_bits(value, count).drop_first() =~= rest);
    }
}

/// Expanding the value of a row of bits gives back the row.
pub proof fn lemma_value_of_bits(bits: Seq<Bit>)
    ensures
        value_bits(bits_value(bits), bits.len()) == bits,
    decreases bits.len(),
{
    if bits.len() == 0 {
        assert(value_bits(bits_value(bits), bits.len()) =~= bits);
    } else {
        let rest = bits.drop_first();
        lemma_value_of_bits(rest);
        assert(bits_value(bits) / 2 == bits_value(rest));
        assert(value_bits(bits_value(bits), bits.len()) =~= seq![bits[0]] + rest);
        assert(seq![bits[0]] + rest =~= bits);
    }
}

/// Packing the bits of a byte gives back the byte.
pub proof fn law_byte_unpacked(byte: u8)
    ensures
        byte_bits(byte).len() == 8,
        byte_of(byte_bits(byte)) == byte,
        bits_value(byte_bits(byte)) == byte,
{
    power2::lemma2_to64();
    lemma_bits_of_value(byte as nat, 8);
}

/// Expanding the byte that eight bits stand for gives back the bits.
pub proof fn law_byte_packed(bits: Seq<Bit>)
    requires
        bits.len() == 8,
    ensures
        byte_bits(byte_of(bits)) == bits,
        bits_value(bits) == byte_of(bits),
{
    power2::lemma2_to64();
    lemma_bits_value_bound(bits);
    lemma_value_of_bits(bits);
}

/// Packing the bits of a word gives back the word.
pub proof fn law_word_unpacked(word: u16)
    ensures
        word_bits(word).len() == 16,
        word_of(word_bits(word)) == word,
        bits_value(word_bits(word)) == word,
{
    power2::lemma2_to64();
    lemma_bits_of_value(word as nat, 16);
}

/// Expanding the word that sixteen bits stand for gives back the bits.
pub proof fn law_word_packed(bits: Seq<Bit>)
    requires
        bits.len() == 16,
    ensures
        word_bits(word_of(bits)) == bits,
        bits_value(bits) == word_of(bits),
{
    power2::lemma2_to64();
    lemma_bits_value_bound(bits);
    lemma_value_of_bits(bits);
}

/// The low bits of a row, then the high ones.
pub proof fn lemma_bits_value_concat(low: Seq<Bit>, high: Seq<Bit>)
    ensures
        bits_value(low + high) == bits_value(low) + power2::pow2(low.len()) * bits_value(high),
    decreases low.len(),
{
    if low.len() == 0 {
        power2::lemma2_to64();
        assert(low + high =~= high);
    } else {
        lemma_bits_value_concat(low.drop_first(), high);
        assert((low + high).drop_first() =~= low.drop_first() + high);
        power2::lemma_pow2_unfold(low.len());
        let p = power2::pow2((low.len() - 1) as nat);
        let h = bits_value(high);
        assert(2 * (p * h) == (2 * p) * h) by (nonlinear_arith);
    }
}

/// A number reduced to a byte: its remainder modulo 256.
pub open spec fn wrapped(value: int) -> u8 {
    (value % 256) as u8
}

/// A number reduced to a 16-bit word.
pub open spec fn wrapped_word(value: int) -> u16 {
    (value % 0x1_0000) as u16
}

/// The low byte of a word.
pub open spec fn low_byte(word: u16) -> u8 {
    (word % 256) as u8
}

/// The high byte of a word.
pub open spec fn high_byte(word: u16) -> u8 {
    (word / 256) as u8
}

/// The word made of two bytes.
pub open spec fn word_from(low: u8, high: u8) -> u16 {
    (low + 256 * high) as u16
}

/// A word is made of its two bytes, and its bits are theirs.
pub proof fn law_word_halves(low: u8, high: u8)
    ensures
        low_byte(word_from(low, high)) == low,
        high_byte(word_from(low, high)) == high,
        word_bits(word_from(low, high)) == byte_bits(low) + byte_bits(high),
{
    let word = word_from(low, high);
    power2::lemma2_to64();
    law_byte_unpacked(low);
    law_byte_unpacked(high);
    lemma_bits_value_concat(byte_bits(low), byte_bits(high));
    law_word_packed(byte_bits(low) + byte_bits(high));
}

/// Every word is made of its two bytes.
pub proof fn law_word_split(word: u16)
    ensures
        word_from(low_byte(word), high_byte(word)) == word,
        word_bits(word) == byte_bits(low_byte(word)) + byte_bits(high_byte(word)),
{
    law_word_halves(low_byte(word), high_byte(word));
}

/// The complement of a row of bits.
pub open spec fn complement(bits: Seq<Bit>) -> Seq<Bit> {
    Seq::new(bits.len(), |i: int| hardware::flipped(bits[i]))
}

/// A row of bits and its complement add up to all ones.
pub proof fn lemma_complement_value(bits: Seq<Bit>)
    ensures
        bits_value(complement(bits)) + bits_value(bits) == power2::pow2(bits.len()) - 1,
    decreases bits.len(),
{
    if bits.len() == 0 {
        power2::lemma2_to64();
    } else {
        lemma_complement_value(bits.drop_first());
        assert(complement(bits).drop_first() =~= complement(bits.drop_first()));
        power2::lemma_pow2_unfold(bits.len());
    }
}

/// The bits of a byte are those that shifting brings to the end.
pub proof fn lemma_byte_bit(byte: u8, index: u8)
    requires
        index < 8,
    ensures
        byte_bits(byte).len() == 8,
        byte_bits(byte)[index as int] == hardware::bit_of((byte >> index) & 1 == 1),
{
    lemma_bits_of_value(byte as nat, 8);
    reveal_with_fuel(value_bits, 9);
    assert({
        &&& (byte >> 0u8) & 1 == byte % 2
        &&& (byte >> 1u8) & 1 == (byte / 2) % 2
        &&& (byte >> 2u8) & 1 == (byte / 2 / 2) % 2
        &&& (byte >> 3u8) & 1 == (byte / 2 / 2 / 2) % 2
        &&& (byte >> 4u8) & 1 == (byte / 2 / 2 / 2 / 2) % 2
        &&& (byte >> 5u8) & 1 == (byte / 2 / 2 / 2 / 2 / 2) % 2
        &&& (byte >> 6u8) & 1 == (byte / 2 / 2 / 2 / 2 / 2 / 2) % 2
        &&& (byte >> 7u8) & 1 == (byte / 2 / 2 / 2 / 2 / 2 / 2 / 2) % 2
    }) by (bit_vector);
}

/// The bits of the bytes 0, 1 and 255.
pub proof fn lemma_constant_bytes()
    ensures
        byte_bits(0) == Seq::new(8, |i: int| Bit::Low),
        byte_bits(1) == Seq::new(8, |i: int| hardware::bit_of(i == 0)),
        byte_bits(255) == Seq::new(8, |i: int| Bit::High),
{
    reveal_with_fuel(value_bits, 9);
    assert(byte_bits(0) =~= Seq::new(8, |i: int| Bit::Low));
    assert(byte_bits(1) =~= Seq::new(8, |i: int| hardware::bit_of(i == 0)));
    assert(byte_bits(255) =~= Seq::new(8, |i: int| Bit::High));
}

/// One bit of the bitwise operations on bytes.
proof fn lemma_bitwise_at(a: u8, b: u8, index: int)
    requires
        0 <= index < 8,
    ensures
        byte_bits(a & b)[index] == hardware::bit_of(
            byte_bits(a)[index] == Bit::High && byte_bits(b)[index] == Bit::High,
        ),
        byte_bits(a | b)[index] == hardware::bit_of(
            byte_bits(a)[index] == Bit::High || byte_bits(b)[index] == Bit::High,
        ),
        byte_bits(a ^ b)[index] == hardware::bit_of(byte_bits(a)[index] != byte_bits(b)[index]),
        byte_bits(!a)[index] == hardware::flipped(byte_bits(a)[index]),
{
    let k = index as u8;
    lemma_byte_bit(a, k);
    lemma_byte_bit(b, k);
    lemma_byte_bit(a & b, k);
    lemma_byte_bit(a | b, k);
    lemma_byte_bit(a ^ b, k);
    lemma_byte_bit(!a, k);
    assert({
        &&& (((a & b) >> k) & 1 == 1) == ((a >> k) & 1 == 1 && (b >> k) & 1 == 1)
        &&& (((a | b) >> k) & 1 == 1) == ((a >> k) & 1 == 1 || (b >> k) & 1 == 1)
        &&& (((a ^ b) >> k) & 1 == 1) == (((a >> k) & 1 == 1) != ((b >> k) & 1 == 1))
        &&& (((!a) >> k) & 1 == 1) == !((a >> k) & 1 == 1)
    }) by (bit_vector)
        requires
            k < 8,
    ;
}

/// The bitwise operations on bytes work bit by bit.
pub proof fn lemma_bitwise(a: u8, b: u8)
    ensures
        byte_bits(a & b) == Seq::new(
            8,
            |i: int|
                hardware::bit_of(byte_bits(a)[i] == Bit::High && byte_bits(b)[i] == Bit::High),
        ),
        byte_bits(a | b) == Seq::new(
            8,
            |i: int|
                hardware::bit_of(byte_bits(a)[i] == Bit::High || byte_bits(b)[i] == Bit::High),
        ),
        byte_bits(a ^ b) == Seq::new(
            8,
            |i: int| hardware::bit_of(byte_bits(a)[i] != byte_bits(b)[i]),
        ),
        byte_bits(!a) == complement(byte_bits(a)),
{
    law_byte_unpacked(a);
    law_byte_unpacked(a & b);
    law_byte_unpacked(a | b);
    law_byte_unpacked(a ^ b);
    law_byte_unpacked(!a);
    assert forall|i: int| 0 <= i < 8 implies #[trigger] byte_bits(a & b)[i] == hardware::bit_of(
        byte_bits(a)[i] == Bit::High && byte_bits(b)[i] == Bit::High,
    ) by {
        lemma_bitwise_at(a, b, i);
    }
    assert forall|i: int| 0 <= i < 8 implies #[trigger] byte_bits(a | b)[i] == hardware::bit_of(
        byte_bits(a)[i] == Bit::High || byte_bits(b)[i] == Bit::High,
    ) by {
        lemma_bitwise_at(a, b, i);
    }
    assert forall|i: int| 0 <= i < 8 implies #[trigger] byte_bits(a ^ b)[i] == hardware::bit_of(
        byte_bits(a)[i] != byte_bits(b)[i],
    ) by {
        lemma_bitwise_at(a, b, i);
    }
    assert forall|i: int| 0 <= i < 8 implies #[trigger] byte_bits(!a)[i] == hardware::flipped(
        byte_bits(a)[i],
    ) by {
        lemma_bitwise_at(a, b, i);
    }
}

/// Pack up to eight bits into a byte.
///
/// When `msb_first` is false, the first bit is the least significant one.
pub fn bits_to_int(bits: &[Bit], msb_first: bool) -> (result: u8)
    requires
        bits@.len() <= 8,
    ensures
        result == bits_value(
            if msb_first {
                bits@.reverse()
            } else {
                bits@
            },
        ),
{
    let ghost ordered = if msb_first {
        bits@.reverse()
    } else {
        bits@
    };
    let count = bits.len();
    let mut result: u8 = 0;
    for done in 0..count
        invariant
            count == bits@.len(),
            count <= 8,
            ordered == if msb_first {
                bits@.reverse()
            } else {
                bits@
            },
            result == bits_value(ordered.skip(count - done)),
    {
        let bit = if msb_first {
            bits[done]
        } else {
            bits[count - 1 - done]
        };
        proof {
            let tail = ordered.skip(count - 1 - done);
            assert(tail.drop_first() == ordered.skip(count - done));
            assert(tail[0] == bit);
            lemma_bits_value_bound(tail);
            power2::lemma2_to64();
            assert(power2::pow2(tail.len()) <= 256) by {
                if tail.len() < 8 {
                    power2::lemma_pow2_strictly_increases(tail.len(), 8);
                }
            }
        }
        result = match bit {
            Bit::Low => 2 * result,
            Bit::High => 2 * result + 1,
        };
    }
    assert(ordered.skip(0) == ordered);
    result
}

/// Expand a byte into eight bits, least significant bit first.
pub fn int_to_bits(value: u8) -> (bits: [Bit; 8])
    ensures
        bits@ == byte_bits(value),
{
    let mut bits = [Bit::Low; 8];
    let mut rest: u8 = value;
    assert(bits@.take(0) + value_bits(value as nat, 8) =~= byte_bits(value));
    for index in 0..8
        invariant
            bits@.take(index as int) + value_bits(rest as nat, (8 - index) as nat) == byte_bits(
                value,
            ),
    {
        let ghost before = bits@;
        let ghost below = value_bits((rest / 2) as nat, (7 - index) as nat);
        let bit = if rest % 2 == 1 {
            Bit::High
        } else {
            Bit::Low
        };
        bits[index] = bit;
        assert(value_bits(rest as nat, (8 - index) as nat) == seq![bit] + below);
        assert(bits@.take(index as int + 1) =~= before.take(index as int).push(bit));
        assert(bits@.take(index as int + 1) + below =~= before.take(index as int) + (seq![bit]
            + below));
        rest = rest / 2;
    }
    assert(bits@.take(8) + value_bits(rest as nat, 0) =~= bits@);
    bits
}

/// The levels of a row are the binary digits of its value: the level at a
/// place says whether the power of two of that place is part of the value.
pub proof fn law_binary_digits(bits: Seq<Bit>, place: nat)
    requires
        place < bits.len(),
    ensures
        bits_value(bits) < power2::pow2(bits.len()),
        (bits_value(bits) / power2::pow2(place)) % 2 == if bits[place as int] == Bit::High {
            1nat
        } else {
            0
        },
    decreases place,
{
    lemma_bits_value_bound(bits);
    let value = bits_value(bits);
    power2::lemma2_to64();
    if place > 0 {
        let rest = bits.drop_first();
        law_binary_digits(rest, (place - 1) as nat);
        assert(value / 2 == bits_value(rest));
        lemma_halved(value, place);
    } else {
        assert(value / 1 == value);
    }
}

/// Dividing by a power of two is dividing by two and then by the power
/// before it.
proof fn lemma_halved(value: nat, place: nat)
    requires
        place > 0,
    ensures
        value / power2::pow2(place) == (value / 2) / power2::pow2((place - 1) as nat),
{
    let half = power2::pow2((place - 1) as nat);
    power2::lemma_pow2_unfold(place);
    power2::lemma_pow2_pos((place - 1) as nat);
    vstd::arithmetic::div_mod::lemma_div_denominator(value as int, 2, half as int);
}

/// Expanding a number gives as many levels as asked for, and the level at
/// a place is the binary digit of the number there.
pub proof fn law_expanded_digits(value: nat, count: nat, place: nat)
    requires
        place < count,
    ensures
        value_bits(value, count).len() == count,
        value_bits(value, count)[place as int] == Bit::High <==> (value / power2::pow2(place)) % 2
            == 1,
    decreases place,
{
    lemma_bits_of_value(value, count);
    power2::lemma2_to64();
    if place > 0 {
        law_expanded_digits(value / 2, (count - 1) as nat, (place - 1) as nat);
        lemma_halved(value, place);
    } else {
        assert(value / 1 == value);
    }
}

/// Packing reads a row of up to eight levels as a binary number, from
/// either end: every level counts for the power of two of its place, and
/// nothing else does.
pub proof fn law_packing(bits: &[Bit], msb_first: bool, byte: u8, index: int)
    requires
        bits_to_int.requires((bits, msb_first)),
        bits_to_int.ensures((bits, msb_first), byte),
        0 <= index < bits@.len(),
    ensures
        byte < power2::pow2(bits@.len()),
        ({
            let place = if msb_first {
                bits@.len() - 1 - index
            } else {
                index
            };
            bits@[index] == Bit::High <==> (byte as nat / power2::pow2(place as nat)) % 2 == 1
        }),
{
    if msb_first {
        law_binary_digits(bits@.reverse(), (bits@.len() - 1 - index) as nat);
    } else {
        law_binary_digits(bits@, index as nat);
    }
}

/// Unpacking gives the bits that shifting brings to the end, and packing
/// them again gives back the byte.
pub proof fn law_unpacking(byte: u8, bits: [Bit; 8], index: u8, packed: u8)
    requires
        int_to_bits.ensures((byte,), bits),
        bits_to_int.ensures((&bits, false), packed),
        index < 8,
    ensures
        bits@[index as int] == Bit::High <==> (byte >> index) & 1 == 1,
        packed == byte,
{
    lemma_byte_bit(byte, index);
    law_byte_unpacked(byte);
}

/// A word is its low byte and 256 times its high byte.
pub proof fn law_word_bytes(word: u16, low: u8, high: u8)
    ensures
        low_byte(word) + 256 * high_byte(word) == word,
        word_from(low, high) == low + 256 * high,
{
}

/// Reducing a number to a byte or to a word takes away a multiple of 256 or
/// of 65536, and leaves a number that fits as it is.
pub proof fn law_wrapping(value: int)
    ensures
        value == 256 * (value / 256) + wrapped(value),
        value == 65536 * (value / 65536) + wrapped_word(value),
        0 <= value < 256 ==> wrapped(value) == value,
        0 <= value < 65536 ==> wrapped_word(value) == value,
{
}

/// The bits of a word are those that shifting brings to the end.
pub proof fn law_word_bit(word: u16, index: u16)
    requires
        index < 16,
    ensures
        word_bits(word).len() == 16,
        word_bits(word)[index as int] == Bit::High <==> (word >> index) & 1 == 1,
{
    law_expanded_digits(word as nat, 16, index as nat);
    power2::lemma_pow2_pos(index as nat);
    vstd::bits::lemma_u16_shr_is_div(word, index);
    let shifted = word >> index;
    assert(shifted & 1 == shifted % 2) by (bit_vector);
}

} // verus!
