//! Word sequences: an index written as big-endian words of `bit_depth` bits
//! each, for bit depths from 1 to 32.
use vstd::prelude::*;
use vstd::arithmetic::power2::{lemma2_to64, lemma_pow2_strictly_increases, pow2};
use crate::bignum::BigNat;
use crate::codec::{count_digits, digits_to_number, number_to_digits};
use crate::error::IndexError;
use crate::positional::{
    digit_count, digits_value, fits_in, lemma_fits_in_digit_count, lemma_low_digits_bounded,
    lemma_low_digits_value, low_digits,
};

verus! {

pub open spec fn supported_depth(bit_depth: u32) -> bool {
    1 <= bit_depth <= 32
}

/// The base of words of `bit_depth` bits.
pub open spec fn word_base(bit_depth: u32) -> nat {
    pow2(bit_depth as nat)
}

pub open spec fn word_digits(words: Seq<u32>) -> Seq<u64> {
    words.map_values(|w: u32| w as u64)
}

/// The index that `words` name at `bit_depth`.
pub open spec fn words_value(words: Seq<u32>, bit_depth: u32) -> nat {
    digits_value(word_digits(words), word_base(bit_depth))
}

/// `n` written as exactly `len` words of `bit_depth` bits.
pub open spec fn words_of(n: nat, bit_depth: u32, len: nat) -> Seq<u32> {
    low_digits(n, word_base(bit_depth), len).map_values(|d: u64| d as u32)
}

/// `e` reports the first word of `words` that needs more than `bit_depth` bits.
pub open spec fn first_wide_word(words: Seq<u32>, bit_depth: u32, e: IndexError) -> bool {
    match e {
        IndexError::WordOutOfRange { value, bit_depth: b } => {
            &&& b == bit_depth
            &&& value >= word_base(bit_depth)
            &&& exists|i: int|
                0 <= i < words.len() && words[i] == value && forall|j: int|
                    0 <= j < i ==> (#[trigger] words[j]) < word_base(bit_depth)
        },
        _ => false,
    }
}

proof fn lemma_word_base_bounds(bit_depth: u32)
    requires
        supported_depth(bit_depth),
    ensures
        2 <= word_base(bit_depth) <= 0x1_0000_0000,
{
    lemma2_to64();
    if bit_depth < 32 {
        lemma_pow2_strictly_increases(bit_depth as nat, 32);
    }
    if bit_depth > 1 {
        lemma_pow2_strictly_increases(1, bit_depth as nat);
    }
}

/// The base of words of `bit_depth` bits, as a number.
fn word_base_exec(bit_depth: u32) -> (r: u64)
    requires
        supported_depth(bit_depth),
    ensures
        r == word_base(bit_depth),
{
    let shift = bit_depth as u64;
    let r = 1u64 << shift;
    proof {
        lemma_word_base_bounds(bit_depth);
        vstd::bits::lemma_u64_shl_is_mul(1, shift);
        assert(r == 1 * pow2(shift as nat));
        assert(shift as nat == bit_depth as nat);
        assert(r == pow2(bit_depth as nat));
    }
    r
}

/// Reads words as an index; every word must fit in `bit_depth` bits.
pub fn decode_words(words: &Vec<u32>, bit_depth: u32) -> (r: Result<BigNat, IndexError>)
    ensures
        !supported_depth(bit_depth) ==> (r matches Err(IndexError::UnsupportedModality)),
        supported_depth(bit_depth) ==> {
            &&& r is Ok <==> forall|i: int|
                0 <= i < words.len() ==> (#[trigger] words@[i]) < word_base(bit_depth)
            &&& r matches Ok(n) ==> n@ == words_value(words@, bit_depth)
            &&& r matches Err(e) ==> first_wide_word(words@, bit_depth, e)
        },
{
    if bit_depth < 1 || bit_depth > 32 {
        return Err(IndexError::UnsupportedModality);
    }
    let base = word_base_exec(bit_depth);
    let mut digits: Vec<u64> = Vec::new();
    let mut i: usize = 0;
    while i < words.len()
        invariant
            i <= words.len(),
            supported_depth(bit_depth),
            base == word_base(bit_depth),
            digits@ == word_digits(words@).take(i as int),
            forall|j: int| 0 <= j < i ==> (#[trigger] words@[j]) < word_base(bit_depth),
        decreases words.len() - i,
    {
        let w = words[i];
        if (w as u64) >= base {
            return Err(IndexError::WordOutOfRange { value: w, bit_depth });
        }
        digits.push(w as u64);
        proof {
            assert(digits@ =~= word_digits(words@).take(i + 1));
        }
        i += 1;
    }
    proof {
        assert(digits@ =~= word_digits(words@));
    }
    Ok(digits_to_number(&digits, base))
}

/// `n` written as exactly `target_length` words, zero words in front;
/// `OutOfRange` where it needs more.
pub fn encode_words(n: &BigNat, target_length: u32, bit_depth: u32) -> (r: Result<
    Vec<u32>,
    IndexError,
>)
    ensures
        !supported_depth(bit_depth) ==> (r matches Err(IndexError::UnsupportedModality)),
        supported_depth(bit_depth) ==> {
            &&& r is Ok <==> fits_in(n@, word_base(bit_depth), target_length as nat)
            &&& r matches Ok(v) ==> v@ == words_of(n@, bit_depth, target_length as nat)
            &&& r matches Err(e) ==> e matches IndexError::OutOfRange {
                index,
                target_length: t,
                base,
            } && index@ == n@ && t == target_length && base == word_base(bit_depth)
        },
{
    if bit_depth < 1 || bit_depth > 32 {
        return Err(IndexError::UnsupportedModality);
    }
    let base = word_base_exec(bit_depth);
    proof {
        lemma_word_base_bounds(bit_depth);
    }
    match number_to_digits(n, base, target_length as u64) {
        Some(ds) => {
            proof {
                lemma_low_digits_bounded(n@, base as nat, target_length as nat);
            }
            let mut out: Vec<u32> = Vec::new();
            let mut i: usize = 0;
            while i < ds.len()
                invariant
                    i <= ds.len(),
                    base <= 0x1_0000_0000,
                    forall|k: int| 0 <= k < ds.len() ==> (#[trigger] ds@[k]) < base,
                    out@ == ds@.map_values(|d: u64| d as u32).take(i as int),
                decreases ds.len() - i,
            {
                out.push(ds[i] as u32);
                proof {
                    assert(out@ =~= ds@.map_values(|d: u64| d as u32).take(i + 1));
                }
                i += 1;
            }
            proof {
                assert(out@ =~= ds@.map_values(|d: u64| d as u32));
            }
            Ok(out)
        },
        None => Err(IndexError::OutOfRange { index: n.clone(), target_length: target_length as u64, base }),
    }
}

/// The fewest words of `bit_depth` bits that write `n` (0 for zero).
pub fn min_word_count(n: &BigNat, bit_depth: u32) -> (r: Result<u64, IndexError>)
    ensures
        !supported_depth(bit_depth) ==> (r matches Err(IndexError::UnsupportedModality)),
        supported_depth(bit_depth) ==> r == Ok::<u64, IndexError>(
            digit_count(n@, word_base(bit_depth)) as u64,
        ),
{
    if bit_depth < 1 || bit_depth > 32 {
        return Err(IndexError::UnsupportedModality);
    }
    let base = word_base_exec(bit_depth);
    proof {
        lemma_word_base_bounds(bit_depth);
    }
    Ok(count_digits(n, base))
}

/// Words written at any length from the minimal one up read back as the
/// index, and each fits in the bit depth.
pub proof fn lemma_words_round_trip(n: nat, bit_depth: u32, len: nat)
    requires
        supported_depth(bit_depth),
        digit_count(n, word_base(bit_depth)) <= len,
    ensures
        fits_in(n, word_base(bit_depth), len),
        forall|i: int|
            0 <= i < len ==> (#[trigger] words_of(n, bit_depth, len)[i]) < word_base(bit_depth),
        words_value(words_of(n, bit_depth, len), bit_depth) == n,
{
    let b = word_base(bit_depth);
    lemma_word_base_bounds(bit_depth);
    lemma_fits_in_digit_count(n, b, len);
    lemma_low_digits_bounded(n, b, len);
    lemma_low_digits_value(n, b, len);
    let ds = low_digits(n, b, len);
    assert(word_digits(words_of(n, bit_depth, len)) =~= ds);
}

} // verus!
