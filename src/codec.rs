//! Conversion between a `BigNat` and its big-endian digits in a base from 2
//! to 2^32.
use vstd::prelude::*;
use crate::bignum::BigNat;
use crate::positional::{
    digit_count, digits_value, fits_in, lemma_digit_count_at_most_bits, low_digits,
};

verus! {

/// Horner's rule: the number that `digits` write in `base`.
pub fn digits_to_number(digits: &Vec<u64>, base: u64) -> (r: BigNat)
    ensures
        r@ == digits_value(digits@, base as nat),
{
    let b = BigNat::from_u64(base);
    let mut acc = BigNat::zero();
    let mut i: usize = 0;
    while i < digits.len()
        invariant
            i <= digits.len(),
            b@ == base,
            acc@ == digits_value(digits@.subrange(0, i as int), base as nat),
        decreases digits.len() - i,
    {
        let d = BigNat::from_u64(digits[i]);
        acc = acc.mul(&b).add(&d);
        proof {
            assert(digits@.subrange(0, i + 1).drop_last() =~= digits@.subrange(0, i as int));
        }
        i += 1;
    }
    proof {
        assert(digits@.subrange(0, digits.len() as int) =~= digits@);
    }
    acc
}

/// The `len` digits of `n` in `base`, or `None` where `n` needs more.
pub fn number_to_digits(n: &BigNat, base: u64, len: u64) -> (r: Option<Vec<u64>>)
    requires
        base >= 2,
    ensures
        r is Some <==> fits_in(n@, base as nat, len as nat),
        r matches Some(v) ==> v@ == low_digits(n@, base as nat, len as nat),
{
    let mut v: Vec<u64> = Vec::new();
    let mut k: u64 = 0;
    while k < len
        invariant
            k <= len,
            v@.len() == k,
        decreases len - k,
    {
        v.push(0);
        k += 1;
    }
    let b = BigNat::from_u64(base);
    let mut q = n.duplicate();
    let mut i: usize = v.len();
    proof {
        assert(v@.subrange(i as int, len as int) =~= Seq::<u64>::empty());
        assert(low_digits(n@, base as nat, len as nat) =~= low_digits(n@, base as nat, len as nat)
            + Seq::<u64>::empty());
    }
    while i > 0
        invariant
            i <= v.len(),
            v.len() == len,
            b@ == base,
            base >= 2,
            low_digits(n@, base as nat, len as nat) == low_digits(q@, base as nat, i as nat)
                + v@.subrange(i as int, len as int),
            fits_in(n@, base as nat, len as nat) == fits_in(q@, base as nat, i as nat),
        decreases i,
    {
        let d = q.rem(&b);
        let digit = match d.to_u64() {
            Some(x) => x,
            None => 0,
        };
        let ghost old_v = v@;
        let ghost old_q = q@;
        v.set(i - 1, digit);
        q = q.div(&b);
        i -= 1;
        proof {
            let bn = base as nat;
            assert(low_digits(old_q, bn, (i + 1) as nat) == low_digits(q@, bn, i as nat).push(
                (old_q % bn) as u64,
            ));
            assert(v@.subrange(i as int, len as int) =~= seq![(old_q % bn) as u64]
                + old_v.subrange(i + 1, len as int));
            assert(low_digits(q@, bn, i as nat) + v@.subrange(i as int, len as int)
                =~= low_digits(q@, bn, i as nat).push((old_q % bn) as u64) + old_v.subrange(
                i + 1,
                len as int,
            ));
        }
    }
    proof {
        assert(v@.subrange(0, len as int) =~= v@);
        assert(low_digits(q@, base as nat, 0) =~= Seq::<u64>::empty());
    }
    if q.is_zero() {
        Some(v)
    } else {
        None
    }
}

/// How many digits `n` needs in `base` (0 for zero).
pub fn count_digits(n: &BigNat, base: u64) -> (r: u64)
    requires
        base >= 2,
    ensures
        r == digit_count(n@, base as nat),
{
    let bits = n.bit_length();
    proof {
        lemma_digit_count_at_most_bits(n@, base as nat);
    }
    let b = BigNat::from_u64(base);
    let mut q = n.duplicate();
    let mut c: u64 = 0;
    while !q.is_zero()
        invariant
            b@ == base,
            base >= 2,
            c + digit_count(q@, base as nat) == digit_count(n@, base as nat),
            digit_count(n@, base as nat) <= bits,
        decreases q@,
    {
        proof {
            crate::positional::lemma_div_shrinks(q@, base as nat);
        }
        q = q.div(&b);
        c += 1;
    }
    c
}

} // verus!
