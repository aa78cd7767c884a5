//! Positional numerals as mathematics: the value of a big-endian digit
//! sequence, the digits of a number at a given width, and digit counts.
use vstd::prelude::*;

verus! {

/// Number of base-`base` digits that `n` needs: 0 for 0, else the least `k`
/// with `n < base^k`.
pub open spec fn digit_count(n: nat, base: nat) -> nat
    decreases n,
{
    if n == 0 || base < 2 {
        0
    } else {
        proof {
            lemma_div_shrinks(n, base);
        }
        1 + digit_count(n / base, base)
    }
}

pub proof fn lemma_div_shrinks(n: nat, base: nat)
    requires
        n > 0,
        base >= 2,
    ensures
        n / base < n,
{
    assert(n / base < n) by (nonlinear_arith)
        requires n > 0, base >= 2;
}

} // verus!

verus! {

/// Value of big-endian digits in `base`.
pub open spec fn digits_value(ds: Seq<u64>, base: nat) -> nat
    decreases ds.len(),
{
    if ds.len() == 0 {
        0
    } else {
        digits_value(ds.drop_last(), base) * base + ds.last() as nat
    }
}

/// The `len` least significant base-`base` digits of `n`, most significant
/// first.
pub open spec fn low_digits(n: nat, base: nat, len: nat) -> Seq<u64>
    decreases len,
{
    if len == 0 {
        seq![]
    } else {
        low_digits(n / base, base, (len - 1) as nat).push((n % base) as u64)
    }
}

/// `n` can be written with `len` base-`base` digits.
pub open spec fn fits_in(n: nat, base: nat, len: nat) -> bool
    decreases len,
{
    if len == 0 {
        n == 0
    } else {
        fits_in(n / base, base, (len - 1) as nat)
    }
}

/// `n` fits in `len` digits exactly when it needs at most `len` of them.
pub proof fn lemma_fits_in_digit_count(n: nat, base: nat, len: nat)
    requires
        base >= 2,
    ensures
        fits_in(n, base, len) == (digit_count(n, base) <= len),
    decreases len,
{
    if len > 0 {
        lemma_fits_in_digit_count(n / base, base, (len - 1) as nat);
        if n == 0 {
            assert(0nat / base == 0);
        }
    }
}

/// The digits that `low_digits` gives are digits of the base.
pub proof fn lemma_low_digits_bounded(n: nat, base: nat, len: nat)
    requires
        base >= 2,
        base <= u64::MAX,
    ensures
        low_digits(n, base, len).len() == len,
        forall|i: int| 0 <= i < len ==> (#[trigger] low_digits(n, base, len)[i]) < base,
    decreases len,
{
    if len > 0 {
        lemma_low_digits_bounded(n / base, base, (len - 1) as nat);
        assert(n % base < base);
    }
}

/// Where `n` fits, its `len` digits are worth `n`.
pub proof fn lemma_low_digits_value(n: nat, base: nat, len: nat)
    requires
        base >= 2,
        base <= u64::MAX,
        fits_in(n, base, len),
    ensures
        digits_value(low_digits(n, base, len), base) == n,
    decreases len,
{
    if len == 0 {
    } else {
        let ds = low_digits(n, base, len);
        lemma_low_digits_value(n / base, base, (len - 1) as nat);
        assert(ds.drop_last() =~= low_digits(n / base, base, (len - 1) as nat));
        assert(n % base < base);
        assert(n == (n / base) * base + n % base) by (nonlinear_arith)
            requires base >= 2;
    }
}

/// Zero is all zero digits.
pub proof fn lemma_low_digits_of_zero(base: nat, len: nat)
    requires
        base >= 2,
    ensures
        forall|i: int| 0 <= i < len ==> (#[trigger] low_digits(0, base, len)[i]) == 0,
        low_digits(0, base, len).len() == len,
        fits_in(0, base, len),
    decreases len,
{
    if len > 0 {
        assert(0nat / base == 0);
        assert(0nat % base == 0);
        lemma_low_digits_of_zero(base, (len - 1) as nat);
    }
}

} // verus!

verus! {

/// More value never needs fewer digits.
pub proof fn lemma_digit_count_monotonic(m: nat, n: nat, base: nat)
    requires
        m <= n,
        base >= 2,
    ensures
        digit_count(m, base) <= digit_count(n, base),
    decreases n,
{
    if m > 0 {
        vstd::arithmetic::div_mod::lemma_div_is_ordered(m as int, n as int, base as int);
        lemma_div_shrinks(n, base);
        lemma_digit_count_monotonic(m / base, n / base, base);
    }
}

/// A wider base never needs more digits than base two.
pub proof fn lemma_digit_count_at_most_bits(n: nat, base: nat)
    requires
        base >= 2,
    ensures
        digit_count(n, base) <= digit_count(n, 2),
    decreases n,
{
    if n > 0 {
        lemma_div_shrinks(n, base);
        lemma_digit_count_at_most_bits(n / base, base);
        vstd::arithmetic::div_mod::lemma_div_is_ordered_by_denominator(n as int, 2, base as int);
        lemma_digit_count_monotonic(n / base, n / 2, 2);
    }
}

} // verus!

verus! {

/// Fewer digits than a number needs cannot hold it.
pub proof fn lemma_short_width_fails(n: nat, base: nat, len: nat)
    requires
        base >= 2,
        len < digit_count(n, base),
    ensures
        !fits_in(n, base, len),
{
    lemma_fits_in_digit_count(n, base, len);
}

} // verus!
