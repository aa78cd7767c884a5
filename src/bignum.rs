//! Arbitrary-precision nonnegative integers, held as normalized base-2^32
//! limbs; the arithmetic itself is done by `num_bigint`.
use vstd::prelude::*;
use crate::positional::digit_count;

verus! {

/// The weight of one limb.
pub open spec fn limb_base() -> nat {
    0x1_0000_0000
}

/// Value of little-endian base-2^32 limbs.
pub open spec fn limbs_value(s: Seq<u32>) -> nat
    decreases s.len(),
{
    if s.len() == 0 {
        0
    } else {
        s[0] as nat + limb_base() * limbs_value(s.drop_first())
    }
}

/// No most significant zero limb.
pub open spec fn limbs_normal(s: Seq<u32>) -> bool {
    s.len() == 0 || s.last() != 0
}

proof fn lemma_normal_nonzero(s: Seq<u32>)
    requires
        limbs_normal(s),
    ensures
        (limbs_value(s) == 0) == (s.len() == 0),
    decreases s.len(),
{
    if s.len() > 1 {
        assert(s.drop_first().last() == s.last());
        lemma_normal_nonzero(s.drop_first());
    }
}

/// Relies on `num_bigint::BigUint`'s `Add`: exact sum; `to_u32_digits` gives
/// normalized limbs.
#[verifier::external_body]
fn biguint_add(a: &Vec<u32>, b: &Vec<u32>) -> (r: Vec<u32>)
    ensures
        limbs_value(r@) == limbs_value(a@) + limbs_value(b@),
        limbs_normal(r@),
{
    (num_bigint::BigUint::new(a.clone()) + num_bigint::BigUint::new(b.clone())).to_u32_digits()
}

/// Relies on `num_bigint::BigUint`'s `Sub`: exact difference; it panics when
/// `b > a`, which `requires` leaves out.
#[verifier::external_body]
fn biguint_sub(a: &Vec<u32>, b: &Vec<u32>) -> (r: Vec<u32>)
    requires
        limbs_value(b@) <= limbs_value(a@),
    ensures
        limbs_value(r@) == limbs_value(a@) - limbs_value(b@),
        limbs_normal(r@),
{
    (num_bigint::BigUint::new(a.clone()) - num_bigint::BigUint::new(b.clone())).to_u32_digits()
}

/// Relies on `num_bigint::BigUint`'s `Mul`: exact product.
#[verifier::external_body]
fn biguint_mul(a: &Vec<u32>, b: &Vec<u32>) -> (r: Vec<u32>)
    ensures
        limbs_value(r@) == limbs_value(a@) * limbs_value(b@),
        limbs_normal(r@),
{
    (num_bigint::BigUint::new(a.clone()) * num_bigint::BigUint::new(b.clone())).to_u32_digits()
}

/// Relies on `num_bigint::BigUint`'s `Div`: truncating quotient; it panics on
/// a zero divisor, which `requires` leaves out.
#[verifier::external_body]
fn biguint_div(a: &Vec<u32>, b: &Vec<u32>) -> (r: Vec<u32>)
    requires
        limbs_value(b@) > 0,
    ensures
        limbs_value(r@) == limbs_value(a@) / limbs_value(b@),
        limbs_normal(r@),
{
    (num_bigint::BigUint::new(a.clone()) / num_bigint::BigUint::new(b.clone())).to_u32_digits()
}

/// Relies on `num_bigint::BigUint`'s `Rem`: remainder of the truncating
/// division; it panics on a zero divisor, which `requires` leaves out.
#[verifier::external_body]
fn biguint_rem(a: &Vec<u32>, b: &Vec<u32>) -> (r: Vec<u32>)
    requires
        limbs_value(b@) > 0,
    ensures
        limbs_value(r@) == limbs_value(a@) % limbs_value(b@),
        limbs_normal(r@),
{
    (num_bigint::BigUint::new(a.clone()) % num_bigint::BigUint::new(b.clone())).to_u32_digits()
}

/// Relies on `num_bigint::BigUint::bits`: the number of binary digits.
#[verifier::external_body]
fn biguint_bits(a: &Vec<u32>) -> (r: u64)
    ensures
        r == digit_count(limbs_value(a@), 2),
{
    num_bigint::BigUint::new(a.clone()).bits()
}

/// The character of a decimal digit `d < 10`.
pub open spec fn digit_char(d: nat) -> char {
    (d + 48) as char
}

pub open spec fn is_digit(c: char) -> bool {
    '0' <= c && c <= '9'
}

proof fn lemma_digit_char(d: nat)
    requires
        d < 10,
    ensures
        digit_char(d) as int == d + 48,
        is_digit(digit_char(d)),
{
    let c = (d + 48) as char;
    assert(c as int == d + 48);
}

/// Decimal text of `n`: most significant digit first, no leading zero, "0"
/// for zero.
pub open spec fn decimal_text(n: nat) -> Seq<char>
    decreases n,
{
    if n < 10 {
        seq![digit_char(n)]
    } else {
        decimal_text(n / 10).push(digit_char(n % 10))
    }
}

/// A digit, then digits and underscores.
pub open spec fn decimal_body(s: Seq<char>) -> bool {
    &&& s.len() > 0
    &&& is_digit(s[0])
    &&& forall|i: int| 0 <= i < s.len() ==> is_digit(#[trigger] s[i]) || s[i] == '_'
}

/// Value of a decimal body; underscores are separators.
pub open spec fn body_value(s: Seq<char>) -> nat
    decreases s.len(),
{
    if s.len() == 0 {
        0
    } else if s.last() == '_' {
        body_value(s.drop_last())
    } else {
        body_value(s.drop_last()) * 10 + (s.last() as int - 48) as nat
    }
}

pub open spec fn has_sign(s: Seq<char>) -> bool {
    s.len() > 0 && (s[0] == '-' || s[0] == '+')
}

pub open spec fn unsigned_part(s: Seq<char>) -> Seq<char> {
    if has_sign(s) {
        s.drop_first()
    } else {
        s
    }
}

/// An optional `-` or `+`, then a decimal body.
pub open spec fn integer_syntax(s: Seq<char>) -> bool {
    decimal_body(unsigned_part(s))
}

pub open spec fn integer_magnitude(s: Seq<char>) -> nat {
    body_value(unsigned_part(s))
}

/// Well-formed integer text whose value is not below zero ("-0" is zero).
pub open spec fn nonnegative_integer(s: Seq<char>) -> bool {
    integer_syntax(s) && !(s[0] == '-' && integer_magnitude(s) > 0)
}

/// Decimal text reads back as the number it was written from.
pub proof fn lemma_decimal_text_reads_back(n: nat)
    ensures
        decimal_body(decimal_text(n)),
        !has_sign(decimal_text(n)),
        nonnegative_integer(decimal_text(n)),
        integer_magnitude(decimal_text(n)) == n,
    decreases n,
{
    let t = decimal_text(n);
    if n < 10 {
        assert(t.drop_last() =~= Seq::<char>::empty());
        assert(t.last() == digit_char(n));
        lemma_digit_char(n);
        assert(t.last() as int == n + 48);
        assert(t.last() != '_');
        assert(body_value(t.drop_last()) == 0);
        assert(body_value(t) == n);
    } else {
        lemma_decimal_text_reads_back(n / 10);
        let h = decimal_text(n / 10);
        assert(t.drop_last() =~= h);
        assert(t[0] == h[0]);
        assert forall|i: int| 0 <= i < t.len() implies is_digit(#[trigger] t[i]) || t[i] == '_' by {
            if i < h.len() {
                assert(t[i] == h[i]);
            }
        }
        assert(t.last() == digit_char(n % 10));
        lemma_digit_char(n % 10);
        assert(t.last() as int == n % 10 + 48);
        assert(t.last() != '_');
        assert(body_value(t) == body_value(h) * 10 + n % 10);
        assert(n == (n / 10) * 10 + n % 10);
    }
}

/// Longer decimal text for a larger number.
pub proof fn lemma_decimal_len_monotonic(m: nat, n: nat)
    requires
        m <= n,
    ensures
        decimal_text(m).len() <= decimal_text(n).len(),
    decreases n,
{
    if n >= 10 && m >= 10 {
        lemma_decimal_len_monotonic(m / 10, n / 10);
    } else if n >= 10 {
        lemma_decimal_len_monotonic(1, n / 10);
    }
}

/// A number of at least half of `n` takes at most one digit fewer.
pub proof fn lemma_decimal_len_of_half(m: nat, n: nat)
    requires
        n / 2 <= m,
    ensures
        decimal_text(m).len() + 1 >= decimal_text(n).len(),
{
    if n >= 10 {
        lemma_decimal_len_monotonic(n / 10, m);
    }
}

/// Decimal text has only digits, which JSON writes as they are.
pub proof fn lemma_decimal_text_digits(n: nat)
    ensures
        decimal_text(n).len() >= 1,
        forall|i: int| 0 <= i < decimal_text(n).len() ==> #[trigger] is_digit(decimal_text(n)[i]),
    decreases n,
{
    let t = decimal_text(n);
    if n < 10 {
        lemma_digit_char(n);
    } else {
        lemma_decimal_text_digits(n / 10);
        lemma_digit_char(n % 10);
        let h = decimal_text(n / 10);
        assert forall|i: int| 0 <= i < t.len() implies #[trigger] is_digit(t[i]) by {
            if i < h.len() {
                assert(t[i] == h[i]);
            }
        }
    }
}

/// Relies on `num_bigint::BigUint::to_str_radix` with radix 10: decimal
/// digits without sign or leading zeros, "0" for zero.
#[verifier::external_body]
fn biguint_decimal(a: &Vec<u32>) -> (r: String)
    ensures
        r@ == decimal_text(limbs_value(a@)),
{
    num_bigint::BigUint::new(a.clone()).to_str_radix(10)
}

/// Relies on `num_bigint::BigInt`'s `FromStr` (radix 10: an optional `-` or
/// `+`, then a digit, then digits and underscores) and on
/// `BigInt::to_u32_digits`: the sign is `Minus` only for a nonzero negative
/// value, and the magnitude comes as normalized limbs.
#[verifier::external_body]
fn bigint_parse(s: &str) -> (r: Option<(bool, Vec<u32>)>)
    ensures
        r is Some <==> integer_syntax(s@),
        r matches Some(p) ==> {
            &&& limbs_normal(p.1@)
            &&& limbs_value(p.1@) == integer_magnitude(s@)
            &&& p.0 == (s@[0] == '-' && integer_magnitude(s@) > 0)
        },
{
    match <num_bigint::BigInt as std::str::FromStr>::from_str(s) {
        Ok(v) => {
            let (sign, limbs) = v.to_u32_digits();
            Some((matches!(sign, num_bigint::Sign::Minus), limbs))
        },
        Err(_) => None,
    }
}

/// A nonnegative integer of any size.
#[derive(Debug, PartialEq, Eq)]
pub struct BigNat {
    limbs: Vec<u32>,
}

impl View for BigNat {
    type V = nat;

    closed spec fn view(&self) -> nat {
        limbs_value(self.limbs@)
    }
}

impl Clone for BigNat {
    fn clone(&self) -> (r: BigNat)
        ensures
            r@ == self@,
    {
        self.duplicate()
    }
}

impl BigNat {
    #[verifier::type_invariant]
    spec fn normalized(self) -> bool {
        limbs_normal(self.limbs@)
    }

    fn from_limbs(limbs: Vec<u32>) -> (r: BigNat)
        requires
            limbs_normal(limbs@),
        ensures
            r@ == limbs_value(limbs@),
    {
        BigNat { limbs }
    }

    /// A second value equal to this one.
    pub fn duplicate(&self) -> (r: BigNat)
        ensures
            r@ == self@,
    {
        proof {
            use_type_invariant(self);
        }
        let limbs = self.limbs.clone();
        assert(limbs@ =~= self.limbs@);
        BigNat { limbs }
    }

    pub fn zero() -> (r: BigNat)
        ensures
            r@ == 0,
    {
        BigNat { limbs: Vec::new() }
    }

    pub fn from_u64(v: u64) -> (r: BigNat)
        ensures
            r@ == v,
    {
        let lo = (v % 0x1_0000_0000) as u32;
        let hi = (v / 0x1_0000_0000) as u32;
        let mut limbs: Vec<u32> = Vec::new();
        if v != 0 {
            limbs.push(lo);
            if hi != 0 {
                limbs.push(hi);
            }
        }
        proof {
            assert(v == lo + limb_base() * hi);
            if v != 0 {
                if hi != 0 {
                    assert(limbs@.drop_first() =~= seq![hi]);
                    let one = seq![hi];
                    assert(one.drop_first() =~= Seq::<u32>::empty());
                    assert(limbs_value(one) == one[0] + limb_base() * limbs_value(one.drop_first()));
                    assert(limbs_value(one) == hi);
                } else {
                    assert(limbs@.drop_first() =~= Seq::<u32>::empty());
                }
            }
        }
        BigNat { limbs }
    }

    pub fn is_zero(&self) -> (r: bool)
        ensures
            r == (self@ == 0),
    {
        proof {
            use_type_invariant(self);
            lemma_normal_nonzero(self.limbs@);
        }
        self.limbs.len() == 0
    }

    /// The value as a `u64`, when it fits.
    pub fn to_u64(&self) -> (r: Option<u64>)
        ensures
            r == (if self@ <= u64::MAX {
                Some(self@ as u64)
            } else {
                None
            }),
    {
        proof {
            use_type_invariant(self);
        }
        let n = self.limbs.len();
        if n == 0 {
            proof {
                assert(self@ == 0);
            }
            Some(0)
        } else if n == 1 {
            proof {
                assert(self.limbs@.drop_first().len() == 0);
                assert(limbs_value(self.limbs@.drop_first()) == 0);
                assert(self@ == self.limbs[0]);
            }
            Some(self.limbs[0] as u64)
        } else if n == 2 {
            let lo = self.limbs[0] as u64;
            let hi = self.limbs[1] as u64;
            proof {
                let s = self.limbs@;
                assert(s.drop_first().drop_first().len() == 0);
                assert(s.drop_first()[0] == hi);
                assert(limbs_value(s.drop_first()) == hi + limb_base() * limbs_value(
                    s.drop_first().drop_first(),
                ));
                assert(self@ == lo + limb_base() * hi);
                assert(self@ <= u64::MAX);
            }
            Some(lo + 0x1_0000_0000 * hi)
        } else {
            proof {
                let s = self.limbs@;
                let t = s.drop_first().drop_first();
                assert(t.last() == s.last());
                lemma_normal_nonzero(t);
                assert(limbs_value(s.drop_first()) == s[1] + limb_base() * limbs_value(t));
                assert(self@ == s[0] + limb_base() * (s[1] + limb_base() * limbs_value(t)));
                assert(self@ >= limb_base() * limb_base()) by (nonlinear_arith)
                    requires
                        self@ == s[0] + limb_base() * (s[1] + limb_base() * limbs_value(t)),
                        limbs_value(t) >= 1,
                        s[0] >= 0,
                        s[1] >= 0,
                ;
            }
            None
        }
    }

    pub fn add(&self, other: &BigNat) -> (r: BigNat)
        ensures
            r@ == self@ + other@,
    {
        BigNat::from_limbs(biguint_add(&self.limbs, &other.limbs))
    }

    pub fn sub(&self, other: &BigNat) -> (r: BigNat)
        requires
            other@ <= self@,
        ensures
            r@ == self@ - other@,
    {
        BigNat::from_limbs(biguint_sub(&self.limbs, &other.limbs))
    }

    pub fn mul(&self, other: &BigNat) -> (r: BigNat)
        ensures
            r@ == self@ * other@,
    {
        BigNat::from_limbs(biguint_mul(&self.limbs, &other.limbs))
    }

    pub fn div(&self, other: &BigNat) -> (r: BigNat)
        requires
            other@ > 0,
        ensures
            r@ == self@ / other@,
    {
        BigNat::from_limbs(biguint_div(&self.limbs, &other.limbs))
    }

    pub fn rem(&self, other: &BigNat) -> (r: BigNat)
        requires
            other@ > 0,
        ensures
            r@ == self@ % other@,
    {
        BigNat::from_limbs(biguint_rem(&self.limbs, &other.limbs))
    }

    /// Decimal text, as `decimal_text` gives it.
    pub fn to_decimal(&self) -> (r: String)
        ensures
            r@ == decimal_text(self@),
    {
        biguint_decimal(&self.limbs)
    }

    /// Reads decimal integer text; `None` where it is malformed or negative.
    pub fn parse_nonnegative(s: &str) -> (r: Option<BigNat>)
        ensures
            r is Some <==> nonnegative_integer(s@),
            r matches Some(n) ==> n@ == integer_magnitude(s@),
    {
        match bigint_parse(s) {
            Some((negative, limbs)) => {
                if negative {
                    None
                } else {
                    Some(BigNat::from_limbs(limbs))
                }
            },
            None => None,
        }
    }

    /// Number of binary digits (0 for zero).
    pub fn bit_length(&self) -> (r: u64)
        ensures
            r == digit_count(self@, 2),
    {
        biguint_bits(&self.limbs)
    }
}

} // verus!
