//! Text numerals: an index written as symbols of an alphabet, most
//! significant first; reading folds case first.
use vstd::prelude::*;
use crate::alphabet::{
    chars_of, fold_case, string_from_chars, lemma_index_of_symbol, lemma_symbols_fit, to_canonical_case, valid_symbols, Alphabet,
};
use crate::bignum::BigNat;
use crate::codec::{count_digits, digits_to_number, number_to_digits};
use crate::error::IndexError;
use crate::positional::{
    digit_count, digits_value, fits_in, lemma_fits_in_digit_count, lemma_low_digits_bounded,
    lemma_low_digits_of_zero, lemma_low_digits_value, low_digits,
};

verus! {

/// Digit values of the characters of `text`, case folded.
pub open spec fn text_digits(alpha: Seq<char>, text: Seq<char>) -> Seq<u64> {
    text.map_values(|c: char| alpha.index_of(fold_case(c)) as u64)
}

/// Every character of `text` is a symbol once case is folded.
pub open spec fn readable(alpha: Seq<char>, text: Seq<char>) -> bool {
    forall|i: int| 0 <= i < text.len() ==> alpha.contains(fold_case(#[trigger] text[i]))
}

/// The index that readable `text` names.
pub open spec fn text_value(alpha: Seq<char>, text: Seq<char>) -> nat {
    digits_value(text_digits(alpha, text), alpha.len())
}

/// Digits written as symbols.
pub open spec fn spelled(alpha: Seq<char>, ds: Seq<u64>) -> Seq<char> {
    ds.map_values(|d: u64| alpha[d as int])
}

/// `n` written with exactly `len` symbols.
pub open spec fn text_of(alpha: Seq<char>, n: nat, len: nat) -> Seq<char> {
    spelled(alpha, low_digits(n, alpha.len(), len))
}

/// `e` reports the first character of `text` that is no symbol.
pub open spec fn first_unknown(alpha: Seq<char>, text: Seq<char>, e: IndexError) -> bool {
    match e {
        IndexError::UnknownSymbol { symbol, position } => {
            &&& position < text.len()
            &&& symbol == text[position as int]
            &&& !alpha.contains(fold_case(symbol))
            &&& forall|q: int| 0 <= q < position ==> alpha.contains(fold_case(#[trigger] text[q]))
        },
        _ => false,
    }
}

/// Reads `text` as an index: Horner's rule over the symbols' values.
pub fn decode_text(alphabet: &Alphabet, text: &str) -> (r: Result<BigNat, IndexError>)
    ensures
        r is Ok <==> readable(alphabet@, text@),
        r matches Ok(n) ==> n@ == text_value(alphabet@, text@),
        r matches Err(e) ==> first_unknown(alphabet@, text@, e),
{
    decode_chars(alphabet, &chars_of(text))
}

/// Reads the characters `cs` as an index.
pub fn decode_chars(alphabet: &Alphabet, cs: &Vec<char>) -> (r: Result<BigNat, IndexError>)
    ensures
        r is Ok <==> readable(alphabet@, cs@),
        r matches Ok(n) ==> n@ == text_value(alphabet@, cs@),
        r matches Err(e) ==> first_unknown(alphabet@, cs@, e),
{
    let ghost text = cs@;
    let base = alphabet.base();
    let mut digits: Vec<u64> = Vec::new();
    let mut i: usize = 0;
    while i < cs.len()
        invariant
            i <= cs.len(),
            cs@ == text,
            valid_symbols(alphabet@),
            digits@ == text_digits(alphabet@, text).take(i as int),
            forall|q: int| 0 <= q < i ==> alphabet@.contains(fold_case(#[trigger] text[q])),
        decreases cs.len() - i,
    {
        let c = cs[i];
        match alphabet.value_of(to_canonical_case(c)) {
            Some(v) => {
                proof {
                    lemma_index_of_symbol(alphabet@, v as int);
                }
                digits.push(v as u64);
                proof {
                    assert(digits@ =~= text_digits(alphabet@, text).take(i + 1));
                }
            },
            None => {
                return Err(IndexError::UnknownSymbol { symbol: c, position: i });
            },
        }
        i += 1;
    }
    proof {
        assert(digits@ =~= text_digits(alphabet@, text));
    }
    Ok(digits_to_number(&digits, base))
}

/// `n` written with exactly `target_length` symbols, zero symbols in front;
/// `OutOfRange` where it needs more.
pub fn encode_text(alphabet: &Alphabet, n: &BigNat, target_length: u64) -> (r: Result<
    String,
    IndexError,
>)
    ensures
        r is Ok <==> fits_in(n@, alphabet@.len(), target_length as nat),
        r matches Ok(s) ==> s@ == text_of(alphabet@, n@, target_length as nat),
        r matches Err(e) ==> e matches IndexError::OutOfRange { index, target_length: t, base } && index@
            == n@ && t == target_length && base == alphabet@.len(),
{
    let base = alphabet.base();
    match number_to_digits(n, base, target_length) {
        Some(ds) => {
            proof {
                lemma_symbols_fit(alphabet@);
                lemma_low_digits_bounded(n@, base as nat, target_length as nat);
            }
            let mut cs: Vec<char> = Vec::new();
            let mut i: usize = 0;
            while i < ds.len()
                invariant
                    i <= ds.len(),
                    base == alphabet@.len(),
                    base <= 0x110000,
                    forall|k: int| 0 <= k < ds.len() ==> (#[trigger] ds@[k]) < base,
                    cs@ == spelled(alphabet@, ds@).take(i as int),
                decreases ds.len() - i,
            {
                let d = ds[i] as usize;
                assert(d as int == ds@[i as int] as int);
                cs.push(alphabet.symbol(d));
                proof {
                    assert(cs@ =~= spelled(alphabet@, ds@).take(i + 1));
                }
                i += 1;
            }
            proof {
                assert(cs@ =~= spelled(alphabet@, ds@));
            }
            Ok(string_from_chars(&cs))
        },
        None => Err(IndexError::OutOfRange { index: n.clone(), target_length, base }),
    }
}

/// The fewest symbols that write `n` (0 for zero).
pub fn min_text_length(alphabet: &Alphabet, n: &BigNat) -> (r: u64)
    ensures
        r == digit_count(n@, alphabet@.len()),
{
    count_digits(n, alphabet.base())
}

/// Text written at any length from the minimal one up reads back as the index.
pub proof fn lemma_text_round_trip(alpha: Seq<char>, n: nat, len: nat)
    requires
        valid_symbols(alpha),
        digit_count(n, alpha.len()) <= len,
    ensures
        fits_in(n, alpha.len(), len),
        readable(alpha, text_of(alpha, n, len)),
        text_value(alpha, text_of(alpha, n, len)) == n,
{
    let b = alpha.len();
    let ds = low_digits(n, b, len);
    let t = text_of(alpha, n, len);
    lemma_symbols_fit(alpha);
    lemma_fits_in_digit_count(n, b, len);
    lemma_low_digits_bounded(n, b, len);
    lemma_low_digits_value(n, b, len);
    assert forall|i: int| 0 <= i < t.len() implies alpha.contains(fold_case(#[trigger] t[i])) by {
        lemma_index_of_symbol(alpha, ds[i] as int);
    }
    assert(text_digits(alpha, t) =~= ds) by {
        assert forall|i: int| 0 <= i < ds.len() implies #[trigger] text_digits(alpha, t)[i]
            == ds[i] by {
            lemma_index_of_symbol(alpha, ds[i] as int);
        }
    }
}

/// Zero needs no symbols; at length one it is the zero symbol alone.
pub proof fn lemma_zero_text(alpha: Seq<char>)
    requires
        valid_symbols(alpha),
    ensures
        digit_count(0, alpha.len()) == 0,
        text_of(alpha, 0, 1) == seq![alpha[0]],
{
    lemma_symbols_fit(alpha);
    lemma_low_digits_of_zero(alpha.len(), 1);
    assert(text_of(alpha, 0, 1) =~= seq![alpha[0]]);
}

} // verus!
