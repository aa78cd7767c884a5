use canonical_index::alphabet::{Alphabet, AlphabetRegistry, SIMPLE_TEXT_ALPHABET, SIMPLE_TEXT_ALPHABET_ID};
use canonical_index::bignum::BigNat;
use canonical_index::codec::{count_digits, digits_to_number, number_to_digits};
use canonical_index::error::IndexError;
use canonical_index::pattern::{find_simple_repetition, repetitions_of};
use canonical_index::sequence::{decode_words, encode_words, min_word_count};
use canonical_index::text::{decode_text, encode_text, min_text_length};

fn big(decimal: &str) -> BigNat {
    BigNat::parse_nonnegative(decimal).unwrap()
}

fn simple() -> Alphabet {
    Alphabet::from_symbols(SIMPLE_TEXT_ALPHABET).unwrap()
}

const SAMPLES: [&str; 9] = [
    "0",
    "1",
    "26",
    "27",
    "728",
    "4294967295",
    "4294967296",
    "18446744073709551616",
    "123456789012345678901234567890123456789",
];

#[test]
fn text_round_trip_at_minimal_length() {
    let a = simple();
    for s in SAMPLES {
        let n = big(s);
        let len = min_text_length(&a, &n);
        let t = encode_text(&a, &n, len).unwrap();
        assert_eq!(t.chars().count() as u64, len);
        assert_eq!(decode_text(&a, &t).unwrap().to_decimal(), s);
        let padded = encode_text(&a, &n, len + 3).unwrap();
        assert!(padded.starts_with("   "));
        assert_eq!(decode_text(&a, &padded).unwrap().to_decimal(), s);
    }
}

#[test]
fn text_of_known_values() {
    let a = simple();
    assert_eq!(encode_text(&a, &big("200"), 2).unwrap(), "GK");
    assert_eq!(encode_text(&a, &big("27"), 2).unwrap(), "A ");
    assert_eq!(decode_text(&a, "GK").unwrap().to_decimal(), "200");
    assert_eq!(decode_text(&a, "ABABAB").unwrap().to_decimal(), "15432959");
    assert_eq!(min_text_length(&a, &big("26")), 1);
    assert_eq!(min_text_length(&a, &big("27")), 2);
    assert_eq!(min_text_length(&a, &big("728")), 2);
    assert_eq!(min_text_length(&a, &big("729")), 3);
}

#[test]
fn zero_needs_no_digits_and_writes_the_zero_symbol() {
    let a = simple();
    assert_eq!(min_text_length(&a, &BigNat::zero()), 0);
    assert_eq!(encode_text(&a, &BigNat::zero(), 1).unwrap(), " ");
    assert_eq!(encode_text(&a, &BigNat::zero(), 0).unwrap(), "");
    assert_eq!(encode_text(&a, &BigNat::zero(), 4).unwrap(), "    ");
    assert_eq!(min_word_count(&BigNat::zero(), 8), Ok(0));
    assert_eq!(count_digits(&BigNat::zero(), 10), 0);
}

#[test]
fn too_short_a_length_is_out_of_range() {
    let a = simple();
    for s in SAMPLES.iter().skip(1) {
        let n = big(s);
        let len = min_text_length(&a, &n);
        match encode_text(&a, &n, len - 1) {
            Err(IndexError::OutOfRange { index, target_length, base }) => {
                assert_eq!(index.to_decimal(), *s);
                assert_eq!(target_length, len - 1);
                assert_eq!(base, 27);
            }
            other => panic!("expected OutOfRange, got {:?}", other),
        }
    }
    assert!(matches!(encode_text(&a, &big("1"), 0), Err(IndexError::OutOfRange { .. })));
}

#[test]
fn decoding_folds_case_and_reports_unknown_symbols() {
    let a = simple();
    assert_eq!(decode_text(&a, "ab").unwrap(), decode_text(&a, "AB").unwrap());
    assert_eq!(
        decode_text(&a, "AB1C"),
        Err(IndexError::UnknownSymbol { symbol: '1', position: 2 })
    );
    assert_eq!(
        decode_text(&a, "é"),
        Err(IndexError::UnknownSymbol { symbol: 'é', position: 0 })
    );
    assert_eq!(decode_text(&a, "").unwrap().to_decimal(), "0");
}

#[test]
fn sequence_round_trip() {
    for s in SAMPLES {
        let n = big(s);
        for bd in [1u32, 3, 8, 16, 31, 32] {
            let min = min_word_count(&n, bd).unwrap();
            for extra in 0..3u32 {
                let len = min as u32 + extra;
                let words = encode_words(&n, len, bd).unwrap();
                assert_eq!(words.len() as u32, len);
                assert!(words.iter().all(|w| (*w as u64) < (1u64 << bd)));
                assert_eq!(decode_words(&words, bd).unwrap().to_decimal(), s);
            }
            if min > 0 {
                assert!(matches!(
                    encode_words(&n, min as u32 - 1, bd),
                    Err(IndexError::OutOfRange { .. })
                ));
            }
        }
    }
}

#[test]
fn sequence_known_values() {
    assert_eq!(encode_words(&big("258"), 3, 8).unwrap(), vec![0, 1, 2]);
    assert_eq!(encode_words(&big("4294967296"), 2, 32).unwrap(), vec![1, 0]);
    assert_eq!(encode_words(&big("5"), 3, 1).unwrap(), vec![1, 0, 1]);
    assert_eq!(decode_words(&vec![1, 0, 1], 1).unwrap().to_decimal(), "5");
    assert_eq!(min_word_count(&big("256"), 8), Ok(2));
    assert_eq!(min_word_count(&big("255"), 8), Ok(1));
    assert_eq!(encode_words(&BigNat::zero(), 3, 4).unwrap(), vec![0, 0, 0]);
}

#[test]
fn sequence_errors() {
    assert_eq!(
        decode_words(&vec![1, 300, 400], 8),
        Err(IndexError::WordOutOfRange { value: 300, bit_depth: 8 })
    );
    assert_eq!(decode_words(&vec![1], 0), Err(IndexError::UnsupportedModality));
    assert_eq!(decode_words(&vec![1], 33), Err(IndexError::UnsupportedModality));
    assert_eq!(encode_words(&big("1"), 1, 0), Err(IndexError::UnsupportedModality));
    assert_eq!(min_word_count(&big("1"), 40), Err(IndexError::UnsupportedModality));
    match encode_words(&big("256"), 1, 8) {
        Err(IndexError::OutOfRange { index, target_length, base }) => {
            assert_eq!(index.to_decimal(), "256");
            assert_eq!(target_length, 1);
            assert_eq!(base, 256);
        }
        other => panic!("expected OutOfRange, got {:?}", other),
    }
}

#[test]
fn generic_digits() {
    assert_eq!(digits_to_number(&vec![1, 2, 3], 10).to_decimal(), "123");
    assert_eq!(digits_to_number(&vec![], 10).to_decimal(), "0");
    assert_eq!(number_to_digits(&big("123"), 10, 5), Some(vec![0, 0, 1, 2, 3]));
    assert_eq!(number_to_digits(&big("123"), 10, 2), None);
    assert_eq!(count_digits(&big("123"), 10), 3);
    assert_eq!(count_digits(&big("18446744073709551616"), 4294967296), 3);
}

#[test]
fn big_numbers_compute_exactly() {
    let a = big("340282366920938463463374607431768211456");
    let b = big("18446744073709551617");
    assert_eq!(a.add(&b).to_decimal(), "340282366920938463481821351505477763073");
    assert_eq!(a.sub(&b).to_decimal(), "340282366920938463444927863358058659839");
    assert_eq!(b.mul(&b).to_decimal(), "340282366920938463500268095579187314689");
    assert_eq!(a.div(&b).to_decimal(), "18446744073709551615");
    assert_eq!(a.rem(&b).to_decimal(), "1");
    assert_eq!(a.bit_length(), 129);
    assert_eq!(BigNat::zero().bit_length(), 0);
    assert_eq!(b.to_u64(), None);
    assert_eq!(big("18446744073709551615").to_u64(), Some(u64::MAX));
    assert!(BigNat::zero().is_zero());
    assert!(!BigNat::from_u64(7).is_zero());
    assert_eq!(BigNat::from_u64(u64::MAX).to_decimal(), "18446744073709551615");
}

#[test]
fn decimal_parsing() {
    assert_eq!(big("1_000").to_decimal(), "1000");
    assert_eq!(big("+42").to_decimal(), "42");
    assert_eq!(big("-0").to_decimal(), "0");
    assert_eq!(big("007").to_decimal(), "7");
    for bad in ["-5", "", "-", "+", "_1", "1a", " 1", "+-1", "--1", "1.5"] {
        assert!(BigNat::parse_nonnegative(bad).is_none(), "{}", bad);
    }
}

#[test]
fn alphabets_are_sorted_folded_and_deduplicated() {
    let a = Alphabet::from_symbols("cbaCAB").unwrap();
    assert_eq!(a.base(), 3);
    assert_eq!(a.symbol(0), 'A');
    assert_eq!(a.symbol(2), 'C');
    assert_eq!(a.value_of('B'), Some(1));
    assert_eq!(a.value_of('b'), None);
    assert!(Alphabet::from_symbols("aA").is_none());
    assert!(Alphabet::from_symbols("").is_none());
    let s = simple();
    assert_eq!(s.base(), 27);
    assert_eq!(s.value_of(' '), Some(0));
    assert_eq!(s.value_of('Z'), Some(26));
    assert_eq!(encode_text(&a, &big("5"), 2).unwrap(), "BC");
}

#[test]
fn registry_keeps_one_alphabet_per_id() {
    let mut reg = AlphabetRegistry::with_default_alphabet();
    assert_eq!(reg.lookup(SIMPLE_TEXT_ALPHABET_ID).unwrap().base(), 27);
    assert!(reg.lookup("OTHER").is_none());
    assert!(reg.register("ABC", Alphabet::from_symbols("abc").unwrap()));
    assert!(!reg.register("ABC", Alphabet::from_symbols("xy").unwrap()));
    assert_eq!(reg.lookup("ABC").unwrap().base(), 3);
}

#[test]
fn minimal_periods() {
    assert_eq!(find_simple_repetition("ABABAB"), Some(("AB".to_string(), 3)));
    assert_eq!(find_simple_repetition("AAAA"), Some(("A".to_string(), 4)));
    assert_eq!(find_simple_repetition("ABCABD"), None);
    assert_eq!(find_simple_repetition("A"), None);
    assert_eq!(find_simple_repetition(" "), None);
    assert_eq!(find_simple_repetition(""), None);
    assert_eq!(find_simple_repetition("ABAABA"), Some(("ABA".to_string(), 2)));
}

#[test]
fn reference_repetitions() {
    assert_eq!(repetitions_of("AEIOUAEIOU", "AEIOU"), Some(2));
    assert_eq!(repetitions_of("AEIOU", "AEIOU"), None);
    assert_eq!(repetitions_of("AEIOUAEIO", "AEIOU"), None);
    assert_eq!(repetitions_of("AEIOUAEIOA", "AEIOU"), None);
    assert_eq!(repetitions_of("", "AEIOU"), None);
    assert_eq!(repetitions_of("AA", ""), None);
}
