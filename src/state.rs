//! The stateful handle: one canonical index, read and written through the
//! numerals, instructions and analysis.
use vstd::prelude::*;
use crate::alphabet::{
    chars_equal, chars_of, fold_case, folded, valid_symbols, AlphabetRegistry, SIMPLE_TEXT_ALPHABET, SIMPLE_TEXT_ALPHABET_ID,
};
use crate::analyzer::{analysis_of, analyze, AnalysisReport};
use crate::bignum::{decimal_text, integer_magnitude, nonnegative_integer, BigNat};
use crate::error::IndexError;
use crate::instruction::{execute_instruction, instruction_error, instruction_value, Instruction};
use crate::positional::{digit_count, fits_in};
use crate::sequence::{
    decode_words, encode_words, first_wide_word, min_word_count, supported_depth, word_base,
    words_of, words_value,
};
use crate::text::{decode_text, encode_text, first_unknown, min_text_length, readable, text_of, text_value};

verus! {

/// The recommendation that a self-check case expects: a literal, or a
/// repetition of `pattern` `count` times.
pub open spec fn meets_expectation(
    i: Instruction,
    want_repeat: bool,
    pattern: Seq<char>,
    count: u32,
) -> bool {
    match i {
        Instruction::LiteralBigInt { .. } => !want_repeat,
        Instruction::RepeatTextPatternToCi { pattern_text, count: c, .. } => want_repeat
            && pattern_text@ == pattern && c == count,
        _ => false,
    }
}

fn check_expectation(i: &Instruction, want_repeat: bool, pattern: &str, count: u32) -> (r: bool)
    ensures
        r == meets_expectation(*i, want_repeat, pattern@, count),
{
    match i {
        Instruction::LiteralBigInt { .. } => !want_repeat,
        Instruction::RepeatTextPatternToCi { pattern_text, count: c, .. } => {
            want_repeat && chars_equal(&chars_of(pattern_text.as_str()), &chars_of(pattern)) && *c
                == count
        },
        _ => false,
    }
}

/// The outcome of one self-check case.
pub struct ValidationOutcome {
    pub name: String,
    /// The index that the case analyzes, or why it could not be had.
    pub setup: Result<BigNat, IndexError>,
    /// The analysis of that index.
    pub report: Option<AnalysisReport>,
    /// Whether the analysis recommends what the case expects.
    pub passed: bool,
}

/// The canonical index, with the alphabets that its text forms use.
pub struct AppState {
    canonical_index: BigNat,
    alphabets: AlphabetRegistry,
}

impl AppState {
    #[verifier::type_invariant]
    spec fn has_default_alphabet(self) -> bool {
        &&& self.alphabets@.contains_key(SIMPLE_TEXT_ALPHABET_ID@)
        &&& valid_symbols(self.alphabets@[SIMPLE_TEXT_ALPHABET_ID@])
        &&& forall|c: char|
            self.alphabets@[SIMPLE_TEXT_ALPHABET_ID@].contains(c) <==> folded(
                SIMPLE_TEXT_ALPHABET@,
            ).contains(c)
    }

    /// The canonical index.
    pub closed spec fn ci(&self) -> nat {
        self.canonical_index@
    }

    /// The alphabets by identifier.
    pub closed spec fn alphabets(&self) -> Map<Seq<char>, Seq<char>> {
        self.alphabets@
    }

    /// Symbols of the default text alphabet.
    pub open spec fn text_alphabet(&self) -> Seq<char> {
        self.alphabets()[SIMPLE_TEXT_ALPHABET_ID@]
    }

    /// Index zero, with the default text alphabet.
    pub fn new() -> (r: AppState)
        ensures
            r.ci() == 0,
            r.alphabets().dom() == set![SIMPLE_TEXT_ALPHABET_ID@],
            valid_symbols(r.text_alphabet()),
            forall|c: char|
                r.text_alphabet().contains(c) <==> folded(SIMPLE_TEXT_ALPHABET@).contains(c),
    {
        AppState {
            canonical_index: BigNat::zero(),
            alphabets: AlphabetRegistry::with_default_alphabet(),
        }
    }

    /// The canonical index itself.
    pub fn index(&self) -> (r: &BigNat)
        ensures
            r@ == self.ci(),
    {
        &self.canonical_index
    }

    /// The canonical index in decimal.
    pub fn get_canonical_index(&self) -> (r: String)
        ensures
            r@ == decimal_text(self.ci()),
    {
        self.canonical_index.to_decimal()
    }

    /// Sets the index from decimal text; a negative or malformed value is
    /// refused with `InvalidInput` and changes nothing.
    pub fn set_canonical_index(&mut self, decimal: &str) -> (r: Result<(), IndexError>)
        ensures
            r is Ok <==> nonnegative_integer(decimal@),
            r is Ok ==> final(self).ci() == integer_magnitude(decimal@),
            r is Err ==> r == Err::<(), IndexError>(IndexError::InvalidInput) && final(self).ci()
                == old(self).ci(),
            final(self).alphabets() == old(self).alphabets(),
    {
        proof {
            use_type_invariant(&*self);
        }
        match BigNat::parse_nonnegative(decimal) {
            Some(n) => {
                self.canonical_index = n;
                Ok(())
            },
            None => Err(IndexError::InvalidInput),
        }
    }

    /// The index as exactly `target_length` words of `bit_depth` bits.
    pub fn get_sequence_representation(&self, target_length: u32, bit_depth: u32) -> (r: Result<
        Vec<u32>,
        IndexError,
    >)
        ensures
            !supported_depth(bit_depth) ==> (r matches Err(IndexError::UnsupportedModality)),
            supported_depth(bit_depth) ==> {
                &&& r is Ok <==> fits_in(self.ci(), word_base(bit_depth), target_length as nat)
                &&& r matches Ok(v) ==> v@ == words_of(self.ci(), bit_depth, target_length as nat)
                &&& r matches Err(e) ==> e matches IndexError::OutOfRange {
                    index,
                    target_length: t,
                    base,
                } && index@ == self.ci() && t == target_length && base == word_base(bit_depth)
            },
    {
        encode_words(&self.canonical_index, target_length, bit_depth)
    }

    /// The fewest words of `bit_depth` bits that hold the index.
    pub fn calculate_min_sequence_length(&self, bit_depth: u32) -> (r: Result<u64, IndexError>)
        ensures
            !supported_depth(bit_depth) ==> (r matches Err(IndexError::UnsupportedModality)),
            supported_depth(bit_depth) ==> r == Ok::<u64, IndexError>(
                digit_count(self.ci(), word_base(bit_depth)) as u64,
            ),
    {
        min_word_count(&self.canonical_index, bit_depth)
    }

    /// Sets the index from words of `bit_depth` bits.
    pub fn set_index_from_sequence(&mut self, words: &Vec<u32>, bit_depth: u32) -> (r: Result<
        (),
        IndexError,
    >)
        ensures
            !supported_depth(bit_depth) ==> (r matches Err(IndexError::UnsupportedModality)),
            supported_depth(bit_depth) ==> {
                &&& r is Ok <==> forall|i: int|
                    0 <= i < words.len() ==> (#[trigger] words@[i]) < word_base(bit_depth)
                &&& r matches Err(e) ==> first_wide_word(words@, bit_depth, e)
            },
            r is Ok ==> final(self).ci() == words_value(words@, bit_depth),
            r is Err ==> final(self).ci() == old(self).ci(),
            final(self).alphabets() == old(self).alphabets(),
    {
        proof {
            use_type_invariant(&*self);
        }
        match decode_words(words, bit_depth) {
            Ok(n) => {
                self.canonical_index = n;
                Ok(())
            },
            Err(e) => Err(e),
        }
    }

    /// The index as text in the default alphabet, at its minimal length; zero
    /// is one zero symbol.
    pub fn index_to_text_simple(&self) -> (r: Result<String, IndexError>)
        ensures
            r matches Ok(s) && s@ == text_of(
                self.text_alphabet(),
                self.ci(),
                if self.ci() == 0 {
                    1
                } else {
                    digit_count(self.ci(), self.text_alphabet().len())
                },
            ),
    {
        proof {
            use_type_invariant(self);
        }
        match self.alphabets.lookup(SIMPLE_TEXT_ALPHABET_ID) {
            Some(alphabet) => {
                let len = if self.canonical_index.is_zero() {
                    1
                } else {
                    min_text_length(alphabet, &self.canonical_index)
                };
                proof {
                    crate::positional::lemma_fits_in_digit_count(
                        self.ci(),
                        alphabet@.len(),
                        len as nat,
                    );
                }
                encode_text(alphabet, &self.canonical_index, len)
            },
            None => Err(IndexError::UnsupportedModality),
        }
    }

    /// Sets the index from text in the default alphabet, case folded.
    pub fn set_index_from_text_simple(&mut self, text: &str) -> (r: Result<(), IndexError>)
        ensures
            r is Ok <==> readable(old(self).text_alphabet(), text@),
            r is Ok ==> final(self).ci() == text_value(old(self).text_alphabet(), text@),
            r matches Err(e) ==> first_unknown(old(self).text_alphabet(), text@, e)
                && final(self).ci() == old(self).ci(),
            final(self).alphabets() == old(self).alphabets(),
            final(self).text_alphabet() == old(self).text_alphabet(),
    {
        proof {
            use_type_invariant(&*self);
        }
        let decoded = match self.alphabets.lookup(SIMPLE_TEXT_ALPHABET_ID) {
            Some(alphabet) => decode_text(alphabet, text),
            None => Err(IndexError::UnsupportedModality),
        };
        match decoded {
            Ok(n) => {
                self.canonical_index = n;
                Ok(())
            },
            Err(e) => Err(e),
        }
    }

    /// Evaluates `instruction` with this handle's alphabets; the index is
    /// left as it is.
    pub fn execute_instruction(&self, instruction: &Instruction) -> (r: Result<BigNat, IndexError>)
        ensures
            r is Ok <==> instruction_value(self.alphabets(), *instruction) is Some,
            r matches Ok(n) ==> instruction_value(self.alphabets(), *instruction) == Some(n@),
            r matches Err(e) ==> instruction_error(self.alphabets(), *instruction, e),
    {
        execute_instruction(&self.alphabets, instruction)
    }

    fn check_case(
        &mut self,
        name: &str,
        setup: Result<BigNat, IndexError>,
        want_repeat: bool,
        pattern: &str,
        count: u32,
    ) -> (r: ValidationOutcome)
        ensures
            final(self).alphabets() == old(self).alphabets(),
            r.name@ == name@,
            r.setup == setup,
            r.report is Some <==> setup is Ok,
            r.report matches Some(rep) ==> setup matches Ok(v) && analysis_of(
                old(self).alphabets(),
                v@,
                rep,
            ),
            r.passed == (r.report matches Some(rep) && meets_expectation(
                rep.recommended_instruction_for_save,
                want_repeat,
                pattern@,
                count,
            )),
    {
        proof {
            use_type_invariant(&*self);
        }
        match setup {
            Ok(n) => {
                self.canonical_index = n.clone();
                let report = self.analyze();
                let passed = check_expectation(
                    &report.recommended_instruction_for_save,
                    want_repeat,
                    pattern,
                    count,
                );
                ValidationOutcome {
                    name: String::from_str(name),
                    setup: Ok(n),
                    report: Some(report),
                    passed,
                }
            },
            Err(e) => ValidationOutcome {
                name: String::from_str(name),
                setup: Err(e),
                report: None,
                passed: false,
            },
        }
    }

    /// Analyzes four known indexes and checks each recommendation: the
    /// default alphabet written twice (a repetition of it, twice), "ABABAB"
    /// ("AB", three times), 200 and 0 (literals). The index is restored.
    pub fn run_internal_validation_suite(&mut self) -> (r: Vec<ValidationOutcome>)
        ensures
            r@.len() == 4,
            final(self).ci() == old(self).ci(),
            final(self).alphabets() == old(self).alphabets(),
            r@[0].name@ == "Internal AZ Pattern x2"@,
            r@[0].setup matches Ok(v) && v@ == text_value(
                old(self).text_alphabet(),
                SIMPLE_TEXT_ALPHABET@ + SIMPLE_TEXT_ALPHABET@,
            ),
            r@[1].name@ == "Generic Text Repeat 'ABABAB'"@,
            r@[1].setup matches Ok(v) && v@ == text_value(old(self).text_alphabet(), "ABABAB"@),
            r@[2].name@ == "Small Number 200"@,
            r@[2].setup matches Ok(v) && v@ == 200,
            r@[3].name@ == "Zero CI"@,
            r@[3].setup matches Ok(v) && v@ == 0,
            forall|k: int|
                0 <= k < 4 ==> ((#[trigger] r@[k]).report is Some && r@[k].setup is Ok
                    && analysis_of(old(self).alphabets(), r@[k].setup->Ok_0@, r@[k].report->0)),
            r@[0].passed == meets_expectation(
                r@[0].report->0.recommended_instruction_for_save,
                true,
                SIMPLE_TEXT_ALPHABET@,
                2,
            ),
            r@[1].passed == meets_expectation(
                r@[1].report->0.recommended_instruction_for_save,
                true,
                "AB"@,
                3,
            ),
            r@[2].passed == meets_expectation(
                r@[2].report->0.recommended_instruction_for_save,
                false,
                ""@,
                0,
            ),
            r@[3].passed == meets_expectation(
                r@[3].report->0.recommended_instruction_for_save,
                false,
                ""@,
                0,
            ),
    {
        proof {
            use_type_invariant(&*self);
        }
        let ghost alpha = self.text_alphabet();
        let ghost regs = self.alphabets();
        let saved = self.canonical_index.clone();
        let mut outcomes: Vec<ValidationOutcome> = Vec::new();
        let doubled = {
            let mut t = String::from_str(SIMPLE_TEXT_ALPHABET);
            t.append(SIMPLE_TEXT_ALPHABET);
            t
        };
        proof {
            let lit = SIMPLE_TEXT_ALPHABET@;
            assert forall|i: int| 0 <= i < doubled@.len() implies alpha.contains(
                fold_case(#[trigger] doubled@[i]),
            ) by {
                let j = if i < lit.len() {
                    i
                } else {
                    i - lit.len()
                };
                assert(doubled@[i] == lit[j]);
                assert(folded(lit)[j] == fold_case(lit[j]));
                assert(folded(lit).contains(fold_case(lit[j])));
            }
            reveal_strlit("ABABAB");
            reveal_strlit(" ABCDEFGHIJKLMNOPQRSTUVWXYZ");
            assert(folded(lit)[1] == 'A');
            assert(folded(lit)[2] == 'B');
            assert(folded(lit).contains('A'));
            assert(folded(lit).contains('B'));
            assert(alpha.contains('A'));
            assert(alpha.contains('B'));
            assert(readable(alpha, "ABABAB"@));
        }
        let setup = match self.alphabets.lookup(SIMPLE_TEXT_ALPHABET_ID) {
            Some(a) => decode_text(a, doubled.as_str()),
            None => Err(IndexError::UnsupportedModality),
        };
        outcomes.push(self.check_case("Internal AZ Pattern x2", setup, true, SIMPLE_TEXT_ALPHABET, 2));
        let setup = match self.alphabets.lookup(SIMPLE_TEXT_ALPHABET_ID) {
            Some(a) => decode_text(a, "ABABAB"),
            None => Err(IndexError::UnsupportedModality),
        };
        outcomes.push(self.check_case("Generic Text Repeat 'ABABAB'", setup, true, "AB", 3));
        outcomes.push(
            self.check_case("Small Number 200", Ok(BigNat::from_u64(200)), false, "", 0),
        );
        outcomes.push(self.check_case("Zero CI", Ok(BigNat::zero()), false, "", 0));
        proof {
            use_type_invariant(&*self);
        }
        self.canonical_index = saved;
        outcomes
    }

    /// Analysis of the current index; the recommendation rebuilds it.
    pub fn analyze(&self) -> (r: AnalysisReport)
        ensures
            analysis_of(self.alphabets(), self.ci(), r),
            instruction_value(self.alphabets(), r.recommended_instruction_for_save) == Some(
                self.ci(),
            ),
    {
        analyze(&self.canonical_index, &self.alphabets)
    }
}

} // verus!
