//! Instructions: short recipes that rebuild an index, how each evaluates,
//! and what each costs as compact JSON.
use vstd::prelude::*;
use crate::alphabet::{chars_of, AlphabetRegistry};
use crate::bignum::{decimal_text, integer_magnitude, nonnegative_integer, BigNat};
use crate::error::IndexError;
use crate::pattern::repeat_seq;
use crate::text::{decode_chars, first_unknown, readable, text_value};

verus! {

/// A recipe for an index.
#[derive(Debug, Clone, PartialEq, Eq)]
pub enum Instruction {
    /// The index in decimal.
    LiteralBigInt { value: String },
    /// The index as text in an alphabet.
    LiteralTextToCi { text_value: String, text_modality_alphabet_id: String },
    /// The index as text that repeats a pattern `count` times.
    RepeatTextPatternToCi { pattern_text: String, count: u32, text_modality_alphabet_id: String },
    /// The index as the sum of two decimal operands.
    EvaluateAddition { operand1_value: String, operand2_value: String },
}

/// What `i` evaluates to under the alphabets `reg`; `None` where it fails.
pub open spec fn instruction_value(reg: Map<Seq<char>, Seq<char>>, i: Instruction) -> Option<nat> {
    match i {
        Instruction::LiteralBigInt { value } => {
            if nonnegative_integer(value@) {
                Some(integer_magnitude(value@))
            } else {
                None
            }
        },
        Instruction::LiteralTextToCi { text_value: t, text_modality_alphabet_id: id } => {
            if reg.contains_key(id@) && readable(reg[id@], t@) {
                Some(text_value(reg[id@], t@))
            } else {
                None
            }
        },
        Instruction::RepeatTextPatternToCi {
            pattern_text: p,
            count,
            text_modality_alphabet_id: id,
        } => {
            if !reg.contains_key(id@) {
                None
            } else if p@.len() == 0 || count == 0 {
                Some(0)
            } else if readable(reg[id@], repeat_seq(p@, count as nat)) {
                Some(text_value(reg[id@], repeat_seq(p@, count as nat)))
            } else {
                None
            }
        },
        Instruction::EvaluateAddition { operand1_value: a, operand2_value: b } => {
            if nonnegative_integer(a@) && nonnegative_integer(b@) {
                Some(integer_magnitude(a@) + integer_magnitude(b@))
            } else {
                None
            }
        },
    }
}

/// The failure that evaluating `i` reports.
pub open spec fn instruction_error(
    reg: Map<Seq<char>, Seq<char>>,
    i: Instruction,
    e: IndexError,
) -> bool {
    match i {
        Instruction::LiteralBigInt { .. } => e == IndexError::InvalidInput,
        Instruction::LiteralTextToCi { text_value: t, text_modality_alphabet_id: id } => {
            if !reg.contains_key(id@) {
                e == IndexError::UnsupportedModality
            } else {
                first_unknown(reg[id@], t@, e)
            }
        },
        Instruction::RepeatTextPatternToCi {
            pattern_text: p,
            count,
            text_modality_alphabet_id: id,
        } => {
            if !reg.contains_key(id@) {
                e == IndexError::UnsupportedModality
            } else {
                first_unknown(reg[id@], repeat_seq(p@, count as nat), e)
            }
        },
        Instruction::EvaluateAddition { .. } => e == IndexError::InvalidInput,
    }
}

fn repeat_chars(pattern: &Vec<char>, count: u32) -> (r: Vec<char>)
    ensures
        r@ == repeat_seq(pattern@, count as nat),
{
    let mut out: Vec<char> = Vec::new();
    let mut k: u32 = 0;
    while k < count
        invariant
            k <= count,
            out@ == repeat_seq(pattern@, k as nat),
        decreases count - k,
    {
        let ghost before = out@;
        let mut j: usize = 0;
        while j < pattern.len()
            invariant
                j <= pattern.len(),
                out@ == before + pattern@.take(j as int),
            decreases pattern.len() - j,
        {
            out.push(pattern[j]);
            proof {
                assert(out@ =~= before + pattern@.take(j + 1));
            }
            j += 1;
        }
        proof {
            assert(pattern@.take(pattern.len() as int) =~= pattern@);
            assert(repeat_seq(pattern@, (k + 1) as nat) == repeat_seq(pattern@, k as nat) + pattern@);
        }
        k += 1;
    }
    out
}

/// Evaluates `instruction`, resolving alphabets in `registry`.
pub fn execute_instruction(registry: &AlphabetRegistry, instruction: &Instruction) -> (r: Result<
    BigNat,
    IndexError,
>)
    ensures
        r is Ok <==> instruction_value(registry@, *instruction) is Some,
        r matches Ok(n) ==> instruction_value(registry@, *instruction) == Some(n@),
        r matches Err(e) ==> instruction_error(registry@, *instruction, e),
{
    match instruction {
        Instruction::LiteralBigInt { value } => {
            match BigNat::parse_nonnegative(value.as_str()) {
                Some(n) => Ok(n),
                None => Err(IndexError::InvalidInput),
            }
        },
        Instruction::LiteralTextToCi { text_value, text_modality_alphabet_id } => {
            match registry.lookup(text_modality_alphabet_id.as_str()) {
                Some(alphabet) => decode_chars(alphabet, &chars_of(text_value.as_str())),
                None => Err(IndexError::UnsupportedModality),
            }
        },
        Instruction::RepeatTextPatternToCi { pattern_text, count, text_modality_alphabet_id } => {
            match registry.lookup(text_modality_alphabet_id.as_str()) {
                Some(alphabet) => {
                    let pattern = chars_of(pattern_text.as_str());
                    if pattern.len() == 0 || *count == 0 {
                        Ok(BigNat::zero())
                    } else {
                        decode_chars(alphabet, &repeat_chars(&pattern, *count))
                    }
                },
                None => Err(IndexError::UnsupportedModality),
            }
        },
        Instruction::EvaluateAddition { operand1_value, operand2_value } => {
            match (
                BigNat::parse_nonnegative(operand1_value.as_str()),
                BigNat::parse_nonnegative(operand2_value.as_str()),
            ) {
                (Some(a), Some(b)) => Ok(a.add(&b)),
                _ => Err(IndexError::InvalidInput),
            }
        },
    }
}

/// A lower-case hexadecimal digit, for `d < 16`.
pub open spec fn hex_digit(d: int) -> char {
    if d < 10 {
        (d + 48) as char
    } else {
        (d + 87) as char
    }
}

/// How JSON writes one character inside a string literal: quote and
/// backslash behind a backslash, the usual short forms for backspace, tab,
/// line feed, form feed and carriage return, other characters below U+0020
/// as `\u00XX`, and everything else as it is.
pub open spec fn json_char_escape(c: char) -> Seq<char> {
    if c == '"' {
        seq!['\\', '"']
    } else if c == '\\' {
        seq!['\\', '\\']
    } else if c == '\u{8}' {
        seq!['\\', 'b']
    } else if c == '\t' {
        seq!['\\', 't']
    } else if c == '\n' {
        seq!['\\', 'n']
    } else if c == '\u{c}' {
        seq!['\\', 'f']
    } else if c == '\r' {
        seq!['\\', 'r']
    } else if (c as int) < 0x20 {
        seq!['\\', 'u', '0', '0', hex_digit(c as int / 16), hex_digit(c as int % 16)]
    } else {
        seq![c]
    }
}

/// The characters of `s`, each as JSON writes it inside a string literal.
pub open spec fn json_escaped(s: Seq<char>) -> Seq<char>
    decreases s.len(),
{
    if s.len() == 0 {
        seq![]
    } else {
        json_escaped(s.drop_last()) + json_char_escape(s.last())
    }
}

/// A JSON string literal for the text `s`.
pub open spec fn json_quoted(s: Seq<char>) -> Seq<char> {
    seq!['"'] + json_escaped(s) + seq!['"']
}

/// Text that JSON writes between quotes as it is: no quote, no backslash,
/// no control character.
pub open spec fn plain_json_text(s: Seq<char>) -> bool {
    forall|i: int|
        0 <= i < s.len() ==> #[trigger] s[i] != '"' && s[i] != '\\' && s[i] as int >= 0x20
}

proof fn lemma_plain_escaped(s: Seq<char>)
    requires
        plain_json_text(s),
    ensures
        json_escaped(s) == s,
    decreases s.len(),
{
    if s.len() > 0 {
        let t = s.drop_last();
        assert forall|i: int| 0 <= i < t.len() implies #[trigger] t[i] != '"' && t[i] != '\\'
            && t[i] as int >= 0x20 by {
            assert(t[i] == s[i]);
        }
        lemma_plain_escaped(t);
        assert(s.last() == s[s.len() - 1]);
        assert(json_char_escape(s.last()) == seq![s.last()]);
        assert(t + seq![s.last()] =~= s);
    } else {
        assert(s =~= Seq::<char>::empty());
    }
}

/// Plain text is written as it is, between quotes.
pub proof fn lemma_plain_json_text(s: Seq<char>)
    requires
        plain_json_text(s),
    ensures
        json_quoted(s) == seq!['"'] + s + seq!['"'],
{
    lemma_plain_escaped(s);
}

/// Relies on `serde_json::to_string` on a `str`: a JSON string literal, as
/// `json_quoted` spells it out; it cannot fail on a `str`.
#[verifier::external_body]
fn json_string(s: &str) -> (r: String)
    ensures
        r@ == json_quoted(s@),
{
    serde_json::to_string(s).unwrap_or_default()
}

/// Compact JSON of a decimal literal.
pub open spec fn literal_json(value: Seq<char>) -> Seq<char> {
    "{\"instruction_type\":\"LITERAL_BIGINT\",\"value\":"@ + json_quoted(value) + "}"@
}

/// Compact JSON of a text literal.
pub open spec fn text_json(text: Seq<char>, id: Seq<char>) -> Seq<char> {
    "{\"instruction_type\":\"LITERAL_TEXT_TO_CI\",\"text_modality_alphabet_id\":"@ + json_quoted(id)
        + ",\"text_value\":"@ + json_quoted(text) + "}"@
}

/// Compact JSON of a repeated pattern.
pub open spec fn repeat_json(pattern: Seq<char>, count: nat, id: Seq<char>) -> Seq<char> {
    "{\"count\":"@ + decimal_text(count) + ",\"instruction_type\":\"REPEAT_TEXT_PATTERN_TO_CI\",\"pattern_text\":"@
        + json_quoted(pattern) + ",\"text_modality_alphabet_id\":"@ + json_quoted(id) + "}"@
}

/// Compact JSON of a sum.
pub open spec fn addition_json(a: Seq<char>, b: Seq<char>) -> Seq<char> {
    "{\"instruction_type\":\"EVALUATE_ADDITION\",\"operand1_value\":"@ + json_quoted(a)
        + ",\"operand2_value\":"@ + json_quoted(b) + "}"@
}

/// The compact JSON of `i`, keys in ascending order.
pub open spec fn instruction_json(i: Instruction) -> Seq<char> {
    match i {
        Instruction::LiteralBigInt { value } => literal_json(value@),
        Instruction::LiteralTextToCi { text_value: t, text_modality_alphabet_id: id } => text_json(
            t@,
            id@,
        ),
        Instruction::RepeatTextPatternToCi {
            pattern_text: p,
            count,
            text_modality_alphabet_id: id,
        } => repeat_json(p@, count as nat, id@),
        Instruction::EvaluateAddition { operand1_value: a, operand2_value: b } => addition_json(
            a@,
            b@,
        ),
    }
}

/// A sum of two decimal operands costs more than the decimal literal of any
/// number with at most one digit more than its second operand.
pub proof fn lemma_sum_dearer_than_literal(a: Seq<char>, b: Seq<char>, n: Seq<char>)
    requires
        a.len() >= 1,
        b.len() + 1 >= n.len(),
        plain_json_text(a),
        plain_json_text(b),
        plain_json_text(n),
    ensures
        addition_json(a, b).len() > literal_json(n).len(),
{
    lemma_plain_json_text(a);
    lemma_plain_json_text(b);
    lemma_plain_json_text(n);
    reveal_strlit("{\"instruction_type\":\"LITERAL_BIGINT\",\"value\":");
    reveal_strlit("{\"instruction_type\":\"EVALUATE_ADDITION\",\"operand1_value\":");
    reveal_strlit(",\"operand2_value\":");
    reveal_strlit("}");
}

/// `a` and `b` are the same variant with fields of the same text.
pub open spec fn same_recipe(a: Instruction, b: Instruction) -> bool {
    match (a, b) {
        (Instruction::LiteralBigInt { value: x }, Instruction::LiteralBigInt { value: y }) => x@ == y@,
        (
            Instruction::LiteralTextToCi { text_value: t1, text_modality_alphabet_id: i1 },
            Instruction::LiteralTextToCi { text_value: t2, text_modality_alphabet_id: i2 },
        ) => t1@ == t2@ && i1@ == i2@,
        (
            Instruction::RepeatTextPatternToCi {
                pattern_text: p1,
                count: c1,
                text_modality_alphabet_id: i1,
            },
            Instruction::RepeatTextPatternToCi {
                pattern_text: p2,
                count: c2,
                text_modality_alphabet_id: i2,
            },
        ) => p1@ == p2@ && c1 == c2 && i1@ == i2@,
        (
            Instruction::EvaluateAddition { operand1_value: a1, operand2_value: b1 },
            Instruction::EvaluateAddition { operand1_value: a2, operand2_value: b2 },
        ) => a1@ == a2@ && b1@ == b2@,
        _ => false,
    }
}

impl Instruction {
    /// A second instruction with the same recipe.
    pub fn duplicate(&self) -> (r: Instruction)
        ensures
            same_recipe(r, *self),
            forall|reg: Map<Seq<char>, Seq<char>>|
                instruction_value(reg, r) == #[trigger] instruction_value(reg, *self),
            instruction_json(r) == instruction_json(*self),
    {
        match self {
            Instruction::LiteralBigInt { value } => Instruction::LiteralBigInt {
                value: value.clone(),
            },
            Instruction::LiteralTextToCi { text_value, text_modality_alphabet_id } => {
                Instruction::LiteralTextToCi {
                    text_value: text_value.clone(),
                    text_modality_alphabet_id: text_modality_alphabet_id.clone(),
                }
            },
            Instruction::RepeatTextPatternToCi { pattern_text, count, text_modality_alphabet_id } => {
                Instruction::RepeatTextPatternToCi {
                    pattern_text: pattern_text.clone(),
                    count: *count,
                    text_modality_alphabet_id: text_modality_alphabet_id.clone(),
                }
            },
            Instruction::EvaluateAddition { operand1_value, operand2_value } => {
                Instruction::EvaluateAddition {
                    operand1_value: operand1_value.clone(),
                    operand2_value: operand2_value.clone(),
                }
            },
        }
    }

    /// The compact JSON of this instruction.
    pub fn to_json(&self) -> (r: String)
        ensures
            r@ == instruction_json(*self),
    {
        match self {
            Instruction::LiteralBigInt { value } => {
                let mut s = String::from_str("{\"instruction_type\":\"LITERAL_BIGINT\",\"value\":");
                s.append(json_string(value.as_str()).as_str());
                s.append("}");
                s
            },
            Instruction::LiteralTextToCi { text_value, text_modality_alphabet_id } => {
                let mut s = String::from_str(
                    "{\"instruction_type\":\"LITERAL_TEXT_TO_CI\",\"text_modality_alphabet_id\":",
                );
                s.append(json_string(text_modality_alphabet_id.as_str()).as_str());
                s.append(",\"text_value\":");
                s.append(json_string(text_value.as_str()).as_str());
                s.append("}");
                s
            },
            Instruction::RepeatTextPatternToCi { pattern_text, count, text_modality_alphabet_id } => {
                let mut s = String::from_str("{\"count\":");
                s.append(BigNat::from_u64(*count as u64).to_decimal().as_str());
                s.append(",\"instruction_type\":\"REPEAT_TEXT_PATTERN_TO_CI\",\"pattern_text\":");
                s.append(json_string(pattern_text.as_str()).as_str());
                s.append(",\"text_modality_alphabet_id\":");
                s.append(json_string(text_modality_alphabet_id.as_str()).as_str());
                s.append("}");
                s
            },
            Instruction::EvaluateAddition { operand1_value, operand2_value } => {
                let mut s = String::from_str(
                    "{\"instruction_type\":\"EVALUATE_ADDITION\",\"operand1_value\":",
                );
                s.append(json_string(operand1_value.as_str()).as_str());
                s.append(",\"operand2_value\":");
                s.append(json_string(operand2_value.as_str()).as_str());
                s.append("}");
                s
            },
        }
    }

    /// The cost of this instruction: the length of its compact JSON.
    pub fn estimated_cost(&self) -> (r: usize)
        ensures
            r == instruction_json(*self).len(),
    {
        self.to_json().as_str().unicode_len()
    }
}

} // verus!
