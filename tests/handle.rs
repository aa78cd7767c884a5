use canonical_index::error::IndexError;
use canonical_index::instruction::Instruction;
use canonical_index::state::AppState;

fn run(i: Instruction) -> Result<String, IndexError> {
    AppState::new().execute_instruction(&i).map(|n| n.to_decimal())
}

fn s(v: &str) -> String {
    v.to_string()
}

#[test]
fn handle_sets_and_reads_the_index() {
    let mut st = AppState::new();
    assert_eq!(st.get_canonical_index(), "0");
    assert_eq!(st.index_to_text_simple().unwrap(), " ");
    st.set_canonical_index("200").unwrap();
    assert_eq!(st.index().to_decimal(), "200");
    assert_eq!(st.index_to_text_simple().unwrap(), "GK");
    assert_eq!(st.set_canonical_index("-3"), Err(IndexError::InvalidInput));
    assert_eq!(st.set_canonical_index("x"), Err(IndexError::InvalidInput));
    assert_eq!(st.get_canonical_index(), "200");
    st.set_index_from_text_simple("hello").unwrap();
    assert_eq!(st.index_to_text_simple().unwrap(), "HELLO");
    assert_eq!(
        st.set_index_from_text_simple("HI!"),
        Err(IndexError::UnknownSymbol { symbol: '!', position: 2 })
    );
    assert_eq!(st.index_to_text_simple().unwrap(), "HELLO");
}

#[test]
fn handle_sequences() {
    let mut st = AppState::new();
    st.set_canonical_index("65536").unwrap();
    assert_eq!(st.calculate_min_sequence_length(8), Ok(3));
    assert_eq!(st.get_sequence_representation(4, 8).unwrap(), vec![0, 1, 0, 0]);
    assert!(matches!(st.get_sequence_representation(2, 8), Err(IndexError::OutOfRange { .. })));
    assert_eq!(st.get_sequence_representation(2, 0), Err(IndexError::UnsupportedModality));
    assert_eq!(st.calculate_min_sequence_length(33), Err(IndexError::UnsupportedModality));
    st.set_index_from_sequence(&vec![1, 2], 16).unwrap();
    assert_eq!(st.get_canonical_index(), "65538");
    assert_eq!(
        st.set_index_from_sequence(&vec![70000], 16),
        Err(IndexError::WordOutOfRange { value: 70000, bit_depth: 16 })
    );
    assert_eq!(st.get_canonical_index(), "65538");
}

#[test]
fn instructions_evaluate() {
    assert_eq!(run(Instruction::LiteralBigInt { value: s("12345678901234567890") }), Ok(s("12345678901234567890")));
    assert_eq!(run(Instruction::LiteralBigInt { value: s("-1") }), Err(IndexError::InvalidInput));
    assert_eq!(run(Instruction::LiteralBigInt { value: s("12a") }), Err(IndexError::InvalidInput));
    assert_eq!(
        run(Instruction::LiteralTextToCi { text_value: s("GK"), text_modality_alphabet_id: s("SIMPLE_TEXT_A_Z_SPACE") }),
        Ok(s("200"))
    );
    assert_eq!(
        run(Instruction::LiteralTextToCi { text_value: s("GK"), text_modality_alphabet_id: s("NOPE") }),
        Err(IndexError::UnsupportedModality)
    );
    assert_eq!(
        run(Instruction::LiteralTextToCi { text_value: s("G7"), text_modality_alphabet_id: s("SIMPLE_TEXT_A_Z_SPACE") }),
        Err(IndexError::UnknownSymbol { symbol: '7', position: 1 })
    );
    assert_eq!(
        run(Instruction::RepeatTextPatternToCi { pattern_text: s("AB"), count: 3, text_modality_alphabet_id: s("SIMPLE_TEXT_A_Z_SPACE") }),
        Ok(s("15432959"))
    );
    assert_eq!(
        run(Instruction::RepeatTextPatternToCi { pattern_text: s("AB"), count: 0, text_modality_alphabet_id: s("SIMPLE_TEXT_A_Z_SPACE") }),
        Ok(s("0"))
    );
    assert_eq!(
        run(Instruction::RepeatTextPatternToCi { pattern_text: s(""), count: 4, text_modality_alphabet_id: s("SIMPLE_TEXT_A_Z_SPACE") }),
        Ok(s("0"))
    );
    assert_eq!(
        run(Instruction::RepeatTextPatternToCi { pattern_text: s("A1"), count: 2, text_modality_alphabet_id: s("SIMPLE_TEXT_A_Z_SPACE") }),
        Err(IndexError::UnknownSymbol { symbol: '1', position: 1 })
    );
    assert_eq!(
        run(Instruction::RepeatTextPatternToCi { pattern_text: s("AB"), count: 2, text_modality_alphabet_id: s("X") }),
        Err(IndexError::UnsupportedModality)
    );
    assert_eq!(
        run(Instruction::EvaluateAddition { operand1_value: s("18446744073709551615"), operand2_value: s("1") }),
        Ok(s("18446744073709551616"))
    );
    assert_eq!(
        run(Instruction::EvaluateAddition { operand1_value: s("-1"), operand2_value: s("5") }),
        Err(IndexError::InvalidInput)
    );
    assert_eq!(
        run(Instruction::EvaluateAddition { operand1_value: s("1"), operand2_value: s("") }),
        Err(IndexError::InvalidInput)
    );
}

#[test]
fn instruction_json_and_cost() {
    let i = Instruction::LiteralBigInt { value: s("200") };
    assert_eq!(i.to_json(), r#"{"instruction_type":"LITERAL_BIGINT","value":"200"}"#);
    assert_eq!(i.estimated_cost(), 51);
    let r = Instruction::RepeatTextPatternToCi { pattern_text: s("AB"), count: 3, text_modality_alphabet_id: s("SIMPLE_TEXT_A_Z_SPACE") };
    assert_eq!(
        r.to_json(),
        r#"{"count":3,"instruction_type":"REPEAT_TEXT_PATTERN_TO_CI","pattern_text":"AB","text_modality_alphabet_id":"SIMPLE_TEXT_A_Z_SPACE"}"#
    );
    assert_eq!(r.estimated_cost(), 130);
    let q = Instruction::LiteralTextToCi { text_value: s("A\"B"), text_modality_alphabet_id: s("X") };
    assert_eq!(q.to_json(), r#"{"instruction_type":"LITERAL_TEXT_TO_CI","text_modality_alphabet_id":"X","text_value":"A\"B"}"#);
    let a = Instruction::EvaluateAddition { operand1_value: s("1"), operand2_value: s("199") };
    assert_eq!(a.estimated_cost(), 84);
}

#[test]
fn json_escapes_quotes_backslashes_and_controls() {
    let q = Instruction::LiteralTextToCi {
        text_value: s("A\nB\u{1}\\\t"),
        text_modality_alphabet_id: s("X"),
    };
    assert_eq!(
        q.to_json(),
        r#"{"instruction_type":"LITERAL_TEXT_TO_CI","text_modality_alphabet_id":"X","text_value":"A\nB\u0001\\\t"}"#
    );
    assert_eq!(q.estimated_cost(), q.to_json().chars().count());
}
