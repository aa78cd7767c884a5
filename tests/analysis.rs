use canonical_index::alphabet::{AlphabetRegistry, SIMPLE_TEXT_ALPHABET, SIMPLE_TEXT_ALPHABET_ID};
use canonical_index::analyzer::{analyze, AnalysisReport};
use canonical_index::bignum::BigNat;
use canonical_index::instruction::Instruction;
use canonical_index::state::AppState;

fn state_at(decimal: &str) -> AppState {
    let mut s = AppState::new();
    s.set_canonical_index(decimal).unwrap();
    s
}

fn state_from_text(text: &str) -> AppState {
    let mut s = AppState::new();
    s.set_index_from_text_simple(text).unwrap();
    s
}

fn literal(v: &str) -> Instruction {
    Instruction::LiteralBigInt { value: v.to_string() }
}

fn lens_ids(r: &AnalysisReport) -> Vec<String> {
    r.analysis_by_lens.iter().map(|e| e.lens_id.clone()).collect()
}

fn recommended_rebuilds_index(s: &AppState) {
    let report = s.analyze();
    let value = s.execute_instruction(&report.recommended_instruction_for_save).unwrap();
    assert_eq!(value.to_decimal(), s.get_canonical_index());
    for e in &report.analysis_by_lens {
        let v = s.execute_instruction(&e.instruction).unwrap();
        assert_eq!(v.to_decimal(), s.get_canonical_index());
        assert_eq!(e.estimated_cost, e.instruction.to_json().chars().count());
    }
}

#[test]
fn index_200_recommends_literal() {
    let s = state_at("200");
    let r = s.analyze();
    assert_eq!(r.ci_analyzed, "200");
    assert_eq!(r.recommended_instruction_for_save, literal("200"));
    assert_eq!(r.analysis_by_lens[0].lens_id, "LITERAL_BIGINT");
    assert_eq!(r.analysis_by_lens[0].estimated_cost, 51);
    assert_eq!(r.analysis_by_lens[1].lens_id, "LITERAL_TEXT_A_Z_SPACE");
    assert_eq!(
        r.analysis_by_lens[1].instruction,
        Instruction::LiteralTextToCi {
            text_value: "GK".to_string(),
            text_modality_alphabet_id: SIMPLE_TEXT_ALPHABET_ID.to_string(),
        }
    );
    assert_eq!(r.analysis_by_lens[1].estimated_cost, 111);
    assert_eq!(
        r.analysis_by_lens[2].instruction,
        Instruction::EvaluateAddition {
            operand1_value: "1".to_string(),
            operand2_value: "199".to_string(),
        }
    );
    assert_eq!(r.analysis_by_lens[2].estimated_cost, 84);
    let ids = lens_ids(&r);
    assert_eq!(ids.iter().filter(|i| *i == "EVALUATE_ADDITION_A_B").count(), 5);
    assert_eq!(ids.len(), 7);
}

#[test]
fn index_zero_recommends_literal() {
    let s = AppState::new();
    let r = s.analyze();
    assert_eq!(r.recommended_instruction_for_save, literal("0"));
    assert_eq!(r.analysis_by_lens[0].estimated_cost, 49);
    assert_eq!(r.analysis_by_lens[1].estimated_cost, 110);
    assert_eq!(
        r.analysis_by_lens[1].instruction,
        Instruction::LiteralTextToCi {
            text_value: " ".to_string(),
            text_modality_alphabet_id: SIMPLE_TEXT_ALPHABET_ID.to_string(),
        }
    );
    assert_eq!(r.analysis_by_lens.len(), 2);
}

#[test]
fn ababab_finds_the_period_but_literal_is_cheaper() {
    let s = state_from_text("ABABAB");
    assert_eq!(s.get_canonical_index(), "15432959");
    let r = s.analyze();
    let generic = r
        .analysis_by_lens
        .iter()
        .find(|e| e.lens_id == "REPEAT_GENERIC_PN_AB")
        .unwrap();
    assert_eq!(
        generic.instruction,
        Instruction::RepeatTextPatternToCi {
            pattern_text: "AB".to_string(),
            count: 3,
            text_modality_alphabet_id: SIMPLE_TEXT_ALPHABET_ID.to_string(),
        }
    );
    assert_eq!(generic.estimated_cost, 130);
    assert_eq!(r.analysis_by_lens[0].estimated_cost, 56);
    assert_eq!(r.recommended_instruction_for_save, literal("15432959"));
}

#[test]
fn doubled_alphabet_reads_back_without_its_leading_space() {
    let doubled = format!("{}{}", SIMPLE_TEXT_ALPHABET, SIMPLE_TEXT_ALPHABET);
    let s = state_from_text(&doubled);
    let m = "290868417863243955056325308471763485165411325736098006543852329649886340900";
    assert_eq!(s.get_canonical_index(), m);
    assert_eq!(s.index_to_text_simple().unwrap(), doubled[1..].to_string());
    let r = s.analyze();
    assert!(lens_ids(&r).iter().all(|i| !i.starts_with("REPEAT_")));
    assert_eq!(r.analysis_by_lens[0].estimated_cost, 123);
    assert_eq!(r.recommended_instruction_for_save, literal(m));
}

#[test]
fn reference_pattern_repeat_is_recommended() {
    let s = state_from_text(&"HELLO WORLD".repeat(20));
    let r = s.analyze();
    let expected = Instruction::RepeatTextPatternToCi {
        pattern_text: "HELLO WORLD".to_string(),
        count: 20,
        text_modality_alphabet_id: SIMPLE_TEXT_ALPHABET_ID.to_string(),
    };
    assert_eq!(r.recommended_instruction_for_save, expected);
    let ids = lens_ids(&r);
    assert!(ids.contains(&"REPEAT_INTERNAL_REF_HELLO_WORLD".to_string()));
    assert!(!ids.iter().any(|i| i.starts_with("REPEAT_GENERIC_PN_")));
    let e = r
        .analysis_by_lens
        .iter()
        .find(|e| e.lens_id == "REPEAT_INTERNAL_REF_HELLO_WORLD")
        .unwrap();
    assert_eq!(e.estimated_cost, 140);
    recommended_rebuilds_index(&s);
}

#[test]
fn generic_repeat_is_recommended() {
    let s = state_from_text(&"XYZ".repeat(100));
    let r = s.analyze();
    assert_eq!(
        r.recommended_instruction_for_save,
        Instruction::RepeatTextPatternToCi {
            pattern_text: "XYZ".to_string(),
            count: 100,
            text_modality_alphabet_id: SIMPLE_TEXT_ALPHABET_ID.to_string(),
        }
    );
    assert_eq!(r.analysis_by_lens[0].estimated_cost, 478);
    assert_eq!(r.analysis_by_lens[1].estimated_cost, 409);
    recommended_rebuilds_index(&s);
}

#[test]
fn text_literal_wins_over_a_long_decimal() {
    let text = "QWERTYUIOPASDFGHJKLZXCVBNM".repeat(10) + "Q";
    let s = state_from_text(&text);
    let r = s.analyze();
    assert_eq!(
        r.recommended_instruction_for_save,
        Instruction::LiteralTextToCi {
            text_value: text.clone(),
            text_modality_alphabet_id: SIMPLE_TEXT_ALPHABET_ID.to_string(),
        }
    );
    recommended_rebuilds_index(&s);
}

#[test]
fn additions_only_above_one_and_never_negative() {
    for v in ["0", "1"] {
        let r = state_at(v).analyze();
        assert!(r
            .analysis_by_lens
            .iter()
            .all(|e| !matches!(e.instruction, Instruction::EvaluateAddition { .. })));
    }
    let r = state_at("10").analyze();
    let sums: Vec<(String, String)> = r
        .analysis_by_lens
        .iter()
        .filter_map(|e| match &e.instruction {
            Instruction::EvaluateAddition { operand1_value, operand2_value } => {
                Some((operand1_value.clone(), operand2_value.clone()))
            }
            _ => None,
        })
        .collect();
    let expected: Vec<(String, String)> =
        (1..=5).map(|a: u32| (a.to_string(), (10 - a).to_string())).collect();
    assert_eq!(sums, expected);
    let r = state_at("3").analyze();
    let n = r
        .analysis_by_lens
        .iter()
        .filter(|e| matches!(e.instruction, Instruction::EvaluateAddition { .. }))
        .count();
    assert_eq!(n, 1);
    for e in &r.analysis_by_lens {
        if let Instruction::EvaluateAddition { operand1_value, operand2_value } = &e.instruction {
            assert!(!operand1_value.starts_with('-'));
            assert!(!operand2_value.starts_with('-'));
        }
    }
}

#[test]
fn recommendation_executes_to_the_index() {
    for v in ["0", "1", "2", "27", "200", "728", "1000000", "18446744073709551616"] {
        recommended_rebuilds_index(&state_at(v));
    }
    recommended_rebuilds_index(&state_from_text(&"Z".repeat(250)));
}

#[test]
fn analysis_without_text_alphabet_keeps_other_lenses() {
    let reg = AlphabetRegistry::new();
    let r = analyze(&BigNat::from_u64(4), &reg);
    assert_eq!(lens_ids(&r), vec!["LITERAL_BIGINT", "EVALUATE_ADDITION_A_B", "EVALUATE_ADDITION_A_B"]);
    assert_eq!(r.recommended_instruction_for_save, literal("4"));
}

#[test]
fn validation_suite_restores_the_index() {
    let mut s = state_at("12345");
    let outcomes = s.run_internal_validation_suite();
    assert_eq!(s.get_canonical_index(), "12345");
    assert_eq!(outcomes.len(), 4);
    assert_eq!(outcomes[2].name, "Small Number 200");
    assert!(outcomes[2].passed);
    assert!(outcomes[3].passed);
    assert!(!outcomes[0].passed);
    assert!(!outcomes[1].passed);
    let report = outcomes[1].report.as_ref().unwrap();
    assert_eq!(report.recommended_instruction_for_save, literal("15432959"));
    assert_eq!(outcomes[1].setup.as_ref().unwrap().to_decimal(), "15432959");
    assert!(outcomes.iter().all(|o| o.report.is_some()));
}

#[test]
fn analysis_is_repeatable_and_read_only() {
    for v in ["0", "7", "200", "15432959", "98765432109876543210"] {
        let s = state_at(v);
        let a = s.analyze();
        let b = s.analyze();
        assert_eq!(s.get_canonical_index(), v);
        assert_eq!(a.ci_analyzed, b.ci_analyzed);
        assert_eq!(lens_ids(&a), lens_ids(&b));
        assert_eq!(a.recommended_instruction_for_save, b.recommended_instruction_for_save);
        for (x, y) in a.analysis_by_lens.iter().zip(b.analysis_by_lens.iter()) {
            assert_eq!(x.instruction, y.instruction);
            assert_eq!(x.estimated_cost, y.estimated_cost);
        }
        assert_eq!(a.analysis_by_lens[1].instruction, Instruction::LiteralTextToCi {
            text_value: s.index_to_text_simple().unwrap(),
            text_modality_alphabet_id: SIMPLE_TEXT_ALPHABET_ID.to_string(),
        });
        assert!(lens_ids(&a).iter().all(|i| i != "EVALUATE_ADDITION_A_B_BEST"));
    }
}
