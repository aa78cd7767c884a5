//! The lens analyzer: candidate instructions for an index from several
//! strategies, each with its cost, and the cheapest as the recommendation.
use vstd::prelude::*;
use crate::alphabet::{
    chars_equal, chars_of, string_from_chars, AlphabetRegistry, SIMPLE_TEXT_ALPHABET,
    SIMPLE_TEXT_ALPHABET_ID,
};
use crate::bignum::{
    decimal_text, is_digit, lemma_decimal_len_of_half, lemma_decimal_text_digits,
    lemma_decimal_text_reads_back, nonnegative_integer, BigNat,
};
use crate::instruction::{
    instruction_json, instruction_value, lemma_sum_dearer_than_literal, literal_json,
    plain_json_text, same_recipe, Instruction,
};
use crate::pattern::{find_simple_repetition, has_period, is_repetition_of, repetitions_of};
use crate::positional::digit_count;
use crate::text::{
    encode_text, lemma_text_round_trip, min_text_length, readable, text_of, text_value,
};

verus! {

/// Most additive candidates that the report lists.
pub const MAX_ADDITION_ANALYSES_TO_SHOW: usize = 5;

/// Most additive candidates that are tried.
pub const ADDITION_SEARCH_ITERATION_LIMIT: u64 = 1000;

/// One evaluated candidate.
pub struct AnalysisEntry {
    pub lens_id: String,
    pub instruction: Instruction,
    pub estimated_cost: usize,
}

/// The outcome of one analysis.
pub struct AnalysisReport {
    /// The analyzed index in decimal.
    pub ci_analyzed: String,
    /// The candidates, in the order they were evaluated.
    pub analysis_by_lens: Vec<AnalysisEntry>,
    /// The cheapest candidate; the earliest among equally cheap ones.
    pub recommended_instruction_for_save: Instruction,
}

/// Reference patterns that text is matched against.
pub fn reference_patterns() -> (r: Vec<&'static str>)
    ensures
        r@.len() == 3,
        forall|i: int| 0 <= i < 3 ==> (#[trigger] r@[i])@ == reference_pattern_texts()[i],
{
    vec![SIMPLE_TEXT_ALPHABET, "AEIOU", "HELLO WORLD"]
}

/// `s` with each space written as an underscore.
pub fn underscored(s: &str) -> (r: String)
    ensures
        r@ == spaces_underscored(s@),
{
    let cs = chars_of(s);
    let mut out: Vec<char> = Vec::new();
    let mut i: usize = 0;
    while i < cs.len()
        invariant
            i <= cs.len(),
            cs@ == s@,
            out@ == s@.map_values(|c: char| if c == ' ' { '_' } else { c }).take(i as int),
        decreases cs.len() - i,
    {
        out.push(if cs[i] == ' ' { '_' } else { cs[i] });
        proof {
            assert(out@ =~= s@.map_values(|c: char| if c == ' ' { '_' } else { c }).take(i + 1));
        }
        i += 1;
    }
    proof {
        assert(out@ =~= s@.map_values(|c: char| if c == ' ' { '_' } else { c }));
    }
    string_from_chars(&out)
}

fn prefixed(prefix: &str, rest: &str) -> (r: String)
    ensures
        r@ == prefix@ + rest@,
{
    let mut s = String::from_str(prefix);
    s.append(rest);
    s
}

/// How many symbols the text lenses write `n` with: its digit count, and one
/// for zero.
pub open spec fn shown_text_length(n: nat, base: nat) -> nat {
    if n == 0 {
        1
    } else {
        digit_count(n, base)
    }
}

/// `e` is the text-literal candidate for `n`: its text at the shown length
/// in the default alphabet.
pub open spec fn minimal_text_entry(reg: Map<Seq<char>, Seq<char>>, n: nat, e: AnalysisEntry) -> bool {
    &&& e.lens_id@ == "LITERAL_TEXT_A_Z_SPACE"@
    &&& e.instruction matches Instruction::LiteralTextToCi { text_value: t, text_modality_alphabet_id: id }
        && id@ == SIMPLE_TEXT_ALPHABET_ID@ && t@ == text_of(
        reg[SIMPLE_TEXT_ALPHABET_ID@],
        n,
        shown_text_length(n, reg[SIMPLE_TEXT_ALPHABET_ID@].len()),
    )
}

/// How many sums the report lists for `n`: up to five of the
/// `min(n / 2, 1000)` tried, none for `n <= 1`.
pub open spec fn shown_additions(n: nat) -> nat {
    if n <= 1 {
        0
    } else {
        let tried = if n / 2 < 1000 {
            n / 2
        } else {
            1000
        };
        if tried < 5 {
            tried
        } else {
            5
        }
    }
}

/// `e` lists the sum `a + (n - a)`.
pub open spec fn addition_entry(e: AnalysisEntry, a: nat, n: nat) -> bool {
    &&& e.lens_id@ == "EVALUATE_ADDITION_A_B"@
    &&& e.instruction matches Instruction::EvaluateAddition { operand1_value: x, operand2_value: y }
        && x@ == decimal_text(a) && y@ == decimal_text((n - a) as nat)
}

proof fn lemma_extended(before: Seq<AnalysisEntry>, after: Seq<AnalysisEntry>)
    requires
        after.take(before.len() as int) == before,
        after.len() == before.len() + 1,
    ensures
        forall|k: int| 0 <= k < before.len() ==> #[trigger] after[k] == before[k],
        after[before.len() as int] == after.last(),
{
    assert forall|k: int| 0 <= k < before.len() implies #[trigger] after[k] == before[k] by {
        assert(after.take(before.len() as int)[k] == after[k]);
    }
}

/// What holds of the candidates gathered so far for index `n`: each rebuilds
/// `n` and carries its cost; `best` is the first of least cost.
pub open spec fn candidates_ok(
    reg: Map<Seq<char>, Seq<char>>,
    n: nat,
    entries: Seq<AnalysisEntry>,
    best: Instruction,
    best_cost: usize,
    best_at: int,
) -> bool {
    &&& 0 <= best_at < entries.len()
    &&& forall|k: int|
        0 <= k < entries.len() ==> instruction_value(reg, (#[trigger] entries[k]).instruction)
            == Some(n)
    &&& forall|k: int|
        0 <= k < entries.len() ==> (#[trigger] entries[k]).estimated_cost == instruction_json(
            entries[k].instruction,
        ).len()
    &&& forall|k: int|
        0 <= k < entries.len() && (#[trigger] entries[k]).instruction is EvaluateAddition ==> n > 1
    &&& same_recipe(best, entries[best_at].instruction)
    &&& instruction_value(reg, best) == Some(n)
    &&& best_cost == entries[best_at].estimated_cost
    &&& forall|k: int| 0 <= k < entries.len() ==> (#[trigger] entries[k]).estimated_cost >= best_cost
    &&& forall|k: int| 0 <= k < best_at ==> (#[trigger] entries[k]).estimated_cost > best_cost
}

/// Lists a candidate and makes it the recommendation where it is strictly
/// cheaper.
fn add_entry(
    entries: &mut Vec<AnalysisEntry>,
    best: &mut Instruction,
    best_cost: &mut usize,
    best_at: &mut Ghost<int>,
    reg: Ghost<Map<Seq<char>, Seq<char>>>,
    n: Ghost<nat>,
    lens_id: String,
    instruction: Instruction,
)
    requires
        candidates_ok(reg@, n@, old(entries)@, *old(best), *old(best_cost), old(best_at)@),
        instruction_value(reg@, instruction) == Some(n@),
        instruction is EvaluateAddition ==> n@ > 1,
    ensures
        candidates_ok(reg@, n@, final(entries)@, *final(best), *final(best_cost), final(best_at)@),
        final(entries)@.len() == old(entries)@.len() + 1,
        final(entries)@.take(old(entries)@.len() as int) == old(entries)@,
        final(entries)@.last().lens_id@ == lens_id@,
        same_recipe(final(entries)@.last().instruction, instruction),
        *final(best_cost) <= *old(best_cost),
{
    let cost = instruction.estimated_cost();
    if cost < *best_cost {
        *best = instruction.duplicate();
        *best_cost = cost;
        *best_at = Ghost(entries.len() as int);
    }
    let ghost before = entries@;
    let dup = instruction.duplicate();
    entries.push(AnalysisEntry { lens_id, instruction, estimated_cost: cost });
    proof {
        assert(entries@.take(before.len() as int) =~= before);
        assert forall|k: int| 0 <= k < entries@.len() implies instruction_value(
            reg@,
            (#[trigger] entries@[k]).instruction,
        ) == Some(n@) by {
            if k < before.len() {
                assert(entries@[k] == before[k]);
            }
        }
        assert(same_recipe(dup, instruction));
    }
}

/// The reference patterns, as text.
pub open spec fn reference_pattern_texts() -> Seq<Seq<char>> {
    seq![SIMPLE_TEXT_ALPHABET@, "AEIOU"@, "HELLO WORLD"@]
}

pub open spec fn spaces_underscored(s: Seq<char>) -> Seq<char> {
    s.map_values(|c: char| if c == ' ' { '_' } else { c })
}

/// `e` is the candidate `lens` that repeats `pattern` `count` times in the
/// default alphabet.
pub open spec fn repeat_entry(e: AnalysisEntry, lens: Seq<char>, pattern: Seq<char>, count: nat) -> bool {
    &&& e.lens_id@ == lens
    &&& e.instruction matches Instruction::RepeatTextPatternToCi {
        pattern_text: p,
        count: c,
        text_modality_alphabet_id: id,
    } && p@ == pattern && c as nat == count && id@ == SIMPLE_TEXT_ALPHABET_ID@
}

/// Text `t` repeats reference pattern `p` more than once, a count that an
/// instruction can carry.
pub open spec fn reference_repeat_due(t: Seq<char>, p: Seq<char>) -> bool {
    &&& is_repetition_of(t, p)
    &&& t.len() / p.len() > 1
    &&& t.len() / p.len() <= u32::MAX
}

/// `q` is the shortest period of text `t`, the pattern is no reference
/// pattern, and the count fits an instruction.
pub open spec fn generic_repeat_due(t: Seq<char>, q: nat) -> bool {
    &&& 1 <= q <= t.len() / 2
    &&& has_period(t, q)
    &&& forall|r: nat| 1 <= r < q ==> !#[trigger] has_period(t, r)
    &&& !reference_pattern_texts().contains(t.take(q as int))
    &&& t.len() / q <= u32::MAX
}

/// The text that the text lenses work on: the index at its shown length in
/// the default alphabet.
pub open spec fn shown_text(reg: Map<Seq<char>, Seq<char>>, n: nat) -> Seq<char> {
    text_of(
        reg[SIMPLE_TEXT_ALPHABET_ID@],
        n,
        shown_text_length(n, reg[SIMPLE_TEXT_ALPHABET_ID@].len()),
    )
}

proof fn lemma_take_kept(before: Seq<AnalysisEntry>, after: Seq<AnalysisEntry>, m: int)
    requires
        after.len() >= before.len(),
        after.take(before.len() as int) == before,
        0 <= m <= before.len(),
    ensures
        after.take(m) == before.take(m),
{
    assert forall|x: int| 0 <= x < m implies after.take(m)[x] == before.take(m)[x] by {
        assert(after.take(before.len() as int)[x] == after[x]);
    }
    assert(after.take(m) =~= before.take(m));
}

/// The reference patterns among the first `i` that text `t` calls for, in
/// catalog order.
pub open spec fn due_refs_upto(t: Seq<char>, i: nat) -> Seq<Seq<char>>
    decreases i,
{
    if i == 0 {
        seq![]
    } else {
        let p = reference_pattern_texts()[i - 1];
        due_refs_upto(t, (i - 1) as nat) + if reference_repeat_due(t, p) {
            seq![p]
        } else {
            seq![]
        }
    }
}

/// The reference patterns that text `t` calls for, in catalog order.
pub open spec fn due_references(t: Seq<char>) -> Seq<Seq<char>> {
    due_refs_upto(t, 3)
}

/// Text `t` calls for a candidate of its shortest period.
pub open spec fn generic_due(t: Seq<char>) -> bool {
    exists|q: nat| generic_repeat_due(t, q)
}

/// How many repetition candidates text `t` calls for.
pub open spec fn repeat_count(t: Seq<char>) -> nat {
    due_references(t).len() + if generic_due(t) {
        1nat
    } else {
        0nat
    }
}

pub open spec fn reference_lens(p: Seq<char>) -> Seq<char> {
    "REPEAT_INTERNAL_REF_"@ + spaces_underscored(p)
}

pub open spec fn generic_lens(p: Seq<char>) -> Seq<char> {
    "REPEAT_GENERIC_PN_"@ + spaces_underscored(p)
}

/// From position `from` on, `entries` lists exactly the repetition
/// candidates for text `t`: the due reference patterns in catalog order, then
/// the shortest period where it is due.
pub open spec fn repeats_exact(entries: Seq<AnalysisEntry>, from: int, t: Seq<char>) -> bool {
    let refs = due_references(t);
    &&& 0 <= from
    &&& from + repeat_count(t) <= entries.len()
    &&& forall|k: int|
        from <= k < from + refs.len() ==> repeat_entry(
            #[trigger] entries[k],
            reference_lens(refs[k - from]),
            refs[k - from],
            t.len() / refs[k - from].len(),
        )
    &&& forall|q: nat|
        #[trigger] generic_repeat_due(t, q) ==> repeat_entry(
            entries[from + refs.len()],
            generic_lens(t.take(q as int)),
            t.take(q as int),
            t.len() / q,
        )
}

proof fn lemma_due_refs(t: Seq<char>, i: nat)
    requires
        i <= 3,
    ensures
        forall|j: int|
            0 <= j < due_refs_upto(t, i).len() ==> reference_pattern_texts().contains(
                #[trigger] due_refs_upto(t, i)[j],
            ) && reference_repeat_due(t, due_refs_upto(t, i)[j]),
        forall|m: int|
            0 <= m < i && reference_repeat_due(t, #[trigger] reference_pattern_texts()[m])
                ==> due_refs_upto(t, i).contains(reference_pattern_texts()[m]),
    decreases i,
{
    if i > 0 {
        let prev = due_refs_upto(t, (i - 1) as nat);
        let cur = due_refs_upto(t, i);
        let p = reference_pattern_texts()[i - 1];
        lemma_due_refs(t, (i - 1) as nat);
        assert forall|j: int| 0 <= j < cur.len() implies reference_pattern_texts().contains(
            #[trigger] cur[j],
        ) && reference_repeat_due(t, cur[j]) by {
            if j < prev.len() {
                assert(cur[j] == prev[j]);
            } else {
                assert(cur[j] == p);
                assert(reference_pattern_texts()[i - 1] == p);
            }
        }
        assert forall|m: int|
            0 <= m < i && reference_repeat_due(t, #[trigger] reference_pattern_texts()[m])
            implies cur.contains(reference_pattern_texts()[m]) by {
            if m < i - 1 {
                let w = choose|w: int| 0 <= w < prev.len() && prev[w] == reference_pattern_texts()[m];
                assert(cur[w] == prev[w]);
            } else {
                assert(cur[prev.len() as int] == p);
            }
        }
    }
}

/// The repetition lenses on the shown text: each reference pattern that the
/// text repeats, then the text's shortest period unless a reference pattern
/// already gave it.
fn repeat_lenses(
    entries: &mut Vec<AnalysisEntry>,
    best: &mut Instruction,
    best_cost: &mut usize,
    best_at: &mut Ghost<int>,
    reg: Ghost<Map<Seq<char>, Seq<char>>>,
    n: Ghost<nat>,
    text: &String,
)
    requires
        candidates_ok(reg@, n@, old(entries)@, *old(best), *old(best_cost), old(best_at)@),
        reg@.contains_key(SIMPLE_TEXT_ALPHABET_ID@),
        readable(reg@[SIMPLE_TEXT_ALPHABET_ID@], text@),
        text_value(reg@[SIMPLE_TEXT_ALPHABET_ID@], text@) == n@,
        forall|k: int|
            0 <= k < old(entries)@.len() ==> !((#[trigger] old(entries)@[k]).instruction is EvaluateAddition),
    ensures
        candidates_ok(reg@, n@, final(entries)@, *final(best), *final(best_cost), final(best_at)@),
        final(entries)@.len() == old(entries)@.len() + repeat_count(text@),
        final(entries)@.take(old(entries)@.len() as int) == old(entries)@,
        forall|k: int|
            0 <= k < final(entries)@.len() ==> !((#[trigger] final(entries)@[k]).instruction is EvaluateAddition),
        repeats_exact(final(entries)@, old(entries)@.len() as int, text@),
{
    let ghost start = entries@;
    let ghost sl = start.len() as int;
    let ghost t = text@;
    let patterns = reference_patterns();
    let mut emitted: Vec<(Vec<char>, usize)> = Vec::new();
    let mut i: usize = 0;
    proof {
        assert(entries@.take(sl) =~= start);
    }
    while i < patterns.len()
        invariant
            candidates_ok(reg@, n@, entries@, *best, *best_cost, best_at@),
            sl == start.len(),
            t == text@,
            entries@.len() == sl + due_refs_upto(t, i as nat).len(),
            entries@.take(sl) == start,
            forall|k: int|
                0 <= k < entries@.len() ==> !((#[trigger] entries@[k]).instruction is EvaluateAddition),
            reg@.contains_key(SIMPLE_TEXT_ALPHABET_ID@),
            readable(reg@[SIMPLE_TEXT_ALPHABET_ID@], text@),
            text_value(reg@[SIMPLE_TEXT_ALPHABET_ID@], text@) == n@,
            patterns@.len() == 3,
            forall|j: int| 0 <= j < 3 ==> (#[trigger] patterns@[j])@ == reference_pattern_texts()[j],
            i <= 3,
            emitted@.len() == due_refs_upto(t, i as nat).len(),
            forall|j: int|
                0 <= j < emitted@.len() ==> (#[trigger] emitted@[j]).0@ == due_refs_upto(t, i as nat)[j]
                    && emitted@[j].1 == t.len() / due_refs_upto(t, i as nat)[j].len(),
            forall|k: int|
                sl <= k < entries@.len() ==> repeat_entry(
                    #[trigger] entries@[k],
                    reference_lens(due_refs_upto(t, i as nat)[k - sl]),
                    due_refs_upto(t, i as nat)[k - sl],
                    t.len() / due_refs_upto(t, i as nat)[k - sl].len(),
                ),
        decreases patterns.len() - i,
    {
        let p = patterns[i];
        let ghost pv = reference_pattern_texts()[i as int];
        let ghost prev = due_refs_upto(t, i as nat);
        proof {
            assert(due_refs_upto(t, (i + 1) as nat) == prev + if reference_repeat_due(t, pv) {
                seq![pv]
            } else {
                seq![]
            });
        }
        let found = repetitions_of(text.as_str(), p);
        let due = match found {
            Some(k) => k <= 0xFFFF_FFFF,
            None => false,
        };
        proof {
            assert(due == reference_repeat_due(t, pv));
        }
        if due {
            let k = match found {
                Some(k) => k,
                None => 0,
            };
            let lens = prefixed("REPEAT_INTERNAL_REF_", underscored(p).as_str());
            let ghost before = entries@;
            add_entry(
                entries,
                best,
                best_cost,
                best_at,
                reg,
                n,
                lens,
                Instruction::RepeatTextPatternToCi {
                    pattern_text: String::from_str(p),
                    count: k as u32,
                    text_modality_alphabet_id: String::from_str(SIMPLE_TEXT_ALPHABET_ID),
                },
            );
            let ghost emitted_before = emitted@;
            emitted.push((chars_of(p), k));
            proof {
                let cur = due_refs_upto(t, (i + 1) as nat);
                assert(cur =~= prev.push(pv));
                lemma_extended(before, entries@);
                lemma_take_kept(before, entries@, sl);
                let last = before.len() as int;
                assert(repeat_entry(entries@[last], reference_lens(pv), pv, t.len() / pv.len()));
                assert forall|kk: int| sl <= kk < entries@.len() implies repeat_entry(
                    #[trigger] entries@[kk],
                    reference_lens(cur[kk - sl]),
                    cur[kk - sl],
                    t.len() / cur[kk - sl].len(),
                ) by {
                    if kk < last {
                        assert(entries@[kk] == before[kk]);
                        assert(cur[kk - sl] == prev[kk - sl]);
                    } else {
                        assert(cur[kk - sl] == pv);
                    }
                }
                assert forall|j: int| 0 <= j < emitted@.len() implies (#[trigger] emitted@[j]).0@
                    == cur[j] && emitted@[j].1 == t.len() / cur[j].len() by {
                    if j < emitted_before.len() {
                        assert(emitted@[j] == emitted_before[j]);
                        assert(cur[j] == prev[j]);
                    } else {
                        assert(cur[j] == pv);
                    }
                }
                assert forall|x: int| 0 <= x < entries@.len() implies !((
                #[trigger] entries@[x]).instruction is EvaluateAddition) by {
                    if x < before.len() {
                        assert(entries@[x] == before[x]);
                    }
                }
            }
        } else {
            proof {
                assert(due_refs_upto(t, (i + 1) as nat) =~= prev);
            }
        }
        i += 1;
    }
    let ghost refs = due_references(t);
    proof {
        lemma_due_refs(t, 3);
        assert(refs == due_refs_upto(t, i as nat));
    }
    match find_simple_repetition(text.as_str()) {
        Some((pattern, count)) => {
            let ghost q = pattern@.len();
            let pc = chars_of(pattern.as_str());
            let mut covered = false;
            let mut j: usize = 0;
            while j < emitted.len()
                invariant
                    j <= emitted.len(),
                    pc@ == pattern@,
                    emitted@.len() == refs.len(),
                    forall|x: int|
                        0 <= x < emitted@.len() ==> (#[trigger] emitted@[x]).0@ == refs[x]
                            && emitted@[x].1 == t.len() / refs[x].len(),
                    covered <==> exists|x: int|
                        0 <= x < j && #[trigger] refs[x] == pattern@ && t.len() / refs[x].len() == count,
                decreases emitted.len() - j,
            {
                let hit = chars_equal(&emitted[j].0, &pc) && emitted[j].1 == count;
                if hit {
                    covered = true;
                }
                proof {
                    assert(hit == (refs[j as int] == pattern@ && t.len() / refs[j as int].len() == count));
                }
                j += 1;
            }
            proof {
                // The period is due exactly when no reference pattern gave it.
                assert forall|q2: nat| #[trigger] generic_repeat_due(t, q2) implies q2 == q by {
                    if q2 < q {
                        assert(!has_period(t, q2));
                    } else if q < q2 {
                        assert(!has_period(t, q));
                    }
                }
                if covered {
                    let x = choose|x: int|
                        0 <= x < refs.len() && #[trigger] refs[x] == pattern@ && t.len() / refs[x].len() == count;
                    assert(reference_pattern_texts().contains(refs[x]));
                    assert(!generic_repeat_due(t, q));
                } else if count <= 0xFFFF_FFFF && reference_pattern_texts().contains(pattern@) {
                    let m = choose|m: int| 0 <= m < 3 && reference_pattern_texts()[m] == pattern@;
                    assert(is_repetition_of(t, t.take(q as int)));
                    assert(reference_repeat_due(t, reference_pattern_texts()[m]));
                    assert(refs.contains(reference_pattern_texts()[m]));
                    let x = choose|x: int| 0 <= x < refs.len() && refs[x] == reference_pattern_texts()[m];
                    assert(refs[x] == pattern@ && t.len() / refs[x].len() == count);
                    assert(false);
                }
                assert(generic_due(t) == (!covered && count <= 0xFFFF_FFFF)) by {
                    if !covered && count <= 0xFFFF_FFFF {
                        assert(generic_repeat_due(t, q));
                    }
                }
            }
            if !covered && count <= 0xFFFF_FFFF {
                let lens = prefixed("REPEAT_GENERIC_PN_", underscored(pattern.as_str()).as_str());
                let ghost before = entries@;
                let ghost pv = pattern@;
                add_entry(
                    entries,
                    best,
                    best_cost,
                    best_at,
                    reg,
                    n,
                    lens,
                    Instruction::RepeatTextPatternToCi {
                        pattern_text: pattern,
                        count: count as u32,
                        text_modality_alphabet_id: String::from_str(SIMPLE_TEXT_ALPHABET_ID),
                    },
                );
                proof {
                    lemma_extended(before, entries@);
                    lemma_take_kept(before, entries@, sl);
                    let last = before.len() as int;
                    assert(last == sl + refs.len());
                    assert(repeat_entry(entries@[last], generic_lens(pv), pv, t.len() / q));
                    assert forall|kk: int| sl <= kk < sl + refs.len() implies repeat_entry(
                        #[trigger] entries@[kk],
                        reference_lens(refs[kk - sl]),
                        refs[kk - sl],
                        t.len() / refs[kk - sl].len(),
                    ) by {
                        assert(entries@[kk] == before[kk]);
                    }
                    assert forall|x: int| 0 <= x < entries@.len() implies !((
                    #[trigger] entries@[x]).instruction is EvaluateAddition) by {
                        if x < before.len() {
                            assert(entries@[x] == before[x]);
                        }
                    }
                }
            }
        },
        None => {
            proof {
                assert forall|q2: nat| #[trigger] generic_repeat_due(t, q2) implies false by {
                    assert(has_period(t, q2));
                }
            }
        },
    }
}

/// How many candidates come before the sums: the literal, and where the
/// default text alphabet is registered, the shown text and its repetitions.
pub open spec fn lenses_before_sums(reg: Map<Seq<char>, Seq<char>>, n: nat) -> nat {
    if reg.contains_key(SIMPLE_TEXT_ALPHABET_ID@) {
        2 + repeat_count(shown_text(reg, n))
    } else {
        1
    }
}

/// What an analysis of index `n` under the alphabets `reg` reports, entry by
/// entry: the decimal literal; where the default text alphabet is
/// registered, the shown text, then exactly the repetitions it calls for;
/// then the sums `a + (n - a)` for `a` from 1 to `shown_additions(n)`; each
/// at its exact cost. The recommendation is the first candidate of least
/// cost, and it rebuilds `n`.
pub open spec fn analysis_of(reg: Map<Seq<char>, Seq<char>>, n: nat, r: AnalysisReport) -> bool {
    let entries = r.analysis_by_lens@;
    let s = lenses_before_sums(reg, n) as int;
    &&& r.ci_analyzed@ == decimal_text(n)
    &&& entries.len() == s + shown_additions(n)
    &&& entries[0].lens_id@ == "LITERAL_BIGINT"@
    &&& (entries[0].instruction matches Instruction::LiteralBigInt { value } && value@
        == decimal_text(n))
    &&& (reg.contains_key(SIMPLE_TEXT_ALPHABET_ID@) ==> minimal_text_entry(reg, n, entries[1])
        && repeats_exact(entries, 2, shown_text(reg, n)))
    &&& forall|k: int|
        s <= k < entries.len() ==> addition_entry(#[trigger] entries[k], (k - s + 1) as nat, n)
    &&& instruction_value(reg, r.recommended_instruction_for_save) == Some(n)
    &&& exists|k: int|
        {
            &&& 0 <= k < entries.len()
            &&& same_recipe(r.recommended_instruction_for_save, #[trigger] entries[k].instruction)
            &&& forall|j: int|
                0 <= j < entries.len() ==> (#[trigger] entries[j]).estimated_cost
                    >= entries[k].estimated_cost
            &&& forall|j: int|
                0 <= j < k ==> (#[trigger] entries[j]).estimated_cost > entries[k].estimated_cost
        }
    &&& forall|k: int|
        0 <= k < entries.len() ==> instruction_value(reg, (#[trigger] entries[k]).instruction)
            == Some(n) && entries[k].estimated_cost == instruction_json(entries[k].instruction).len()
    &&& forall|k: int|
        0 <= k < entries.len() ==> match (#[trigger] entries[k]).instruction {
            Instruction::EvaluateAddition { operand1_value, operand2_value } => {
                &&& n > 1
                &&& nonnegative_integer(operand1_value@)
                &&& nonnegative_integer(operand2_value@)
            },
            _ => true,
        }
}

proof fn lemma_repeats_exact_kept(before: Seq<AnalysisEntry>, after: Seq<AnalysisEntry>, from: int, t: Seq<char>)
    requires
        after.len() >= before.len(),
        after.take(before.len() as int) == before,
        repeats_exact(before, from, t),
    ensures
        repeats_exact(after, from, t),
{
    assert forall|k: int| 0 <= k < before.len() implies #[trigger] after[k] == before[k] by {
        assert(after.take(before.len() as int)[k] == after[k]);
    }
}

/// Decimal text is plain JSON text.
proof fn lemma_decimal_plain(n: nat)
    ensures
        plain_json_text(decimal_text(n)),
        decimal_text(n).len() >= 1,
{
    lemma_decimal_text_digits(n);
    let t = decimal_text(n);
    assert forall|i: int| 0 <= i < t.len() implies #[trigger] t[i] != '"' && t[i] != '\\' && t[i]
        as int >= 0x20 by {
        assert(is_digit(t[i]));
    }
}

/// Candidates for `index` from every lens, in order: the decimal literal;
/// then, where `registry` holds the default text alphabet, the minimal text,
/// its repetitions of reference patterns and its shortest period; then sums
/// `a + (index - a)` for `a` from 1 to `min(index / 2, 1000)`, of which the
/// first five are listed. A later sum would be listed where it became the
/// cheapest; none does, since every sum costs more than the literal.
pub fn analyze(index: &BigNat, registry: &AlphabetRegistry) -> (r: AnalysisReport)
    ensures
        analysis_of(registry@, index@, r),
{
    let ghost reg = registry@;
    let ghost n = index@;
    let decimal = index.to_decimal();
    proof {
        lemma_decimal_text_reads_back(n);
    }
    let literal = Instruction::LiteralBigInt { value: decimal.clone() };
    let mut best = literal.duplicate();
    let mut best_cost: usize = literal.estimated_cost();
    let mut best_at: Ghost<int> = Ghost(0);
    let mut entries: Vec<AnalysisEntry> = Vec::new();
    entries.push(
        AnalysisEntry {
            lens_id: String::from_str("LITERAL_BIGINT"),
            instruction: literal,
            estimated_cost: best_cost,
        },
    );
    proof {
        assert(candidates_ok(reg, n, entries@, best, best_cost, best_at@));
    }
    let ghost first = entries@[0];
    match registry.lookup(SIMPLE_TEXT_ALPHABET_ID) {
        Some(alphabet) => {
            let len = if index.is_zero() {
                1
            } else {
                min_text_length(alphabet, index)
            };
            proof {
                lemma_text_round_trip(alphabet@, n, len as nat);
            }
            match encode_text(alphabet, index, len) {
                Ok(text) => {
                    add_entry(
                        &mut entries,
                        &mut best,
                        &mut best_cost,
                        &mut best_at,
                        Ghost(reg),
                        Ghost(n),
                        String::from_str("LITERAL_TEXT_A_Z_SPACE"),
                        Instruction::LiteralTextToCi {
                            text_value: text.clone(),
                            text_modality_alphabet_id: String::from_str(SIMPLE_TEXT_ALPHABET_ID),
                        },
                    );
                    proof {
                        assert(entries@[0] == first);
                    }
                    let ghost second = entries@[1];
                    let ghost before = entries@;
                    repeat_lenses(
                        &mut entries,
                        &mut best,
                        &mut best_cost,
                        &mut best_at,
                        Ghost(reg),
                        Ghost(n),
                        &text,
                    );
                    proof {
                        assert(entries@.take(before.len() as int)[0] == entries@[0]);
                        assert(entries@.take(before.len() as int)[1] == entries@[1]);
                        assert(text@ == shown_text(reg, n));
                    }
                    proof {
                        assert(minimal_text_entry(reg, n, entries@[1]));
                    }
                },
                Err(_) => {},
            }
        },
        None => {},
    }
    let ghost start = entries@.len() as int;
    let ghost snapshot = entries@;
    proof {
        assert(start == lenses_before_sums(reg, n));
        assert(first.estimated_cost == literal_json(decimal_text(n)).len());
        assert(forall|k: int|
            0 <= k < entries@.len() ==> !((#[trigger] entries@[k]).instruction is EvaluateAddition));
    }
    let more_than_one = match index.to_u64() {
        Some(v) => v > 1,
        None => true,
    };
    let mut shown: usize = 0;
    if more_than_one {
        let two = BigNat::from_u64(2);
        let half = index.div(&two);
        let limit: u64 = match half.to_u64() {
            Some(h) => if h < ADDITION_SEARCH_ITERATION_LIMIT {
                h
            } else {
                ADDITION_SEARCH_ITERATION_LIMIT
            },
            None => ADDITION_SEARCH_ITERATION_LIMIT,
        };
        let mut a: u64 = 1;
        while a <= limit
            invariant
                candidates_ok(reg, n, entries@, best, best_cost, best_at@),
                entries@.len() >= 1,
                entries@[0] == first,
                first.estimated_cost == literal_json(decimal_text(n)).len(),
                n > 1,
                n == index@,
                reg == registry@,
                limit == (if n / 2 < 1000 { n / 2 } else { 1000 }),
                1 <= a <= limit + 1,
                shown == (if a - 1 < 5 { a - 1 } else { 5 }),
                0 <= start,
                snapshot.len() == start,
                entries@.take(start) == snapshot,
                entries@.len() == start + shown,
                forall|k: int|
                    start <= k < entries@.len() ==> addition_entry(#[trigger] entries@[k], (k - start + 1) as nat, n),
            decreases limit + 1 - a,
        {
            let left = BigNat::from_u64(a);
            let right = index.sub(&left);
            let left_text = left.to_decimal();
            let right_text = right.to_decimal();
            proof {
                lemma_decimal_text_reads_back(a as nat);
                lemma_decimal_text_reads_back((n - a) as nat);
                lemma_decimal_plain(a as nat);
                lemma_decimal_plain((n - a) as nat);
                lemma_decimal_plain(n);
                lemma_decimal_len_of_half((n - a) as nat, n);
                lemma_sum_dearer_than_literal(
                    decimal_text(a as nat),
                    decimal_text((n - a) as nat),
                    decimal_text(n),
                );
            }
            let candidate = Instruction::EvaluateAddition {
                operand1_value: left_text,
                operand2_value: right_text,
            };
            let ghost before = entries@;
            let ghost cand = candidate;
            if shown < MAX_ADDITION_ANALYSES_TO_SHOW {
                add_entry(
                    &mut entries,
                    &mut best,
                    &mut best_cost,
                    &mut best_at,
                    Ghost(reg),
                    Ghost(n),
                    String::from_str("EVALUATE_ADDITION_A_B"),
                    candidate,
                );
                shown += 1;
                proof {
                    let k0 = before.len() as int;
                    lemma_extended(before, entries@);
                    lemma_take_kept(before, entries@, start);
                    assert(same_recipe(entries@[k0].instruction, cand));
                    assert(addition_entry(entries@[k0], a as nat, n));
                    assert forall|k: int| start <= k < entries@.len() implies addition_entry(
                        #[trigger] entries@[k],
                        (k - start + 1) as nat,
                        n,
                    ) by {
                        if k < k0 {
                            assert(entries@[k] == before[k]);
                        }
                    }
                }
            } else if candidate.estimated_cost() < best_cost {
                // A sum always costs more than the literal listed first.
                proof {
                    assert(first.estimated_cost >= best_cost);
                    assert(false);
                }
                add_entry(
                    &mut entries,
                    &mut best,
                    &mut best_cost,
                    &mut best_at,
                    Ghost(reg),
                    Ghost(n),
                    String::from_str("EVALUATE_ADDITION_A_B_BEST"),
                    candidate,
                );
            }
            proof {
                if entries@.len() > before.len() {
                    lemma_extended(before, entries@);
                }
                assert(entries@[0] == before[0]);
            }
            a += 1;
        }
    }
    proof {
        assert(entries@.len() == start + shown_additions(n));
        if reg.contains_key(SIMPLE_TEXT_ALPHABET_ID@) {
            assert(entries@.take(start) =~= snapshot) by {
                if entries@.len() == start {
                    assert(entries@.take(start) =~= entries@);
                }
            }
            lemma_repeats_exact_kept(snapshot, entries@, 2, shown_text(reg, n));
            assert(entries@.take(start)[1] == entries@[1]);
        }
        let k = best_at@;
        assert(same_recipe(best, entries@[k].instruction));
        assert forall|k2: int| 0 <= k2 < entries@.len() implies match (
        #[trigger] entries@[k2]).instruction {
            Instruction::EvaluateAddition { operand1_value, operand2_value } => {
                &&& n > 1
                &&& nonnegative_integer(operand1_value@)
                &&& nonnegative_integer(operand2_value@)
            },
            _ => true,
        } by {
            assert(instruction_value(reg, entries@[k2].instruction) == Some(n));
        }
    }
    AnalysisReport {
        ci_analyzed: decimal,
        analysis_by_lens: entries,
        recommended_instruction_for_save: best,
    }
}

} // verus!

verus! {

proof fn lemma_same_recipe_same_json(a: Instruction, b: Instruction)
    requires
        same_recipe(a, b),
    ensures
        instruction_json(a) == instruction_json(b),
        same_recipe(b, a),
{
}

proof fn lemma_same_entry(
    reg: Map<Seq<char>, Seq<char>>,
    n: nat,
    r1: AnalysisReport,
    r2: AnalysisReport,
    k: int,
)
    requires
        analysis_of(reg, n, r1),
        analysis_of(reg, n, r2),
        0 <= k < r1.analysis_by_lens@.len(),
    ensures
        r1.analysis_by_lens@[k].lens_id@ == r2.analysis_by_lens@[k].lens_id@,
        same_recipe(r1.analysis_by_lens@[k].instruction, r2.analysis_by_lens@[k].instruction),
        r1.analysis_by_lens@[k].estimated_cost == r2.analysis_by_lens@[k].estimated_cost,
{
    let e1 = r1.analysis_by_lens@;
    let e2 = r2.analysis_by_lens@;
    let s = lenses_before_sums(reg, n) as int;
    let t = shown_text(reg, n);
    let refs = due_references(t);
    if k >= s {
        assert(addition_entry(e1[k], (k - s + 1) as nat, n));
        assert(addition_entry(e2[k], (k - s + 1) as nat, n));
    } else if k == 0 {
    } else if k == 1 {
        assert(reg.contains_key(SIMPLE_TEXT_ALPHABET_ID@));
    } else if k < 2 + refs.len() {
        assert(reg.contains_key(SIMPLE_TEXT_ALPHABET_ID@));
        assert(repeat_entry(e1[k], reference_lens(refs[k - 2]), refs[k - 2], t.len() / refs[k - 2].len()));
        assert(repeat_entry(e2[k], reference_lens(refs[k - 2]), refs[k - 2], t.len() / refs[k - 2].len()));
    } else {
        assert(reg.contains_key(SIMPLE_TEXT_ALPHABET_ID@));
        assert(generic_due(t));
        let q = choose|q: nat| generic_repeat_due(t, q);
        assert(repeat_entry(e1[k], generic_lens(t.take(q as int)), t.take(q as int), t.len() / q));
        assert(repeat_entry(e2[k], generic_lens(t.take(q as int)), t.take(q as int), t.len() / q));
    }
    lemma_same_recipe_same_json(e1[k].instruction, e2[k].instruction);
}

/// Analysis is determined by the index and the alphabets: two reports that
/// both meet `analysis_of` list the same candidates, under the same lenses
/// and at the same costs, and recommend the same instruction.
pub proof fn lemma_analysis_deterministic(
    reg: Map<Seq<char>, Seq<char>>,
    n: nat,
    r1: AnalysisReport,
    r2: AnalysisReport,
)
    requires
        analysis_of(reg, n, r1),
        analysis_of(reg, n, r2),
    ensures
        r1.ci_analyzed@ == r2.ci_analyzed@,
        r1.analysis_by_lens@.len() == r2.analysis_by_lens@.len(),
        forall|k: int|
            0 <= k < r1.analysis_by_lens@.len() ==> {
                &&& (#[trigger] r1.analysis_by_lens@[k]).lens_id@ == r2.analysis_by_lens@[k].lens_id@
                &&& same_recipe(r1.analysis_by_lens@[k].instruction, r2.analysis_by_lens@[k].instruction)
                &&& r1.analysis_by_lens@[k].estimated_cost == r2.analysis_by_lens@[k].estimated_cost
            },
        same_recipe(r1.recommended_instruction_for_save, r2.recommended_instruction_for_save),
{
    let e1 = r1.analysis_by_lens@;
    let e2 = r2.analysis_by_lens@;
    assert forall|k: int| 0 <= k < e1.len() implies {
        &&& (#[trigger] e1[k]).lens_id@ == e2[k].lens_id@
        &&& same_recipe(e1[k].instruction, e2[k].instruction)
        &&& e1[k].estimated_cost == e2[k].estimated_cost
    } by {
        lemma_same_entry(reg, n, r1, r2, k);
    }
    let k1 = choose|k: int|
        {
            &&& 0 <= k < e1.len()
            &&& same_recipe(r1.recommended_instruction_for_save, #[trigger] e1[k].instruction)
            &&& forall|j: int| 0 <= j < e1.len() ==> (#[trigger] e1[j]).estimated_cost >= e1[k].estimated_cost
            &&& forall|j: int| 0 <= j < k ==> (#[trigger] e1[j]).estimated_cost > e1[k].estimated_cost
        };
    let k2 = choose|k: int|
        {
            &&& 0 <= k < e2.len()
            &&& same_recipe(r2.recommended_instruction_for_save, #[trigger] e2[k].instruction)
            &&& forall|j: int| 0 <= j < e2.len() ==> (#[trigger] e2[j]).estimated_cost >= e2[k].estimated_cost
            &&& forall|j: int| 0 <= j < k ==> (#[trigger] e2[j]).estimated_cost > e2[k].estimated_cost
        };
    if k1 < k2 {
        assert(e2[k1].estimated_cost > e2[k2].estimated_cost);
        assert(e1[k2].estimated_cost >= e1[k1].estimated_cost);
    } else if k2 < k1 {
        assert(e1[k2].estimated_cost > e1[k1].estimated_cost);
        assert(e2[k1].estimated_cost >= e2[k2].estimated_cost);
    }
    assert(k1 == k2);
    assert(same_recipe(e1[k1].instruction, e2[k1].instruction));
}

} // verus!
