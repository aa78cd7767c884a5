//! Repetition in text: the shortest period of a string, and whether a string
//! is a given pattern repeated.
use vstd::prelude::*;
use crate::alphabet::{chars_of, string_from_chars};

verus! {

/// `count` copies of `pattern`, one after another.
pub open spec fn repeat_seq(pattern: Seq<char>, count: nat) -> Seq<char>
    decreases count,
{
    if count == 0 {
        seq![]
    } else {
        repeat_seq(pattern, (count - 1) as nat) + pattern
    }
}

/// `text` is `pattern` repeated a whole number of times.
pub open spec fn is_repetition_of(text: Seq<char>, pattern: Seq<char>) -> bool {
    &&& pattern.len() > 0
    &&& text.len() % pattern.len() == 0
    &&& text == repeat_seq(pattern, text.len() / pattern.len())
}

/// `text` is its first `p` characters repeated.
pub open spec fn has_period(text: Seq<char>, p: nat) -> bool {
    p <= text.len() && is_repetition_of(text, text.take(p as int))
}

/// Position `i` of a repetition is position `i % m` of the pattern.
pub proof fn lemma_repeat_index(pattern: Seq<char>, count: nat, i: int)
    requires
        pattern.len() > 0,
        0 <= i < count * pattern.len(),
    ensures
        repeat_seq(pattern, count).len() == count * pattern.len(),
        repeat_seq(pattern, count)[i] == pattern[i % pattern.len() as int],
    decreases count,
{
    let m = pattern.len() as int;
    lemma_repeat_len(pattern, count);
    let c1 = (count - 1) as nat;
    assert(count * m == c1 * m + m) by (nonlinear_arith)
        requires count >= 1, c1 == count - 1;
    if i < c1 * m {
        lemma_repeat_index(pattern, c1, i);
    } else {
        let j = i - c1 * m;
        lemma_repeat_len(pattern, c1);
        vstd::arithmetic::div_mod::lemma_fundamental_div_mod_converse_mod(i, m, c1 as int, j);
    }
}

pub proof fn lemma_repeat_len(pattern: Seq<char>, count: nat)
    ensures
        repeat_seq(pattern, count).len() == count * pattern.len(),
    decreases count,
{
    if count > 0 {
        lemma_repeat_len(pattern, (count - 1) as nat);
        assert(repeat_seq(pattern, count) == repeat_seq(pattern, (count - 1) as nat) + pattern);
        assert(count * pattern.len() == (count - 1) * pattern.len() + pattern.len()) by (
        nonlinear_arith)
            requires count >= 1;
    } else {
        assert(0 * pattern.len() == 0);
    }
}

/// Whether `text` is `pattern` repeated, checked position by position.
fn repeats(text: &Vec<char>, pattern: &Vec<char>) -> (r: bool)
    requires
        pattern.len() > 0,
    ensures
        r == is_repetition_of(text@, pattern@),
{
    let m = pattern.len();
    if text.len() % m != 0 {
        return false;
    }
    let ghost k = (text.len() / m) as nat;
    proof {
        vstd::arithmetic::div_mod::lemma_fundamental_div_mod(text.len() as int, m as int);
        assert(k * m == text.len()) by (nonlinear_arith)
            requires k == text.len() / m, text.len() % m == 0, m > 0,
                text.len() == m * (text.len() / m) + text.len() % m;
        lemma_repeat_len(pattern@, k);
    }
    let mut i: usize = 0;
    while i < text.len()
        invariant
            i <= text.len(),
            m == pattern.len(),
            m > 0,
            k * m == text.len(),
            k == text.len() / m,
            forall|j: int| 0 <= j < i ==> text@[j] == #[trigger] repeat_seq(pattern@, k)[j],
        decreases text.len() - i,
    {
        proof {
            lemma_repeat_index(pattern@, k, i as int);
        }
        if text[i] != pattern[i % m] {
            proof {
                assert(text@[i as int] != repeat_seq(pattern@, k)[i as int]);
            }
            return false;
        }
        i += 1;
    }
    proof {
        assert(text@ =~= repeat_seq(pattern@, k));
    }
    true
}

fn prefix(text: &Vec<char>, p: usize) -> (r: Vec<char>)
    requires
        p <= text.len(),
    ensures
        r@ == text@.take(p as int),
{
    let mut out: Vec<char> = Vec::new();
    let mut i: usize = 0;
    while i < p
        invariant
            i <= p <= text.len(),
            out@ == text@.take(i as int),
        decreases p - i,
    {
        out.push(text[i]);
        proof {
            assert(out@ =~= text@.take(i + 1));
        }
        i += 1;
    }
    out
}

/// The shortest pattern that `text` repeats at least twice, with the number
/// of repetitions; `None` where there is none.
pub fn find_simple_repetition(text: &str) -> (r: Option<(String, usize)>)
    ensures
        r is Some <==> exists|p: nat| 1 <= p <= text@.len() / 2 && #[trigger] has_period(text@, p),
        r matches Some((pattern, count)) ==> {
            &&& 1 <= pattern@.len() <= text@.len() / 2
            &&& has_period(text@, pattern@.len())
            &&& forall|q: nat| 1 <= q < pattern@.len() ==> !#[trigger] has_period(text@, q)
            &&& pattern@ == text@.take(pattern@.len() as int)
            &&& count == text@.len() / pattern@.len()
            &&& count > 1
            &&& repeat_seq(pattern@, count as nat) == text@
        },
{
    let cs = chars_of(text);
    let n = cs.len();
    let mut p: usize = 1;
    while p <= n / 2
        invariant
            cs@ == text@,
            n == cs.len(),
            1 <= p,
            forall|q: nat| 1 <= q < p ==> !#[trigger] has_period(text@, q),
        decreases n + 1 - p,
    {
        let pat = prefix(&cs, p);
        if repeats(&cs, &pat) {
            let count = n / p;
            proof {
                assert(n / p >= 2) by (nonlinear_arith)
                    requires 1 <= p, p <= n / 2;
                assert(has_period(text@, p as nat));
            }
            return Some((string_from_chars(&pat), count));
        }
        p += 1;
    }
    None
}

/// How many times `text` repeats `pattern`, where it does so more than once.
pub fn repetitions_of(text: &str, pattern: &str) -> (r: Option<usize>)
    ensures
        r is Some <==> is_repetition_of(text@, pattern@) && text@.len() / pattern@.len() > 1,
        r matches Some(k) ==> k == text@.len() / pattern@.len() && repeat_seq(pattern@, k as nat)
            == text@,
{
    let cs = chars_of(text);
    let ps = chars_of(pattern);
    if ps.len() == 0 {
        return None;
    }
    if repeats(&cs, &ps) {
        let k = cs.len() / ps.len();
        if k > 1 {
            return Some(k);
        }
    }
    None
}

} // verus!
