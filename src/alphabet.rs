//! Alphabets: ordered, deduplicated symbol tables whose positions are digit
//! values, and a registry of them by identifier.
use vstd::prelude::*;

verus! {

/// The canonical case: ASCII lower-case letters fold to upper case.
pub open spec fn fold_case(c: char) -> char {
    if 'a' <= c && c <= 'z' {
        ((c as int) - 32) as char
    } else {
        c
    }
}

pub fn to_canonical_case(c: char) -> (r: char)
    ensures
        r == fold_case(c),
{
    if 'a' <= c && c <= 'z' {
        ((c as u8) - 32) as char
    } else {
        c
    }
}

pub open spec fn strictly_ascending(s: Seq<char>) -> bool {
    forall|i: int, j: int| 0 <= i < j < s.len() ==> s[i] < s[j]
}

/// What an alphabet's symbols always are: ascending without repeats, at least
/// two of them, each in the canonical case.
pub open spec fn valid_symbols(s: Seq<char>) -> bool {
    &&& strictly_ascending(s)
    &&& s.len() >= 2
    &&& forall|i: int| 0 <= i < s.len() ==> fold_case(#[trigger] s[i]) == s[i]
}

/// The characters of `raw` in the canonical case.
pub open spec fn folded(raw: Seq<char>) -> Seq<char> {
    raw.map_values(|c: char| fold_case(c))
}

/// `raw` holds two characters that differ in the canonical case.
pub open spec fn has_two_symbols(raw: Seq<char>) -> bool {
    exists|i: int, j: int|
        0 <= i < raw.len() && 0 <= j < raw.len() && #[trigger] fold_case(raw[i]) != #[trigger] fold_case(
            raw[j],
        )
}

/// Characters of a string, in order.
pub fn chars_of(s: &str) -> (r: Vec<char>)
    ensures
        r@ == s@,
{
    let mut out: Vec<char> = Vec::new();
    for c in it: s.chars()
        invariant
            out@ == it.seq().take(it.index() as int),
    {
        out.push(c);
        proof {
            assert(it.seq().take(it.index() + 1) =~= out@);
        }
    }
    out
}


/// Relies on `String`'s `FromIterator<char>`: the characters, in order.
#[verifier::external_body]
pub(crate) fn string_from_chars(cs: &Vec<char>) -> (r: String)
    ensures
        r@ == cs@,
{
    cs.iter().collect()
}

pub open spec fn above(c: char, bound: Option<char>) -> bool {
    match bound {
        Some(b) => c > b,
        None => true,
    }
}

pub open spec fn last_of(s: Seq<char>) -> Option<char> {
    if s.len() == 0 {
        None
    } else {
        Some(s.last())
    }
}

/// The least character of `cs` above `bound`.
fn least_above(cs: &Vec<char>, bound: Option<char>) -> (r: Option<char>)
    ensures
        r matches Some(c) ==> cs@.contains(c) && above(c, bound) && forall|i: int|
            0 <= i < cs.len() && above(#[trigger] cs@[i], bound) ==> c <= cs@[i],
        r is None ==> forall|i: int| 0 <= i < cs.len() ==> !above(#[trigger] cs@[i], bound),
{
    let mut best: Option<char> = None;
    let mut i: usize = 0;
    while i < cs.len()
        invariant
            i <= cs.len(),
            best matches Some(c) ==> cs@.contains(c) && above(c, bound) && forall|k: int|
                0 <= k < i && above(#[trigger] cs@[k], bound) ==> c <= cs@[k],
            best is None ==> forall|k: int| 0 <= k < i ==> !above(#[trigger] cs@[k], bound),
        decreases cs.len() - i,
    {
        let c = cs[i];
        let is_above = match bound {
            Some(b) => c > b,
            None => true,
        };
        if is_above {
            match best {
                Some(b) => {
                    if c < b {
                        best = Some(c);
                    }
                },
                None => {
                    best = Some(c);
                },
            }
        }
        i += 1;
    }
    best
}

/// Symbols whose positions are their digit values.
pub struct Alphabet {
    symbols: Vec<char>,
}

impl View for Alphabet {
    type V = Seq<char>;

    closed spec fn view(&self) -> Seq<char> {
        self.symbols@
    }
}

impl Alphabet {
    #[verifier::type_invariant]
    spec fn valid(self) -> bool {
        valid_symbols(self.symbols@)
    }

    /// The symbols of `raw` in the canonical case, sorted, each once; `None`
    /// where fewer than two remain.
    pub fn from_symbols(raw: &str) -> (r: Option<Alphabet>)
        ensures
            r is Some <==> has_two_symbols(raw@),
            r matches Some(a) ==> {
                &&& valid_symbols(a@)
                &&& forall|c: char| a@.contains(c) <==> folded(raw@).contains(c)
            },
    {
        let cs = chars_of(raw);
        let mut f: Vec<char> = Vec::new();
        let mut i: usize = 0;
        while i < cs.len()
            invariant
                i <= cs.len(),
                cs@ == raw@,
                f@ == folded(raw@).take(i as int),
            decreases cs.len() - i,
        {
            f.push(to_canonical_case(cs[i]));
            proof {
                assert(f@ =~= folded(raw@).take(i + 1));
            }
            i += 1;
        }
        proof {
            assert(f@ =~= folded(raw@));
        }
        let mut out: Vec<char> = Vec::new();
        loop
            invariant
                f@ == folded(raw@),
                strictly_ascending(out@),
                forall|k: int| 0 <= k < out.len() ==> f@.contains(#[trigger] out@[k]),
                out.len() > 0 ==> forall|k: int|
                    0 <= k < f.len() && #[trigger] f@[k] <= out@.last() ==> out@.contains(f@[k]),
            ensures
                f@ == folded(raw@),
                strictly_ascending(out@),
                forall|k: int| 0 <= k < out.len() ==> f@.contains(#[trigger] out@[k]),
                forall|k: int| 0 <= k < f.len() ==> !above(#[trigger] f@[k], last_of(out@)),
                out.len() > 0 ==> forall|k: int|
                    0 <= k < f.len() && #[trigger] f@[k] <= out@.last() ==> out@.contains(f@[k]),
            decreases (if out.len() == 0 {
                0x110001int
            } else {
                0x10FFFF - out@.last() as int
            }),
        {
            let bound = if out.len() == 0 {
                None
            } else {
                Some(out[out.len() - 1])
            };
            match least_above(&f, bound) {
                Some(c) => {
                    let ghost old_out = out@;
                    out.push(c);
                    proof {
                        assert forall|k: int|
                            0 <= k < f.len() && #[trigger] f@[k] <= out@.last() implies out@.contains(
                            f@[k],
                        ) by {
                            if f@[k] == c {
                                assert(out@[out.len() - 1] == c);
                            } else {
                                assert(old_out.len() > 0);
                                assert(!above(f@[k], bound));
                                assert(old_out.contains(f@[k]));
                                let w = choose|w: int| 0 <= w < old_out.len() && old_out[w] == f@[k];
                                assert(out@[w] == f@[k]);
                            }
                        }
                        assert forall|k: int| 0 <= k < out.len() implies f@.contains(
                            #[trigger] out@[k],
                        ) by {
                            if k < old_out.len() {
                                assert(out@[k] == old_out[k]);
                            }
                        }
                    }
                },
                None => {
                    proof {
                        assert(bound == last_of(out@));
                    }
                    break;
                },
            }
        }
        proof {
            assert forall|c: char| out@.contains(c) <==> folded(raw@).contains(c) by {
                if folded(raw@).contains(c) {
                    let k = choose|k: int| 0 <= k < f.len() && f@[k] == c;
                    assert(f@[k] == c);
                    assert(!above(f@[k], last_of(out@)));
                    assert(f@[k] <= out@.last());
                }
            }
            assert forall|k: int| 0 <= k < out.len() implies fold_case(#[trigger] out@[k])
                == out@[k] by {
                assert(f@.contains(out@[k]));
                let w = choose|w: int| 0 <= w < f.len() && f@[w] == out@[k];
                assert(f@[w] == fold_case(raw@[w]));
            }
            if has_two_symbols(raw@) {
                let (x, y) = choose|x: int, y: int|
                    0 <= x < raw@.len() && 0 <= y < raw@.len() && #[trigger] fold_case(raw@[x])
                        != #[trigger] fold_case(raw@[y]);
                assert(f@[x] == fold_case(raw@[x]));
                assert(f@[y] == fold_case(raw@[y]));
                assert(out@.contains(f@[x]));
                assert(out@.contains(f@[y]));
            }
            if out.len() >= 2 {
                assert(f@.contains(out@[0]));
                assert(f@.contains(out@[1]));
                let x = choose|x: int| 0 <= x < f.len() && f@[x] == out@[0];
                let y = choose|y: int| 0 <= y < f.len() && f@[y] == out@[1];
                assert(fold_case(raw@[x]) != fold_case(raw@[y]));
            }
        }
        if out.len() >= 2 {
            Some(Alphabet { symbols: out })
        } else {
            None
        }
    }

    /// Number of symbols, the base of the numerals written in it.
    pub fn base(&self) -> (r: u64)
        ensures
            r == self@.len(),
            valid_symbols(self@),
    {
        proof {
            use_type_invariant(self);
        }
        self.symbols.len() as u64
    }

    pub fn symbol(&self, value: usize) -> (r: char)
        requires
            value < self@.len(),
        ensures
            r == self@[value as int],
    {
        self.symbols[value]
    }

    /// The digit value of `c`: its position, found by binary search.
    pub fn value_of(&self, c: char) -> (r: Option<usize>)
        ensures
            r matches Some(v) ==> v < self@.len() && self@[v as int] == c,
            r is None ==> !self@.contains(c),
    {
        proof {
            use_type_invariant(self);
        }
        let mut lo: usize = 0;
        let mut hi: usize = self.symbols.len();
        while lo < hi
            invariant
                lo <= hi <= self.symbols.len(),
                strictly_ascending(self.symbols@),
                forall|k: int| 0 <= k < lo ==> #[trigger] self.symbols@[k] < c,
                forall|k: int| hi <= k < self.symbols.len() ==> #[trigger] self.symbols@[k] > c,
            decreases hi - lo,
        {
            let mid = lo + (hi - lo) / 2;
            let s = self.symbols[mid];
            if s == c {
                return Some(mid);
            } else if s < c {
                lo = mid + 1;
            } else {
                hi = mid;
            }
        }
        None
    }
}

/// Identifier of the default text alphabet.
pub const SIMPLE_TEXT_ALPHABET_ID: &'static str = "SIMPLE_TEXT_A_Z_SPACE";

/// Symbols of the default text alphabet: space, then A to Z.
pub const SIMPLE_TEXT_ALPHABET: &'static str = " ABCDEFGHIJKLMNOPQRSTUVWXYZ";

pub fn chars_equal(a: &Vec<char>, b: &Vec<char>) -> (r: bool)
    ensures
        r == (a@ == b@),
{
    if a.len() != b.len() {
        return false;
    }
    let mut i: usize = 0;
    while i < a.len()
        invariant
            i <= a.len(),
            a.len() == b.len(),
            forall|j: int| 0 <= j < i ==> a@[j] == b@[j],
        decreases a.len() - i,
    {
        if a[i] != b[i] {
            return false;
        }
        i += 1;
    }
    proof {
        assert(a@ =~= b@);
    }
    true
}

/// Alphabets by identifier, each identifier once.
pub struct AlphabetRegistry {
    ids: Vec<Vec<char>>,
    alphabets: Vec<Alphabet>,
}

impl View for AlphabetRegistry {
    type V = Map<Seq<char>, Seq<char>>;

    closed spec fn view(&self) -> Map<Seq<char>, Seq<char>> {
        Map::new(
            |id: Seq<char>| exists|i: int| 0 <= i < self.ids.len() && self.ids@[i]@ == id,
            |id: Seq<char>|
                self.alphabets@[choose|i: int| 0 <= i < self.ids.len() && self.ids@[i]@ == id]@,
        )
    }
}

impl AlphabetRegistry {
    #[verifier::type_invariant]
    spec fn consistent(self) -> bool {
        &&& self.ids.len() == self.alphabets.len()
        &&& forall|i: int, j: int|
            0 <= i < j < self.ids.len() ==> self.ids@[i]@ != self.ids@[j]@
    }

    pub fn new() -> (r: AlphabetRegistry)
        ensures
            r@ == Map::<Seq<char>, Seq<char>>::empty(),
    {
        let r = AlphabetRegistry { ids: Vec::new(), alphabets: Vec::new() };
        assert(r@ =~= Map::<Seq<char>, Seq<char>>::empty());
        r
    }

    /// The registry that holds the default text alphabet.
    pub fn with_default_alphabet() -> (r: AlphabetRegistry)
        ensures
            r@.dom() == set![SIMPLE_TEXT_ALPHABET_ID@],
            r@.contains_key(SIMPLE_TEXT_ALPHABET_ID@),
            valid_symbols(r@[SIMPLE_TEXT_ALPHABET_ID@]),
            forall|c: char|
                r@[SIMPLE_TEXT_ALPHABET_ID@].contains(c) <==> folded(
                    SIMPLE_TEXT_ALPHABET@,
                ).contains(c),
    {
        let mut r = AlphabetRegistry::new();
        proof {
            reveal_strlit(" ABCDEFGHIJKLMNOPQRSTUVWXYZ");
            assert(fold_case(SIMPLE_TEXT_ALPHABET@[0]) != fold_case(SIMPLE_TEXT_ALPHABET@[1]));
        }
        match Alphabet::from_symbols(SIMPLE_TEXT_ALPHABET) {
            Some(a) => {
                r.register(SIMPLE_TEXT_ALPHABET_ID, a);
                proof {
                    assert(r@.dom() =~= set![SIMPLE_TEXT_ALPHABET_ID@]);
                }
            },
            None => {},
        }
        r
    }

    /// Adds `alphabet` under `id`; `false`, and nothing changed, where `id`
    /// is taken.
    pub fn register(&mut self, id: &str, alphabet: Alphabet) -> (r: bool)
        ensures
            r == !old(self)@.contains_key(id@),
            r ==> final(self)@ == old(self)@.insert(id@, alphabet@),
            !r ==> final(self)@ == old(self)@,
    {
        if self.position(id).is_some() {
            return false;
        }
        proof {
            use_type_invariant(&*self);
            assert forall|j: int| 0 <= j < self.ids.len() implies self.ids@[j]@ != id@ by {
                if self.ids@[j]@ == id@ {
                    assert(self@.contains_key(id@));
                }
            }
        }
        let key = chars_of(id);
        let ghost old_reg = *self;
        let mut taken = AlphabetRegistry::new();
        core::mem::swap(self, &mut taken);
        let AlphabetRegistry { mut ids, mut alphabets } = taken;
        proof {
            assert(ids@ == old_reg.ids@);
            assert(forall|j: int| 0 <= j < ids.len() ==> ids@[j]@ != id@);
        }
        ids.push(key);
        alphabets.push(alphabet);
        proof {
            assert forall|i: int, j: int| 0 <= i < j < ids.len() implies ids@[i]@ != ids@[j]@ by {
                if j == ids.len() - 1 {
                    assert(ids@[i] == old_reg.ids@[i]);
                } else {
                    assert(ids@[i] == old_reg.ids@[i]);
                    assert(ids@[j] == old_reg.ids@[j]);
                }
            }
        }
        *self = AlphabetRegistry { ids, alphabets };
        proof {
            let n = old_reg.ids.len() as int;
            assert forall|id2: Seq<char>| #[trigger] self@.contains_key(id2) == old_reg@.insert(
                id@,
                alphabet@,
            ).contains_key(id2) by {
                if id2 != id@ {
                    if self@.contains_key(id2) {
                        let i = choose|i: int| 0 <= i < self.ids.len() && self.ids@[i]@ == id2;
                        assert(old_reg.ids@[i]@ == id2);
                    }
                    if old_reg@.contains_key(id2) {
                        let i = choose|i: int| 0 <= i < old_reg.ids.len() && old_reg.ids@[i]@ == id2;
                        assert(self.ids@[i]@ == id2);
                    }
                } else {
                    assert(self.ids@[n]@ == id2);
                }
            }
            assert forall|id2: Seq<char>| #[trigger] self@.contains_key(id2) implies self@[id2]
                == old_reg@.insert(id@, alphabet@)[id2] by {
                let i = choose|i: int| 0 <= i < self.ids.len() && self.ids@[i]@ == id2;
                if id2 == id@ {
                    assert(i == n);
                } else {
                    assert(old_reg.ids@[i]@ == id2);
                    let j = choose|j: int| 0 <= j < old_reg.ids.len() && old_reg.ids@[j]@ == id2;
                    assert(i == j);
                }
            }
            assert(self@ =~= old_reg@.insert(id@, alphabet@));
        }
        true
    }

    fn position(&self, id: &str) -> (r: Option<usize>)
        ensures
            r is Some <==> self@.contains_key(id@),
            r matches Some(i) ==> i < self.alphabets.len() && self.alphabets@[i as int]@
                == self@[id@],
    {
        proof {
            use_type_invariant(self);
        }
        let key = chars_of(id);
        let mut i: usize = 0;
        while i < self.ids.len()
            invariant
                i <= self.ids.len(),
                key@ == id@,
                self.ids.len() == self.alphabets.len(),
                forall|a: int, b: int|
                    0 <= a < b < self.ids.len() ==> self.ids@[a]@ != self.ids@[b]@,
                forall|j: int| 0 <= j < i ==> self.ids@[j]@ != id@,
            decreases self.ids.len() - i,
        {
            if chars_equal(&self.ids[i], &key) {
                proof {
                    let k = choose|k: int| 0 <= k < self.ids.len() && self.ids@[k]@ == id@;
                    assert(k == i);
                }
                return Some(i);
            }
            i += 1;
        }
        None
    }

    /// The alphabet registered under `id`.
    pub fn lookup(&self, id: &str) -> (r: Option<&Alphabet>)
        ensures
            r is Some <==> self@.contains_key(id@),
            r matches Some(a) ==> a@ == self@[id@] && valid_symbols(a@),
    {
        match self.position(id) {
            Some(i) => {
                let a = &self.alphabets[i];
                proof {
                    use_type_invariant(a);
                }
                Some(a)
            },
            None => None,
        }
    }
}

/// Ascending characters are at least their positions.
proof fn lemma_ascending_at_least_position(s: Seq<char>, i: int)
    requires
        strictly_ascending(s),
        0 <= i < s.len(),
    ensures
        s[i] as int >= i,
    decreases i,
{
    lemma_char_bound(s[i]);
    if i > 0 {
        lemma_ascending_at_least_position(s, i - 1);
        assert(s[i - 1] < s[i]);
    }
}

proof fn lemma_char_bound(c: char)
    ensures
        0 <= c as int <= 0x10FFFF,
{
}

/// There are fewer symbols than code points.
pub proof fn lemma_symbols_fit(s: Seq<char>)
    requires
        valid_symbols(s),
    ensures
        s.len() <= 0x110000,
{
    lemma_ascending_at_least_position(s, s.len() - 1);
    lemma_char_bound(s[s.len() - 1]);
}

/// In valid symbols, a symbol's position is its digit value.
pub proof fn lemma_index_of_symbol(s: Seq<char>, d: int)
    requires
        valid_symbols(s),
        0 <= d < s.len(),
    ensures
        s.index_of(s[d]) == d,
        s.contains(s[d]),
        fold_case(s[d]) == s[d],
{
    assert(s[d] == s[d]);
}

} // verus!
