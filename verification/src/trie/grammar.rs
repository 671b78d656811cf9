//! The alphabet of a trie: which symbols exist, and the dense index of each.
//!
//! A grammar is built from a string of symbols. The symbols are taken in
//! descending order and, after case folding, each distinct one gets the next
//! free index. The index of a symbol is the branch it selects in a trie node.

use std::collections::HashMap;
use vstd::prelude::*;
use vstd::relations::sorted_by;
use vstd::seq_lib::lemma_sorted_unique;

verus! {

broadcast use vstd::std_specs::hash::group_hash_axioms;

/// Whether upper and lower case ASCII letters are told apart.
#[derive(Debug, Copy, Clone, PartialEq, Eq, Structural)]
pub enum Case {
    Sensitive,
    Insensitive,
}

/// Why a string could not be encoded.
#[derive(Debug, Copy, Clone, PartialEq, Eq, Structural)]
pub enum GrammarError {
    /// The symbol is not part of the alphabet. It is the first such symbol of
    /// the string.
    InvalidSymbol(char),
}

/// The symbol that `c` stands for under the given case policy: an upper case
/// ASCII letter stands for its lower case form when case is ignored, and every
/// other symbol stands for itself.
pub open spec fn fold(c: char, sense: Case) -> char {
    match sense {
        Case::Sensitive => c,
        Case::Insensitive => if 'A' <= c && c <= 'Z' {
            ((c as u8) + 32) as char
        } else {
            c
        },
    }
}

/// The order in which the symbols of a string are given their indices.
pub open spec fn descending() -> spec_fn(char, char) -> bool {
    |a: char, b: char| a >= b
}

/// `s` without the later occurrences of a symbol that occurred before.
pub open spec fn first_occurrences(s: Seq<char>) -> Seq<char>
    decreases s.len(),
{
    if s.len() == 0 {
        s
    } else {
        let init = first_occurrences(s.drop_last());
        if init.contains(s.last()) {
            init
        } else {
            init.push(s.last())
        }
    }
}

/// Every symbol of `s`, folded.
pub open spec fn fold_all(s: Seq<char>, sense: Case) -> Seq<char> {
    s.map_values(|c: char| fold(c, sense))
}

/// The alphabet that a string of symbols defines, in index order: the symbols
/// sorted in descending order, then folded, each kept where it first occurs.
pub open spec fn alphabet_of(s: Seq<char>, sense: Case) -> Seq<char> {
    first_occurrences(fold_all(s.sort_by(descending()), sense))
}

/// The symbols of `first_occurrences(s)` are those of `s`, each once.
pub proof fn lemma_first_occurrences(s: Seq<char>)
    ensures
        first_occurrences(s).no_duplicates(),
        forall|c: char| first_occurrences(s).contains(c) <==> s.contains(c),
    decreases s.len(),
{
    if s.len() > 0 {
        let init = s.drop_last();
        lemma_first_occurrences(init);
        let out = first_occurrences(s);
        assert forall|c: char| out.contains(c) <==> s.contains(c) by {
            if s.contains(c) {
                let i = choose|i: int| 0 <= i < s.len() && s[i] == c;
                if i < s.len() - 1 {
                    assert(init[i] == c);
                    assert(init.contains(c));
                    assert(first_occurrences(init).contains(c));
                    let j = choose|j: int|
                        0 <= j < first_occurrences(init).len() && first_occurrences(init)[j] == c;
                    assert(out[j] == c);
                } else if !first_occurrences(init).contains(c) {
                    assert(out[out.len() - 1] == c);
                } else {
                    assert(out.contains(c));
                }
            }
            if out.contains(c) {
                let j = choose|j: int| 0 <= j < out.len() && out[j] == c;
                if j < first_occurrences(init).len() {
                    assert(first_occurrences(init)[j] == c);
                    assert(first_occurrences(init).contains(c));
                    assert(init.contains(c));
                    let i = choose|i: int| 0 <= i < init.len() && init[i] == c;
                    assert(s[i] == c);
                } else {
                    assert(s[s.len() - 1] == c);
                }
            }
        }
    }
}

/// Where no symbol occurs twice, every symbol is its own first occurrence.
pub proof fn lemma_first_occurrences_of_distinct(s: Seq<char>)
    requires
        s.no_duplicates(),
    ensures
        first_occurrences(s) == s,
    decreases s.len(),
{
    if s.len() > 0 {
        let init = s.drop_last();
        lemma_first_occurrences_of_distinct(init);
        if init.contains(s.last()) {
            let i = choose|i: int| 0 <= i < init.len() && init[i] == s.last();
            assert(s[i] == s[s.len() - 1]);
        }
        assert(init.push(s.last()) == s);
    }
}

/// The alphabet of the lower case letters, with case ignored, runs from `z`
/// at index 0 down to `a` at index 25.
pub proof fn lemma_lower_case_alphabet()
    ensures
        alphabet_of("abcdefghijklmnopqrstuvwxyz"@, Case::Insensitive)
            == "zyxwvutsrqponmlkjihgfedcba"@,
{
    reveal_strlit("abcdefghijklmnopqrstuvwxyz");
    reveal_strlit("zyxwvutsrqponmlkjihgfedcba");
    let up = "abcdefghijklmnopqrstuvwxyz"@;
    let down = "zyxwvutsrqponmlkjihgfedcba"@;
    assert forall|k: int|
        #![trigger up[k]]
        #![trigger down[k]]
        0 <= k < 26 implies up[k] as int == 97 + k && down[k] as int == 122 - k by {
        assert(k == 0 || k == 1 || k == 2 || k == 3 || k == 4 || k == 5 || k == 6 || k == 7 || k == 8 || k == 9 || k == 10 || k == 11 || k == 12 || k == 13 || k == 14 || k == 15 || k == 16 || k == 17 || k == 18 || k == 19 || k == 20 || k == 21 || k == 22 || k == 23 || k == 24 || k == 25);
    }
    assert(down =~= up.reverse());
    up.lemma_reverse_to_multiset();
    up.lemma_sort_by_ensures(descending());
    lemma_sorted_unique(down, up.sort_by(descending()), descending());
    assert(fold_all(down, Case::Insensitive) =~= down);
    lemma_first_occurrences_of_distinct(down);
}

/// Folds one symbol under the given case policy.
pub fn preprocess_char(c: &char, sense: &Case) -> (r: char)
    ensures
        r == fold(*c, *sense),
{
    match sense {
        Case::Sensitive => *c,
        Case::Insensitive => {
            if 'A' <= *c && *c <= 'Z' {
                let upper: u8 = *c as u8;
                let lower: u8 = upper + 32;
                lower as char
            } else {
                *c
            }
        },
    }
}

/// The symbols of `chars` in descending order.
fn sort_descending(chars: &Vec<char>) -> (out: Vec<char>)
    ensures
        out@ == chars@.sort_by(descending()),
{
    broadcast use vstd::seq_lib::group_to_multiset_ensures;

    let mut out: Vec<char> = Vec::new();
    let mut i: usize = 0;
    while i < chars.len()
        invariant
            i <= chars.len(),
            sorted_by(out@, descending()),
            out@.to_multiset() == chars@.take(i as int).to_multiset(),
        decreases chars.len() - i,
    {
        let x = chars[i];
        let mut j: usize = 0;
        while j < out.len() && out[j] >= x
            invariant
                j <= out.len(),
                forall|k: int| 0 <= k < j ==> out@[k] >= x,
            decreases out.len() - j,
        {
            j = j + 1;
        }
        proof {
            let before = out@;
            let after = before.insert(j as int, x);
            assert forall|a: int, b: int| 0 <= a < b < after.len() implies descending()(
                after[a],
                after[b],
            ) by {
                if a < j && b > j {
                    assert(descending()(before[a], before[b - 1]));
                } else if a < j && b < j {
                    assert(descending()(before[a], before[b]));
                } else if a > j {
                    assert(descending()(before[a - 1], before[b - 1]));
                } else if a == j {
                    assert(descending()(before[j as int], before[b - 1]));
                }
            }
            assert(chars@.take(i + 1) == chars@.take(i as int).push(x));
            vstd::seq_lib::to_multiset_insert(before, j as int, x);
            vstd::seq_lib::to_multiset_build(chars@.take(i as int), x);
        }
        out.insert(j, x);
        i = i + 1;
    }
    proof {
        assert(chars@.take(i as int) == chars@);
        chars@.lemma_sort_by_ensures(descending());
        lemma_sorted_unique(out@, chars@.sort_by(descending()), descending());
    }
    out
}

/// The symbols of an alphabet and the index of each.
#[derive(Debug, Clone)]
pub struct Grammar {
    mapping: HashMap<u32, usize>,
    symbols: Vec<char>,
    sense: Case,
}

/// The lookup table holds exactly the symbols of the alphabet, each under its
/// position in it.
spec fn table_matches(table: Map<u32, usize>, symbols: Seq<char>) -> bool {
    &&& symbols.no_duplicates()
    &&& forall|i: int|
        #![trigger symbols[i]]
        0 <= i < symbols.len() ==> table.contains_key(symbols[i] as u32) && table[symbols[i] as u32]
            == i
    &&& forall|c: char|
        #![trigger table.contains_key(c as u32)]
        table.contains_key(c as u32) ==> table[c as u32] < symbols.len() && symbols[table[c as u32] as int]
            == c
}

impl Grammar {
    /// The lookup table and the alphabet agree, and every symbol of the
    /// alphabet stands for itself.
    pub closed spec fn wf(&self) -> bool {
        &&& table_matches(self.mapping@, self.symbols@)
        &&& forall|i: int|
            0 <= i < self.symbols@.len() ==> fold(#[trigger] self.symbols@[i], self.sense)
                == self.symbols@[i]
    }

    /// The symbols of the alphabet, each at its index. No symbol occurs twice.
    pub closed spec fn alphabet(&self) -> Seq<char> {
        self.symbols@
    }

    /// The case policy.
    pub closed spec fn sense(&self) -> Case {
        self.sense
    }

    /// The number of symbols, which is the number of branches of a trie node.
    pub open spec fn arity(&self) -> nat {
        self.alphabet().len()
    }

    /// The index of the symbol that `c` stands for, if it is in the alphabet.
    pub open spec fn index_of(&self, c: char) -> Option<usize> {
        let k = fold(c, self.sense());
        if self.alphabet().contains(k) {
            Some(self.alphabet().index_of(k) as usize)
        } else {
            None
        }
    }

    /// The indices of the symbols of `s`, if all of them are in the alphabet.
    pub open spec fn encode(&self, s: Seq<char>) -> Option<Seq<usize>> {
        if forall|i: int| 0 <= i < s.len() ==> (#[trigger] self.index_of(s[i])) is Some {
            Some(Seq::new(s.len(), |i: int| self.index_of(s[i])->0))
        } else {
            None
        }
    }

    /// `s[i]` is the first symbol of `s` that is not in the alphabet.
    pub open spec fn first_unknown_at(&self, s: Seq<char>, i: int) -> bool {
        &&& 0 <= i < s.len()
        &&& self.index_of(s[i]) is None
        &&& forall|j: int| 0 <= j < i ==> (#[trigger] self.index_of(s[j])) is Some
    }

    /// No symbol has two indices.
    pub proof fn lemma_alphabet_distinct(&self)
        requires
            self.wf(),
        ensures
            self.alphabet().no_duplicates(),
    {
    }

    /// Every symbol of the alphabet has the index at which it stands.
    pub proof fn lemma_symbol_index(&self, i: int)
        requires
            self.wf(),
            0 <= i < self.arity(),
        ensures
            self.index_of(self.alphabet()[i]) == Some(i as usize),
    {
        assert(self.symbols@.len() == self.symbols.len());
        assert(self.symbols@.contains(self.symbols@[i]));
    }

    /// An index is the position of the folded symbol in the alphabet.
    pub proof fn lemma_index_of(&self, c: char)
        requires
            self.wf(),
        ensures
            match self.index_of(c) {
                Some(i) => i < self.arity() && self.alphabet()[i as int] == fold(c, self.sense()),
                None => !self.alphabet().contains(fold(c, self.sense())),
            },
    {
        assert(self.symbols@.len() == self.symbols.len());
    }

    /// Every index of an encoded string selects a branch.
    pub proof fn lemma_encode_in_range(&self, s: Seq<char>)
        requires
            self.wf(),
            self.encode(s) is Some,
        ensures
            self.encode(s)->0.len() == s.len(),
            forall|i: int| 0 <= i < s.len() ==> (#[trigger] self.encode(s)->0[i]) < self.arity(),
    {
        assert forall|i: int| 0 <= i < s.len() implies (#[trigger] self.encode(s)->0[i])
            < self.arity() by {
            self.lemma_index_of(s[i]);
        }
    }

    /// Builds the grammar of the symbols of `s_slice` under the given case
    /// policy.
    pub fn from(s_slice: &str, sense: Case) -> (g: Self)
        ensures
            g.wf(),
            g.sense() == sense,
            g.alphabet() == alphabet_of(s_slice@, sense),
    {
        let mut raw: Vec<char> = Vec::new();
        for c in it: s_slice.chars()
            invariant
                raw@ == it.seq().take(it.index() as int),
                it.seq() == s_slice@,
        {
            raw.push(c);
        }
        assert(raw@ == s_slice@);
        let chars = sort_descending(&raw);

        let ghost folded = fold_all(chars@, sense);
        let mut mapping: HashMap<u32, usize> = HashMap::new();
        let mut symbols: Vec<char> = Vec::new();
        let mut i: usize = 0;
        while i < chars.len()
            invariant
                i <= chars.len(),
                folded == fold_all(chars@, sense),
                symbols@ == first_occurrences(folded.take(i as int)),
                table_matches(mapping@, symbols@),
                forall|j: int|
                    0 <= j < symbols@.len() ==> fold(#[trigger] symbols@[j], sense) == symbols@[j],
            decreases chars.len() - i,
        {
            let k = preprocess_char(&chars[i], &sense);
            let code: u32 = k as u32;
            proof {
                assert(folded.take(i + 1).drop_last() == folded.take(i as int));
                lemma_first_occurrences(folded.take(i as int));
                if mapping@.contains_key(code) {
                    assert(symbols@[mapping@[code] as int] == k);
                }
            }
            if !mapping.contains_key(&code) {
                let idx = symbols.len();
                mapping.insert(code, idx);
                symbols.push(k);
            }
            i = i + 1;
        }
        proof {
            assert(folded.take(i as int) == folded);
        }
        Grammar { mapping, symbols, sense }
    }

    /// The index of the symbol that `c` stands for, if it is in the alphabet.
    pub fn idx(&self, c: char) -> (r: Option<usize>)
        requires
            self.wf(),
        ensures
            r == self.index_of(c),
            r matches Some(i) ==> i < self.arity(),
    {
        let k = preprocess_char(&c, &self.sense);
        let code: u32 = k as u32;
        match self.mapping.get(&code) {
            Some(i) => {
                assert(self.symbols@[*i as int] == k);
                Some(*i)
            },
            None => {
                assert(!self.symbols@.contains(k));
                None
            },
        }
    }

    /// Encodes a string symbol by symbol, or names its first unknown symbol.
    pub fn to_indices(&self, s: &str) -> (r: Result<Vec<usize>, GrammarError>)
        requires
            self.wf(),
        ensures
            match r {
                Ok(indices) => self.encode(s@) == Some(indices@),
                Err(GrammarError::InvalidSymbol(c)) => {
                    &&& self.encode(s@) is None
                    &&& exists|i: int| self.first_unknown_at(s@, i) && s@[i] == c
                },
            },
    {
        let mut out: Vec<usize> = Vec::new();
        for raw_char in it: s.chars()
            invariant
                self.wf(),
                it.seq() == s@,
                out@.len() == it.index(),
                forall|j: int|
                    0 <= j < it.index() ==> (#[trigger] self.index_of(s@[j])) == Some(out@[j]),
        {
            match self.idx(raw_char) {
                None => {
                    assert(self.first_unknown_at(s@, it.index() as int));
                    return Err(GrammarError::InvalidSymbol(raw_char));
                },
                Some(i) => {
                    out.push(i);
                },
            }
        }
        assert(out@ =~= self.encode(s@)->0);
        Ok(out)
    }

    /// The symbols of the alphabet, each at its index.
    pub fn seq(&self) -> (symbols: Vec<char>)
        ensures
            symbols@ == self.alphabet(),
    {
        self.symbols.clone()
    }
}

impl Default for Grammar {
    /// The lower case ASCII letters, with case ignored.
    fn default() -> (g: Self)
        ensures
            g.wf(),
            g.sense() == Case::Insensitive,
            g.alphabet() == alphabet_of("abcdefghijklmnopqrstuvwxyz"@, Case::Insensitive),
            g.alphabet() == "zyxwvutsrqponmlkjihgfedcba"@,
    {
        proof {
            lemma_lower_case_alphabet();
        }
        Grammar::from("abcdefghijklmnopqrstuvwxyz", Case::Insensitive)
    }
}

} // verus!
