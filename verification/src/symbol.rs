use vstd::prelude::*;

verus! {

/// The role a symbol plays in a grammar.
#[derive(Clone, Copy, PartialEq, Eq, Hash, Debug, Structural)]
pub enum SymbolType {
    Nonterminal,
    Terminal,
    Epsilon,
    Eof,
}

/// A grammar symbol: its role and its numeric id inside a `SymbolDomain`.
#[derive(Clone, Copy, PartialEq, Eq, Hash, Debug, Structural)]
pub struct Symbol {
    pub symbol_type: SymbolType,
    pub id: u32,
}

impl Symbol {
    /// The reserved empty-string symbol, id 0.
    pub open spec fn epsilon_spec() -> Symbol {
        Symbol { symbol_type: SymbolType::Epsilon, id: 0 }
    }

    /// The reserved end-of-input symbol, id 1. It carries the `Epsilon` type.
    pub open spec fn eof_spec() -> Symbol {
        Symbol { symbol_type: SymbolType::Epsilon, id: 1 }
    }

    /// The reserved empty-string symbol.
    pub fn epsilon() -> (s: Symbol)
        ensures
            s == Symbol::epsilon_spec(),
    {
        Symbol { symbol_type: SymbolType::Epsilon, id: 0 }
    }

    /// The reserved end-of-input symbol.
    pub fn eof() -> (s: Symbol)
        ensures
            s == Symbol::eof_spec(),
    {
        Symbol { symbol_type: SymbolType::Epsilon, id: 1 }
    }

    /// The symbol is a terminal.
    pub fn is_terrminal(&self) -> (r: bool)
        ensures
            r == (self.symbol_type == SymbolType::Terminal),
    {
        self.symbol_type == SymbolType::Terminal
    }

    /// The symbol is a nonterminal.
    pub fn is_nonterrminal(&self) -> (r: bool)
        ensures
            r == (self.symbol_type == SymbolType::Nonterminal),
    {
        self.symbol_type == SymbolType::Nonterminal
    }
}

const WORD_SIZE: usize = 64;

const INLINE_WORDS: usize = 4;

const INLINE_BITS: usize = 256;

/// Bit `offset` of the word `w` is set.
pub open spec fn word_bit(w: u64, offset: u64) -> bool {
    offset < 64 && w & (1u64 << offset) != 0u64
}

/// Word `k` of a bit store; words past the end read as zero.
pub open spec fn word_at(ws: Seq<u64>, k: int) -> u64 {
    if 0 <= k < ws.len() {
        ws[k]
    } else {
        0u64
    }
}

/// The ids whose bits are set in a sequence of 64-bit words.
pub open spec fn bits_of(ws: Seq<u64>) -> Set<nat> {
    Set::new(|i: nat| word_bit(word_at(ws, i as int / 64), (i % 64) as u64))
}

proof fn lemma_bit_zero(o: u64)
    ensures
        !word_bit(0u64, o),
{
    assert(0u64 & (1u64 << o) == 0u64) by (bit_vector);
}

proof fn lemma_bit_or(a: u64, b: u64, o: u64)
    ensures
        word_bit(a | b, o) == (word_bit(a, o) || word_bit(b, o)),
{
    assert((a | b) & (1u64 << o) != 0u64 <==> (a & (1u64 << o) != 0u64 || b & (1u64 << o) != 0u64))
        by (bit_vector);
}

proof fn lemma_bit_and(a: u64, b: u64, o: u64)
    ensures
        word_bit(a & b, o) == (word_bit(a, o) && word_bit(b, o)),
{
    assert((a & b) & (1u64 << o) != 0u64 <==> (a & (1u64 << o) != 0u64 && b & (1u64 << o) != 0u64))
        by (bit_vector);
}

proof fn lemma_bit_and_not(a: u64, b: u64, o: u64)
    ensures
        word_bit(a & !b, o) == (word_bit(a, o) && !word_bit(b, o)),
{
    assert((a & !b) & (1u64 << o) != 0u64 <==> (a & (1u64 << o) != 0u64 && b & (1u64 << o) == 0u64))
        by (bit_vector);
}

proof fn lemma_bit_set(w: u64, o: u64, j: u64)
    requires
        o < 64,
    ensures
        word_bit(w | (1u64 << o), j) == (word_bit(w, j) || j == o),
{
    assert(j < 64 ==> ((w | (1u64 << o)) & (1u64 << j) != 0u64 <==> (w & (1u64 << j) != 0u64 || j == o)))
        by (bit_vector)
        requires
            o < 64,
    ;
}

proof fn lemma_bit_clear(w: u64, o: u64, j: u64)
    requires
        o < 64,
    ensures
        word_bit(w & !(1u64 << o), j) == (word_bit(w, j) && j != o),
{
    assert(j < 64 ==> ((w & !(1u64 << o)) & (1u64 << j) != 0u64 <==> (w & (1u64 << j) != 0u64 && j
        != o))) by (bit_vector)
        requires
            o < 64,
    ;
}

/// A nonzero word has a set bit at or above `k` when its bits from `k` on are not all clear.
proof fn lemma_nonzero_has_bit_from(w: u64, k: u64)
    requires
        k <= 64,
        w >> k != 0u64,
    ensures
        exists|j: u64| k <= j < 64 && word_bit(w, j),
    decreases 64 - k,
{
    if k == 64 {
        assert(w >> 64u64 == 0u64) by (bit_vector);
    } else if w & (1u64 << k) != 0u64 {
        assert(word_bit(w, k));
    } else {
        assert((w >> (k + 1) as u64) != 0u64) by (bit_vector)
            requires
                k < 64,
                w >> k != 0u64,
                w & (1u64 << k) == 0u64,
        ;
        lemma_nonzero_has_bit_from(w, (k + 1) as u64);
    }
}

proof fn lemma_nonzero_has_bit(w: u64)
    requires
        w != 0u64,
    ensures
        exists|j: u64| j < 64 && word_bit(w, j),
{
    assert(w >> 0u64 == w) by (bit_vector);
    lemma_nonzero_has_bit_from(w, 0);
}

/// A set id lives in word `id / 64` at bit `id % 64`.
proof fn lemma_bits_of_contains(ws: Seq<u64>, i: nat)
    ensures
        bits_of(ws).contains(i) == word_bit(word_at(ws, i as int / 64), (i % 64) as u64),
{
}

/// Words that agree everywhere hold the same ids.
proof fn lemma_bits_of_ext(a: Seq<u64>, b: Seq<u64>)
    requires
        forall|k: int| word_at(a, k) == word_at(b, k),
    ensures
        bits_of(a) == bits_of(b),
{
    assert forall|i: nat| bits_of(a).contains(i) == bits_of(b).contains(i) by {
        assert(word_at(a, i as int / 64) == word_at(b, i as int / 64));
    }
    assert(bits_of(a) =~= bits_of(b));
}

proof fn lemma_bits_union(a: Seq<u64>, b: Seq<u64>, c: Seq<u64>)
    requires
        a.len() <= c.len(),
        b.len() <= c.len(),
        forall|k: int| 0 <= k < c.len() ==> c[k] == word_at(a, k) | word_at(b, k),
    ensures
        bits_of(c) == bits_of(a).union(bits_of(b)),
{
    assert forall|i: nat| bits_of(c).contains(i) == (bits_of(a).contains(i) || bits_of(b).contains(i)) by {
        let k = i as int / 64;
        let o = (i % 64) as u64;
        lemma_bit_or(word_at(a, k), word_at(b, k), o);
        lemma_bit_zero(o);
    }
    assert(bits_of(c) =~= bits_of(a).union(bits_of(b)));
}

proof fn lemma_bits_intersect(a: Seq<u64>, b: Seq<u64>, c: Seq<u64>)
    requires
        a.len() <= c.len(),
        forall|k: int| 0 <= k < c.len() ==> c[k] == word_at(a, k) & word_at(b, k),
    ensures
        bits_of(c) == bits_of(a).intersect(bits_of(b)),
{
    assert forall|i: nat| bits_of(c).contains(i) == (bits_of(a).contains(i) && bits_of(b).contains(i)) by {
        let k = i as int / 64;
        let o = (i % 64) as u64;
        lemma_bit_and(word_at(a, k), word_at(b, k), o);
        lemma_bit_zero(o);
    }
    assert(bits_of(c) =~= bits_of(a).intersect(bits_of(b)));
}

proof fn lemma_bits_difference(a: Seq<u64>, b: Seq<u64>, c: Seq<u64>)
    requires
        a.len() <= c.len(),
        forall|k: int| 0 <= k < c.len() ==> c[k] == word_at(a, k) & !word_at(b, k),
    ensures
        bits_of(c) == bits_of(a).difference(bits_of(b)),
{
    assert forall|i: nat| bits_of(c).contains(i) == (bits_of(a).contains(i) && !bits_of(b).contains(i)) by {
        let k = i as int / 64;
        let o = (i % 64) as u64;
        lemma_bit_and_not(word_at(a, k), word_at(b, k), o);
        lemma_bit_zero(o);
    }
    assert(bits_of(c) =~= bits_of(a).difference(bits_of(b)));
}

proof fn lemma_bits_insert(ws: Seq<u64>, w: int, o: u64)
    requires
        0 <= w < ws.len(),
        o < 64,
    ensures
        bits_of(ws.update(w, ws[w] | (1u64 << o))) == bits_of(ws).insert((w * 64 + o) as nat),
{
    let nws = ws.update(w, ws[w] | (1u64 << o));
    assert forall|i: nat| bits_of(nws).contains(i) == (bits_of(ws).contains(i) || i == w * 64 + o) by {
        let k = i as int / 64;
        let j = (i % 64) as u64;
        lemma_bit_set(ws[w], o, j);
    }
    assert(bits_of(nws) =~= bits_of(ws).insert((w * 64 + o) as nat));
}

proof fn lemma_bits_remove(ws: Seq<u64>, w: int, o: u64)
    requires
        0 <= w < ws.len(),
        o < 64,
    ensures
        bits_of(ws.update(w, ws[w] & !(1u64 << o))) == bits_of(ws).remove((w * 64 + o) as nat),
{
    let nws = ws.update(w, ws[w] & !(1u64 << o));
    assert forall|i: nat| bits_of(nws).contains(i) == (bits_of(ws).contains(i) && i != w * 64 + o) by {
        let k = i as int / 64;
        let j = (i % 64) as u64;
        lemma_bit_clear(ws[w], o, j);
    }
    assert(bits_of(nws) =~= bits_of(ws).remove((w * 64 + o) as nat));
}

/// All-zero words hold no id.
proof fn lemma_bits_zero(ws: Seq<u64>)
    requires
        forall|k: int| 0 <= k < ws.len() ==> ws[k] == 0u64,
    ensures
        bits_of(ws) == Set::<nat>::empty(),
{
    assert forall|i: nat| !bits_of(ws).contains(i) by {
        lemma_bit_zero((i % 64) as u64);
    }
    assert(bits_of(ws) =~= Set::<nat>::empty());
}

/// Storage of a `SymbolSet`: four words kept inline, or a growable vector of words.
enum SymbolSetStore {
    Inline([u64; 4]),
    Heap(Vec<u64>),
}

impl SymbolSetStore {
    spec fn words_view(&self) -> Seq<u64> {
        match self {
            SymbolSetStore::Inline(arr) => arr@,
            SymbolSetStore::Heap(vec) => vec@,
        }
    }

    fn inline() -> (r: SymbolSetStore)
        ensures
            r.words_view().len() == INLINE_WORDS,
            forall|k: int| 0 <= k < r.words_view().len() ==> r.words_view()[k] == 0u64,
    {
        SymbolSetStore::Inline([0u64, 0u64, 0u64, 0u64])
    }

    fn heap(words: usize) -> (r: SymbolSetStore)
        ensures
            r.words_view().len() == words,
            forall|k: int| 0 <= k < r.words_view().len() ==> r.words_view()[k] == 0u64,
    {
        let mut vec: Vec<u64> = Vec::with_capacity(words);
        while vec.len() < words
            invariant
                vec.len() <= words,
                forall|k: int| 0 <= k < vec.len() ==> vec@[k] == 0u64,
            decreases words - vec.len(),
        {
            vec.push(0u64);
        }
        SymbolSetStore::Heap(vec)
    }

    fn word(&self, word: usize) -> (r: u64)
        ensures
            r == word_at(self.words_view(), word as int),
    {
        if word >= self.words() {
            0u64
        } else {
            match self {
                SymbolSetStore::Inline(arr) => arr[word],
                SymbolSetStore::Heap(vec) => vec[word],
            }
        }
    }

    fn set_word(&mut self, word: usize, value: u64)
        requires
            word < old(self).words_view().len(),
        ensures
            final(self).words_view() == old(self).words_view().update(word as int, value),
    {
        match self {
            SymbolSetStore::Inline(arr) => {
                arr[word] = value;
            },
            SymbolSetStore::Heap(vec) => {
                vec[word] = value;
            },
        }
    }

    fn words(&self) -> (r: usize)
        ensures
            r == self.words_view().len(),
    {
        match self {
            SymbolSetStore::Inline(_) => INLINE_WORDS,
            SymbolSetStore::Heap(vec) => vec.len(),
        }
    }
}

/// A set of symbols, kept as a bitset indexed by symbol id.
pub struct SymbolSet(SymbolSetStore);

impl View for SymbolSet {
    type V = Set<nat>;

    /// The ids of the symbols in the set.
    closed spec fn view(&self) -> Set<nat> {
        bits_of(self.0.words_view())
    }
}

impl Clone for SymbolSet {
    fn clone(&self) -> (r: SymbolSet)
        ensures
            r@ == self@,
            r.word_count() == self.word_count(),
    {
        match &self.0 {
            SymbolSetStore::Inline(arr) => SymbolSet(SymbolSetStore::Inline(*arr)),
            SymbolSetStore::Heap(vec) => {
                let copy = vec.clone();
                proof {
                    assert(copy@ =~= vec@);
                }
                SymbolSet(SymbolSetStore::Heap(copy))
            },
        }
    }
}

impl SymbolSet {
    /// How many 64-bit words the set stores; ids below `64 * word_count()` can be inserted.
    pub closed spec fn word_count(&self) -> nat {
        self.0.words_view().len()
    }

    /// Every id the set holds is the id of some symbol: at most `u32::MAX`. It holds of the sets
    /// `new`, `with_capacity` and `clear` leave, of every set whose capacity is at most 2^32
    /// (`lemma_ids_fit`), and, by their view equations, of what the other operations make from
    /// sets of which it holds, since the only ids they add are symbols' ids.
    pub open spec fn ids_fit(&self) -> bool {
        forall|e: nat| #[trigger] self@.contains(e) ==> e <= u32::MAX
    }

    /// The ids that `insert` and `remove` accept: those below this bound.
    pub open spec fn capacity(&self) -> nat {
        64 * self.word_count()
    }

    /// The larger of `a` and `b`.
    pub open spec fn max_nat(a: nat, b: nat) -> nat {
        if a < b {
            b
        } else {
            a
        }
    }

    /// An empty set with room for 256 ids.
    pub fn new() -> (r: SymbolSet)
        ensures
            r.ids_fit(),
            r@ == Set::<nat>::empty(),
            r.word_count() == 4,
    {
        let r = SymbolSet(SymbolSetStore::inline());
        proof {
            lemma_bits_zero(r.0.words_view());
        }
        r
    }

    /// An empty set with room for at least `capacity` ids: 256 when `capacity <= 256`,
    /// else `ceil(capacity / 64)` words.
    pub fn with_capacity(capacity: usize) -> (r: SymbolSet)
        ensures
            r.ids_fit(),
            r@ == Set::<nat>::empty(),
            r.word_count() == if capacity <= 256 {
                4
            } else {
                (capacity as nat + 63) / 64
            },
    {
        if capacity <= INLINE_BITS {
            Self::new()
        } else {
            let words = capacity / 64 + if capacity % 64 == 0 {
                0usize
            } else {
                1usize
            };
            let r = SymbolSet(SymbolSetStore::heap(words));
            proof {
                lemma_bits_zero(r.0.words_view());
            }
            r
        }
    }

    /// An empty set with as many words as `self`.
    fn matching_capacity(&self) -> (r: SymbolSet)
        ensures
            r@ == Set::<nat>::empty(),
            r.0.words_view().len() == self.0.words_view().len(),
            forall|k: int| 0 <= k < r.0.words_view().len() ==> r.0.words_view()[k] == 0u64,
    {
        let r = match &self.0 {
            SymbolSetStore::Inline(_) => SymbolSet(SymbolSetStore::inline()),
            SymbolSetStore::Heap(vec) => SymbolSet(SymbolSetStore::heap(vec.len())),
        };
        proof {
            lemma_bits_zero(r.0.words_view());
        }
        r
    }

    fn bit_index(id: u32) -> (r: (usize, usize))
        ensures
            r.0 == id as nat / 64,
            r.1 == id as nat % 64,
    {
        let i = id as usize;
        let word = i / WORD_SIZE;
        let offset = i - (word * WORD_SIZE);
        (word, offset)
    }

    /// Extends the store with zero words up to `words` words.
    fn grow(&mut self, words: usize)
        ensures
            final(self).0.words_view().len() == Self::max_nat(
                old(self).0.words_view().len(),
                words as nat,
            ),
            forall|k: int| word_at(final(self).0.words_view(), k) == word_at(old(self).0.words_view(), k),
            final(self)@ == old(self)@,
    {
        if words > self.0.words() {
            let mut store = SymbolSetStore::Inline([0u64, 0u64, 0u64, 0u64]);
            std::mem::swap(&mut store, &mut self.0);
            let ghost old_words = store.words_view();
            let mut vec: Vec<u64> = match store {
                SymbolSetStore::Inline(arr) => {
                    let mut v: Vec<u64> = Vec::with_capacity(words);
                    let mut k: usize = 0;
                    while k < INLINE_WORDS
                        invariant
                            k <= INLINE_WORDS,
                            arr@.len() == INLINE_WORDS,
                            v@ == arr@.take(k as int),
                        decreases INLINE_WORDS - k,
                    {
                        v.push(arr[k]);
                        proof {
                            assert(arr@.take(k + 1) =~= arr@.take(k as int).push(arr@[k as int]));
                        }
                        k = k + 1;
                    }
                    proof {
                        assert(arr@.take(4) =~= arr@);
                    }
                    v
                },
                SymbolSetStore::Heap(v) => v,
            };
            let old_len = vec.len();
            while vec.len() < words
                invariant
                    old_len == old_words.len(),
                    old_len <= vec.len() <= words,
                    forall|k: int| 0 <= k < old_len ==> vec@[k] == old_words[k],
                    forall|k: int| old_len <= k < vec.len() ==> vec@[k] == 0u64,
                decreases words - vec.len(),
            {
                vec.push(0u64);
            }
            self.0 = SymbolSetStore::Heap(vec);
            proof {
                assert forall|k: int| word_at(self.0.words_view(), k) == word_at(old_words, k) by {}
                lemma_bits_of_ext(self.0.words_view(), old_words);
            }
        }
    }

    /// Removes every symbol; the capacity stays.
    pub fn clear(&mut self)
        ensures
            final(self).ids_fit(),
            final(self)@ == Set::<nat>::empty(),
            final(self).word_count() == old(self).word_count(),
    {
        let n = self.0.words();
        let mut i: usize = 0;
        while i < n
            invariant
                n == self.0.words_view().len(),
                i <= n,
                forall|k: int| 0 <= k < i ==> self.0.words_view()[k] == 0u64,
            decreases n - i,
        {
            self.0.set_word(i, 0u64);
            i = i + 1;
        }
        proof {
            lemma_bits_zero(self.0.words_view());
        }
    }

    /// Adds `symbol` to the set.
    pub fn insert(&mut self, symbol: Symbol)
        requires
            (symbol.id as nat) < old(self).capacity(),
        ensures
            final(self)@ == old(self)@.insert(symbol.id as nat),
            final(self).word_count() == old(self).word_count(),
    {
        let (word, offset) = SymbolSet::bit_index(symbol.id);
        let value = self.0.word(word) | (1u64 << offset);
        proof {
            lemma_bits_insert(self.0.words_view(), word as int, offset as u64);
        }
        self.0.set_word(word, value);
    }

    /// Takes `symbol` out of the set.
    pub fn remove(&mut self, symbol: Symbol)
        requires
            (symbol.id as nat) < old(self).capacity(),
        ensures
            final(self)@ == old(self)@.remove(symbol.id as nat),
            final(self).word_count() == old(self).word_count(),
    {
        let (word, offset) = SymbolSet::bit_index(symbol.id);
        let value = self.0.word(word) & !(1u64 << offset);
        proof {
            lemma_bits_remove(self.0.words_view(), word as int, offset as u64);
        }
        self.0.set_word(word, value);
    }

    /// Adds every symbol of `other`, growing to `other`'s capacity where it is larger.
    pub fn extend(&mut self, other: &SymbolSet)
        ensures
            final(self)@ == old(self)@.union(other@),
            final(self).word_count() == Self::max_nat(old(self).word_count(), other.word_count()),
    {
        let ghost a = self.0.words_view();
        self.grow(other.0.words());
        let sw = self.0.words();
        let ow = other.0.words();
        let words = if sw < ow {
            sw
        } else {
            ow
        };
        let mut i: usize = 0;
        while i < words
            invariant
                words == other.0.words_view().len(),
                words <= self.0.words_view().len(),
                self.0.words_view().len() == Self::max_nat(a.len(), other.0.words_view().len()),
                i <= words,
                forall|k: int| 0 <= k < i ==> self.0.words_view()[k] == word_at(a, k) | word_at(other.0.words_view(), k),
                forall|k: int| i <= k < self.0.words_view().len() ==> self.0.words_view()[k] == word_at(a, k),
            decreases words - i,
        {
            let value = self.0.word(i) | other.0.word(i);
            self.0.set_word(i, value);
            i = i + 1;
        }
        proof {
            let c = self.0.words_view();
            let b = other.0.words_view();
            assert forall|k: int| 0 <= k < c.len() implies c[k] == word_at(a, k) | word_at(b, k) by {
                if k >= words {
                    assert(word_at(b, k) == 0u64);
                    let x = word_at(a, k);
                    assert(x | 0u64 == x) by (bit_vector);
                }
            }
            lemma_bits_union(a, b, c);
        }
    }

    /// The set holds `symbol`.
    pub fn contains(&self, symbol: Symbol) -> (r: bool)
        ensures
            r == self@.contains(symbol.id as nat),
    {
        self.contains_id(symbol.id)
    }

    fn contains_id(&self, id: u32) -> (r: bool)
        ensures
            r == self@.contains(id as nat),
    {
        let (bucket, offset) = SymbolSet::bit_index(id);
        proof {
            lemma_bits_of_contains(self.0.words_view(), id as nat);
        }
        self.0.word(bucket) & (1u64 << offset) != 0u64
    }

    /// The set holds no symbol.
    pub fn is_empty(&self) -> (r: bool)
        ensures
            self.ids_fit() ==> (r == forall|i: u32| !#[trigger] self@.contains(i as nat)),
            r == (self@ == Set::<nat>::empty()),
    {
        let n = self.0.words();
        let mut i: usize = 0;
        while i < n
            invariant
                n == self.0.words_view().len(),
                i <= n,
                forall|k: int| 0 <= k < i ==> self.0.words_view()[k] == 0u64,
            decreases n - i,
        {
            if self.0.word(i) != 0u64 {
                proof {
                    let w = self.0.words_view()[i as int];
                    lemma_nonzero_has_bit(w);
                    let j = choose|j: u64| j < 64 && word_bit(w, j);
                    let id = (i * 64 + j) as nat;
                    assert(id as int / 64 == i as int);
                    assert(id % 64 == j);
                    assert(self@.contains(id));
                }
                return false;
            }
            i = i + 1;
        }
        proof {
            lemma_bits_zero(self.0.words_view());
        }
        true
    }

    /// The symbols of `self` that are not in `other`.
    pub fn difference(&self, other: &SymbolSet) -> (r: SymbolSet)
        ensures
            r@ == self@.difference(other@),
            r.word_count() == Self::max_nat(self.word_count(), other.word_count()),
    {
        let mut new_set = self.matching_capacity();
        new_set.grow(other.0.words());
        let n = new_set.0.words();
        let mut i: usize = 0;
        while i < n
            invariant
                n == new_set.0.words_view().len(),
                n == Self::max_nat(self.0.words_view().len(), other.0.words_view().len()),
                i <= n,
                forall|k: int| 0 <= k < i ==> new_set.0.words_view()[k] == word_at(self.0.words_view(), k) & !word_at(other.0.words_view(), k),
            decreases n - i,
        {
            let value = self.0.word(i) & !other.0.word(i);
            new_set.0.set_word(i, value);
            i = i + 1;
        }
        proof {
            lemma_bits_difference(self.0.words_view(), other.0.words_view(), new_set.0.words_view());
        }
        new_set
    }

    /// A copy of the set without `symbol`.
    pub fn minus(&self, symbol: Symbol) -> (r: SymbolSet)
        requires
            (symbol.id as nat) < self.capacity(),
        ensures
            r@ == self@.remove(symbol.id as nat),
            r.word_count() == self.word_count(),
    {
        let mut new_set = self.clone();
        new_set.remove(symbol);
        new_set
    }

    /// The symbols in both sets; the result has `self`'s capacity.
    pub fn intersection(&self, other: &SymbolSet) -> (r: SymbolSet)
        ensures
            r@ == self@.intersect(other@),
            r.word_count() == self.word_count(),
    {
        let mut new_set = self.matching_capacity();
        let n = new_set.0.words();
        let mut i: usize = 0;
        while i < n
            invariant
                n == new_set.0.words_view().len(),
                n == self.0.words_view().len(),
                i <= n,
                forall|k: int| 0 <= k < i ==> new_set.0.words_view()[k] == word_at(self.0.words_view(), k) & word_at(other.0.words_view(), k),
            decreases n - i,
        {
            let value = self.0.word(i) & other.0.word(i);
            new_set.0.set_word(i, value);
            i = i + 1;
        }
        proof {
            lemma_bits_intersect(self.0.words_view(), other.0.words_view(), new_set.0.words_view());
        }
        new_set
    }

    /// The symbols in either set.
    pub fn union(&self, other: &SymbolSet) -> (r: SymbolSet)
        ensures
            r@ == self@.union(other@),
            r.word_count() == Self::max_nat(self.word_count(), other.word_count()),
    {
        let mut new_set = self.matching_capacity();
        new_set.grow(other.0.words());
        let n = new_set.0.words();
        let mut i: usize = 0;
        while i < n
            invariant
                n == new_set.0.words_view().len(),
                n == Self::max_nat(self.0.words_view().len(), other.0.words_view().len()),
                i <= n,
                forall|k: int| 0 <= k < i ==> new_set.0.words_view()[k] == word_at(self.0.words_view(), k) | word_at(other.0.words_view(), k),
            decreases n - i,
        {
            let value = self.0.word(i) | other.0.word(i);
            new_set.0.set_word(i, value);
            i = i + 1;
        }
        proof {
            lemma_bits_union(self.0.words_view(), other.0.words_view(), new_set.0.words_view());
        }
        new_set
    }

    /// A copy of the set with `symbol` added.
    pub fn plus(&self, symbol: Symbol) -> (r: SymbolSet)
        requires
            (symbol.id as nat) < self.capacity(),
        ensures
            r@ == self@.insert(symbol.id as nat),
            r.word_count() == self.word_count(),
    {
        let mut new_set = self.clone();
        new_set.insert(symbol);
        new_set
    }

    /// Every symbol of `self` is in `other` (not necessarily a strict subset).
    pub fn is_subset(&self, other: &SymbolSet) -> (r: bool)
        ensures
            self.ids_fit() ==> (r == forall|i: u32| #[trigger] self@.contains(i as nat) ==> other@.contains(i as nat)),
            r == self@.subset_of(other@),
    {
        let n = self.0.words();
        let mut i: usize = 0;
        while i < n
            invariant
                n == self.0.words_view().len(),
                i <= n,
                forall|k: int| 0 <= k < i ==> self.0.words_view()[k] & !word_at(other.0.words_view(), k) == 0u64,
            decreases n - i,
        {
            if self.0.word(i) & !other.0.word(i) != 0u64 {
                proof {
                    let a = self.0.words_view()[i as int];
                    let b = word_at(other.0.words_view(), i as int);
                    lemma_nonzero_has_bit(a & !b);
                    let j = choose|j: u64| j < 64 && word_bit(a & !b, j);
                    lemma_bit_and_not(a, b, j);
                    let id = (i * 64 + j) as nat;
                    assert(id as int / 64 == i as int);
                    assert(id % 64 == j);
                    assert(self@.contains(id));
                    assert(!other@.contains(id));
                }
                return false;
            }
            i = i + 1;
        }
        proof {
            assert forall|id: nat| self@.contains(id) implies other@.contains(id) by {
                let k = id as int / 64;
                let j = (id % 64) as u64;
                lemma_bit_zero(j);
                lemma_bit_and_not(word_at(self.0.words_view(), k), word_at(other.0.words_view(), k), j);
            }
        }
        true
    }

    /// Every symbol of `other` is in `self` (not necessarily a strict superset).
    pub fn is_superset(&self, other: &SymbolSet) -> (r: bool)
        ensures
            other.ids_fit() ==> (r == forall|i: u32| #[trigger] other@.contains(i as nat) ==> self@.contains(i as nat)),
            r == other@.subset_of(self@),
    {
        other.is_subset(self)
    }
}

const START_ID: u32 = 2;

/// The symbols a `SymbolDomain` built from `decl` holds, in id order: epsilon, eof,
/// then one symbol per declaration, with ids from 2 on.
pub open spec fn declared_symbols(decl: Seq<(String, SymbolType)>) -> Seq<Symbol> {
    seq![Symbol::epsilon_spec(), Symbol::eof_spec()] + Seq::new(
        decl.len(),
        |i: int| Symbol { symbol_type: decl[i].1, id: (i + 2) as u32 },
    )
}

/// The names a `SymbolDomain` built from `decl` holds, in id order.
pub open spec fn declared_names(decl: Seq<(String, SymbolType)>) -> Seq<Seq<char>> {
    seq!["epsilon"@, "eof"@] + Seq::new(decl.len(), |i: int| decl[i].0@)
}

/// A declaration may only introduce terminals and nonterminals.
pub open spec fn declarable(decl: Seq<(String, SymbolType)>) -> bool {
    forall|i: int|
        0 <= i < decl.len() ==> (#[trigger] decl[i]).1 == SymbolType::Terminal || decl[i].1
            == SymbolType::Nonterminal
}

/// The position of the last of the first `n` names that equals `name`.
pub open spec fn last_named(names: Seq<Seq<char>>, name: Seq<char>, n: int) -> Option<int>
    decreases n,
{
    if n <= 0 {
        None
    } else if names[n - 1] == name {
        Some(n - 1)
    } else {
        last_named(names, name, n - 1)
    }
}

proof fn lemma_last_named_skip(names: Seq<Seq<char>>, name: Seq<char>, i: int, n: int)
    requires
        0 <= i <= n,
        forall|j: int| i <= j < n ==> names[j] != name,
    ensures
        last_named(names, name, n) == last_named(names, name, i),
    decreases n - i,
{
    if i < n {
        lemma_last_named_skip(names, name, i, n - 1);
    }
}

/// Looking up the name of a declared symbol finds the last symbol declared under that name: the
/// symbol itself when no later symbol shares its name.
pub proof fn lemma_name_round_trip(names: Seq<Seq<char>>, i: int)
    requires
        0 <= i < names.len(),
    ensures
        last_named(names, names[i], names.len() as int) matches Some(j) && i <= j < names.len() && names[j]
            == names[i],
        (forall|j: int| i < j < names.len() ==> names[j] != names[i]) ==> last_named(
            names,
            names[i],
            names.len() as int,
        ) == Some(i),
    decreases names.len() - i,
{
    let n = names.len() as int;
    let k = choose|k: int| i <= k < n && names[k] == names[i] && forall|j: int| k < j < n ==> names[j] != names[i];
    if exists|k: int| i <= k < n && names[k] == names[i] && forall|j: int| k < j < n ==> names[j] != names[i] {
        lemma_last_named_skip(names, names[i], k + 1, n);
    } else {
        lemma_last_index(names, names[i], i, n);
    }
    if forall|j: int| i < j < names.len() ==> names[j] != names[i] {
        lemma_last_named_skip(names, names[i], i + 1, n);
    }
}

proof fn lemma_last_index(names: Seq<Seq<char>>, name: Seq<char>, i: int, n: int)
    requires
        0 <= i < n <= names.len(),
        names[i] == name,
    ensures
        exists|k: int| i <= k < n && names[k] == name && forall|j: int| k < j < n ==> names[j] != name,
    decreases n - i,
{
    if names[n - 1] == name {
        assert(forall|j: int| n - 1 < j < n ==> names[j] != name);
    } else {
        lemma_last_index(names, name, i, n - 1);
        let k = choose|k: int| i <= k < n - 1 && names[k] == name && forall|j: int| k < j < n - 1 ==> names[j] != name;
        assert(forall|j: int| k < j < n ==> names[j] != name);
    }
}

/// A filtered sequence holds exactly the elements of the original that pass the filter.
pub(crate) proof fn lemma_filter_has_all<A>(s: Seq<A>, pred: spec_fn(A) -> bool)
    ensures
        forall|x: A| #[trigger] s.filter(pred).contains(x) == (s.contains(x) && pred(x)),
{
    assert forall|x: A| #[trigger] s.filter(pred).contains(x) == (s.contains(x) && pred(x)) by {
        lemma_filter_has(s, pred, x);
    }
}

/// A filtered sequence holds exactly the elements of the original that pass the filter.
pub(crate) proof fn lemma_filter_has<A>(s: Seq<A>, pred: spec_fn(A) -> bool, x: A)
    ensures
        s.filter(pred).contains(x) == (s.contains(x) && pred(x)),
{
    if s.filter(pred).contains(x) {
        s.lemma_filter_contains_rev(pred, x);
        let k = choose|k: int| 0 <= k < s.filter(pred).len() && s.filter(pred)[k] == x;
        s.lemma_filter_pred(pred, k);
    }
    if s.contains(x) && pred(x) {
        let k = choose|k: int| 0 <= k < s.len() && s[k] == x;
        s.lemma_filter_contains(pred, k);
    }
}

/// The terminals and the nonterminals of a domain built from `decl` split its symbols: each
/// declared symbol is in exactly one of the two lists, and neither holds a reserved symbol.
pub proof fn lemma_kinds_partition(decl: Seq<(String, SymbolType)>, s: Symbol)
    requires
        declarable(decl),
        decl.len() + 2 <= u32::MAX,
        declared_symbols(decl).contains(s),
    ensures
        declared_symbols(decl).filter(terminal_pred()).contains(s) != declared_symbols(decl).filter(
            nonterminal_pred(),
        ).contains(s) <==> s.id >= 2,
        !(declared_symbols(decl).filter(terminal_pred()).contains(s) && declared_symbols(decl).filter(
            nonterminal_pred(),
        ).contains(s)),
{
    let d = declared_symbols(decl);
    lemma_filter_has(d, terminal_pred(), s);
    lemma_filter_has(d, nonterminal_pred(), s);
    let k = choose|k: int| 0 <= k < d.len() && d[k] == s;
    if k >= 2 {
        assert(d[k] == Symbol { symbol_type: decl[k - 2].1, id: k as u32 });
        assert(decl[k - 2].1 == SymbolType::Terminal || decl[k - 2].1 == SymbolType::Nonterminal);
    } else if k == 0 {
        assert(d[k] == Symbol::epsilon_spec());
    } else {
        assert(d[k] == Symbol::eof_spec());
    }
}

proof fn lemma_split_kinds(s: Seq<Symbol>)
    requires
        forall|i: int|
            0 <= i < s.len() ==> (#[trigger] s[i]).symbol_type == SymbolType::Terminal || s[i].symbol_type
                == SymbolType::Nonterminal,
    ensures
        (s.filter(terminal_pred()) + s.filter(nonterminal_pred())).to_multiset() =~= s.to_multiset(),
    decreases s.len(),
{
    if s.len() == 0 {
        assert(s.filter(terminal_pred()) =~= Seq::<Symbol>::empty()) by {
            reveal(Seq::filter);
        }
        assert(s.filter(nonterminal_pred()) =~= Seq::<Symbol>::empty()) by {
            reveal(Seq::filter);
        }
        assert(s.filter(terminal_pred()) + s.filter(nonterminal_pred()) =~= s);
    } else {
        let p = s.drop_last();
        let x = s.last();
        assert(p.push(x) =~= s);
        assert forall|i: int| 0 <= i < p.len() implies (#[trigger] p[i]).symbol_type == SymbolType::Terminal
            || p[i].symbol_type == SymbolType::Nonterminal by {
            assert(p[i] == s[i]);
        }
        lemma_split_kinds(p);
        p.lemma_filter_push(x, terminal_pred());
        p.lemma_filter_push(x, nonterminal_pred());
        let a = p.filter(terminal_pred());
        let b = p.filter(nonterminal_pred());
        vstd::seq_lib::lemma_multiset_commutative(a, b);
        vstd::seq_lib::to_multiset_build(p, x);
        if x.symbol_type == SymbolType::Terminal {
            vstd::seq_lib::lemma_multiset_commutative(a.push(x), b);
            vstd::seq_lib::to_multiset_build(a, x);
        } else {
            vstd::seq_lib::lemma_multiset_commutative(a, b.push(x));
            vstd::seq_lib::to_multiset_build(b, x);
        }
    }
}

/// The terminals, then the nonterminals, then the two reserved symbols, of a domain built from
/// `decl` are its symbols in another order.
pub proof fn lemma_kinds_permutation(decl: Seq<(String, SymbolType)>)
    requires
        declarable(decl),
        decl.len() + 2 <= u32::MAX,
    ensures
        (declared_symbols(decl).filter(terminal_pred()) + declared_symbols(decl).filter(nonterminal_pred())
            + seq![Symbol::epsilon_spec(), Symbol::eof_spec()]).to_multiset() =~= declared_symbols(
            decl,
        ).to_multiset(),
{
    let d = declared_symbols(decl);
    let r = seq![Symbol::epsilon_spec(), Symbol::eof_spec()];
    let tail = Seq::new(decl.len(), |i: int| Symbol { symbol_type: decl[i].1, id: (i + 2) as u32 });
    assert(d == r + tail);
    assert forall|i: int| 0 <= i < tail.len() implies (#[trigger] tail[i]).symbol_type == SymbolType::Terminal
        || tail[i].symbol_type == SymbolType::Nonterminal by {
        assert(decl[i].1 == SymbolType::Terminal || decl[i].1 == SymbolType::Nonterminal);
    }
    lemma_split_kinds(tail);
    assert(r.filter(terminal_pred()) =~= Seq::<Symbol>::empty()) by {
        reveal_with_fuel(Seq::filter, 3);
        assert(r.drop_last() =~= seq![Symbol::epsilon_spec()]);
        assert(r.drop_last().drop_last() =~= Seq::<Symbol>::empty());
    }
    assert(r.filter(nonterminal_pred()) =~= Seq::<Symbol>::empty()) by {
        reveal_with_fuel(Seq::filter, 3);
        assert(r.drop_last() =~= seq![Symbol::epsilon_spec()]);
        assert(r.drop_last().drop_last() =~= Seq::<Symbol>::empty());
    }
    Seq::filter_distributes_over_add(r, tail, terminal_pred());
    Seq::filter_distributes_over_add(r, tail, nonterminal_pred());
    assert(d.filter(terminal_pred()) =~= tail.filter(terminal_pred()));
    assert(d.filter(nonterminal_pred()) =~= tail.filter(nonterminal_pred()));
    let ft = tail.filter(terminal_pred());
    let fnt = tail.filter(nonterminal_pred());
    vstd::seq_lib::lemma_multiset_commutative(ft + fnt, r);
    vstd::seq_lib::lemma_multiset_commutative(r, tail);
}

/// Holds of terminals.
pub open spec fn terminal_pred() -> spec_fn(Symbol) -> bool {
    |s: Symbol| s.symbol_type == SymbolType::Terminal
}

/// Holds of nonterminals.
pub open spec fn nonterminal_pred() -> spec_fn(Symbol) -> bool {
    |s: Symbol| s.symbol_type == SymbolType::Nonterminal
}

/// The symbols of a grammar, numbered densely from 0, with their names.
pub struct SymbolDomain {
    len: usize,
    symbols: Vec<Symbol>,
    names: Vec<String>,
    terminals: Vec<u32>,
    nonterminals: Vec<u32>,
}

impl View for SymbolDomain {
    type V = Seq<Symbol>;

    /// The symbols, in id order.
    closed spec fn view(&self) -> Seq<Symbol> {
        self.symbols@
    }
}

impl SymbolDomain {
    /// The names of the symbols, in id order.
    pub closed spec fn names(&self) -> Seq<Seq<char>> {
        self.names@.map_values(|s: String| s@)
    }

    /// Symbol `i` has id `i`; the length fields agree; ids fit in `u32`; the id lists of
    /// terminals and nonterminals follow the symbols.
    pub closed spec fn wf(&self) -> bool {
        &&& self.len == self.symbols@.len()
        &&& self.len == self.names@.len()
        &&& self.len <= u32::MAX
        &&& self.len >= 2
        &&& forall|i: int| 0 <= i < self.symbols@.len() ==> (#[trigger] self.symbols@[i]).id == i
        &&& self.terminals@ == self.symbols@.filter(terminal_pred()).map_values(|s: Symbol| s.id)
        &&& self.nonterminals@ == self.symbols@.filter(nonterminal_pred()).map_values(
            |s: Symbol| s.id,
        )
    }

    /// Builds the domain: the reserved `epsilon` (id 0) and `eof` (id 1), then the declared
    /// symbols with ids from 2 on, in order.
    pub fn new(symbols: Vec<(String, SymbolType)>) -> (domain: SymbolDomain)
        requires
            symbols@.len() + 2 <= u32::MAX,
            declarable(symbols@),
        ensures
            domain.wf(),
            domain@ == declared_symbols(symbols@),
            domain.names() == declared_names(symbols@),
    {
        let len: usize = symbols.len() + START_ID as usize;
        let capacity = len;
        let mut domain = SymbolDomain {
            len,
            symbols: Vec::with_capacity(capacity),
            names: Vec::with_capacity(capacity),
            terminals: Vec::new(),
            nonterminals: Vec::new(),
        };
        proof {
            assert(domain.symbols@.filter(terminal_pred()) =~= Seq::<Symbol>::empty()) by {
                reveal(Seq::filter);
            }
            assert(domain.symbols@.filter(nonterminal_pred()) =~= Seq::<Symbol>::empty()) by {
                reveal(Seq::filter);
            }
        }
        domain.push_reserved_tokens();
        let mut id = START_ID;
        let mut i: usize = 0;
        while i < symbols.len()
            invariant
                symbols@.len() + 2 <= u32::MAX,
                declarable(symbols@),
                len == symbols@.len() + 2,
                domain.len == len,
                id == i + 2,
                i <= symbols@.len(),
                domain.symbols@ == declared_symbols(symbols@).take(id as int),
                domain.names() == declared_names(symbols@).take(id as int),
                domain.names@.len() == id,
                domain.terminals@ == domain.symbols@.filter(terminal_pred()).map_values(
                    |s: Symbol| s.id,
                ),
                domain.nonterminals@ == domain.symbols@.filter(nonterminal_pred()).map_values(
                    |s: Symbol| s.id,
                ),
            decreases symbols@.len() - i,
        {
            let name = symbols[i].0.clone();
            let symbol_type = symbols[i].1;
            proof {
                assert(declarable(symbols@));
                assert(symbols@[i as int].1 == SymbolType::Terminal || symbols@[i as int].1
                    == SymbolType::Nonterminal);
            }
            domain.push_new_symbol(id, name, symbol_type);
            proof {
                assert(declared_symbols(symbols@).take(id + 1) =~= declared_symbols(symbols@).take(
                    id as int,
                ).push(Symbol { symbol_type, id }));
                assert(declared_names(symbols@).take(id + 1) =~= declared_names(symbols@).take(
                    id as int,
                ).push(symbols@[i as int].0@));
            }
            id += 1;
            i = i + 1;
        }
        proof {
            assert(declared_symbols(symbols@).take(id as int) =~= declared_symbols(symbols@));
            assert(declared_names(symbols@).take(id as int) =~= declared_names(symbols@));
            assert forall|k: int| 0 <= k < domain.symbols@.len() implies (
            #[trigger] domain.symbols@[k]).id == k by {}
        }
        domain
    }

    fn push_reserved_tokens(&mut self)
        requires
            old(self).symbols@.len() == 0,
            old(self).names@.len() == 0,
            old(self).terminals@.len() == 0,
            old(self).nonterminals@.len() == 0,
        ensures
            final(self).len == old(self).len,
            final(self).symbols@ == seq![Symbol::epsilon_spec(), Symbol::eof_spec()],
            final(self).names() == seq!["epsilon"@, "eof"@],
            final(self).names@.len() == 2,
            final(self).terminals@.len() == 0,
            final(self).nonterminals@.len() == 0,
            final(self).symbols@.filter(terminal_pred()).len() == 0,
            final(self).symbols@.filter(nonterminal_pred()).len() == 0,
    {
        self.symbols.push(Symbol::epsilon());
        self.symbols.push(Symbol::eof());
        self.names.push(String::from_str("epsilon"));
        self.names.push(String::from_str("eof"));
        proof {
            reveal_with_fuel(Seq::filter, 3);
            assert(self.symbols@.drop_last() =~= seq![Symbol::epsilon_spec()]);
            assert(self.symbols@.drop_last().drop_last() =~= Seq::<Symbol>::empty());
            assert(self.names() =~= seq!["epsilon"@, "eof"@]);
        }
    }

    fn push_new_symbol(&mut self, id: u32, name: String, symbol_type: SymbolType)
        requires
            symbol_type == SymbolType::Terminal || symbol_type == SymbolType::Nonterminal,
            old(self).terminals@ == old(self).symbols@.filter(terminal_pred()).map_values(
                |s: Symbol| s.id,
            ),
            old(self).nonterminals@ == old(self).symbols@.filter(nonterminal_pred()).map_values(
                |s: Symbol| s.id,
            ),
        ensures
            final(self).len == old(self).len,
            final(self).symbols@ == old(self).symbols@.push(Symbol { symbol_type, id }),
            final(self).names() == old(self).names().push(name@),
            final(self).names@.len() == old(self).names@.len() + 1,
            final(self).terminals@ == final(self).symbols@.filter(terminal_pred()).map_values(
                |s: Symbol| s.id,
            ),
            final(self).nonterminals@ == final(self).symbols@.filter(nonterminal_pred()).map_values(
                |s: Symbol| s.id,
            ),
    {
        let ghost old_symbols = self.symbols@;
        match symbol_type {
            SymbolType::Terminal => self.terminals.push(id),
            _ => self.nonterminals.push(id),
        }
        self.symbols.push(Symbol { symbol_type, id });
        self.names.push(name);
        proof {
            let s = Symbol { symbol_type, id };
            old_symbols.lemma_filter_push(s, terminal_pred());
            old_symbols.lemma_filter_push(s, nonterminal_pred());
            assert(self.terminals@ =~= self.symbols@.filter(terminal_pred()).map_values(
                |s: Symbol| s.id,
            ));
            assert(self.nonterminals@ =~= self.symbols@.filter(nonterminal_pred()).map_values(
                |s: Symbol| s.id,
            ));
            assert(self.names() =~= old(self).names().push(name@));
        }
    }

    /// Symbol `i` of a well-formed domain has id `i`.
    pub proof fn lemma_ids(&self)
        requires
            self.wf(),
        ensures
            forall|i: int| 0 <= i < self@.len() ==> (#[trigger] self@[i]).id == i,
            self@.len() <= u32::MAX,
            self@.len() >= 2,
            self.names().len() == self@.len(),
    {
    }

    /// The number of symbols, the reserved two included.
    pub fn len(&self) -> (r: usize)
        requires
            self.wf(),
        ensures
            r == self@.len(),
    {
        self.len
    }

    /// The name of `symbol`, found by its id.
    pub fn symbol_name(&self, symbol: Symbol) -> (r: String)
        requires
            self.wf(),
            (symbol.id as nat) < self@.len(),
        ensures
            r@ == self.names()[symbol.id as int],
    {
        self.names[symbol.id as usize].clone()
    }

    /// The symbol called `name`; where several share the name, the one declared last.
    pub fn by_name(&self, name: &str) -> (r: Option<Symbol>)
        requires
            self.wf(),
        ensures
            match r {
                Some(s) => {
                    &&& (s.id as int) < self@.len()
                    &&& self@[s.id as int] == s
                    &&& self.names()[s.id as int] == name@
                    &&& forall|j: int|
                        s.id < j < self@.len() ==> self.names()[j] != name@
                },
                None => forall|j: int| 0 <= j < self@.len() ==> self.names()[j] != name@,
            },
            r == match last_named(self.names(), name@, self@.len() as int) {
                Some(j) => Some(self@[j]),
                None => None::<Symbol>,
            },
    {
        let key = String::from_str(name);
        let mut i = self.len;
        while i > 0
            invariant
                self.wf(),
                i <= self.len,
                key@ == name@,
                forall|j: int| i <= j < self@.len() ==> self.names()[j] != name@,
            decreases i,
        {
            i = i - 1;
            if self.names[i] == key {
                proof {
                    lemma_last_named_skip(self.names(), name@, i + 1, self@.len() as int);
                }
                return Some(self.symbols[i]);
            }
        }
        proof {
            lemma_last_named_skip(self.names(), name@, 0, self@.len() as int);
        }
        None
    }

    /// The terminals, in id order.
    pub fn terminals(&self) -> (r: Vec<Symbol>)
        requires
            self.wf(),
        ensures
            r@ == self@.filter(terminal_pred()),
    {
        let mut r: Vec<Symbol> = Vec::new();
        let mut i: usize = 0;
        while i < self.len
            invariant
                self.wf(),
                i <= self.len,
                r@ == self.symbols@.take(i as int).filter(terminal_pred()),
            decreases self.len - i,
        {
            let s = self.symbols[i];
            if s.is_terrminal() {
                r.push(s);
            }
            proof {
                assert(self.symbols@.take(i + 1) =~= self.symbols@.take(i as int).push(s));
                self.symbols@.take(i as int).lemma_filter_push(s, terminal_pred());
            }
            i = i + 1;
        }
        proof {
            assert(self.symbols@.take(i as int) =~= self.symbols@);
        }
        r
    }

    /// The nonterminals, in id order.
    pub fn nonterminals(&self) -> (r: Vec<Symbol>)
        requires
            self.wf(),
        ensures
            r@ == self@.filter(nonterminal_pred()),
    {
        let mut r: Vec<Symbol> = Vec::new();
        let mut i: usize = 0;
        while i < self.len
            invariant
                self.wf(),
                i <= self.len,
                r@ == self.symbols@.take(i as int).filter(nonterminal_pred()),
            decreases self.len - i,
        {
            let s = self.symbols[i];
            if s.is_nonterrminal() {
                r.push(s);
            }
            proof {
                assert(self.symbols@.take(i + 1) =~= self.symbols@.take(i as int).push(s));
                self.symbols@.take(i as int).lemma_filter_push(s, nonterminal_pred());
            }
            i = i + 1;
        }
        proof {
            assert(self.symbols@.take(i as int) =~= self.symbols@);
        }
        r
    }

    /// All the symbols, in id order.
    pub fn iter(&self) -> (r: Vec<Symbol>)
        requires
            self.wf(),
        ensures
            r@ == self@,
    {
        let mut r: Vec<Symbol> = Vec::new();
        let mut i: usize = 0;
        while i < self.len
            invariant
                self.wf(),
                i <= self.len,
                r@ == self.symbols@.take(i as int),
            decreases self.len - i,
        {
            r.push(self.symbols[i]);
            proof {
                assert(self.symbols@.take(i + 1) =~= self.symbols@.take(i as int).push(
                    self.symbols@[i as int],
                ));
            }
            i = i + 1;
        }
        proof {
            assert(self.symbols@.take(i as int) =~= self.symbols@);
        }
        r
    }
}

impl SymbolSet {
    /// Holds of the symbols whose id is in the set.
    pub open spec fn member_pred(&self) -> spec_fn(Symbol) -> bool {
        let ids = self@;
        |s: Symbol| ids.contains(s.id as nat)
    }

    /// The symbols of `domain` that are in the set, in id order.
    pub fn iter(&self, domain: &SymbolDomain) -> (r: Vec<Symbol>)
        requires
            domain.wf(),
        ensures
            r@ == domain@.filter(self.member_pred()),
    {
        let mut r: Vec<Symbol> = Vec::new();
        let mut id: usize = 0;
        while id < domain.len
            invariant
                domain.wf(),
                id <= domain.len,
                r@ == domain.symbols@.take(id as int).filter(self.member_pred()),
            decreases domain.len - id,
        {
            let s = domain.symbols[id];
            if self.contains_id(id as u32) {
                r.push(s);
            }
            proof {
                assert(domain.symbols@.take(id + 1) =~= domain.symbols@.take(id as int).push(s));
                domain.symbols@.take(id as int).lemma_filter_push(s, self.member_pred());
            }
            id = id + 1;
        }
        proof {
            assert(domain.symbols@.take(id as int) =~= domain.symbols@);
        }
        r
    }
}

/// The naturals below `n`.
pub open spec fn nat_range(n: nat) -> Set<nat> {
    Set::new(|i: nat| i < n)
}

/// The naturals below `n` are `n` in number.
pub proof fn lemma_nat_range(n: nat)
    ensures
        nat_range(n).finite(),
        nat_range(n).len() == n,
    decreases n,
{
    if n == 0 {
        assert(nat_range(n) =~= Set::<nat>::empty());
    } else {
        lemma_nat_range((n - 1) as nat);
        assert(nat_range((n - 1) as nat).insert((n - 1) as nat) =~= nat_range(n));
    }
}

impl SymbolSet {
    /// Every id in the set is below its capacity, so the set is finite and no larger than it.
    /// A set whose capacity does not pass the ids of symbols holds only such ids.
    pub proof fn lemma_ids_fit(&self)
        requires
            self.capacity() <= u32::MAX + 1,
        ensures
            self.ids_fit(),
    {
        self.lemma_bounded();
    }

    pub proof fn lemma_bounded(&self)
        ensures
            self@.subset_of(nat_range(self.capacity())),
            self@.finite(),
            self@.len() <= self.capacity(),
    {
        let ws = self.0.words_view();
        assert forall|i: nat| self@.contains(i) implies nat_range(self.capacity()).contains(i) by {
            let k = i as int / 64;
            lemma_bit_zero((i % 64) as u64);
            assert(0 <= k < ws.len());
        }
        lemma_nat_range(self.capacity());
        vstd::set_lib::lemma_len_subset(self@, nat_range(self.capacity()));
    }
}

} // verus!
