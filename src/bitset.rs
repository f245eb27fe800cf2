//! Fixed-width bit vectors stored as little-endian 64-bit words.
use vstd::prelude::*;

verus! {

/// Bit `k` of the word `w`.
pub open spec fn wbit(w: u64, k: u64) -> bool {
    (w >> k) & 1u64 == 1u64
}

/// Bit `p` of a little-endian word sequence.
pub open spec fn word_bit(words: Seq<u64>, p: int) -> bool {
    wbit(words[p / 64], (p % 64) as u64)
}

/// Number of 64-bit words needed to hold `n` bits.
pub open spec fn words_for(n: nat) -> nat {
    (n + 63) / 64
}

proof fn lemma_word_ops(a: u64, b: u64, k: u64)
    by (bit_vector)
    requires
        k < 64,
    ensures
        wbit(a & b, k) == (wbit(a, k) && wbit(b, k)),
        wbit(a | b, k) == (wbit(a, k) || wbit(b, k)),
        wbit(!a, k) == !wbit(a, k),
        !wbit(0u64, k),
        wbit(0xffff_ffff_ffff_ffffu64, k),
        wbit(a & !b, k) == (wbit(a, k) && !wbit(b, k)),
{
}

proof fn lemma_mask(a: u64, m: u64, k: u64)
    by (bit_vector)
    requires
        m < 64,
        k < 64,
    ensures
        wbit(a & (((1u64 << m) - 1u64) as u64), k) == (k < m && wbit(a, k)),
{
}

/// Two words that differ differ in some bit.
proof fn lemma_word_diff(a: u64, b: u64) -> (t: u64)
    requires
        a != b,
    ensures
        t < 64,
        wbit(a, t) != wbit(b, t),
{
    let x = a ^ b;
    assert(x != 0) by (bit_vector)
        requires
            a != b,
            x == a ^ b,
    ;
    vstd::std_specs::bits::axiom_u64_trailing_zeros(x);
    let t = x.trailing_zeros() as u64;
    assert(((x >> t) & 1u64 == 1u64) ==> wbit(a, t) != wbit(b, t)) by (bit_vector)
        requires
            x == a ^ b,
    ;
    t
}

proof fn lemma_set_word(w: u64, m: u64, k: u64)
    by (bit_vector)
    requires
        m < 64,
        k < 64,
    ensures
        wbit(w | (1u64 << m), k) == (k == m || wbit(w, k)),
{
}

/// A nonzero word has a set bit.
proof fn lemma_nonzero_word(a: u64) -> (t: u64)
    requires
        a != 0,
    ensures
        t < 64,
        wbit(a, t),
{
    let t = lemma_word_diff(a, 0);
    lemma_word_ops(a, 0, t);
    t
}

proof fn lemma_words_for(n: nat)
    ensures
        n <= words_for(n) * 64 < n + 64,
        n % 64 == 0 ==> words_for(n) * 64 == n,
        n % 64 != 0 ==> words_for(n) > 0 && (words_for(n) - 1) * 64 + n % 64 == n,
{
}

/// Number of set positions.
pub open spec fn count_true(s: Seq<bool>) -> nat
    decreases s.len(),
{
    if s.len() == 0 {
        0
    } else {
        count_true(s.drop_last()) + if s.last() {
            1nat
        } else {
            0nat
        }
    }
}

/// The set positions, in ascending order.
pub open spec fn set_bits(s: Seq<bool>) -> Seq<int>
    decreases s.len(),
{
    if s.len() == 0 {
        Seq::empty()
    } else if s.last() {
        set_bits(s.drop_last()).push(s.len() - 1)
    } else {
        set_bits(s.drop_last())
    }
}

/// Every position below `p` is unset.
pub open spec fn zero_below(s: Seq<bool>, p: int) -> bool {
    forall|q: int| 0 <= q < p ==> !s[q]
}

/// The set read as a natural number, least significant bit first, minus
/// one, modulo two to the width: the bits up to and including the lowest set
/// bit flip, the others stay.
pub open spec fn decremented(s: Seq<bool>) -> Seq<bool> {
    Seq::new(s.len(), |p: int| s[p] != zero_below(s, p))
}

/// The set of width `n` whose only element is `q`.
pub open spec fn singleton(n: nat, q: int) -> Seq<bool> {
    Seq::new(n, |p: int| p == q)
}

/// Bit `p` of a 128-bit integer.
pub open spec fn bit128(v: u128, p: u128) -> bool {
    (v >> p) & 1u128 == 1u128
}

/// Lexicographic order on word sequences, first word most significant for
/// the comparison.
pub open spec fn lex_lt(a: Seq<u64>, b: Seq<u64>) -> bool
    decreases a.len(),
{
    if a.len() == 0 {
        b.len() > 0
    } else if b.len() == 0 {
        false
    } else if a[0] != b[0] {
        a[0] < b[0]
    } else {
        lex_lt(a.drop_first(), b.drop_first())
    }
}

/// Shortlex order: by number of set bits, then lexicographically by words.
pub open spec fn shortlex_lt(ca: nat, a: Seq<u64>, cb: nat, b: Seq<u64>) -> bool {
    ca < cb || (ca == cb && lex_lt(a, b))
}

/// The shortlex order is transitive.
pub proof fn shortlex_transitive(
    ca: nat,
    a: Seq<u64>,
    cb: nat,
    b: Seq<u64>,
    cc: nat,
    c: Seq<u64>,
)
    requires
        shortlex_lt(ca, a, cb, b),
        shortlex_lt(cb, b, cc, c),
    ensures
        shortlex_lt(ca, a, cc, c),
{
    if ca == cb && cb == cc {
        lemma_lex_transitive(a, b, c);
    }
}

/// No word sequence comes before itself.
pub proof fn lex_irreflexive(a: Seq<u64>)
    ensures
        !lex_lt(a, a),
    decreases a.len(),
{
    if a.len() > 0 {
        lex_irreflexive(a.drop_first());
    }
}

proof fn lemma_lex_transitive(a: Seq<u64>, b: Seq<u64>, c: Seq<u64>)
    requires
        lex_lt(a, b),
        lex_lt(b, c),
    ensures
        lex_lt(a, c),
    decreases a.len(),
{
    if a.len() > 0 && a[0] == b[0] && b[0] == c[0] {
        lemma_lex_transitive(a.drop_first(), b.drop_first(), c.drop_first());
    }
}

proof fn lemma_dec_word(w: u64, b: u64)
    by (bit_vector)
    requires
        w != 0,
        b < 64,
    ensures
        wbit((w - 1) as u64, b) == (wbit(w, b) != (w & (((1u64 << b) - 1u64) as u64) == 0)),
{
}

/// The low-bit mask of a word is zero exactly when the bits below `b` are.
proof fn lemma_low_bits(w: u64, b: u64)
    requires
        b < 64,
    ensures
        (w & (((1u64 << b) - 1u64) as u64) == 0) == (forall|c: u64| c < b ==> !wbit(w, c)),
{
    let m = w & (((1u64 << b) - 1u64) as u64);
    if m == 0 {
        assert forall|c: u64| c < b implies !wbit(w, c) by {
            lemma_mask(w, b, c);
            lemma_word_ops(0, 0, c);
        }
    } else {
        let t = lemma_nonzero_word(m);
        lemma_mask(w, b, t);
        assert(t < b && wbit(w, t));
    }
}

proof fn lemma_split128(v: u128, k: u64)
    by (bit_vector)
    requires
        k < 64,
    ensures
        wbit((v % 0x1_0000_0000_0000_0000u128) as u64, k) == bit128(v, k as u128),
        wbit((v / 0x1_0000_0000_0000_0000u128) as u64, k) == bit128(v, (k + 64) as u128),
{
}

proof fn lemma_join128(a: u64, b: u64, k: u64)
    by (bit_vector)
    requires
        k < 64,
    ensures
        bit128((a as u128) | ((b as u128) << 64u128), k as u128) == wbit(a, k),
        bit128((a as u128) | ((b as u128) << 64u128), (k + 64) as u128) == wbit(b, k),
{
}

/// Positions below `j` in a set of width `n` number `j` when `j <= n`.
proof fn lemma_count_prefix(n: nat, j: nat)
    requires
        j <= n,
    ensures
        count_true(Seq::new(n, |p: int| p < j)) == j,
    decreases n,
{
    if n > 0 {
        let s = Seq::new(n, |p: int| p < j);
        assert(s.drop_last() =~= Seq::new((n - 1) as nat, |p: int| p < j));
        if j == n {
            lemma_count_prefix((n - 1) as nat, (n - 1) as nat);
            assert(s.drop_last() =~= Seq::new((n - 1) as nat, |p: int| p < n - 1));
        } else {
            lemma_count_prefix((n - 1) as nat, j);
        }
    }
}

/// Decrementing the singleton of position `j` gives the positions below `j`,
/// of which there are `j`.
pub proof fn atom_decrement(n: nat, j: int)
    requires
        0 <= j < n,
    ensures
        decremented(singleton(n, j)) == Seq::new(n, |p: int| p < j),
        count_true(decremented(singleton(n, j))) == j,
        forall|p: int| 0 <= p < n && #[trigger] decremented(singleton(n, j))[p] ==> p < j,
{
    let s = singleton(n, j);
    assert forall|p: int| 0 <= p < n implies #[trigger] decremented(s)[p] == (p < j) by {
        assert(s[j]);
        if p > j {
            assert(!zero_below(s, p));
        } else {
            assert(zero_below(s, p));
        }
    }
    assert(decremented(s) =~= Seq::new(n, |p: int| p < j));
    lemma_count_prefix(n, j as nat);
}

/// A bit vector of fixed width `n_bits`.
#[derive(Clone, Debug)]
pub struct BitSet {
    words: Vec<u64>,
    n_bits: usize,
}

impl View for BitSet {
    type V = Seq<bool>;

    closed spec fn view(&self) -> Seq<bool> {
        Seq::new(self.n_bits as nat, |p: int| word_bit(self.words@, p))
    }
}

impl BitSet {
    /// The storage has the right number of words and every bit at or beyond
    /// the width is zero.
    pub closed spec fn wf(&self) -> bool {
        &&& self.words@.len() == words_for(self.n_bits as nat)
        &&& forall|p: int|
            self.n_bits <= p < self.words@.len() * 64 ==> !word_bit(self.words@, p)
    }

    /// The words of the storage, least significant first.
    pub closed spec fn word_seq(&self) -> Seq<u64> {
        self.words@
    }

    fn word_count(n_bits: usize) -> (r: usize)
        ensures
            r == words_for(n_bits as nat),
    {
        n_bits / 64 + if n_bits % 64 != 0 { 1 } else { 0 }
    }

    /// The empty set of width `n_bits`.
    pub fn new(n_bits: usize) -> (r: BitSet)
        ensures
            r.wf(),
            r@ == Seq::new(n_bits as nat, |p: int| false),
    {
        let n_words = Self::word_count(n_bits);
        let words: Vec<u64> = vec![0u64; n_words];
        let r = BitSet { words, n_bits };
        assert forall|p: int| 0 <= p < r.words@.len() * 64 implies !word_bit(r.words@, p) by {
            lemma_word_ops(0, 0, (p % 64) as u64);
        }
        assert(r@ =~= Seq::new(n_bits as nat, |p: int| false));
        r
    }

    /// Bit `i`; positions at or beyond the width read as unset.
    pub fn get(&self, i: usize) -> (r: bool)
        requires
            self.wf(),
        ensures
            r == (i < self@.len() && self@[i as int]),
    {
        if i >= self.n_bits {
            false
        } else {
            let w = self.words[i / 64];
            let k = (i % 64) as u64;
            assert((w >> k) & 1u64 != 0u64 <==> wbit(w, k)) by (bit_vector);
            (w >> k) & 1 != 0
        }
    }

    /// A copy of this set.
    pub fn copy(&self) -> (r: BitSet)
        requires
            self.wf(),
        ensures
            r.wf(),
            r@ == self@,
            r.word_seq() == self.word_seq(),
    {
        let words = self.words.clone();
        assert(words@ =~= self.words@);
        BitSet { words, n_bits: self.n_bits }
    }

    /// Clears the bits of the trailing word that lie at or beyond the width.
    fn mask_tail(&mut self)
        requires
            old(self).words@.len() == words_for(old(self).n_bits as nat),
        ensures
            final(self).wf(),
            final(self).n_bits == old(self).n_bits,
            final(self).words@.len() == old(self).words@.len(),
            forall|p: int|
                0 <= p < old(self).words@.len() * 64 ==> word_bit(final(self).words@, p) == (p
                    < old(self).n_bits && word_bit(old(self).words@, p)),
    {
        let ghost w0 = self.words@;
        proof {
            lemma_words_for(self.n_bits as nat);
        }
        if self.n_bits % 64 != 0 {
            let last = self.words.len() - 1;
            let m = (self.n_bits % 64) as u64;
            let w = self.words[last];
            assert(1u64 << m >= 1) by (bit_vector)
                requires
                    m < 64,
            ;
            self.words.set(last, w & ((1u64 << m) - 1));
            assert forall|p: int| 0 <= p < w0.len() * 64 implies #[trigger] word_bit(self.words@, p)
                == (p < self.n_bits && word_bit(w0, p)) by {
                if p / 64 == last {
                    lemma_mask(w, m, (p % 64) as u64);
                    assert(p < self.n_bits <==> p % 64 < m);
                } else {
                    assert(p < self.n_bits);
                    assert(self.words@[p / 64] == w0[p / 64]);
                }
            }
        } else {
            assert(self.words@.len() * 64 == self.n_bits);
        }
    }

    /// The complement within the width.
    pub fn complement(&self) -> (r: BitSet)
        requires
            self.wf(),
        ensures
            r.wf(),
            r@.len() == self@.len(),
            forall|p: int| 0 <= p < r@.len() ==> r@[p] == !self@[p],
    {
        let n_words = self.words.len();
        let mut words: Vec<u64> = Vec::with_capacity(n_words);
        let mut k: usize = 0;
        while k < n_words
            invariant
                k <= n_words,
                n_words == self.words@.len(),
                words@.len() == k,
                forall|q: int| 0 <= q < k ==> words@[q] == !self.words@[q],
            decreases n_words - k,
        {
            words.push(!self.words[k]);
            k += 1;
        }
        let mut r = BitSet { words, n_bits: self.n_bits };
        r.mask_tail();
        assert forall|p: int| 0 <= p < r@.len() implies r@[p] == !self@[p] by {
            lemma_word_ops(self.words@[p / 64], 0, (p % 64) as u64);
        }
        r
    }

    /// The full set of width `n_bits`.
    pub fn supremum(n_bits: usize) -> (r: BitSet)
        ensures
            r.wf(),
            r@ == Seq::new(n_bits as nat, |p: int| true),
    {
        let r = BitSet::new(n_bits).complement();
        assert(r@ =~= Seq::new(n_bits as nat, |p: int| true));
        r
    }

    /// Intersection.
    pub fn and(&self, other: &BitSet) -> (r: BitSet)
        requires
            self.wf(),
            other.wf(),
            self@.len() == other@.len(),
        ensures
            r.wf(),
            r@.len() == self@.len(),
            forall|p: int| 0 <= p < r@.len() ==> r@[p] == (self@[p] && other@[p]),
    {
        let n_words = self.words.len();
        let mut words: Vec<u64> = Vec::with_capacity(n_words);
        let mut k: usize = 0;
        while k < n_words
            invariant
                k <= n_words,
                n_words == self.words@.len(),
                n_words == other.words@.len(),
                words@.len() == k,
                forall|q: int| 0 <= q < k ==> words@[q] == self.words@[q] & other.words@[q],
            decreases n_words - k,
        {
            words.push(self.words[k] & other.words[k]);
            k += 1;
        }
        let r = BitSet { words, n_bits: self.n_bits };
        assert forall|p: int| 0 <= p < n_words * 64 implies word_bit(r.words@, p) == (word_bit(
            self.words@,
            p,
        ) && word_bit(other.words@, p)) by {
            lemma_word_ops(self.words@[p / 64], other.words@[p / 64], (p % 64) as u64);
        }
        r
    }

    /// Union.
    pub fn or(&self, other: &BitSet) -> (r: BitSet)
        requires
            self.wf(),
            other.wf(),
            self@.len() == other@.len(),
        ensures
            r.wf(),
            r@.len() == self@.len(),
            forall|p: int| 0 <= p < r@.len() ==> r@[p] == (self@[p] || other@[p]),
    {
        let n_words = self.words.len();
        let mut words: Vec<u64> = Vec::with_capacity(n_words);
        let mut k: usize = 0;
        while k < n_words
            invariant
                k <= n_words,
                n_words == self.words@.len(),
                n_words == other.words@.len(),
                words@.len() == k,
                forall|q: int| 0 <= q < k ==> words@[q] == self.words@[q] | other.words@[q],
            decreases n_words - k,
        {
            words.push(self.words[k] | other.words[k]);
            k += 1;
        }
        let r = BitSet { words, n_bits: self.n_bits };
        assert forall|p: int| 0 <= p < n_words * 64 implies word_bit(r.words@, p) == (word_bit(
            self.words@,
            p,
        ) || word_bit(other.words@, p)) by {
            lemma_word_ops(self.words@[p / 64], other.words@[p / 64], (p % 64) as u64);
        }
        r
    }

    /// Sets bit `i`; a position at or beyond the width is ignored.
    pub fn set(&mut self, i: usize)
        requires
            old(self).wf(),
        ensures
            final(self).wf(),
            final(self)@ == if i < old(self)@.len() {
                old(self)@.update(i as int, true)
            } else {
                old(self)@
            },
    {
        if i < self.n_bits {
            let ghost w0 = self.words@;
            proof {
                lemma_words_for(self.n_bits as nat);
            }
            let m = (i % 64) as u64;
            let w = self.words[i / 64];
            self.words.set(i / 64, w | (1u64 << m));
            assert forall|p: int| 0 <= p < w0.len() * 64 implies #[trigger] word_bit(self.words@, p)
                == (p == i || word_bit(w0, p)) by {
                if p / 64 == i / 64 {
                    lemma_set_word(w, m, (p % 64) as u64);
                    assert(p == i <==> p % 64 == i % 64);
                } else {
                    assert(p != i);
                }
            }
            assert(word_bit(self.words@, i as int));
            assert(self@ =~= old(self)@.update(i as int, true));
        }
    }

    /// Whether no bit is set.
    pub fn is_empty(&self) -> (r: bool)
        requires
            self.wf(),
        ensures
            r == (forall|p: int| 0 <= p < self@.len() ==> !self@[p]),
    {
        let mut k: usize = 0;
        while k < self.words.len()
            invariant
                k <= self.words@.len(),
                self.wf(),
                forall|q: int| 0 <= q < k ==> self.words@[q] == 0,
            decreases self.words@.len() - k,
        {
            if self.words[k] != 0 {
                proof {
                    let t = lemma_nonzero_word(self.words@[k as int]);
                    let p: int = k as int * 64 + t as int;
                    assert(p / 64 == k && p % 64 == t);
                    assert(word_bit(self.words@, p));
                    if p >= self.n_bits {
                        assert(!word_bit(self.words@, p));
                    }
                    assert(self@[p]);
                }
                return false;
            }
            k += 1;
        }
        assert forall|p: int| 0 <= p < self@.len() implies !self@[p] by {
            lemma_word_ops(0, 0, (p % 64) as u64);
        }
        true
    }

    /// Whether every bit of `self` is also set in `other`.
    pub fn is_subset(&self, other: &BitSet) -> (r: bool)
        requires
            self.wf(),
            other.wf(),
            self@.len() == other@.len(),
        ensures
            r == (forall|p: int| 0 <= p < self@.len() ==> self@[p] ==> other@[p]),
    {
        let mut k: usize = 0;
        while k < self.words.len()
            invariant
                k <= self.words@.len(),
                self.wf(),
                other.wf(),
                self.words@.len() == other.words@.len(),
                self.n_bits == other.n_bits,
                forall|q: int| 0 <= q < k ==> self.words@[q] & !other.words@[q] == 0,
            decreases self.words@.len() - k,
        {
            if self.words[k] & !other.words[k] != 0 {
                proof {
                    let a = self.words@[k as int];
                    let b = other.words@[k as int];
                    let t = lemma_nonzero_word(a & !b);
                    lemma_word_ops(a, b, t);
                    let p: int = k as int * 64 + t as int;
                    assert(p / 64 == k && p % 64 == t);
                    assert(word_bit(self.words@, p) && !word_bit(other.words@, p));
                    if p >= self.n_bits {
                        assert(!word_bit(self.words@, p));
                    }
                    assert(self@[p] && !other@[p]);
                }
                return false;
            }
            k += 1;
        }
        assert forall|p: int| 0 <= p < self@.len() && self@[p] implies other@[p] by {
            lemma_word_ops(self.words@[p / 64], other.words@[p / 64], (p % 64) as u64);
            lemma_word_ops(0, 0, (p % 64) as u64);
        }
        true
    }

    /// Whether the two sets have the same width and the same bits.
    pub fn equals(&self, other: &BitSet) -> (r: bool)
        requires
            self.wf(),
            other.wf(),
        ensures
            r == (self@ == other@),
    {
        if self.n_bits != other.n_bits {
            return false;
        }
        let mut k: usize = 0;
        while k < self.words.len()
            invariant
                k <= self.words@.len(),
                self.wf(),
                other.wf(),
                self.words@.len() == other.words@.len(),
                self.n_bits == other.n_bits,
                forall|q: int| 0 <= q < k ==> self.words@[q] == other.words@[q],
            decreases self.words@.len() - k,
        {
            if self.words[k] != other.words[k] {
                proof {
                    let t = lemma_word_diff(self.words@[k as int], other.words@[k as int]);
                    let p: int = k as int * 64 + t as int;
                    assert(p / 64 == k && p % 64 == t);
                    assert(word_bit(self.words@, p) != word_bit(other.words@, p));
                    if p >= self.n_bits {
                        assert(!word_bit(self.words@, p));
                    }
                    assert(self@[p] != other@[p]);
                }
                return false;
            }
            k += 1;
        }
        assert(self@ =~= other@);
        true
    }

    /// Number of set bits.
    pub fn count(&self) -> (r: usize)
        requires
            self.wf(),
        ensures
            r == count_true(self@),
    {
        let mut c: usize = 0;
        let mut i: usize = 0;
        while i < self.n_bits
            invariant
                i <= self.n_bits,
                self.wf(),
                c <= i,
                c == count_true(self@.subrange(0, i as int)),
            decreases self.n_bits - i,
        {
            assert(self@.subrange(0, i + 1).drop_last() =~= self@.subrange(0, i as int));
            if self.get(i) {
                c += 1;
            }
            i += 1;
        }
        assert(self@.subrange(0, self.n_bits as int) =~= self@);
        c
    }

    /// Decrement by one of the set read as a natural number, least
    /// significant bit first, modulo two to the width: the bits up to and
    /// including the lowest set bit flip, the others stay.
    pub fn sub_one(&self) -> (r: BitSet)
        requires
            self.wf(),
        ensures
            r.wf(),
            r@ == decremented(self@),
    {
        let n_words = self.words.len();
        let ghost x = self.words@;
        let mut words: Vec<u64> = Vec::with_capacity(n_words);
        let mut borrow = true;
        let mut k: usize = 0;
        while k < n_words
            invariant
                k <= n_words,
                n_words == x.len(),
                x == self.words@,
                words@.len() == k,
                borrow == (forall|q: int| 0 <= q < k * 64 ==> !word_bit(x, q)),
                forall|p: int|
                    0 <= p < k * 64 ==> #[trigger] word_bit(words@, p) == (word_bit(x, p) != (
                    forall|q: int| 0 <= q < p ==> !word_bit(x, q))),
            decreases n_words - k,
        {
            let w = self.words[k];
            let ghost old_words = words@;
            let ghost old_borrow = borrow;
            if borrow {
                if w == 0 {
                    words.push(0xffff_ffff_ffff_ffffu64);
                } else {
                    words.push(w - 1);
                    borrow = false;
                }
            } else {
                words.push(w);
            }
            proof {
                assert forall|p: int| 0 <= p < (k + 1) * 64 implies #[trigger] word_bit(words@, p)
                    == (word_bit(x, p) != (forall|q: int| 0 <= q < p ==> !word_bit(x, q))) by {
                    if p < k * 64 {
                        assert(word_bit(words@, p) == word_bit(old_words, p));
                    } else {
                        let b = (p % 64) as u64;
                        assert(p / 64 == k);
                        if !old_borrow {
                            let q0 = choose|q: int| 0 <= q < k * 64 && word_bit(x, q);
                            assert(word_bit(words@, p) == word_bit(x, p));
                        } else if w == 0 {
                            lemma_word_ops(0, 0, b);
                            assert forall|q: int| 0 <= q < p implies !word_bit(x, q) by {
                                if q >= k * 64 {
                                    assert(q / 64 == k);
                                    lemma_word_ops(0, 0, (q % 64) as u64);
                                }
                            }
                        } else {
                            lemma_dec_word(w, b);
                            lemma_low_bits(w, b);
                            if w & (((1u64 << b) - 1u64) as u64) == 0 {
                                assert forall|q: int| 0 <= q < p implies !word_bit(x, q) by {
                                    if q >= k * 64 {
                                        assert(q / 64 == k);
                                        let c = (q % 64) as u64;
                                        assert(c < b);
                                    }
                                }
                            } else {
                                let c = choose|c: u64| c < b && wbit(w, c);
                                let q: int = k * 64 + c as int;
                                assert(q / 64 == k && q % 64 == c as int);
                                assert(word_bit(x, q));
                            }
                        }
                    }
                }
                if old_borrow && w != 0 {
                    let t = lemma_nonzero_word(w);
                    let q: int = k * 64 + t as int;
                    assert(q / 64 == k && q % 64 == t as int);
                    assert(word_bit(x, q));
                }
                if old_borrow && w == 0 {
                    assert forall|q: int| 0 <= q < (k + 1) * 64 implies !word_bit(x, q) by {
                        if q >= k * 64 {
                            assert(q / 64 == k);
                            lemma_word_ops(0, 0, (q % 64) as u64);
                        }
                    }
                }
            }
            k += 1;
        }
        let mut r = BitSet { words, n_bits: self.n_bits };
        proof {
            lemma_words_for(self.n_bits as nat);
        }
        r.mask_tail();
        assert forall|p: int| 0 <= p < r@.len() implies r@[p] == decremented(self@)[p] by {
            if zero_below(self@, p) {
                assert forall|q: int| 0 <= q < p implies !word_bit(x, q) by {
                    assert(!self@[q]);
                }
            } else {
                let q = choose|q: int| 0 <= q < p && self@[q];
                assert(word_bit(x, q));
            }
        }
        assert(r@ =~= decremented(self@));
        r
    }

    /// The set of width `n_bits` holding the low bits of `value`; bits of
    /// `value` at or beyond the width are dropped.
    pub fn from_u128(value: u128, n_bits: usize) -> (r: BitSet)
        ensures
            r.wf(),
            r@ == Seq::new(n_bits as nat, |p: int| p < 128 && bit128(value, p as u128)),
    {
        let n_words = Self::word_count(n_bits);
        let mut r = BitSet { words: vec![0u64; n_words], n_bits };
        if n_words >= 1 {
            let lo: u64 = (value % 0x1_0000_0000_0000_0000u128) as u64;
            r.words.set(0, lo);
        }
        if n_words >= 2 {
            let hi: u64 = (value / 0x1_0000_0000_0000_0000u128) as u64;
            r.words.set(1, hi);
        }
        let ghost w0 = r.words@;
        proof {
            assert forall|p: int| 0 <= p < n_words * 64 implies #[trigger] word_bit(w0, p) == (p
                < 128 && bit128(value, p as u128)) by {
                let b = (p % 64) as u64;
                lemma_split128(value, b);
                lemma_word_ops(0, 0, b);
                if p < 64 {
                    assert(p / 64 == 0 && p as u128 == b as u128);
                } else if p < 128 {
                    assert(p / 64 == 1 && p as u128 == (b + 64) as u128);
                } else {
                    assert(p / 64 >= 2);
                }
            }
            lemma_words_for(n_bits as nat);
        }
        r.mask_tail();
        assert(r@ =~= Seq::new(n_bits as nat, |p: int| p < 128 && bit128(value, p as u128)));
        r
    }

    /// The set as an integer, bit `p` at position `p`; positions from 128 on
    /// are dropped.
    pub fn to_u128(&self) -> (r: u128)
        requires
            self.wf(),
        ensures
            forall|p: int|
                0 <= p < 128 ==> #[trigger] bit128(r, p as u128) == (p < self@.len() && self@[p]),
    {
        let n_words = self.words.len();
        let a: u64 = if n_words >= 1 {
            self.words[0]
        } else {
            0
        };
        let b: u64 = if n_words >= 2 {
            self.words[1]
        } else {
            0
        };
        let r = (a as u128) | ((b as u128) << 64u128);
        proof {
            lemma_words_for(self.n_bits as nat);
        }
        assert forall|p: int| 0 <= p < 128 implies #[trigger] bit128(r, p as u128) == (p
            < self@.len() && self@[p]) by {
            let k = (p % 64) as u64;
            lemma_join128(a, b, k);
            lemma_word_ops(0, 0, k);
            if p < 64 {
                assert(p / 64 == 0 && p as u128 == k as u128);
                assert(bit128(r, p as u128) == wbit(a, k));
            } else {
                assert(p / 64 == 1 && p as u128 == (k + 64) as u128);
                assert(bit128(r, p as u128) == wbit(b, k));
            }
            if p >= self.n_bits && p < n_words * 64 {
                assert(!word_bit(self.words@, p));
            }
            if p < self.n_bits {
                assert(self@[p] == word_bit(self.words@, p));
            }
        }
        r
    }

    /// The set positions in ascending order.
    pub fn iter_bits(&self) -> (r: Vec<usize>)
        requires
            self.wf(),
        ensures
            r@.map_values(|x: usize| x as int) == set_bits(self@),
    {
        let mut r: Vec<usize> = Vec::new();
        let mut i: usize = 0;
        while i < self.n_bits
            invariant
                i <= self.n_bits,
                self.wf(),
                r@.map_values(|x: usize| x as int) == set_bits(self@.subrange(0, i as int)),
            decreases self.n_bits - i,
        {
            assert(self@.subrange(0, i + 1).drop_last() =~= self@.subrange(0, i as int));
            if self.get(i) {
                r.push(i);
            }
            assert(r@.map_values(|x: usize| x as int) =~= set_bits(self@.subrange(0, i + 1)));
            i += 1;
        }
        assert(self@.subrange(0, self.n_bits as int) =~= self@);
        r
    }

    /// One singleton set for each set position, in ascending order.
    pub fn atoms(&self) -> (r: Vec<BitSet>)
        requires
            self.wf(),
        ensures
            r@.len() == set_bits(self@).len(),
            forall|k: int|
                0 <= k < r@.len() ==> (#[trigger] r@[k]).wf() && r@[k]@ == singleton(
                    self@.len(),
                    set_bits(self@)[k],
                ),
    {
        let bits = self.iter_bits();
        let mut r: Vec<BitSet> = Vec::new();
        let mut k: usize = 0;
        while k < bits.len()
            invariant
                k <= bits@.len(),
                self.wf(),
                bits@.map_values(|x: usize| x as int) == set_bits(self@),
                r@.len() == k,
                forall|t: int|
                    0 <= t < k ==> (#[trigger] r@[t]).wf() && r@[t]@ == singleton(
                        self@.len(),
                        set_bits(self@)[t],
                    ),
            decreases bits@.len() - k,
        {
            let mut atom = BitSet::new(self.n_bits);
            assert(set_bits(self@)[k as int] == bits@[k as int] as int);
            atom.set(bits[k]);
            assert(atom@ =~= singleton(self@.len(), set_bits(self@)[k as int]));
            r.push(atom);
            k += 1;
        }
        r
    }

    /// Whether `self` comes strictly before `other` in shortlex order.
    pub fn shortlex_less(&self, other: &BitSet) -> (r: bool)
        requires
            self.wf(),
            other.wf(),
        ensures
            r == shortlex_lt(
                count_true(self@),
                self.word_seq(),
                count_true(other@),
                other.word_seq(),
            ),
    {
        let ca = self.count();
        let cb = other.count();
        if ca != cb {
            return ca < cb;
        }
        let a = &self.words;
        let b = &other.words;
        let mut k: usize = 0;
        assert(a@.subrange(0, a@.len() as int) =~= a@);
        assert(b@.subrange(0, b@.len() as int) =~= b@);
        while k < a.len() && k < b.len()
            invariant
                k <= a@.len(),
                k <= b@.len(),
                a@ == self.word_seq(),
                b@ == other.word_seq(),
                ca == count_true(self@),
                cb == count_true(other@),
                ca == cb,
                lex_lt(a@, b@) == lex_lt(a@.subrange(k as int, a@.len() as int), b@.subrange(
                    k as int,
                    b@.len() as int,
                )),
            decreases a@.len() - k,
        {
            let ghost sa = a@.subrange(k as int, a@.len() as int);
            let ghost sb = b@.subrange(k as int, b@.len() as int);
            assert(sa.drop_first() =~= a@.subrange(k + 1, a@.len() as int));
            assert(sb.drop_first() =~= b@.subrange(k + 1, b@.len() as int));
            assert(sa[0] == a@[k as int] && sb[0] == b@[k as int]);
            if a[k] != b[k] {
                return a[k] < b[k];
            }
            k += 1;
        }
        assert(a@.subrange(k as int, a@.len() as int).len() == 0 || b@.subrange(
            k as int,
            b@.len() as int,
        ).len() == 0);
        k < b.len()
    }
}

} // verus!
