//! Succinct structures: a bit vector with rank/select and a compressed
//! sparse row (CSR) graph.
use vstd::prelude::*;

verus! {

/// Bit `b` of word `w`.
pub open spec fn word_bit(w: u64, b: u64) -> bool {
    (w >> b) & 1 == 1
}

/// Number of set bits among the lowest `n` bits of `w`.
pub open spec fn pop_bits(w: u64, n: nat) -> nat
    decreases n,
{
    if n == 0 {
        0
    } else {
        pop_bits(w, (n - 1) as nat) + if word_bit(w, (n - 1) as u64) {
            1nat
        } else {
            0nat
        }
    }
}

/// Number of set bits in the first `k` words.
pub open spec fn word_ones(ws: Seq<u64>, k: int) -> nat
    decreases k,
{
    if k <= 0 {
        0
    } else {
        word_ones(ws, k - 1) + pop_bits(ws[k - 1], 64)
    }
}

/// Number of `true` entries among the first `i` entries of `v`.
pub open spec fn ones(v: Seq<bool>, i: int) -> nat
    decreases i,
{
    if i <= 0 {
        0
    } else {
        ones(v, i - 1) + if v[i - 1] {
            1nat
        } else {
            0nat
        }
    }
}

/// Number of 64-bit words for `len` bits.
pub open spec fn words_for(len: nat) -> nat {
    (len + 63) / 64
}

/// The rank table for `ws`: entry j holds the set bits in the first
/// min(8j, |ws|) words; there is one entry per started block of 8 words, plus one.
pub open spec fn block_table(ws: Seq<u64>) -> Seq<u32> {
    Seq::new(
        (ws.len() + 7) / 8 + 1,
        |j: int| word_ones(ws, if 8 * j < ws.len() { 8 * j } else { ws.len() as int }) as u32,
    )
}

/// Set-bit count of a word.
fn popcount(w: u64) -> (r: u32)
    ensures
        r == pop_bits(w, 64),
        r <= 64,
{
    let mut count: u32 = 0;
    let mut i: u64 = 0;
    while i < 64
        invariant
            i <= 64,
            count == pop_bits(w, i as nat),
            count <= i,
        decreases 64 - i,
    {
        if (w >> i) & 1 == 1 {
            count += 1;
        }
        i += 1;
    }
    count
}

proof fn lemma_pop_bits_le(w: u64, n: nat)
    ensures
        pop_bits(w, n) <= n,
    decreases n,
{
    if n > 0 {
        lemma_pop_bits_le(w, (n - 1) as nat);
    }
}

proof fn lemma_pop_bits_ext(a: u64, b: u64, n: nat)
    requires
        forall|j: u64| j < n ==> (word_bit(a, j) == word_bit(b, j)),
    ensures
        pop_bits(a, n) == pop_bits(b, n),
    decreases n,
{
    if n > 0 {
        lemma_pop_bits_ext(a, b, (n - 1) as nat);
    }
}

/// Bits from `n` on are clear, so the count stops growing.
proof fn lemma_pop_bits_high_clear(w: u64, n: nat, m: nat)
    requires
        n <= m <= 64,
        forall|j: u64| n <= j < m ==> !word_bit(w, j),
    ensures
        pop_bits(w, m) == pop_bits(w, n),
    decreases m,
{
    if m > n {
        lemma_pop_bits_high_clear(w, n, (m - 1) as nat);
        assert(!word_bit(w, (m - 1) as u64));
    }
}

proof fn lemma_word_ones_mono(ws: Seq<u64>, a: int, b: int)
    requires
        0 <= a <= b,
    ensures
        word_ones(ws, a) <= word_ones(ws, b),
    decreases b,
{
    if b > a {
        lemma_word_ones_mono(ws, a, b - 1);
    }
}

proof fn lemma_bit_or(w: u64, b: u64, j: u64)
    requires
        b < 64,
        j < 64,
    ensures
        word_bit(w | (1u64 << b), j) == (j == b || word_bit(w, j)),
{
    assert(((w | (1u64 << b)) >> j) & 1 == 1 <==> (j == b || (w >> j) & 1 == 1)) by (bit_vector)
        requires
            b < 64,
            j < 64,
    ;
}

proof fn lemma_bit_mask(w: u64, b: u64, j: u64)
    requires
        b < 64,
        j < 64,
    ensures
        word_bit(w & (((1u64 << b) - 1) as u64), j) == (j < b && word_bit(w, j)),
{
    assert(((w & (((1u64 << b) - 1) as u64)) >> j) & 1 == 1 <==> (j < b && (w >> j) & 1 == 1)) by (bit_vector)
        requires
            b < 64,
            j < 64,
    ;
}

proof fn lemma_bit_zero(j: u64)
    ensures
        !word_bit(0, j),
{
    assert((0u64 >> j) & 1 != 1) by (bit_vector);
}

proof fn lemma_bit_shift(w: u64, i: u64)
    requires
        i < 64,
    ensures
        (w >> i) >> 1u64 == w >> ((i + 1) as u64),
        (w >> i) & 1 == 1 <==> word_bit(w, i),
{
    assert((w >> i) >> 1u64 == w >> ((i + 1) as u64)) by (bit_vector)
        requires
            i < 64,
    ;
}

/// A compact bit vector with rank and select queries.
#[derive(Debug)]
pub struct BitVector {
    words: Vec<u64>,
    len: usize,
    rank_blocks: Vec<u32>,
}

impl View for BitVector {
    type V = Seq<bool>;

    closed spec fn view(&self) -> Seq<bool> {
        Seq::new(self.len as nat, |i: int| word_bit(self.words@[i / 64], (i % 64) as u64))
    }
}

impl BitVector {
    /// The words cover exactly `len` bits and bits past `len` are clear.
    pub closed spec fn wf(&self) -> bool {
        &&& self.words@.len() == words_for(self.len as nat)
        &&& 64 * self.words@.len() <= usize::MAX
        &&& forall|j: int|
            self.len <= j < 64 * self.words@.len() ==> !word_bit(#[trigger] self.words@[j / 64], (j % 64) as u64)
    }

    /// The stored rank table.
    pub closed spec fn rank_table(&self) -> Seq<u32> {
        self.rank_blocks@
    }

    /// The rank table matches the bits and all counts fit in `u32`.
    pub closed spec fn rank_ready(&self) -> bool {
        &&& self.wf()
        &&& word_ones(self.words@, self.words@.len() as int) <= u32::MAX
        &&& self.rank_blocks@ == block_table(self.words@)
    }

    /// Number of set bits, counted over the words.
    proof fn lemma_ones_words(&self, i: int)
        requires
            self.wf(),
            0 <= i <= self.len,
        ensures
            ones(self@, i) == word_ones(self.words@, i / 64) + if i / 64 < self.words@.len() {
                pop_bits(self.words@[i / 64], (i % 64) as nat)
            } else {
                0
            },
            i / 64 <= self.words@.len(),
            i / 64 == self.words@.len() ==> i % 64 == 0,
        decreases i,
    {
        if i > 0 {
            self.lemma_ones_words(i - 1);
            let q = (i - 1) / 64;
            let r = (i - 1) % 64;
            assert(self@[i - 1] == word_bit(self.words@[q], r as u64));
            if r == 63 {
                assert(i / 64 == q + 1);
                assert(i % 64 == 0);
            } else {
                assert(i / 64 == q);
                assert(i % 64 == r + 1);
            }
        }
    }

    /// All set bits, counted over the words.
    proof fn lemma_ones_total(&self)
        requires
            self.wf(),
        ensures
            ones(self@, self.len as int) == word_ones(self.words@, self.words@.len() as int),
    {
        let n = self.len as int;
        self.lemma_ones_words(n);
        if n / 64 < self.words@.len() {
            let w = self.words@[n / 64];
            assert forall|j: u64| (n % 64) as nat <= j < 64 implies !word_bit(w, j) by {
                let p = 64 * (n / 64) + j;
                assert(p / 64 == n / 64);
                assert(p % 64 == j);
                assert(!word_bit(self.words@[p / 64], (p % 64) as u64));
            }
            lemma_pop_bits_high_clear(w, (n % 64) as nat, 64);
            assert(n / 64 + 1 == self.words@.len());
        }
    }

    /// Create a bit vector of `len` bits, all clear.
    pub fn new(len: usize) -> (bv: Self)
        requires
            len <= usize::MAX - 63,
        ensures
            bv.wf(),
            bv@ == Seq::new(len as nat, |i: int| false),
    {
        let word_count = len / 64 + if len % 64 != 0 { 1 } else { 0 };
        let words: Vec<u64> = vec![0; word_count];
        let bv = BitVector { words, len, rank_blocks: Vec::new() };
        proof {
            assert forall|j: u64| true implies !word_bit(0, j) by {
                lemma_bit_zero(j);
            }
            assert(bv@ =~= Seq::new(len as nat, |i: int| false));
        }
        bv
    }

    /// Set bit `i`. The rank table must be rebuilt afterwards.
    pub fn set(&mut self, i: usize)
        requires
            old(self).wf(),
            i < old(self)@.len(),
        ensures
            final(self).wf(),
            final(self)@ == old(self)@.update(i as int, true),
            final(self).rank_table() == old(self).rank_table(),
    {
        let ghost old_self = *self;
        let wi = i / 64;
        let b = (i % 64) as u64;
        let w = self.words[wi] | (1u64 << b);
        self.words.set(wi, w);
        proof {
            assert forall|j: int| 0 <= j < 64 * self.words@.len() implies
                #[trigger] word_bit(self.words@[j / 64], (j % 64) as u64) == (j == i || word_bit(old_self.words@[j / 64], (j % 64) as u64)) by {
                if j / 64 == wi {
                    lemma_bit_or(old_self.words@[wi as int], b, (j % 64) as u64);
                }
            }
            assert(self@ =~= old_self@.update(i as int, true));
        }
    }

    /// Bit `i`; `false` past the end.
    pub fn get(&self, i: usize) -> (r: bool)
        requires
            self.wf(),
        ensures
            r == (i < self@.len() && self@[i as int]),
    {
        if i >= self.len {
            return false;
        }
        (self.words[i / 64] >> ((i % 64) as u64)) & 1 == 1
    }

    /// Build the rank table. Call after all `set`s.
    pub fn build_rank(&mut self)
        requires
            old(self).wf(),
            ones(old(self)@, old(self)@.len() as int) <= u32::MAX,
        ensures
            final(self).rank_ready(),
            final(self)@ == old(self)@,
    {
        proof {
            self.lemma_ones_total();
        }
        let n = self.words.len();
        let mut blocks: Vec<u32> = Vec::new();
        blocks.push(0);
        let mut cumulative: u32 = 0;
        let mut i: usize = 0;
        while i < n
            invariant
                n == self.words@.len(),
                0 <= i <= n,
                word_ones(self.words@, n as int) <= u32::MAX,
                cumulative == word_ones(self.words@, i as int),
                blocks@ == block_table(self.words@).subrange(0, i as int / 8 + 1),
            decreases n - i,
        {
            proof {
                lemma_word_ones_mono(self.words@, i + 1, n as int);
            }
            let pc = popcount(self.words[i]);
            cumulative = cumulative + pc;
            if (i + 1) % 8 == 0 {
                blocks.push(cumulative);
            }
            i += 1;
            proof {
                assert(blocks@ =~= block_table(self.words@).subrange(0, i as int / 8 + 1));
            }
        }
        if n % 8 != 0 {
            blocks.push(cumulative);
        }
        proof {
            assert(blocks@ =~= block_table(self.words@));
        }
        self.rank_blocks = blocks;
    }

    /// Number of set bits before position `i` (all of them when `i` is past the end).
    pub fn rank(&self, i: usize) -> (r: u32)
        requires
            self.rank_ready(),
        ensures
            r == ones(self@, if i < self@.len() { i as int } else { self@.len() as int }),
    {
        if i == 0 {
            return 0;
        }
        let i = if i < self.len { i } else { self.len };
        proof {
            self.lemma_ones_words(i as int);
            self.lemma_ones_total();
            self.lemma_ones_mono(i as int, self.len as int);
        }
        let word_idx = i / 64;
        let bit_idx = i % 64;
        let block_idx = word_idx / 8;
        let mut count: u32 = if block_idx < self.rank_blocks.len() {
            self.rank_blocks[block_idx]
        } else if self.rank_blocks.len() > 0 {
            self.rank_blocks[self.rank_blocks.len() - 1]
        } else {
            0
        };
        proof {
            assert(block_idx < self.rank_blocks@.len());
            lemma_word_ones_mono(self.words@, 8 * block_idx as int, self.words@.len() as int);
            let j = block_idx as int;
            let e = if 8 * j < self.words@.len() { 8 * j } else { self.words@.len() as int };
            assert(e == 8 * j);
            assert(self.rank_blocks@[j] == word_ones(self.words@, e) as u32);
            assert(count == word_ones(self.words@, 8 * block_idx as int));
        }
        let block_start = block_idx * 8;
        let mut w = block_start;
        while w < word_idx
            invariant
                block_start <= w <= word_idx,
                word_idx <= self.words@.len(),
                count == word_ones(self.words@, w as int),
                word_ones(self.words@, word_idx as int) <= u32::MAX,
            decreases word_idx - w,
        {
            if w < self.words.len() {
                proof {
                    lemma_word_ones_mono(self.words@, w + 1, word_idx as int);
                }
                count = count + popcount(self.words[w]);
            }
            w += 1;
        }
        if word_idx < self.words.len() && bit_idx > 0 {
            proof {
                let b = bit_idx as u64;
                assert(1u64 << b >= 1) by (bit_vector)
                    requires
                        b < 64,
                ;
            }
            let mask = (1u64 << (bit_idx as u64)) - 1;
            let masked = self.words[word_idx] & mask;
            proof {
                assert forall|j: u64| j < 64 implies (word_bit(masked, j) == (j < bit_idx && word_bit(self.words@[word_idx as int], j))) by {
                    lemma_bit_mask(self.words@[word_idx as int], bit_idx as u64, j);
                    assert(mask == (((1u64 << (bit_idx as u64)) - 1) as u64));
                }
                lemma_pop_bits_ext(masked, self.words@[word_idx as int], bit_idx as nat);
                assert forall|j: u64| bit_idx <= j < 64 implies !word_bit(masked, j) by {
                    lemma_bit_mask(self.words@[word_idx as int], bit_idx as u64, j);
                    assert(mask == (((1u64 << (bit_idx as u64)) - 1) as u64));
                }
                lemma_pop_bits_high_clear(masked, bit_idx as nat, 64);
            }
            count = count + popcount(masked);
        }
        count
    }

    proof fn lemma_ones_mono(&self, a: int, b: int)
        requires
            0 <= a <= b,
        ensures
            ones(self@, a) <= ones(self@, b),
        decreases b,
    {
        if b > a {
            self.lemma_ones_mono(a, b - 1);
        }
    }

    /// Total number of set bits.
    pub fn count_ones(&self) -> (r: u32)
        requires
            self.wf(),
            ones(self@, self@.len() as int) <= u32::MAX,
        ensures
            r == ones(self@, self@.len() as int),
    {
        proof {
            self.lemma_ones_total();
        }
        let mut count: u32 = 0;
        let mut w: usize = 0;
        while w < self.words.len()
            invariant
                0 <= w <= self.words@.len(),
                count == word_ones(self.words@, w as int),
                word_ones(self.words@, self.words@.len() as int) <= u32::MAX,
            decreases self.words@.len() - w,
        {
            proof {
                lemma_word_ones_mono(self.words@, w + 1, self.words@.len() as int);
            }
            count = count + popcount(self.words[w]);
            w += 1;
        }
        count
    }

    /// Number of bits.
    pub fn len(&self) -> (n: usize)
        ensures
            n == self@.len(),
    {
        self.len
    }

    /// Whether there are no bits.
    pub fn is_empty(&self) -> (b: bool)
        ensures
            b == (self@.len() == 0),
    {
        self.len == 0
    }
}

} // verus!

verus! {

impl BitVector {
    /// Build from booleans, with the rank table ready.
    pub fn from_bools(bits: &[bool]) -> (bv: Self)
        requires
            ones(bits@, bits@.len() as int) <= u32::MAX,
            bits@.len() <= usize::MAX - 63,
        ensures
            bv.rank_ready(),
            bv@ == bits@,
    {
        let mut bv = Self::new(bits.len());
        let mut i: usize = 0;
        while i < bits.len()
            invariant
                0 <= i <= bits@.len(),
                bv.wf(),
                bv@.len() == bits@.len(),
                forall|j: int| 0 <= j < i ==> bv@[j] == bits@[j],
                forall|j: int| i <= j < bits@.len() ==> !bv@[j],
            decreases bits@.len() - i,
        {
            if bits[i] {
                bv.set(i);
            }
            i += 1;
        }
        proof {
            assert(bv@ =~= bits@);
        }
        bv.build_rank();
        bv
    }

    /// First index of the rank table whose count is at least `target`
    /// (the table is non-decreasing).
    fn first_block_reaching(&self, target: u32) -> (p: usize)
        requires
            self.rank_ready(),
        ensures
            p <= self.rank_blocks@.len(),
            forall|j: int| 0 <= j < p ==> self.rank_blocks@[j] < target,
            p < self.rank_blocks@.len() ==> self.rank_blocks@[p as int] >= target,
    {
        proof {
            self.lemma_blocks_sorted();
        }
        let mut lo: usize = 0;
        let mut hi: usize = self.rank_blocks.len();
        while lo < hi
            invariant
                0 <= lo <= hi <= self.rank_blocks@.len(),
                forall|a: int, b: int| 0 <= a <= b < self.rank_blocks@.len() ==> self.rank_blocks@[a] <= self.rank_blocks@[b],
                forall|j: int| 0 <= j < lo ==> self.rank_blocks@[j] < target,
                forall|j: int| hi <= j < self.rank_blocks@.len() ==> self.rank_blocks@[j] >= target,
            decreases hi - lo,
        {
            let mid = lo + (hi - lo) / 2;
            if self.rank_blocks[mid] < target {
                lo = mid + 1;
            } else {
                hi = mid;
            }
        }
        lo
    }

    proof fn lemma_blocks_sorted(&self)
        requires
            self.rank_ready(),
        ensures
            forall|a: int, b: int| 0 <= a <= b < self.rank_blocks@.len() ==> self.rank_blocks@[a] <= self.rank_blocks@[b],
    {
        let ws = self.words@;
        let n = ws.len() as int;
        assert forall|a: int, b: int| 0 <= a <= b < self.rank_blocks@.len() implies self.rank_blocks@[a] <= self.rank_blocks@[b] by {
            let ea = if 8 * a < n { 8 * a } else { n };
            let eb = if 8 * b < n { 8 * b } else { n };
            lemma_word_ones_mono(ws, ea, eb);
            lemma_word_ones_mono(ws, eb, n);
        }
    }

    /// Position of the set bit with rank `k` (the (k+1)-th set bit), if any.
    pub fn select(&self, k: u32) -> (r: Option<usize>)
        requires
            self.rank_ready(),
        ensures
            match r {
                Some(p) => p < self@.len() && self@[p as int] && ones(self@, p as int) == k,
                None => ones(self@, self@.len() as int) <= k,
            },
    {
        let ghost ws = self.words@;
        let ghost n = ws.len() as int;
        proof {
            self.lemma_ones_total();
        }
        if k == u32::MAX {
            return None;
        }
        let target = k + 1;
        let p = self.first_block_reaching(target);
        proof {
            assert(self.rank_blocks@[0] == 0);
        }
        let block_idx = if p > 0 { p - 1 } else { 0 };
        let mut remaining = target;
        if block_idx < self.rank_blocks.len() {
            remaining = remaining - self.rank_blocks[block_idx];
        }
        let ghost nb = self.rank_blocks@.len() as int;
        proof {
            let j = block_idx as int;
            let e = if 8 * j < n { 8 * j } else { n };
            lemma_word_ones_mono(ws, e, n);
            assert(self.rank_blocks@[j] == word_ones(ws, e));
            assert(remaining == target - word_ones(ws, e));
        }
        let start_word = block_idx * 8;
        let end_word = if start_word + 8 < self.words.len() { start_word + 8 } else { self.words.len() };
        let mut word_idx = start_word;
        while word_idx < end_word
            invariant
                ws == self.words@,
                n == ws.len(),
                self.rank_ready(),
                start_word <= word_idx,
                start_word <= n ==> word_idx <= end_word,
                end_word <= n,
                remaining >= 1,
                start_word <= n ==> remaining + word_ones(ws, word_idx as int) == target,
                start_word > n ==> remaining + word_ones(ws, n) == target,
                target == k + 1,
            decreases end_word - word_idx,
        {
            let word = self.words[word_idx];
            let pc = popcount(word);
            if pc >= remaining {
                let mut w = word;
                let mut r = remaining;
                let mut bit: u64 = 0;
                proof {
                    assert(word >> 0u64 == word) by (bit_vector);
                }
                while bit < 64
                    invariant
                        bit <= 64,
                        w == word >> bit,
                        r + pop_bits(word, bit as nat) == remaining,
                        r >= 1,
                        pop_bits(word, 64) >= remaining,
                        n == ws.len(),
                        word_idx < n,
                        word == ws[word_idx as int],
                        ws == self.words@,
                        self.rank_ready(),
                        remaining + word_ones(ws, word_idx as int) == target,
                        target == k + 1,
                    decreases 64 - bit,
                {
                    proof {
                        lemma_bit_shift(word, bit);
                    }
                    if w & 1 == 1 {
                        r -= 1;
                        if r == 0 {
                            proof {
                                assert(64 * n <= usize::MAX);
                                assert(word_idx * 64 + 64 <= 64 * n) by (nonlinear_arith)
                                    requires
                                        word_idx < n,
                                ;
                            }
                            let pos = word_idx * 64 + (bit as usize);
                            proof {
                                assert(pos / 64 == word_idx);
                                assert(pos % 64 == bit);
                                if pos >= self.len {
                                    assert(!word_bit(self.words@[pos as int / 64], (pos as int % 64) as u64));
                                } else {
                                    self.lemma_ones_words(pos as int);
                                    assert(self@[pos as int] == word_bit(ws[word_idx as int], bit));
                                }
                            }
                            return if pos < self.len {
                                Some(pos)
                            } else {
                                None
                            };
                        }
                    }
                    w = w >> 1;
                    bit += 1;
                }
                proof {
                    assert(false);
                }
            }
            remaining = remaining - pc;
            word_idx += 1;
        }
        proof {
            // Nothing was found in the block: the block ends at the last word,
            // since the next table entry already reaches the target.
            if start_word <= n {
                if end_word < n {
                    assert(p < nb);
                    assert(8 * p == end_word);
                    assert(self.rank_blocks@[p as int] == word_ones(ws, 8 * p as int));
                    assert(false);
                }
            } else {
                lemma_word_ones_mono(ws, n, 8 * (nb - 1));
                assert(p == nb);
            }
        }
        None
    }

    /// 8 bytes per word, 4 per rank-table entry, plus the struct itself.
    pub closed spec fn memory_estimate(&self) -> nat {
        self.words@.len() * 8 + self.rank_blocks@.len() * 4 + vstd::layout::size_of::<Self>()
    }

    /// Memory used by the words and the rank table, plus the struct itself.
    pub fn memory_bytes(&self) -> (r: usize)
        requires
            self.memory_estimate() <= usize::MAX,
        ensures
            r == self.memory_estimate(),
    {
        self.words.len() * 8 + self.rank_blocks.len() * 4 + std::mem::size_of::<Self>()
    }
}

} // verus!

verus! {

/// Neighbor list of `v` built from `edges` (in edge order): the target of
/// each valid edge leaving `v` and, for undirected graphs, the source of each
/// valid non-loop edge entering `v`. An edge is valid when both ends are below `n`.
pub open spec fn adj_list(edges: Seq<(usize, usize)>, n: nat, directed: bool, v: usize) -> Seq<u32>
    decreases edges.len(),
{
    if edges.len() == 0 {
        Seq::empty()
    } else {
        let rest = adj_list(edges.drop_last(), n, directed, v);
        let e = edges.last();
        if e.0 < n && e.1 < n {
            let r1 = if e.0 == v {
                rest.push(e.1 as u32)
            } else {
                rest
            };
            if !directed && e.0 != e.1 && e.1 == v {
                r1.push(e.0 as u32)
            } else {
                r1
            }
        } else {
            rest
        }
    }
}

proof fn lemma_adj_list_step(edges: Seq<(usize, usize)>, n: nat, directed: bool, v: usize)
    requires
        edges.len() > 0,
    ensures
        adj_list(edges, n, directed, v) == ({
            let rest = adj_list(edges.drop_last(), n, directed, v);
            let e = edges.last();
            if e.0 < n && e.1 < n {
                let r1 = if e.0 == v {
                    rest.push(e.1 as u32)
                } else {
                    rest
                };
                if !directed && e.0 != e.1 && e.1 == v {
                    r1.push(e.0 as u32)
                } else {
                    r1
                }
            } else {
                rest
            }
        }),
{
}

/// Total neighbor-list length over all nodes.
pub open spec fn total_len(lists: Seq<Seq<u32>>, k: int) -> nat
    decreases k,
{
    if k <= 0 {
        0
    } else {
        total_len(lists, k - 1) + lists[k - 1].len()
    }
}

pub open spec fn sorted_u32(s: Seq<u32>) -> bool {
    forall|i: int, j: int| 0 <= i < j < s.len() ==> s[i] <= s[j]
}

/// Sort neighbor ids in increasing order.
fn sort_u32s(p: &Vec<u32>) -> (r: Vec<u32>)
    ensures
        sorted_u32(r@),
        r@.to_multiset() == p@.to_multiset(),
{
    broadcast use vstd::seq_lib::group_to_multiset_ensures;

    let mut r: Vec<u32> = Vec::new();
    let mut i: usize = 0;
    while i < p.len()
        invariant
            0 <= i <= p@.len(),
            sorted_u32(r@),
            r@.to_multiset() == p@.subrange(0, i as int).to_multiset(),
        decreases p@.len() - i,
    {
        let x = p[i];
        let mut pos: usize = 0;
        while pos < r.len() && r[pos] <= x
            invariant
                0 <= pos <= r@.len(),
                forall|j: int| 0 <= j < pos ==> r@[j] <= x,
            decreases r@.len() - pos,
        {
            pos += 1;
        }
        let ghost r0 = r@;
        r.insert(pos, x);
        proof {
            assert(r@ == r0.insert(pos as int, x));
            assert(sorted_u32(r@)) by {
                assert forall|a: int, b: int| 0 <= a < b < r@.len() implies r@[a] <= r@[b] by {
                    if b <= pos {
                    } else if a < pos {
                        assert(r@[b] == r0[b - 1]);
                    } else if a == pos {
                        assert(r@[b] == r0[b - 1]);
                        if b - 1 > pos {
                            assert(r0[pos as int] <= r0[b - 1]);
                        }
                    } else {
                        assert(r@[a] == r0[a - 1]);
                        assert(r@[b] == r0[b - 1]);
                    }
                }
            }
            assert(p@.subrange(0, i + 1) =~= p@.subrange(0, i as int).push(x));
            vstd::seq_lib::to_multiset_insert(r0, pos as int, x);
            vstd::seq_lib::to_multiset_build(p@.subrange(0, i as int), x);
        }
        i += 1;
    }
    proof {
        assert(p@.subrange(0, i as int) =~= p@);
    }
    r
}

/// Compressed sparse row graph: node i's sorted neighbors are
/// `targets[offsets[i]..offsets[i + 1]]`.
#[derive(Debug)]
pub struct CsrGraph {
    offsets: Vec<u32>,
    targets: Vec<u32>,
    num_nodes: usize,
    directed: bool,
}

impl CsrGraph {
    /// Consistent offsets over the target array.
    pub closed spec fn wf(&self) -> bool {
        &&& self.offsets@.len() == self.num_nodes + 1
        &&& self.offsets@[0] == 0
        &&& forall|i: int, j: int| 0 <= i <= j <= self.num_nodes ==> self.offsets@[i] <= self.offsets@[j]
        &&& self.offsets@[self.num_nodes as int] == self.targets@.len()
        &&& forall|i: int| 0 <= i < self.num_nodes ==> sorted_u32(#[trigger] self.adj(i))
    }

    /// Neighbors of node `i` (only meaningful for i < number of nodes).
    pub closed spec fn adj(&self, i: int) -> Seq<u32> {
        self.targets@.subrange(self.offsets@[i] as int, self.offsets@[i + 1] as int)
    }

    /// Number of nodes.
    pub closed spec fn node_count(&self) -> nat {
        self.num_nodes as nat
    }

    /// Whether edges are stored in one direction only.
    pub closed spec fn is_directed_graph(&self) -> bool {
        self.directed
    }

    /// Number of stored (directed) adjacencies.
    pub closed spec fn edge_count(&self) -> nat {
        self.targets@.len()
    }

    /// Build a CSR graph on nodes `0..num_nodes` from an edge list. Edges with
    /// an end out of range are ignored; an undirected graph stores each
    /// non-loop edge in both directions. Neighbor lists are sorted.
    pub fn from_edges(num_nodes: usize, edges: &[(usize, usize)], directed: bool) -> (g: Self)
        requires
            total_len(
                Seq::new(num_nodes as nat, |u: int| adj_list(edges@, num_nodes as nat, directed, u as usize)),
                num_nodes as int,
            ) <= u32::MAX,
        ensures
            g.wf(),
            g.node_count() == num_nodes,
            g.is_directed_graph() == directed,
            forall|v: int|
                0 <= v < num_nodes ==> (#[trigger] g.adj(v)).to_multiset() == adj_list(
                    edges@,
                    num_nodes as nat,
                    directed,
                    v as usize,
                ).to_multiset(),
            forall|v: int| 0 <= v < num_nodes ==> sorted_u32(#[trigger] g.adj(v)),
            g.edge_count() == total_len(
                Seq::new(num_nodes as nat, |u: int| adj_list(edges@, num_nodes as nat, directed, u as usize)),
                num_nodes as int,
            ),
    {
        let ghost n = num_nodes as nat;
        let mut buckets: Vec<Vec<u32>> = Vec::new();
        let mut v: usize = 0;
        while v < num_nodes
            invariant
                0 <= v <= num_nodes,
                buckets@.len() == v,
                forall|u: int| 0 <= u < v ==> (#[trigger] buckets@[u])@ == Seq::<u32>::empty(),
            decreases num_nodes - v,
        {
            buckets.push(Vec::new());
            v += 1;
        }
        proof {
            assert forall|u: int| 0 <= u < num_nodes implies (#[trigger] buckets@[u])@ == adj_list(edges@.subrange(0, 0), n, directed, u as usize) by {}
        }
        let mut e: usize = 0;
        while e < edges.len()
            invariant
                0 <= e <= edges@.len(),
                buckets@.len() == num_nodes,
                n == num_nodes as nat,
                forall|u: int| 0 <= u < num_nodes ==> (#[trigger] buckets@[u])@ == adj_list(edges@.subrange(0, e as int), n, directed, u as usize),
            decreases edges@.len() - e,
        {
            let (src, tgt) = edges[e];
            let ghost b0 = buckets@;
            let ghost pre = edges@.subrange(0, e as int);
            let ghost cur = edges@.subrange(0, e + 1);
            proof {
                assert(edges@.subrange(0, e + 1).drop_last() =~= edges@.subrange(0, e as int));
            }
            proof {
                assert(cur.drop_last() =~= pre);
                assert(cur.last() == (src, tgt));
            }
            if src < num_nodes && tgt < num_nodes {
                let mut bs: Vec<u32> = Vec::new();
                std::mem::swap(&mut bs, &mut buckets[src]);
                bs.push(tgt as u32);
                buckets.set(src, bs);
                let ghost b1 = buckets@;
                proof {
                    assert(b1[src as int]@ == b0[src as int]@.push(tgt as u32));
                    assert(forall|u: int| 0 <= u < num_nodes && u != src ==> b1[u] == b0[u]);
                }
                if !directed && src != tgt {
                    let mut bt: Vec<u32> = Vec::new();
                    std::mem::swap(&mut bt, &mut buckets[tgt]);
                    bt.push(src as u32);
                    buckets.set(tgt, bt);
                    proof {
                        assert(buckets@[tgt as int]@ == b0[tgt as int]@.push(src as u32));
                        assert(forall|u: int| 0 <= u < num_nodes && u != tgt ==> buckets@[u] == b1[u]);
                        assert forall|u: int| 0 <= u < num_nodes implies (#[trigger] buckets@[u])@ == adj_list(cur, n, directed, u as usize) by {
                            assert(b0[u]@ == adj_list(pre, n, directed, u as usize));
                            assert((u as usize) as int == u);
                            lemma_adj_list_step(cur, n, directed, u as usize);
                            if u == tgt {
                                assert(buckets@[u]@ == b0[u]@.push(src as u32));
                            } else if u == src {
                                assert(buckets@[u] == b1[u]);
                                assert(b1[u]@ == b0[u]@.push(tgt as u32));
                                assert(cur.last().0 == src);
                                assert(cur.last().1 == tgt);
                                assert(cur.drop_last() == pre);
                                assert(adj_list(cur, n, directed, u as usize) == b0[u]@.push(tgt as u32));
                            } else {
                                assert(buckets@[u] == b1[u]);
                                assert(b1[u] == b0[u]);
                            }
                        }
                    }
                } else {
                    proof {
                        assert forall|u: int| 0 <= u < num_nodes implies (#[trigger] buckets@[u])@ == adj_list(cur, n, directed, u as usize) by {
                            assert(b0[u]@ == adj_list(pre, n, directed, u as usize));
                            assert((u as usize) as int == u);
                            lemma_adj_list_step(cur, n, directed, u as usize);
                            if u != src {
                                assert(b1[u] == b0[u]);
                            }
                        }
                    }
                }
            } else {
                proof {
                    assert forall|u: int| 0 <= u < num_nodes implies (#[trigger] buckets@[u])@ == adj_list(cur, n, directed, u as usize) by {
                        assert(b0[u]@ == adj_list(pre, n, directed, u as usize));
                        lemma_adj_list_step(cur, n, directed, u as usize);
                    }
                }
            }
            e += 1;

        }
        proof {
            assert(edges@.subrange(0, e as int) =~= edges@);
        }
        let ghost lists = Seq::new(n, |u: int| adj_list(edges@, n, directed, u as usize));
        let mut offsets: Vec<u32> = Vec::new();
        offsets.push(0);
        let mut targets: Vec<u32> = Vec::new();
        let mut i: usize = 0;
        while i < num_nodes
            invariant
                0 <= i <= num_nodes,
                buckets@.len() == num_nodes,
                forall|u: int| 0 <= u < num_nodes ==> (#[trigger] buckets@[u])@ == lists[u],
                lists.len() == num_nodes,
                total_len(lists, num_nodes as int) <= u32::MAX,
                offsets@.len() == i + 1,
                offsets@[0] == 0,
                forall|a: int, b: int| 0 <= a <= b <= i ==> offsets@[a] <= offsets@[b],
                offsets@[i as int] == targets@.len(),
                targets@.len() == total_len(lists, i as int),
                forall|u: int| 0 <= u < i ==> sorted_u32(#[trigger] targets@.subrange(offsets@[u] as int, offsets@[u + 1] as int))
                    && targets@.subrange(offsets@[u] as int, offsets@[u + 1] as int).to_multiset() == lists[u].to_multiset(),
            decreases num_nodes - i,
        {
            let sorted = sort_u32s(&buckets[i]);
            proof {
                broadcast use vstd::seq_lib::group_to_multiset_ensures;
                assert(sorted@.to_multiset().len() == lists[i as int].to_multiset().len());
                lemma_total_mono(lists, i as int + 1, num_nodes as int);
            }
            let ghost t0 = targets@;
            let ghost o0 = offsets@;
            let mut k: usize = 0;
            while k < sorted.len()
                invariant
                    0 <= k <= sorted@.len(),
                    targets@ == t0 + sorted@.subrange(0, k as int),
                    t0.len() + sorted@.len() <= u32::MAX,
                decreases sorted@.len() - k,
            {
                targets.push(sorted[k]);
                k += 1;
                proof {
                    assert(targets@ =~= t0 + sorted@.subrange(0, k as int));
                }
            }
            proof {
                assert(sorted@.subrange(0, k as int) =~= sorted@);
            }
            offsets.push(targets.len() as u32);
            proof {
                assert forall|u: int| 0 <= u < i + 1 implies sorted_u32(#[trigger] targets@.subrange(offsets@[u] as int, offsets@[u + 1] as int))
                    && targets@.subrange(offsets@[u] as int, offsets@[u + 1] as int).to_multiset() == lists[u].to_multiset() by {
                    if u < i {
                        assert(offsets@[u] == o0[u]);
                        assert(offsets@[u + 1] == o0[u + 1]);
                        assert(targets@.subrange(offsets@[u] as int, offsets@[u + 1] as int) =~= t0.subrange(o0[u] as int, o0[u + 1] as int));
                    } else {
                        assert(targets@.subrange(offsets@[u] as int, offsets@[u + 1] as int) =~= sorted@);
                    }
                }
            }
            i += 1;
        }
        let g = CsrGraph { offsets, targets, num_nodes, directed };
        proof {
            assert forall|u: int| 0 <= u < num_nodes implies sorted_u32(#[trigger] g.adj(u)) by {}
        }
        g
    }

    /// Number of nodes.
    pub fn num_nodes(&self) -> (n: usize)
        ensures
            n == self.node_count(),
    {
        self.num_nodes
    }

    /// Number of stored adjacencies (each undirected edge counts twice).
    pub fn num_edges(&self) -> (n: usize)
        ensures
            n == self.edge_count(),
    {
        self.targets.len()
    }

    /// Degree of node `i`; 0 for an out-of-range node.
    pub fn degree(&self, i: usize) -> (d: u32)
        requires
            self.wf(),
        ensures
            d == if i < self.node_count() { self.adj(i as int).len() } else { 0 },
    {
        if i >= self.num_nodes {
            return 0;
        }
        self.offsets[i + 1] - self.offsets[i]
    }

    /// Neighbors of node `i`; empty for an out-of-range node.
    pub fn neighbors(&self, i: usize) -> (r: &[u32])
        requires
            self.wf(),
        ensures
            r@ == if i < self.node_count() { self.adj(i as int) } else { Seq::empty() },
    {
        if i >= self.num_nodes {
            return &[];
        }
        let start = self.offsets[i] as usize;
        let end = self.offsets[i + 1] as usize;
        &self.targets[start..end]
    }

    /// Whether `tgt` (as a `u32` id) is a neighbor of `src`; binary search.
    pub fn has_edge(&self, src: usize, tgt: usize) -> (b: bool)
        requires
            self.wf(),
        ensures
            b == (src < self.node_count() && self.adj(src as int).contains((tgt as int % 0x1_0000_0000) as u32)),
    {
        let ns = self.neighbors(src);
        let t = ((tgt as u64) % 0x1_0000_0000) as u32;
        proof {
            assert(t == (tgt as int % 0x1_0000_0000) as u32);
        }
        let mut lo: usize = 0;
        let mut hi: usize = ns.len();
        while lo < hi
            invariant
                0 <= lo <= hi <= ns@.len(),
                self.wf(),
                t == (tgt as int % 0x1_0000_0000) as u32,
                ns@.len() > 0 ==> src < self.node_count(),
                src < self.node_count() ==> ns@ == self.adj(src as int),
                sorted_u32(ns@),
                forall|j: int| 0 <= j < lo ==> ns@[j] < t,
                forall|j: int| hi <= j < ns@.len() ==> ns@[j] > t,
            decreases hi - lo,
        {
            let mid = lo + (hi - lo) / 2;
            if ns[mid] == t {
                proof {
                    assert(src < self.num_nodes);
                    assert(ns@[mid as int] == t);
                    assert(self.adj(src as int)[mid as int] == t);
                    
                    assert(self.adj(src as int).contains(t));
                }
                return true;
            } else if ns[mid] < t {
                lo = mid + 1;
            } else {
                hi = mid;
            }
        }
        false
    }

    /// Whether the graph is directed.
    pub fn is_directed(&self) -> (b: bool)
        ensures
            b == self.is_directed_graph(),
    {
        self.directed
    }

    /// 4 bytes per offset and per target, plus the struct itself.
    pub closed spec fn memory_estimate(&self) -> nat {
        self.offsets@.len() * 4 + self.targets@.len() * 4 + vstd::layout::size_of::<Self>()
    }

    /// Memory used by the arrays plus the struct itself.
    pub fn memory_bytes(&self) -> (r: usize)
        requires
            self.memory_estimate() <= usize::MAX,
        ensures
            r == self.memory_estimate(),
    {
        self.offsets.len() * 4 + self.targets.len() * 4 + std::mem::size_of::<Self>()
    }
}

proof fn lemma_total_mono(lists: Seq<Seq<u32>>, a: int, b: int)
    requires
        0 <= a <= b,
    ensures
        total_len(lists, a) <= total_len(lists, b),
    decreases b,
{
    if b > a {
        lemma_total_mono(lists, a, b - 1);
    }
}

} // verus!

verus! {

/// Rank undoes select: the set bit that select finds for rank `k` is preceded by `k`
/// set bits and followed, counting itself, by `k + 1`.
pub proof fn law_rank_after_select(v: Seq<bool>, p: int, k: nat)
    requires
        0 <= p < v.len(),
        v[p],
        ones(v, p) == k,
    ensures
        ones(v, p + 1) == k + 1,
{
}

/// Rank never decreases along the vector and grows by at most one per position.
pub proof fn law_rank_monotone(v: Seq<bool>, i: int, j: int)
    requires
        0 <= i <= j,
    ensures
        ones(v, i) <= ones(v, j),
        ones(v, j) <= ones(v, i) + (j - i),
    decreases j - i,
{
    if i < j {
        law_rank_monotone(v, i, j - 1);
    }
}

} // verus!
