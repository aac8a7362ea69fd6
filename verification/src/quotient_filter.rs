//! Quotient filter: a probabilistic set of hashed values. Each hash is split
//! into a quotient (its canonical slot) and a remainder (the stored value);
//! remainders of one quotient form a sorted run, and runs are kept in
//! quotient order with linear probing.
use vstd::prelude::*;

verus! {

/// The 64-bit FxHash of a value.
#[verifier::external_body]
fn fx_hash<T: std::hash::Hash + ?Sized>(value: &T) -> u64 {
    let mut hasher = rustc_hash::FxHasher::default();
    value.hash(&mut hasher);
    std::hash::Hasher::finish(&hasher)
}

/// `x` clamped to `lo..=hi`.
pub open spec fn clamp_spec(x: int, lo: int, hi: int) -> int {
    if x < lo {
        lo
    } else if x > hi {
        hi
    } else {
        x
    }
}

/// 2 to the power `k`.
pub open spec fn pow2(k: nat) -> nat
    decreases k,
{
    if k == 0 {
        1
    } else {
        2 * pow2((k - 1) as nat)
    }
}

/// A quotient filter with 2^q slots and r-bit remainders.
pub struct QuotientFilter {
    q_bits: u32,
    r_bits: u32,
    r_mask: u64,
    q_mask: u64,
    table_size: usize,
    slots: Vec<Option<u64>>,
    is_occupied: Vec<bool>,
    is_continuation: Vec<bool>,
    is_shifted: Vec<bool>,
    count: usize,
    /// The quotient of the fingerprint held in each slot.
    quots: Ghost<Seq<int>>,
}

proof fn lemma_shift_pow2(k: u32)
    requires
        k <= 40,
    ensures
        (1u64 << k) as nat == pow2(k as nat),
        (1u64 << k) >= 1,
    decreases k,
{
    if k > 0 {
        lemma_shift_pow2((k - 1) as u32);
        let j = (k - 1) as u32;
        assert((1u64 << k) == 2 * (1u64 << j)) by (bit_vector)
            requires
                j < 40,
                k == j + 1,
        ;
    } else {
        assert((1u64 << 0u32) == 1) by (bit_vector);
    }
}

proof fn lemma_pow2_mono(a: nat, b: nat)
    requires
        a <= b,
    ensures
        pow2(a) <= pow2(b),
        1 <= pow2(a),
    decreases b,
{
    if b > a {
        lemma_pow2_mono(a, (b - 1) as nat);
    } else if a > 0 {
        lemma_pow2_mono((a - 1) as nat, (a - 1) as nat);
    }
}

proof fn lemma_pow2_range(k: nat)
    requires
        1 <= k <= 24,
    ensures
        2 <= pow2(k) <= 0x100_0000,
{
    lemma_pow2_mono(1, k);
    lemma_pow2_mono(k, 24);
    reveal_with_fuel(pow2, 25);
    assert(pow2(1) == 2);
    assert(pow2(24) == 0x100_0000);
}

/// The slot after `i` on a ring of `n` slots.
pub open spec fn ring_next(i: int, n: int) -> int {
    if i + 1 >= n {
        0
    } else {
        i + 1
    }
}

/// The slot before `i` on a ring of `n` slots.
pub open spec fn ring_prev(i: int, n: int) -> int {
    if i <= 0 {
        n - 1
    } else {
        i - 1
    }
}

/// Steps forward from `from` to `to` on a ring of `n` slots.
pub open spec fn ring_dist(from: int, to: int, n: int) -> int {
    if from <= to {
        to - from
    } else {
        to - from + n
    }
}

/// The slot `k` steps forward from `a` on a ring of `n` slots.
pub open spec fn ring_add(a: int, k: int, n: int) -> int {
    if a + k < n {
        a + k
    } else {
        a + k - n
    }
}

/// The slot `k` steps back from `a` on a ring of `n` slots.
pub open spec fn ring_sub(a: int, k: int, n: int) -> int {
    if a - k >= 0 {
        a - k
    } else {
        a - k + n
    }
}

/// Slot `x` is one of the `len` slots after `pos` that a shift moves into.
pub open spec fn moved_slot(pos: int, len: int, x: int, n: int) -> bool {
    1 <= ring_dist(pos, x, n) <= len
}

/// `s` with the `len` entries from `pos` on moved one slot forward.
pub open spec fn shift_seq<A>(s: Seq<A>, pos: int, len: int, n: int) -> Seq<A> {
    Seq::new(s.len(), |x: int| if moved_slot(pos, len, x, n) { s[ring_prev(x, n)] } else { s[x] })
}

/// `s` with the slots that a shift moves into set.
pub open spec fn shift_flags(s: Seq<bool>, pos: int, len: int, n: int) -> Seq<bool> {
    Seq::new(s.len(), |x: int| if moved_slot(pos, len, x, n) { true } else { s[x] })
}

/// Number of occupied slots.
pub open spec fn filled_count(s: Seq<Option<u64>>) -> nat
    decreases s.len(),
{
    if s.len() == 0 {
        0
    } else {
        filled_count(s.drop_last()) + if s.last() is Some {
            1nat
        } else {
            0nat
        }
    }
}

proof fn lemma_mod_next(x: int, n: int)
    requires
        0 <= x < n,
    ensures
        (x + 1) % n == ring_next(x, n),
{
    if x + 1 < n {
        vstd::arithmetic::div_mod::lemma_small_mod((x + 1) as nat, n as nat);
    } else {
        vstd::arithmetic::div_mod::lemma_mod_self_0(n);
    }
}

proof fn lemma_filled_count_empty(s: Seq<Option<u64>>)
    requires
        forall|i: int| 0 <= i < s.len() ==> s[i] is None,
    ensures
        filled_count(s) == 0,
    decreases s.len(),
{
    if s.len() > 0 {
        lemma_filled_count_empty(s.drop_last());
    }
}

proof fn lemma_filled_count_full(s: Seq<Option<u64>>)
    requires
        forall|i: int| 0 <= i < s.len() ==> s[i] is Some,
    ensures
        filled_count(s) == s.len(),
    decreases s.len(),
{
    if s.len() > 0 {
        lemma_filled_count_full(s.drop_last());
    }
}

proof fn lemma_filled_count_same(s: Seq<Option<u64>>, t: Seq<Option<u64>>)
    requires
        s.len() == t.len(),
        forall|i: int| 0 <= i < s.len() ==> (s[i] is Some) == (t[i] is Some),
    ensures
        filled_count(s) == filled_count(t),
    decreases s.len(),
{
    if s.len() > 0 {
        lemma_filled_count_same(s.drop_last(), t.drop_last());
    }
}

/// Filling one empty slot adds one to the count.
proof fn lemma_filled_count_fill(s: Seq<Option<u64>>, t: Seq<Option<u64>>, e: int)
    requires
        s.len() == t.len(),
        0 <= e < s.len(),
        s[e] is None,
        t[e] is Some,
        forall|i: int| 0 <= i < s.len() && i != e ==> (s[i] is Some) == (t[i] is Some),
    ensures
        filled_count(t) == filled_count(s) + 1,
    decreases s.len(),
{
    if e == s.len() - 1 {
        lemma_filled_count_same(s.drop_last(), t.drop_last());
    } else {
        lemma_filled_count_fill(s.drop_last(), t.drop_last(), e);
    }
}

proof fn lemma_filled_count_le(s: Seq<Option<u64>>)
    ensures
        filled_count(s) <= s.len(),
    decreases s.len(),
{
    if s.len() > 0 {
        lemma_filled_count_le(s.drop_last());
    }
}

/// A filled slot keeps the count above zero.
proof fn lemma_filled_count_missing_some(s: Seq<Option<u64>>, i: int)
    requires
        0 <= i < s.len(),
        s[i] is Some,
    ensures
        filled_count(s) > 0,
    decreases s.len(),
{
    if i < s.len() - 1 {
        lemma_filled_count_missing_some(s.drop_last(), i);
    }
}

/// An empty slot keeps the count below the length.
proof fn lemma_filled_count_missing(s: Seq<Option<u64>>, i: int)
    requires
        0 <= i < s.len(),
        s[i] is None,
    ensures
        filled_count(s) < s.len(),
    decreases s.len(),
{
    if i == s.len() - 1 {
        lemma_filled_count_le(s.drop_last());
    } else {
        lemma_filled_count_missing(s.drop_last(), i);
    }
}

impl QuotientFilter {
    /// Well-formed: the table layout is consistent and the slots hold a
    /// valid arrangement of runs (see `sound`).
    pub closed spec fn wf(&self) -> bool {
        self.shape() && self.sound()
    }

    /// Whether slot `i` holds a fingerprint.
    pub closed spec fn filled(&self, i: int) -> bool {
        self.slots@[i] is Some
    }

    /// The remainder held in slot `i`.
    pub closed spec fn rem(&self, i: int) -> u64 {
        self.slots@[i]->0
    }

    /// The quotient of the fingerprint held in slot `i`.
    pub closed spec fn quot(&self, i: int) -> int {
        self.quots@[i]
    }

    /// How far slot `i` lies past its fingerprint's home slot.
    pub closed spec fn disp(&self, i: int) -> int {
        ring_dist(self.quot(i), i, self.table_size as int)
    }

    /// The fingerprint (quotient, remainder) is stored in some slot.
    pub closed spec fn holds(&self, q: int, r: u64) -> bool {
        exists|i: int| 0 <= i < self.table_size && #[trigger] self.filled(i) && self.quot(i) == q && self.rem(i) == r
    }

    /// The quotient part of the fingerprint of `hash`.
    pub closed spec fn hash_quotient(&self, hash: u64) -> int {
        quotient_of(hash, self.q_mask, self.r_bits) as int
    }

    /// The remainder part of the fingerprint of `hash`.
    pub closed spec fn hash_remainder(&self, hash: u64) -> u64 {
        remainder_of(hash, self.r_mask)
    }

    /// The fingerprint of `hash` is stored.
    pub closed spec fn holds_hash(&self, hash: u64) -> bool {
        self.holds(self.hash_quotient(hash), self.hash_remainder(hash))
    }

    /// Slot `p` starts the run of quotient `q`.
    closed spec fn run_head(&self, p: int, q: int) -> bool {
        &&& self.filled(p)
        &&& self.quot(p) == q
        &&& !self.is_continuation@[p]
    }

    /// Slot `p` is where a new run for the absent quotient `q` belongs: the
    /// slots from `q` up to `p` are filled with earlier quotients, and `p`
    /// is empty or starts the run of a later quotient.
    closed spec fn gap(&self, p: int, q: int) -> bool {
        let ts = self.table_size as int;
        let d = ring_dist(q, p, ts);
        &&& forall|k: int| 0 <= k < d ==> #[trigger] self.filled(ring_add(q, k, ts))
        &&& d > 0 ==> self.disp(ring_prev(p, ts)) >= d - 1
        &&& self.filled(p) ==> !self.is_continuation@[p] && self.disp(p) <= d
    }

    /// Every stored quotient names a slot.
    #[verifier::opaque]
    closed spec fn inv_quots(&self) -> bool {
        &&& self.quots@.len() == self.table_size
        &&& forall|i: int| 0 <= i < self.table_size && #[trigger] self.filled(i) ==> 0 <= self.quot(i) < self.table_size
    }

    /// A displaced fingerprint sits right after another fingerprint whose home
    /// slot is no later than its own: clusters are contiguous and ordered.
    #[verifier::opaque]
    closed spec fn inv_chain(&self) -> bool {
        forall|i: int| 0 <= i < self.table_size && #[trigger] self.filled(i) && self.disp(i) > 0 ==> {
            let p = ring_prev(i, self.table_size as int);
            self.filled(p) && self.disp(p) >= self.disp(i) - 1
        }
    }

    /// The per-slot flags match the arrangement.
    #[verifier::opaque]
    closed spec fn inv_flags(&self) -> bool {
        &&& forall|i: int| 0 <= i < self.table_size && #[trigger] self.filled(i) ==> self.is_shifted@[i] == (self.disp(i) > 0)
        &&& forall|i: int| 0 <= i < self.table_size && #[trigger] self.filled(i) ==> self.is_continuation@[i] == (self.disp(i) > 0
            && self.quot(ring_prev(i, self.table_size as int)) == self.quot(i))
        &&& forall|i: int| 0 <= i < self.table_size && !#[trigger] self.filled(i) ==> !self.is_shifted@[i] && !self.is_continuation@[i]
    }

    /// Remainders increase strictly along a run.
    #[verifier::opaque]
    closed spec fn inv_sorted(&self) -> bool {
        forall|i: int| 0 <= i < self.table_size && #[trigger] self.filled(i) && self.is_continuation@[i] ==>
            self.rem(ring_prev(i, self.table_size as int)) < self.rem(i)
    }

    /// A quotient is marked occupied exactly when some slot holds it.
    #[verifier::opaque]
    closed spec fn inv_occupied(&self) -> bool {
        forall|v: int| 0 <= v < self.table_size ==> #[trigger] self.is_occupied@[v] == exists|i: int|
            0 <= i < self.table_size && #[trigger] self.filled(i) && self.quot(i) == v
    }

    /// The count is the number of filled slots, and a full table keeps a
    /// fingerprint in its home slot.
    #[verifier::opaque]
    closed spec fn inv_count(&self) -> bool {
        &&& self.count == filled_count(self.slots@)
        &&& self.count == self.table_size ==> exists|i: int| 0 <= i < self.table_size && #[trigger] self.filled(i) && self.disp(i) == 0
    }

    /// The slots hold a valid arrangement of sorted runs.
    pub closed spec fn sound(&self) -> bool {
        &&& self.inv_quots()
        &&& self.inv_chain()
        &&& self.inv_flags()
        &&& self.inv_sorted()
        &&& self.inv_occupied()
        &&& self.inv_count()
    }

    /// Parameters in range and all tables sized to 2^q slots.
    pub closed spec fn shape(&self) -> bool {
        &&& 1 <= self.q_bits <= 24
        &&& 1 <= self.r_bits <= 40
        &&& self.table_size == pow2(self.q_bits as nat)
        &&& self.r_mask == ((1u64 << self.r_bits) - 1) as u64
        &&& self.q_mask == ((((1u64 << self.q_bits) - 1) as u64) << self.r_bits)
        &&& self.slots@.len() == self.table_size
        &&& self.is_occupied@.len() == self.table_size
        &&& self.is_continuation@.len() == self.table_size
        &&& self.is_shifted@.len() == self.table_size
        &&& self.quots@.len() == self.table_size
        &&& self.count <= self.table_size
    }

    /// Number of stored fingerprints.
    pub closed spec fn size(&self) -> nat {
        self.count as nat
    }

    /// Number of slots (2^q).
    pub closed spec fn slot_count(&self) -> nat {
        self.table_size as nat
    }

    /// Quotient bits.
    pub closed spec fn quotient_bits(&self) -> nat {
        self.q_bits as nat
    }

    /// Remainder bits.
    pub closed spec fn remainder_bits(&self) -> nat {
        self.r_bits as nat
    }

    /// Create a filter with 2^q slots and r-bit remainders; q is clamped to
    /// 1..=24 and r to 1..=40.
    pub fn new(q_bits: u32, r_bits: u32) -> (f: Self)
        ensures
            f.wf(),
            forall|q: int, r: u64| !f.holds(q, r),
            f.quotient_bits() == clamp_spec(q_bits as int, 1, 24),
            f.remainder_bits() == clamp_spec(r_bits as int, 1, 40),
            f.slot_count() == pow2(f.quotient_bits()),
            f.slot_count() >= 2,
            f.size() == 0,
    {
        let q_bits = if q_bits < 1 { 1 } else if q_bits > 24 { 24 } else { q_bits };
        let r_bits = if r_bits < 1 { 1 } else if r_bits > 40 { 40 } else { r_bits };
        proof {
            lemma_shift_pow2(q_bits);
            lemma_shift_pow2(r_bits);
            assert((1usize << q_bits) as nat == (1u64 << q_bits) as nat) by (bit_vector)
                requires
                    q_bits <= 24,
            ;
        }
        let table_size = 1usize << q_bits;
        let f = QuotientFilter {
            q_bits,
            r_bits,
            r_mask: (1u64 << r_bits) - 1,
            q_mask: ((1u64 << q_bits) - 1) << r_bits,
            table_size,
            slots: vec![None; table_size],
            is_occupied: vec![false; table_size],
            is_continuation: vec![false; table_size],
            is_shifted: vec![false; table_size],
            count: 0,
            quots: Ghost(Seq::new(table_size as nat, |i: int| 0int)),
        };
        proof {
            lemma_filled_count_empty(f.slots@);
            reveal(QuotientFilter::inv_quots);
            reveal(QuotientFilter::inv_chain);
            reveal(QuotientFilter::inv_flags);
            reveal(QuotientFilter::inv_sorted);
            reveal(QuotientFilter::inv_occupied);
            reveal(QuotientFilter::inv_count);
            assert(f.inv_occupied());
        }
        f
    }
}

} // verus!

verus! {

impl QuotientFilter {
    proof fn use_quots(&self, i: int)
        requires
            self.sound(),
            0 <= i < self.table_size,
            self.filled(i),
        ensures
            self.quots@.len() == self.table_size,
            0 <= self.quot(i) < self.table_size,
    {
        reveal(QuotientFilter::inv_quots);
    }

    proof fn use_chain(&self, i: int)
        requires
            self.sound(),
            0 <= i < self.table_size,
            self.filled(i),
            self.disp(i) > 0,
        ensures
            self.filled(ring_prev(i, self.table_size as int)),
            self.disp(ring_prev(i, self.table_size as int)) >= self.disp(i) - 1,
    {
        reveal(QuotientFilter::inv_chain);
    }

    proof fn use_flags(&self, i: int)
        requires
            self.sound(),
            0 <= i < self.table_size,
        ensures
            self.filled(i) ==> self.is_shifted@[i] == (self.disp(i) > 0),
            self.filled(i) ==> self.is_continuation@[i] == (self.disp(i) > 0 && self.quot(ring_prev(i, self.table_size as int))
                == self.quot(i)),
            !self.filled(i) ==> !self.is_shifted@[i] && !self.is_continuation@[i],
    {
        reveal(QuotientFilter::inv_flags);
    }

    proof fn use_sorted(&self, i: int)
        requires
            self.sound(),
            0 <= i < self.table_size,
            self.filled(i),
            self.is_continuation@[i],
        ensures
            self.rem(ring_prev(i, self.table_size as int)) < self.rem(i),
    {
        reveal(QuotientFilter::inv_sorted);
    }

    proof fn use_occupied(&self, v: int)
        requires
            self.sound(),
            0 <= v < self.table_size,
        ensures
            self.is_occupied@[v] == exists|i: int| 0 <= i < self.table_size && #[trigger] self.filled(i) && self.quot(i) == v,
    {
        reveal(QuotientFilter::inv_occupied);
    }

    proof fn use_count(&self)
        requires
            self.sound(),
        ensures
            self.count == filled_count(self.slots@),
            self.count == self.table_size ==> exists|i: int| 0 <= i < self.table_size && #[trigger] self.filled(i) && self.disp(i) == 0,
    {
        reveal(QuotientFilter::inv_count);
    }

    /// Displacements are below the table size.
    proof fn lemma_disp_range(&self, i: int)
        requires
            self.shape(),
            self.sound(),
            0 <= i < self.table_size,
            self.filled(i),
        ensures
            0 <= self.disp(i) < self.table_size,
            0 <= self.quot(i) < self.table_size,
            self.quot(i) == ring_sub(i, self.disp(i), self.table_size as int),
    {
        self.use_quots(i);
    }

    /// Walking back from a fingerprint towards its home slot passes only
    /// filled slots, each displaced at least as far as the walk has left.
    proof fn lemma_chain(&self, i: int, k: int)
        requires
            self.shape(),
            self.sound(),
            0 <= i < self.table_size,
            self.filled(i),
            0 <= k <= self.disp(i),
        ensures
            self.filled(ring_sub(i, k, self.table_size as int)),
            self.disp(ring_sub(i, k, self.table_size as int)) >= self.disp(i) - k,
        decreases k,
    {
        let ts = self.table_size as int;
        self.lemma_disp_range(i);
        if k > 0 {
            self.lemma_chain(i, k - 1);
            let j = ring_sub(i, k - 1, ts);
            assert(self.filled(j));
            self.use_chain(j);
            assert(ring_prev(j, ts) == ring_sub(i, k, ts));
        }
    }

    /// Along filled slots, displacement grows by at most one per step.
    proof fn lemma_forward(&self, a: int, k: int)
        requires
            self.shape(),
            self.sound(),
            0 <= a < self.table_size,
            0 <= k < self.table_size,
            forall|j: int| 0 <= j <= k ==> #[trigger] self.filled(ring_add(a, j, self.table_size as int)),
        ensures
            self.disp(ring_add(a, k, self.table_size as int)) <= self.disp(a) + k,
        decreases k,
    {
        let ts = self.table_size as int;
        assert(ring_add(a, 0, ts) == a);
        assert(self.filled(ring_add(a, 0, ts)));
        self.lemma_disp_range(a);
        if k > 0 {
            self.lemma_forward(a, k - 1);
            let x = ring_add(a, k, ts);
            assert(self.filled(ring_add(a, k - 1, ts)));
            assert(self.filled(x));
            assert(ring_prev(x, ts) == ring_add(a, k - 1, ts));
            if self.disp(x) > 0 {
                self.use_chain(x);
            }
        } else {
            assert(ring_add(a, 0, ts) == a);
        }
    }

    /// A filled slot with no displacement holds its own quotient.
    proof fn lemma_home(&self, i: int)
        requires
            self.shape(),
            self.sound(),
            0 <= i < self.table_size,
            self.filled(i),
            self.disp(i) == 0,
        ensures
            self.quot(i) == i,
    {
        self.lemma_disp_range(i);
    }

    /// An empty slot stops every chain: a fingerprint's displacement is
    /// below its distance from any empty slot behind it.
    proof fn lemma_disp_bound(&self, i: int, e: int)
        requires
            self.shape(),
            self.sound(),
            0 <= i < self.table_size,
            0 <= e < self.table_size,
            self.filled(i),
            !self.filled(e),
        ensures
            self.disp(i) < ring_dist(e, i, self.table_size as int),
    {
        let ts = self.table_size as int;
        self.lemma_disp_range(i);
        if self.disp(i) >= ring_dist(e, i, ts) {
            self.lemma_chain(i, ring_dist(e, i, ts));
            assert(ring_sub(i, ring_dist(e, i, ts), ts) == e);
        }
    }

    /// An occupied quotient's home slot is filled.
    proof fn lemma_occupied_home_filled(&self, v: int)
        requires
            self.shape(),
            self.sound(),
            0 <= v < self.table_size,
            self.is_occupied@[v],
        ensures
            self.filled(v),
    {
        let ts = self.table_size as int;
        self.use_occupied(v);
        let i = choose|i: int| 0 <= i < self.table_size && #[trigger] self.filled(i) && self.quot(i) == v;
        self.lemma_disp_range(i);
        self.lemma_chain(i, self.disp(i));
    }

    /// Fewer fingerprints than slots leaves an empty slot.
    proof fn lemma_has_empty(&self) -> (e: int)
        requires
            self.shape(),
            self.sound(),
            self.count < self.table_size,
        ensures
            0 <= e < self.table_size,
            !self.filled(e),
    {
        self.use_count();
        if forall|i: int| 0 <= i < self.slots@.len() ==> #[trigger] self.slots@[i] is Some {
            lemma_filled_count_full(self.slots@);
            assert(false);
        }
        let e = choose|i: int| 0 <= i < self.slots@.len() && !(#[trigger] self.slots@[i] is Some);
        assert(!self.filled(e));
        e
    }

    /// Position `k` after `cs`, less its displacement: where its home slot
    /// lies counted from `cs`.
    closed spec fn home_from(&self, cs: int, k: int) -> int {
        k - self.disp(ring_add(cs, k, self.table_size as int))
    }

    /// From a slot holding its own quotient, along filled slots, home slots
    /// never lie before `cs` and never go backwards.
    proof fn lemma_stretch(&self, cs: int, n: int)
        requires
            self.shape(),
            self.sound(),
            0 <= cs < self.table_size,
            0 <= n < self.table_size,
            self.filled(cs),
            self.disp(cs) == 0,
            forall|k: int| 0 <= k <= n ==> #[trigger] self.filled(ring_add(cs, k, self.table_size as int)),
        ensures
            forall|k: int| 0 <= k <= n ==> 0 <= #[trigger] self.home_from(cs, k) <= k,
            forall|j: int, k: int| 0 <= j <= k <= n ==> #[trigger] self.home_from(cs, j) <= #[trigger] self.home_from(cs, k),
            forall|k: int| 0 <= k <= n ==> #[trigger] self.quot(ring_add(cs, k, self.table_size as int)) == ring_add(cs, self.home_from(cs, k), self.table_size as int),
        decreases n,
    {
        let ts = self.table_size as int;
        if n == 0 {
            assert(ring_add(cs, 0, ts) == cs);
            self.lemma_home(cs);
        } else {
            self.lemma_stretch(cs, n - 1);
            let x = ring_add(cs, n, ts);
            let p = ring_add(cs, n - 1, ts);
            assert(self.filled(x));
            assert(self.filled(p));
            assert(ring_prev(x, ts) == p);
            self.lemma_disp_range(x);
            self.lemma_disp_range(p);
            if self.disp(x) > 0 {
                self.use_chain(x);
            }
            assert(0 <= self.home_from(cs, n - 1) <= n - 1);
            assert(self.home_from(cs, n) >= self.home_from(cs, n - 1));
            assert(0 <= self.home_from(cs, n) <= n);
            assert forall|j: int, k: int| 0 <= j <= k <= n implies #[trigger] self.home_from(cs, j) <= #[trigger] self.home_from(cs, k) by {
                if k == n && j < n {
                    assert(self.home_from(cs, j) <= self.home_from(cs, n - 1));
                }
            }
            assert forall|k: int| 0 <= k <= n implies 0 <= #[trigger] self.home_from(cs, k) <= k by {
                if k < n {
                    assert(0 <= self.home_from(cs, k) <= k);
                }
            }
            assert forall|k: int| 0 <= k <= n implies #[trigger] self.quot(ring_add(cs, k, ts)) == ring_add(cs, self.home_from(cs, k), ts) by {
                if k == n {
                    assert(self.quot(x) == ring_sub(x, self.disp(x), ts));
                }
            }
        }
    }

    /// Slots `cs` through `cs + n` are filled.
    #[verifier::opaque]
    closed spec fn filled_upto(&self, cs: int, n: int) -> bool {
        forall|k: int| 0 <= k <= n ==> #[trigger] self.filled(ring_add(cs, k, self.table_size as int))
    }

    /// Slots `cs` through `cs + p - 1` are filled, with homes less than `b`
    /// steps from `cs`.
    #[verifier::opaque]
    closed spec fn homes_below(&self, cs: int, p: int, b: int) -> bool {
        forall|k: int|
            #![trigger self.filled(ring_add(cs, k, self.table_size as int))]
            #![trigger self.home_from(cs, k)]
            0 <= k < p ==> self.filled(ring_add(cs, k, self.table_size as int)) && self.home_from(cs, k) < b
    }

    /// Slots `cs + lo` through `cs + hi` are filled, with homes exactly `b`
    /// steps from `cs`.
    #[verifier::opaque]
    closed spec fn homes_equal(&self, cs: int, lo: int, hi: int, b: int) -> bool {
        forall|k: int|
            #![trigger self.filled(ring_add(cs, k, self.table_size as int))]
            #![trigger self.home_from(cs, k)]
            lo <= k <= hi ==> self.filled(ring_add(cs, k, self.table_size as int)) && self.home_from(cs, k) == b
    }

    /// A slot holding its own quotient, with `n` filled slots after it.
    closed spec fn anchored(&self, cs: int, n: int) -> bool {
        &&& 0 <= cs < self.table_size
        &&& 0 <= n < self.table_size
        &&& self.filled(cs)
        &&& self.disp(cs) == 0
        &&& self.filled_upto(cs, n)
    }

    /// The forward walk from `cs` stands at slot `cs + p` for the quotient
    /// `b` steps from `cs`: the head of its run when that quotient is
    /// occupied, else (at the target) the place its run would start.
    closed spec fn walk_at(&self, cs: int, p: int, b: int, qd: int, q: int) -> bool {
        let ts = self.table_size as int;
        let x = ring_add(cs, p, ts);
        &&& b < qd || self.is_occupied@[q] ==> {
            &&& self.filled(x)
            &&& self.home_from(cs, p) == b
            &&& !self.is_continuation@[x]
            &&& self.is_occupied@[ring_add(cs, b, ts)]
        }
        &&& b == qd && !self.is_occupied@[q] ==> !self.filled(x) || (self.home_from(cs, p) > qd && !self.is_continuation@[x])
    }

    /// The walk starts at the cluster start for the quotient there.
    proof fn lemma_walk_start(&self, cs: int, qd: int, q: int)
        requires
            self.shape(),
            self.sound(),
            0 <= cs < self.table_size,
            0 <= qd < self.table_size,
            0 <= q < self.table_size,
            q == ring_add(cs, qd, self.table_size as int),
            qd > 0 ==> self.anchored(cs, qd),
            qd == 0 ==> cs == q,
            qd == 0 && self.filled(cs) ==> self.disp(cs) == 0,
        ensures
            self.homes_below(cs, 0, 0),
            self.walk_at(cs, 0, 0, qd, q),
    {
        let ts = self.table_size as int;
        reveal(QuotientFilter::homes_below);
        assert(ring_add(cs, 0, ts) == cs);
        self.use_flags(cs);
        if self.filled(cs) {
            self.lemma_disp_range(cs);
            if self.disp(cs) == 0 {
                self.lemma_home(cs);
                self.use_occupied(cs);
                assert(self.is_occupied@[cs]);
            }
        }
        if qd == 0 && self.is_occupied@[q] {
            self.lemma_occupied_home_filled(q);
        }
    }

    /// Before the walk's target, it stands at the head of an occupied run.
    proof fn lemma_walk_head(&self, cs: int, qd: int, q: int, p0: int, b0: int)
        requires
            self.walk_at(cs, p0, b0, qd, q),
            b0 < qd,
        ensures
            self.filled(ring_add(cs, p0, self.table_size as int)),
            self.home_from(cs, p0) == b0,
            !self.is_continuation@[ring_add(cs, p0, self.table_size as int)],
            self.homes_equal(cs, p0, p0, b0),
    {
        reveal(QuotientFilter::homes_equal);
    }

    /// The filled slots of a walk so far, as one prefix.
    proof fn lemma_walk_filled(&self, cs: int, qd: int, p0: int, m: int, b0: int)
        requires
            self.anchored(cs, qd),
            self.homes_below(cs, p0, b0),
            self.homes_equal(cs, p0, m, b0),
            0 <= p0 <= m < self.table_size,
        ensures
            self.filled_upto(cs, m),
            forall|k: int| 0 <= k <= m ==> #[trigger] self.filled(ring_add(cs, k, self.table_size as int)),
    {
        reveal(QuotientFilter::homes_below);
        reveal(QuotientFilter::homes_equal);
        reveal(QuotientFilter::filled_upto);
        assert forall|k: int| 0 <= k <= m implies #[trigger] self.filled(ring_add(cs, k, self.table_size as int)) by {
            if k < p0 {
                assert(self.filled(ring_add(cs, k, self.table_size as int)));
            } else {
                assert(self.filled(ring_add(cs, k, self.table_size as int)));
            }
        }
    }

    /// A run below the walk's target cannot reach around the whole ring.
    proof fn lemma_run_not_wrap(&self, cs: int, qd: int, q: int, p0: int, m: int, b0: int)
        requires
            self.shape(),
            self.sound(),
            self.anchored(cs, qd),
            0 < qd,
            q == ring_add(cs, qd, self.table_size as int),
            0 <= q < self.table_size,
            0 <= b0 < qd,
            self.homes_below(cs, p0, b0),
            self.homes_equal(cs, p0, m, b0),
            self.is_occupied@[q] || self.count < self.table_size,
            0 <= p0 <= m < self.table_size,
        ensures
            m + 1 < self.table_size,
    {
        let ts = self.table_size as int;
        if m + 1 == ts {
            self.lemma_walk_filled(cs, qd, p0, m, b0);
            assert forall|x: int| 0 <= x < ts implies #[trigger] self.slots@[x] is Some by {
                let k = ring_dist(cs, x, ts);
                assert(ring_add(cs, k, ts) == x);
                assert(self.filled(ring_add(cs, k, ts)));
            }
            lemma_filled_count_full(self.slots@);
            self.use_count();
            self.use_occupied(q);
            self.lemma_stretch(cs, m);
            let i = choose|i: int| 0 <= i < self.table_size && #[trigger] self.filled(i) && self.quot(i) == q;
            self.lemma_member(cs, i);
            let di = ring_dist(cs, i, ts);
            assert(ring_add(cs, di, ts) == i);
            assert(ring_dist(cs, q, ts) == qd);
            assert(self.home_from(cs, di) == qd);
            reveal(QuotientFilter::homes_below);
            reveal(QuotientFilter::homes_equal);
            if di < p0 {
                assert(self.filled(ring_add(cs, di, ts)));
            } else {
                assert(self.filled(ring_add(cs, di, ts)));
            }
            assert(false);
        }
    }

    /// A continuation slot extends the run of the walk.
    proof fn lemma_run_extend(&self, cs: int, qd: int, p0: int, m: int, b0: int)
        requires
            self.shape(),
            self.sound(),
            self.anchored(cs, qd),
            self.homes_below(cs, p0, b0),
            self.homes_equal(cs, p0, m - 1, b0),
            0 <= p0 < m < self.table_size,
            self.is_continuation@[ring_add(cs, m, self.table_size as int)],
        ensures
            self.homes_equal(cs, p0, m, b0),
    {
        let ts = self.table_size as int;
        let x = ring_add(cs, m, ts);
        let y = ring_add(cs, m - 1, ts);
        self.use_flags(x);
        assert(ring_prev(x, ts) == y);
        self.lemma_walk_filled(cs, qd, p0, m - 1, b0);
        assert forall|k: int| 0 <= k <= m implies #[trigger] self.filled(ring_add(cs, k, ts)) by {
            if k < m {
                assert(self.filled(ring_add(cs, k, ts)));
            }
        }
        self.lemma_stretch(cs, m);
        reveal(QuotientFilter::homes_equal);
        assert(self.filled(y));
        assert(self.home_from(cs, m - 1) == b0);
        assert(self.quot(y) == ring_add(cs, b0, ts));
        assert(self.quot(x) == ring_add(cs, self.home_from(cs, m), ts));
        assert forall|k: int| p0 <= k <= m implies #[trigger] self.filled(ring_add(cs, k, ts)) && self.home_from(cs, k) == b0 by {
            if k < m {
                assert(self.filled(ring_add(cs, k, ts)));
            }
        }
    }

    /// Where the run of the walk ends.
    proof fn lemma_run_end(&self, cs: int, qd: int, p0: int, p2: int, b0: int)
        requires
            self.shape(),
            self.sound(),
            self.anchored(cs, qd),
            self.homes_below(cs, p0, b0),
            self.homes_equal(cs, p0, p2 - 1, b0),
            0 <= p0 < p2 < self.table_size,
            !self.is_continuation@[ring_add(cs, p2, self.table_size as int)],
        ensures
            self.homes_below(cs, p2, b0 + 1),
            self.filled(ring_add(cs, p2, self.table_size as int)) ==> self.filled_upto(cs, p2) && self.home_from(cs, p2) > b0,
    {
        let ts = self.table_size as int;
        let x = ring_add(cs, p2, ts);
        let y = ring_add(cs, p2 - 1, ts);
        self.lemma_walk_filled(cs, qd, p0, p2 - 1, b0);
        reveal(QuotientFilter::homes_below);
        reveal(QuotientFilter::homes_equal);
        assert forall|k: int| 0 <= k < p2 implies #[trigger] self.filled(ring_add(cs, k, ts)) && self.home_from(cs, k) < b0 + 1 by {
            if k < p0 {
                assert(self.filled(ring_add(cs, k, ts)));
            } else {
                assert(self.filled(ring_add(cs, k, ts)));
            }
        }
        if self.filled(x) {
            assert forall|k: int| 0 <= k <= p2 implies #[trigger] self.filled(ring_add(cs, k, ts)) by {
                if k < p2 {
                    assert(self.filled(ring_add(cs, k, ts)));
                }
            }
            reveal(QuotientFilter::filled_upto);
            self.lemma_stretch(cs, p2);
            self.use_flags(x);
            assert(ring_prev(x, ts) == y);
            assert(self.filled(y));
            assert(self.home_from(cs, p2 - 1) == b0);
            if self.home_from(cs, p2) == b0 {
                assert(self.quot(y) == self.quot(x));
                assert(false);
            }
        }
    }

    /// When every slot before `cs + p2` has its home at most `lo` steps from
    /// `cs` and that slot is empty or has its home at least `hi` steps away,
    /// no quotient strictly between is occupied.
    proof fn lemma_no_member_between(&self, cs: int, qd: int, p2: int, lo: int, hi: int, v: int)
        requires
            self.shape(),
            self.sound(),
            self.anchored(cs, qd),
            0 < qd,
            0 <= p2 < self.table_size,
            self.homes_below(cs, p2, lo + 1),
            self.filled(ring_add(cs, p2, self.table_size as int)) ==> self.home_from(cs, p2) >= hi,
            0 <= lo < v < hi,
            v <= qd,
        ensures
            !self.is_occupied@[ring_add(cs, v, self.table_size as int)],
    {
        let ts = self.table_size as int;
        let qv = ring_add(cs, v, ts);
        self.use_occupied(qv);
        if self.is_occupied@[qv] {
            let i = choose|i: int| 0 <= i < self.table_size && #[trigger] self.filled(i) && self.quot(i) == qv;
            self.lemma_member(cs, i);
            let di = ring_dist(cs, i, ts);
            assert(ring_dist(cs, qv, ts) == v);
            assert(ring_add(cs, di, ts) == i);
            reveal(QuotientFilter::filled_upto);
            reveal(QuotientFilter::homes_below);
            assert forall|k: int| 0 <= k <= di implies #[trigger] self.filled(ring_add(cs, k, ts)) by {
                if k <= qd {
                    assert(self.filled(ring_add(cs, k, ts)));
                } else {
                    assert(v <= k);
                }
            }
            self.lemma_stretch(cs, di);
            assert(self.home_from(cs, di) == v);
            if di >= p2 {
                assert(self.filled(ring_add(cs, p2, ts)));
                assert(self.home_from(cs, p2) <= self.home_from(cs, di));
            } else {
                assert(self.filled(ring_add(cs, di, ts)));
                assert(self.home_from(cs, di) <= lo);
            }
        }
    }

    /// After a run ends, the walk moves to the next occupied quotient, or
    /// to its target.
    proof fn lemma_walk_next(&self, cs: int, qd: int, q: int, p2: int, b0: int, bn: int)
        requires
            self.shape(),
            self.sound(),
            self.anchored(cs, qd),
            0 < qd,
            q == ring_add(cs, qd, self.table_size as int),
            0 <= q < self.table_size,
            0 <= p2 < self.table_size,
            self.homes_below(cs, p2, b0 + 1),
            self.filled(ring_add(cs, p2, self.table_size as int)) ==> self.filled_upto(cs, p2) && self.home_from(cs, p2) > b0,
            !self.is_continuation@[ring_add(cs, p2, self.table_size as int)],
            0 <= b0 < bn <= qd,
            forall|b: int| b0 < b < bn ==> !#[trigger] self.is_occupied@[ring_add(cs, b, self.table_size as int)],
            bn == qd || self.is_occupied@[ring_add(cs, bn, self.table_size as int)],
        ensures
            self.homes_below(cs, p2, bn),
            self.walk_at(cs, p2, bn, qd, q),
    {
        let ts = self.table_size as int;
        let x = ring_add(cs, p2, ts);
        assert(self.homes_below(cs, p2, bn)) by {
            reveal(QuotientFilter::homes_below);
        }
        assert(ring_add(cs, qd, ts) == q);
        if self.filled(x) {
            let u = self.home_from(cs, p2);
            reveal(QuotientFilter::filled_upto);
            self.lemma_stretch(cs, p2);
            assert(self.quot(x) == ring_add(cs, u, ts));
            self.use_occupied(ring_add(cs, u, ts));
            assert(self.is_occupied@[ring_add(cs, u, ts)]);
            if u <= qd {
                if bn < u {
                    self.lemma_no_member_between(cs, qd, p2, b0, u, bn);
                }
                if bn > u {
                    assert(!self.is_occupied@[ring_add(cs, u, ts)]);
                }
                assert(bn == u);
            } else {
                if bn < qd {
                    self.lemma_no_member_between(cs, qd, p2, b0, u, bn);
                }
                assert(bn == qd);
                if self.is_occupied@[q] {
                    self.lemma_no_member_between(cs, qd, p2, b0, u, qd);
                }
            }
        } else {
            if bn < qd {
                self.lemma_no_member_between(cs, qd, p2, b0, qd + 1, bn);
            }
            assert(bn == qd);
            if self.is_occupied@[q] {
                self.lemma_no_member_between(cs, qd, p2, b0, qd + 1, qd);
            }
        }
    }

    /// The walk ends at the run head of an occupied target, or at the gap
    /// where an absent target's run belongs.
    proof fn lemma_walk_done(&self, cs: int, qd: int, q: int, p: int)
        requires
            self.shape(),
            self.sound(),
            0 <= cs < self.table_size,
            0 <= qd < self.table_size,
            0 <= q < self.table_size,
            q == ring_add(cs, qd, self.table_size as int),
            0 <= p < self.table_size,
            qd > 0 ==> self.anchored(cs, qd),
            qd == 0 ==> cs == q && p == 0,
            qd == 0 && self.filled(cs) ==> self.disp(cs) == 0,
            self.homes_below(cs, p, qd),
            self.walk_at(cs, p, qd, qd, q),
        ensures
            self.is_occupied@[q] ==> self.run_head(ring_add(cs, p, self.table_size as int), q),
            !self.is_occupied@[q] ==> self.gap(ring_add(cs, p, self.table_size as int), q),
    {
        let ts = self.table_size as int;
        let pos = ring_add(cs, p, ts);
        reveal(QuotientFilter::homes_below);
        reveal(QuotientFilter::filled_upto);
        if self.is_occupied@[q] {
            if qd == 0 {
                assert(pos == q);
                self.lemma_home(q);
            } else {
                assert forall|k: int| 0 <= k <= p implies #[trigger] self.filled(ring_add(cs, k, ts)) by {
                    if k < p {
                        assert(self.filled(ring_add(cs, k, ts)));
                    }
                }
                self.lemma_stretch(cs, p);
                assert(self.quot(pos) == ring_add(cs, qd, ts));
            }
        } else if qd == 0 {
            assert(pos == q);
            if self.filled(q) {
                self.lemma_home(q);
                self.use_occupied(q);
                assert(self.is_occupied@[q]);
            }
        } else {
            if p < qd {
                assert forall|k: int| 0 <= k <= p implies #[trigger] self.filled(ring_add(cs, k, ts)) by {
                    assert(k <= qd);
                }
                self.lemma_stretch(cs, p);
                assert(false);
            }
            let d = p - qd;
            assert(ring_dist(q, pos, ts) == d);
            assert forall|k: int| 0 <= k < d implies #[trigger] self.filled(ring_add(q, k, ts)) by {
                assert(ring_add(q, k, ts) == ring_add(cs, qd + k, ts));
                assert(self.filled(ring_add(cs, qd + k, ts)));
            }
            if d > 0 {
                assert forall|k: int| 0 <= k <= p - 1 implies #[trigger] self.filled(ring_add(cs, k, ts)) by {
                    assert(self.filled(ring_add(cs, k, ts)));
                }
                self.lemma_stretch(cs, p - 1);
                assert(ring_prev(pos, ts) == ring_add(cs, p - 1, ts));
                assert(self.filled(ring_add(cs, p - 1, ts)));
                assert(self.home_from(cs, p - 1) < qd);
            }
            if self.filled(pos) {
                assert forall|k: int| 0 <= k <= p implies #[trigger] self.filled(ring_add(cs, k, ts)) by {
                    if k < p {
                        assert(self.filled(ring_add(cs, k, ts)));
                    }
                }
                self.lemma_stretch(cs, p);
            }
        }
    }

    /// Every fingerprint of quotient `q` lies in the run starting at its
    /// head `h`: the slots from `h` up to it all hold `q` and continue the run.
    proof fn lemma_run_members(&self, h: int, q: int, i: int)
        requires
            self.shape(),
            self.sound(),
            0 <= h < self.table_size,
            0 <= i < self.table_size,
            self.run_head(h, q),
            self.filled(i),
            self.quot(i) == q,
        ensures
            forall|j: int|
                #![trigger self.filled(ring_add(h, j, self.table_size as int))]
                0 <= j <= ring_dist(h, i, self.table_size as int) ==> {
                    &&& self.filled(ring_add(h, j, self.table_size as int))
                    &&& self.quot(ring_add(h, j, self.table_size as int)) == q
                    &&& (j > 0 ==> self.is_continuation@[ring_add(h, j, self.table_size as int)])
                },
    {
        let ts = self.table_size as int;
        self.lemma_disp_range(h);
        self.lemma_disp_range(i);
        let dh = self.disp(h);
        let di = self.disp(i);
        assert(h == ring_add(q, dh, ts));
        assert(i == ring_add(q, di, ts));
        if di < dh {
            let x = ring_prev(h, ts);
            self.use_chain(h);
            let m = dh - 1 - di;
            assert forall|j: int| 0 <= j <= m implies #[trigger] self.filled(ring_add(i, j, ts)) by {
                self.lemma_chain(h, m + 1 - j);
                assert(ring_sub(h, m + 1 - j, ts) == ring_add(i, j, ts));
            }
            self.lemma_forward(i, m);
            assert(ring_add(i, m, ts) == x);
            self.lemma_disp_range(x);
            assert(self.quot(x) == q);
            self.use_flags(h);
            assert(false);
        }
        let d = di - dh;
        assert(ring_dist(h, i, ts) == d);
        assert forall|j: int| 0 <= j <= d implies #[trigger] self.filled(ring_add(h, j, ts)) by {
            self.lemma_chain(i, d - j);
            assert(ring_sub(i, d - j, ts) == ring_add(h, j, ts));
        }
        assert forall|j: int| 0 <= j <= d implies #[trigger] self.quot(ring_add(h, j, ts)) == q by {
            let x = ring_add(h, j, ts);
            self.lemma_chain(i, d - j);
            assert(ring_sub(i, d - j, ts) == x);
            self.lemma_forward(h, j);
            self.lemma_disp_range(x);
            assert(self.disp(x) == dh + j);
        }
        assert forall|j: int| #![trigger self.filled(ring_add(h, j, ts))] 0 <= j <= d implies {
            &&& self.filled(ring_add(h, j, ts))
            &&& self.quot(ring_add(h, j, ts)) == q
            &&& (j > 0 ==> self.is_continuation@[ring_add(h, j, ts)])
        } by {
            let x = ring_add(h, j, ts);
            assert(self.filled(x));
            assert(self.quot(x) == q);
            if j > 0 {
                let y = ring_add(h, j - 1, ts);
                assert(ring_prev(x, ts) == y);
                assert(self.quot(y) == q);
                self.lemma_chain(i, d - j);
                assert(ring_sub(i, d - j, ts) == x);
                self.lemma_forward(h, j);
                self.lemma_disp_range(x);
                assert(self.disp(x) == dh + j);
                self.use_flags(x);
            }
        }
    }

    /// Along consecutive continuation slots, remainders strictly increase.
    proof fn lemma_run_increasing(&self, a: int, d: int)
        requires
            self.shape(),
            self.sound(),
            0 <= a < self.table_size,
            1 <= d < self.table_size,
            forall|j: int| 0 <= j <= d ==> #[trigger] self.filled(ring_add(a, j, self.table_size as int)),
            forall|j: int| 0 < j <= d ==> #[trigger] self.is_continuation@[ring_add(a, j, self.table_size as int)],
        ensures
            self.rem(a) < self.rem(ring_add(a, d, self.table_size as int)),
        decreases d,
    {
        let ts = self.table_size as int;
        let x = ring_add(a, d, ts);
        let y = ring_add(a, d - 1, ts);
        assert(ring_prev(x, ts) == y);
        assert(self.filled(x));
        assert(self.is_continuation@[x]);
        self.use_sorted(x);
        if d > 1 {
            self.lemma_run_increasing(a, d - 1);
        } else {
            assert(y == a);
        }
    }

    /// Scanning the run of `q` from its head `h`: the first `s + 1` slots
    /// hold `q`, and the first `s` have remainders below `r`.
    #[verifier::opaque]
    closed spec fn scanned(&self, h: int, q: int, s: int, r: u64) -> bool {
        forall|j: int|
            #![trigger self.filled(ring_add(h, j, self.table_size as int))]
            #![trigger self.rem(ring_add(h, j, self.table_size as int))]
            0 <= j <= s ==> {
                &&& self.filled(ring_add(h, j, self.table_size as int))
                &&& self.quot(ring_add(h, j, self.table_size as int)) == q
                &&& (j > 0 ==> self.is_continuation@[ring_add(h, j, self.table_size as int)])
                &&& (j < s ==> self.rem(ring_add(h, j, self.table_size as int)) < r)
            }
    }

    proof fn lemma_scan_start(&self, h: int, q: int, r: u64)
        requires
            0 <= h < self.table_size,
            self.run_head(h, q),
        ensures
            self.scanned(h, q, 0, r),
    {
        reveal(QuotientFilter::scanned);
        assert(ring_add(h, 0, self.table_size as int) == h);
    }

    proof fn lemma_scan_step(&self, h: int, q: int, s: int, r: u64)
        requires
            self.shape(),
            self.sound(),
            0 <= h < self.table_size,
            0 <= s,
            s + 1 < self.table_size,
            self.scanned(h, q, s, r),
            self.rem(ring_add(h, s, self.table_size as int)) < r,
            self.filled(ring_add(h, s + 1, self.table_size as int)),
            self.is_continuation@[ring_add(h, s + 1, self.table_size as int)],
        ensures
            self.scanned(h, q, s + 1, r),
    {
        let ts = self.table_size as int;
        reveal(QuotientFilter::scanned);
        let x = ring_add(h, s + 1, ts);
        let y = ring_add(h, s, ts);
        assert(ring_prev(x, ts) == y);
        assert(self.filled(y));
        self.use_flags(x);
        assert forall|j: int| #![trigger self.filled(ring_add(h, j, ts))] 0 <= j <= s + 1 implies {
            &&& self.filled(ring_add(h, j, ts))
            &&& self.quot(ring_add(h, j, ts)) == q
            &&& (j > 0 ==> self.is_continuation@[ring_add(h, j, ts)])
            &&& (j < s + 1 ==> self.rem(ring_add(h, j, ts)) < r)
        } by {
            if j <= s {
                assert(self.filled(ring_add(h, j, ts)));
            }
        }
    }

    /// The scan stopping at a larger remainder, or at the end of the run,
    /// means the fingerprint is absent.
    proof fn lemma_scan_absent(&self, h: int, q: int, s: int, r: u64)
        requires
            self.shape(),
            self.sound(),
            0 <= h < self.table_size,
            0 <= s < self.table_size,
            self.run_head(h, q),
            self.scanned(h, q, s, r),
            self.rem(ring_add(h, s, self.table_size as int)) > r || (self.rem(ring_add(h, s, self.table_size as int)) < r && (
            s + 1 == self.table_size || !self.filled(ring_add(h, s + 1, self.table_size as int))
                || !self.is_continuation@[ring_add(h, s + 1, self.table_size as int)])),
        ensures
            !self.holds(q, r),
    {
        let ts = self.table_size as int;
        reveal(QuotientFilter::scanned);
        let at_s = ring_add(h, s, ts);
        assert(self.filled(at_s));
        if self.holds(q, r) {
            let i = choose|i: int| 0 <= i < self.table_size && #[trigger] self.filled(i) && self.quot(i) == q && self.rem(i) == r;
            self.lemma_run_members(h, q, i);
            let d = ring_dist(h, i, ts);
            assert(ring_add(h, d, ts) == i);
            assert(self.filled(ring_add(h, d, ts)));
            if d < s {
                assert(self.filled(ring_add(h, d, ts)));
            } else if d > s {
                assert(self.filled(ring_add(h, s + 1, ts)));
                if self.rem(at_s) > r {
                    let e = d - s;
                    assert forall|j: int| 0 <= j <= e implies #[trigger] self.filled(ring_add(at_s, j, ts)) by {
                        assert(ring_add(at_s, j, ts) == ring_add(h, s + j, ts));
                        assert(self.filled(ring_add(h, s + j, ts)));
                    }
                    assert forall|j: int| 0 < j <= e implies #[trigger] self.is_continuation@[ring_add(at_s, j, ts)] by {
                        assert(ring_add(at_s, j, ts) == ring_add(h, s + j, ts));
                        assert(self.filled(ring_add(h, s + j, ts)));
                    }
                    self.lemma_run_increasing(at_s, e);
                    assert(ring_add(at_s, e, ts) == i);
                }
            }
        }
    }

    /// `n` is this filter after writing the fingerprint (`q`, `rem`) at
    /// `pos`, once the `len` entries from `pos` on moved one slot forward.
    closed spec fn inserted(&self, n: &Self, pos: int, len: int, q: int, rem: u64) -> bool {
        let ts = self.table_size as int;
        &&& n.q_bits == self.q_bits
        &&& n.r_bits == self.r_bits
        &&& n.q_mask == self.q_mask
        &&& n.r_mask == self.r_mask
        &&& n.table_size == self.table_size
        &&& n.count == self.count + 1
        &&& n.slots@ == shift_seq(self.slots@, pos, len, ts).update(pos, Some(rem))
        &&& n.quots@ == shift_seq(self.quots@, pos, len, ts).update(pos, q)
        &&& n.is_shifted@ == shift_flags(self.is_shifted@, pos, len, ts).update(pos, ring_dist(q, pos, ts) > 0)
        &&& n.is_occupied@ == self.is_occupied@.update(q, true)
        &&& n.is_continuation@.len() == ts
        &&& n.is_continuation@[pos] == (ring_dist(q, pos, ts) > 0 && self.quot(ring_prev(pos, ts)) == q)
        &&& forall|x: int| 0 <= x < ts && x != pos ==> #[trigger] n.is_continuation@[x] == (if len >= 1 && x == ring_next(pos, ts) {
            self.quot(pos) == q
        } else if moved_slot(pos, len, x, ts) {
            self.is_continuation@[ring_prev(x, ts)]
        } else {
            self.is_continuation@[x]
        })
    }

    /// Writing (`q`, `rem`) at `pos` after moving `len` entries keeps runs
    /// contiguous, ordered and sorted: `pos` is where `q`'s run holds `rem`.
    closed spec fn fits(&self, pos: int, len: int, q: int, rem: u64) -> bool {
        let ts = self.table_size as int;
        let d = ring_dist(q, pos, ts);
        &&& 0 <= pos < ts
        &&& 0 <= len < ts
        &&& 0 <= q < ts
        &&& self.count < self.table_size
        &&& forall|j: int| 0 <= j < len ==> #[trigger] self.filled(ring_add(pos, j, ts))
        &&& !self.filled(ring_add(pos, len, ts))
        &&& forall|k: int| 0 <= k < d ==> #[trigger] self.filled(ring_add(q, k, ts))
        &&& d > 0 ==> self.disp(ring_prev(pos, ts)) >= d - 1
        &&& self.filled(pos) ==> self.disp(pos) <= d
        &&& self.filled(pos) && self.quot(pos) == q ==> rem < self.rem(pos)
        &&& d > 0 && self.quot(ring_prev(pos, ts)) == q ==> self.rem(ring_prev(pos, ts)) < rem
    }

    /// Slot `x` after the insertion, in terms of the slots before it.
    proof fn lemma_ins_view(&self, n: &Self, pos: int, len: int, q: int, rem: u64, x: int)
        requires
            self.shape(),
            self.sound(),
            self.inserted(n, pos, len, q, rem),
            self.fits(pos, len, q, rem),
            0 <= x < self.table_size,
        ensures
            x == pos ==> n.filled(x) && n.quot(x) == q && n.rem(x) == rem && n.disp(x) == ring_dist(q, pos, self.table_size as int),
            moved_slot(pos, len, x, self.table_size as int) ==> {
                let y = ring_prev(x, self.table_size as int);
                &&& x != pos
                &&& self.filled(y)
                &&& n.filled(x)
                &&& n.quot(x) == self.quot(y)
                &&& n.rem(x) == self.rem(y)
                &&& n.disp(x) == self.disp(y) + 1
                &&& 0 <= n.quot(x) < self.table_size
            },
            x != pos && !moved_slot(pos, len, x, self.table_size as int) ==> {
                &&& n.filled(x) == self.filled(x)
                &&& n.quot(x) == self.quot(x)
                &&& n.rem(x) == self.rem(x)
                &&& n.disp(x) == self.disp(x)
            },
    {
        let ts = self.table_size as int;
        let e = ring_add(pos, len, ts);
        if moved_slot(pos, len, x, ts) {
            let j = ring_dist(pos, x, ts);
            let y = ring_prev(x, ts);
            assert(y == ring_add(pos, j - 1, ts));
            assert(self.filled(ring_add(pos, j - 1, ts)));
            self.lemma_disp_range(y);
            self.lemma_disp_bound(y, e);
            assert(y != e);
        }
    }

    /// Insertion keeps clusters contiguous and ordered.
    proof fn lemma_ins_chain(&self, n: &Self, pos: int, len: int, q: int, rem: u64)
        requires
            self.shape(),
            self.sound(),
            self.inserted(n, pos, len, q, rem),
            self.fits(pos, len, q, rem),
        ensures
            n.inv_chain(),
    {
        let ts = self.table_size as int;
        let e = ring_add(pos, len, ts);
        reveal(QuotientFilter::inv_chain);
        assert forall|x: int| 0 <= x < n.table_size && #[trigger] n.filled(x) && n.disp(x) > 0 implies {
            let p = ring_prev(x, n.table_size as int);
            n.filled(p) && n.disp(p) >= n.disp(x) - 1
        } by {
            let p = ring_prev(x, ts);
            self.lemma_ins_view(n, pos, len, q, rem, x);
            self.lemma_ins_view(n, pos, len, q, rem, p);
            let d = ring_dist(q, pos, ts);
            if x == pos {
                assert(ring_add(q, d - 1, ts) == p);
                assert(self.filled(ring_add(q, d - 1, ts)));
                if moved_slot(pos, len, p, ts) {
                    assert(p == e);
                }
            } else if moved_slot(pos, len, x, ts) {
                let y = ring_prev(x, ts);
                if ring_dist(pos, x, ts) >= 2 {
                    assert(moved_slot(pos, len, p, ts));
                    let yy = ring_prev(y, ts);
                    assert(p == y);
                    self.lemma_disp_range(yy);
                    if self.disp(y) > 0 {
                        self.use_chain(y);
                    }
                } else {
                    assert(p == pos);
                }
            } else {
                assert(self.filled(x));
                self.use_chain(x);
                assert(self.filled(p));
                if p == pos || moved_slot(pos, len, p, ts) {
                    assert(p == e);
                }
            }
        }
    }

    /// Insertion keeps the per-slot flags matching the arrangement.
    proof fn lemma_ins_flags(&self, n: &Self, pos: int, len: int, q: int, rem: u64)
        requires
            self.shape(),
            self.sound(),
            self.inserted(n, pos, len, q, rem),
            self.fits(pos, len, q, rem),
        ensures
            n.inv_flags(),
    {
        let ts = self.table_size as int;
        let e = ring_add(pos, len, ts);
        reveal(QuotientFilter::inv_flags);
        assert forall|x: int| 0 <= x < n.table_size implies {
            &&& #[trigger] n.filled(x) ==> n.is_shifted@[x] == (n.disp(x) > 0)
            &&& n.filled(x) ==> n.is_continuation@[x] == (n.disp(x) > 0 && n.quot(ring_prev(x, n.table_size as int)) == n.quot(x))
            &&& !n.filled(x) ==> !n.is_shifted@[x] && !n.is_continuation@[x]
        } by {
            let p = ring_prev(x, ts);
            self.lemma_ins_view(n, pos, len, q, rem, x);
            self.lemma_ins_view(n, pos, len, q, rem, p);
            let d = ring_dist(q, pos, ts);
            if x == pos {
                if d > 0 {
                    assert(ring_add(q, d - 1, ts) == p);
                    assert(self.filled(ring_add(q, d - 1, ts)));
                    if moved_slot(pos, len, p, ts) {
                        assert(p == e);
                    }
                }
            } else if moved_slot(pos, len, x, ts) {
                let y = ring_prev(x, ts);
                self.lemma_disp_range(y);
                if len >= 1 && x == ring_next(pos, ts) {
                    assert(p == pos);
                } else {
                    assert(ring_dist(pos, x, ts) >= 2);
                    assert(moved_slot(pos, len, p, ts));
                    let yy = ring_prev(y, ts);
                    assert(p == y);
                    self.use_flags(y);
                    if self.disp(y) == 0 && self.quot(yy) == self.quot(y) {
                        self.lemma_home(y);
                        self.lemma_disp_range(yy);
                        self.lemma_disp_bound(yy, e);
                        assert(false);
                    }
                }
            } else {
                self.use_flags(x);
                if self.filled(x) && self.disp(x) > 0 {
                    self.use_chain(x);
                    if p == pos || moved_slot(pos, len, p, ts) {
                        assert(p == e);
                    }
                }
                if len >= 1 && x == ring_next(pos, ts) {
                    assert(moved_slot(pos, len, x, ts));
                }
            }
        }
    }

    /// Insertion keeps remainders sorted along runs.
    proof fn lemma_ins_sorted(&self, n: &Self, pos: int, len: int, q: int, rem: u64)
        requires
            self.shape(),
            self.sound(),
            self.inserted(n, pos, len, q, rem),
            self.fits(pos, len, q, rem),
            n.inv_flags(),
        ensures
            n.inv_sorted(),
    {
        let ts = self.table_size as int;
        let e = ring_add(pos, len, ts);
        reveal(QuotientFilter::inv_sorted);
        assert forall|x: int| 0 <= x < n.table_size && #[trigger] n.filled(x) && n.is_continuation@[x] implies n.rem(
            ring_prev(x, n.table_size as int),
        ) < n.rem(x) by {
            let p = ring_prev(x, ts);
            self.lemma_ins_view(n, pos, len, q, rem, x);
            self.lemma_ins_view(n, pos, len, q, rem, p);
            let d = ring_dist(q, pos, ts);
            if x == pos {
                assert(ring_add(q, d - 1, ts) == p);
                assert(self.filled(ring_add(q, d - 1, ts)));
                if moved_slot(pos, len, p, ts) {
                    assert(p == e);
                }
            } else if moved_slot(pos, len, x, ts) {
                let y = ring_prev(x, ts);
                if len >= 1 && x == ring_next(pos, ts) {
                    assert(p == pos);
                    assert(self.filled(ring_add(pos, 0, ts)));
                    assert(ring_add(pos, 0, ts) == pos);
                } else {
                    assert(moved_slot(pos, len, p, ts));
                    assert(p == y);
                    self.use_sorted(y);
                }
            } else {
                if len >= 1 && x == ring_next(pos, ts) {
                    assert(moved_slot(pos, len, x, ts));
                }
                self.use_flags(x);
                self.use_chain(x);
                self.use_sorted(x);
                if p == pos || moved_slot(pos, len, p, ts) {
                    assert(p == e);
                }
            }
        }
    }

    /// Insertion keeps every stored quotient in range.
    proof fn lemma_ins_quots(&self, n: &Self, pos: int, len: int, q: int, rem: u64)
        requires
            self.shape(),
            self.sound(),
            self.inserted(n, pos, len, q, rem),
            self.fits(pos, len, q, rem),
        ensures
            n.inv_quots(),
    {
        reveal(QuotientFilter::inv_quots);
        assert forall|x: int| 0 <= x < n.table_size && #[trigger] n.filled(x) implies 0 <= n.quot(x) < n.table_size by {
            self.lemma_ins_view(n, pos, len, q, rem, x);
            if x != pos && !moved_slot(pos, len, x, self.table_size as int) {
                self.use_quots(x);
            }
        }
    }

    /// Where a fingerprint held before the insertion is held after it.
    proof fn lemma_ins_keep(&self, n: &Self, pos: int, len: int, q: int, rem: u64, i: int) -> (x: int)
        requires
            self.shape(),
            self.sound(),
            self.inserted(n, pos, len, q, rem),
            self.fits(pos, len, q, rem),
            0 <= i < self.table_size,
            self.filled(i),
        ensures
            0 <= x < self.table_size,
            n.filled(x),
            n.quot(x) == self.quot(i),
            n.rem(x) == self.rem(i),
    {
        let ts = self.table_size as int;
        let e = ring_add(pos, len, ts);
        if ring_dist(pos, i, ts) < len {
            let x = ring_next(i, ts);
            assert(ring_dist(pos, x, ts) == ring_dist(pos, i, ts) + 1);
            assert(ring_prev(x, ts) == i);
            self.lemma_ins_view(n, pos, len, q, rem, x);
            x
        } else {
            assert(i != e);
            self.lemma_ins_view(n, pos, len, q, rem, i);
            i
        }
    }

    /// Where a fingerprint held after the insertion was held before it.
    proof fn lemma_ins_source(&self, n: &Self, pos: int, len: int, q: int, rem: u64, x: int) -> (i: int)
        requires
            self.shape(),
            self.sound(),
            self.inserted(n, pos, len, q, rem),
            self.fits(pos, len, q, rem),
            0 <= x < self.table_size,
            x != pos,
            n.filled(x),
        ensures
            0 <= i < self.table_size,
            self.filled(i),
            n.quot(x) == self.quot(i),
            n.rem(x) == self.rem(i),
    {
        self.lemma_ins_view(n, pos, len, q, rem, x);
        if moved_slot(pos, len, x, self.table_size as int) {
            ring_prev(x, self.table_size as int)
        } else {
            x
        }
    }

    /// After the insertion the filter holds exactly what it held before,
    /// plus (`q`, `rem`); the occupied marks follow.
    proof fn lemma_ins_holds(&self, n: &Self, pos: int, len: int, q: int, rem: u64)
        requires
            self.shape(),
            self.sound(),
            self.inserted(n, pos, len, q, rem),
            self.fits(pos, len, q, rem),
        ensures
            forall|v: int, r: u64| #[trigger] n.holds(v, r) == (self.holds(v, r) || (v == q && r == rem)),
            n.inv_occupied(),
    {
        let ts = self.table_size as int;
        self.lemma_ins_view(n, pos, len, q, rem, pos);
        assert forall|v: int, r: u64| #[trigger] n.holds(v, r) == (self.holds(v, r) || (v == q && r == rem)) by {
            if n.holds(v, r) {
                let x = choose|x: int| 0 <= x < n.table_size && #[trigger] n.filled(x) && n.quot(x) == v && n.rem(x) == r;
                if x != pos {
                    let i = self.lemma_ins_source(n, pos, len, q, rem, x);
                    assert(self.filled(i));
                }
            }
            if self.holds(v, r) {
                let i = choose|i: int| 0 <= i < self.table_size && #[trigger] self.filled(i) && self.quot(i) == v && self.rem(i) == r;
                let x = self.lemma_ins_keep(n, pos, len, q, rem, i);
                assert(n.filled(x));
            }
            if v == q && r == rem {
                assert(n.filled(pos));
            }
        }
        reveal(QuotientFilter::inv_occupied);
        assert forall|v: int| 0 <= v < n.table_size implies #[trigger] n.is_occupied@[v] == exists|x: int|
            0 <= x < n.table_size && #[trigger] n.filled(x) && n.quot(x) == v by {
            self.use_occupied(v);
            if exists|x: int| 0 <= x < n.table_size && #[trigger] n.filled(x) && n.quot(x) == v {
                let x = choose|x: int| 0 <= x < n.table_size && #[trigger] n.filled(x) && n.quot(x) == v;
                if x != pos {
                    let i = self.lemma_ins_source(n, pos, len, q, rem, x);
                    assert(self.filled(i));
                }
            }
            if self.is_occupied@[v] {
                let i = choose|i: int| 0 <= i < self.table_size && #[trigger] self.filled(i) && self.quot(i) == v;
                let x = self.lemma_ins_keep(n, pos, len, q, rem, i);
                assert(n.filled(x));
            }
            if v == q {
                assert(n.filled(pos));
            }
        }
    }

    /// Insertion fills exactly one empty slot, and a full table keeps a
    /// fingerprint at home.
    proof fn lemma_ins_count(&self, n: &Self, pos: int, len: int, q: int, rem: u64)
        requires
            self.shape(),
            self.sound(),
            self.inserted(n, pos, len, q, rem),
            self.fits(pos, len, q, rem),
        ensures
            n.inv_count(),
    {
        let ts = self.table_size as int;
        let e = ring_add(pos, len, ts);
        self.use_count();
        assert forall|x: int| 0 <= x < self.slots@.len() && x != e implies (self.slots@[x] is Some) == (n.slots@[x] is Some) by {
            self.lemma_ins_view(n, pos, len, q, rem, x);
            if x == pos {
                assert(ring_add(pos, 0, ts) == pos);
                assert(self.filled(ring_add(pos, 0, ts)));
            } else if moved_slot(pos, len, x, ts) {
                assert(x == ring_add(pos, ring_dist(pos, x, ts), ts));
                assert(self.filled(ring_add(pos, ring_dist(pos, x, ts), ts)));
            }
        }
        self.lemma_ins_view(n, pos, len, q, rem, e);
        lemma_filled_count_fill(self.slots@, n.slots@, e);
        reveal(QuotientFilter::inv_count);
        if n.count == n.table_size {
            if exists|x: int| 0 <= x < n.slots@.len() && !(#[trigger] n.slots@[x] is Some) {
                let x = choose|x: int| 0 <= x < n.slots@.len() && !(#[trigger] n.slots@[x] is Some);
                lemma_filled_count_missing(n.slots@, x);
                assert(false);
            }
            let x0 = ring_next(e, ts);
            self.lemma_ins_view(n, pos, len, q, rem, x0);
            assert(n.slots@[x0] is Some);
            if x0 == pos {
                let d = ring_dist(q, pos, ts);
                if d > 0 {
                    assert(ring_add(q, d - 1, ts) == e);
                    assert(self.filled(ring_add(q, d - 1, ts)));
                }
                assert(n.disp(x0) == 0);
            } else {
                assert(!moved_slot(pos, len, x0, ts));
                assert(self.filled(x0));
                self.lemma_disp_range(x0);
                if self.disp(x0) > 0 {
                    self.use_chain(x0);
                    assert(ring_prev(x0, ts) == e);
                }
                assert(n.disp(x0) == 0);
            }
            assert(n.filled(x0));
        }
    }

    /// The filter after a fitting insertion is sound and holds one more
    /// fingerprint.
    proof fn lemma_ins_sound(&self, n: &Self, pos: int, len: int, q: int, rem: u64)
        requires
            self.shape(),
            self.sound(),
            self.inserted(n, pos, len, q, rem),
            self.fits(pos, len, q, rem),
        ensures
            n.sound(),
            forall|v: int, r: u64| #[trigger] n.holds(v, r) == (self.holds(v, r) || (v == q && r == rem)),
    {
        self.lemma_ins_quots(n, pos, len, q, rem);
        self.lemma_ins_chain(n, pos, len, q, rem);
        self.lemma_ins_flags(n, pos, len, q, rem);
        self.lemma_ins_sorted(n, pos, len, q, rem);
        self.lemma_ins_holds(n, pos, len, q, rem);
        self.lemma_ins_count(n, pos, len, q, rem);
    }

    /// A scan over the whole ring means every slot is filled.
    proof fn lemma_scan_covers_all(&self, h: int, q: int, s: int, r: u64)
        requires
            self.shape(),
            self.sound(),
            0 <= h < self.table_size,
            s + 1 == self.table_size,
            self.scanned(h, q, s, r),
        ensures
            self.count == self.table_size,
    {
        let ts = self.table_size as int;
        reveal(QuotientFilter::scanned);
        assert forall|x: int| 0 <= x < self.slots@.len() implies #[trigger] self.slots@[x] is Some by {
            let j = ring_dist(h, x, ts);
            assert(ring_add(h, j, ts) == x);
            assert(self.filled(ring_add(h, j, ts)));
        }
        lemma_filled_count_full(self.slots@);
        self.use_count();
    }

    /// A full table has no room: a shift that found no empty slot cannot
    /// happen below capacity.
    proof fn lemma_not_all_filled(&self)
        requires
            self.shape(),
            self.sound(),
            self.count < self.table_size,
        ensures
            exists|x: int| 0 <= x < self.table_size && !#[trigger] self.filled(x),
    {
        let e = self.lemma_has_empty();
        assert(!self.filled(e));
    }

    /// The gap found for an absent quotient fits its new run.
    proof fn lemma_fits_gap(&self, pos: int, len: int, q: int, rem: u64)
        requires
            self.shape(),
            self.sound(),
            self.count < self.table_size,
            0 <= pos < self.table_size,
            0 <= q < self.table_size,
            !self.is_occupied@[q],
            self.gap(pos, q),
            0 <= len < self.table_size,
            forall|j: int| 0 <= j < len ==> #[trigger] self.filled(ring_add(pos, j, self.table_size as int)),
            !self.filled(ring_add(pos, len, self.table_size as int)) || forall|x: int|
                0 <= x < self.table_size ==> #[trigger] self.filled(x),
        ensures
            self.fits(pos, len, q, rem),
    {
        let ts = self.table_size as int;
        self.lemma_not_all_filled();
        self.use_occupied(q);
        let d = ring_dist(q, pos, ts);
        if d > 0 {
            assert(ring_add(q, d - 1, ts) == ring_prev(pos, ts));
            assert(self.filled(ring_add(q, d - 1, ts)));
        }
    }

    /// The flags written for a new run make a valid insertion.
    proof fn lemma_inserted_gap(&self, n: &Self, pos: int, len: int, q: int, rem: u64)
        requires
            self.shape(),
            self.sound(),
            self.fits(pos, len, q, rem),
            !self.is_occupied@[q],
            self.gap(pos, q),
            n.q_bits == self.q_bits,
            n.r_bits == self.r_bits,
            n.q_mask == self.q_mask,
            n.r_mask == self.r_mask,
            n.table_size == self.table_size,
            n.count == self.count + 1,
            n.slots@ == shift_seq(self.slots@, pos, len, self.table_size as int).update(pos, Some(rem)),
            n.quots@ == shift_seq(self.quots@, pos, len, self.table_size as int).update(pos, q),
            n.is_shifted@ == shift_flags(self.is_shifted@, pos, len, self.table_size as int).update(pos, ring_dist(q, pos, self.table_size as int) > 0),
            n.is_occupied@ == self.is_occupied@.update(q, true),
            n.is_continuation@ == shift_seq(self.is_continuation@, pos, len, self.table_size as int).update(pos, false),
        ensures
            self.inserted(n, pos, len, q, rem),
    {
        let ts = self.table_size as int;
        self.use_occupied(q);
        let d = ring_dist(q, pos, ts);
        if d > 0 {
            assert(ring_add(q, d - 1, ts) == ring_prev(pos, ts));
            assert(self.filled(ring_add(q, d - 1, ts)));
        }
        assert forall|x: int| 0 <= x < ts && x != pos implies #[trigger] n.is_continuation@[x] == (if len >= 1 && x == ring_next(pos, ts) {
            self.quot(pos) == q
        } else if moved_slot(pos, len, x, ts) {
            self.is_continuation@[ring_prev(x, ts)]
        } else {
            self.is_continuation@[x]
        }) by {
            if len >= 1 && x == ring_next(pos, ts) {
                assert(ring_add(pos, 0, ts) == pos);
                assert(self.filled(ring_add(pos, 0, ts)));
                assert(ring_prev(x, ts) == pos);
            }
        }
    }

    /// The place a scan of `q`'s run stopped at fits the new remainder.
    proof fn lemma_fits_scan(&self, h: int, s: int, past: bool, p: int, len: int, q: int, rem: u64)
        requires
            self.shape(),
            self.sound(),
            self.count < self.table_size,
            0 <= h < self.table_size,
            0 <= q < self.table_size,
            self.run_head(h, q),
            0 <= s < self.table_size,
            self.scanned(h, q, s, rem),
            !past ==> p == ring_add(h, s, self.table_size as int) && self.rem(p) > rem,
            past ==> s + 1 < self.table_size && p == ring_add(h, s + 1, self.table_size as int) && self.rem(
                ring_add(h, s, self.table_size as int),
            ) < rem && (!self.filled(p) || !self.is_continuation@[p]),
            0 <= len < self.table_size,
            forall|j: int| 0 <= j < len ==> #[trigger] self.filled(ring_add(p, j, self.table_size as int)),
            !self.filled(ring_add(p, len, self.table_size as int)) || forall|x: int|
                0 <= x < self.table_size ==> #[trigger] self.filled(x),
        ensures
            self.fits(p, len, q, rem),
            ring_dist(q, p, self.table_size as int) == self.disp(h) + if past { s + 1 } else { s },
    {
        let ts = self.table_size as int;
        self.lemma_not_all_filled();
        reveal(QuotientFilter::scanned);
        self.lemma_disp_range(h);
        let dh = self.disp(h);
        let t = if past { s + 1 } else { s };
        assert(h == ring_add(q, dh, ts));
        assert forall|k: int| 0 <= k <= dh + s && k < ts implies #[trigger] self.filled(ring_add(q, k, ts)) by {
            if k <= dh {
                self.lemma_chain(h, dh - k);
                assert(ring_sub(h, dh - k, ts) == ring_add(q, k, ts));
            } else {
                assert(ring_add(q, k, ts) == ring_add(h, k - dh, ts));
                assert(self.filled(ring_add(h, k - dh, ts)));
            }
        }
        if dh + t >= ts {
            assert forall|x: int| 0 <= x < ts implies #[trigger] self.filled(x) by {
                let k = ring_dist(q, x, ts);
                assert(ring_add(q, k, ts) == x);
                assert(self.filled(ring_add(q, k, ts)));
            }
            assert(false);
        }
        let d = dh + t;
        assert(ring_dist(q, p, ts) == d);
        assert(p == ring_add(q, d, ts));
        assert forall|k: int| 0 <= k < d implies #[trigger] self.filled(ring_add(q, k, ts)) by {
            assert(self.filled(ring_add(q, k, ts)));
        }
        let pp = ring_prev(p, ts);
        if t > 0 {
            assert(pp == ring_add(h, t - 1, ts));
            assert(self.filled(ring_add(h, t - 1, ts)));
            assert(self.quot(pp) == q);
        } else {
            assert(p == h);
            self.use_flags(h);
            if dh > 0 {
                self.use_chain(h);
            }
        }
        if self.filled(p) {
            self.lemma_disp_range(p);
            if past {
                self.use_flags(p);
                if self.disp(p) > 0 {
                    self.use_chain(p);
                }
            } else {
                assert(self.filled(ring_add(h, s, ts)));
            }
        }
    }

    /// The flags written after a scan make a valid insertion.
    proof fn lemma_inserted_scan(&self, n: &Self, h: int, s: int, past: bool, p: int, len: int, q: int, rem: u64)
        requires
            self.shape(),
            self.sound(),
            self.count < self.table_size,
            0 <= h < self.table_size,
            0 <= q < self.table_size,
            self.run_head(h, q),
            self.is_occupied@[q],
            0 <= s < self.table_size,
            self.scanned(h, q, s, rem),
            !past ==> p == ring_add(h, s, self.table_size as int) && self.rem(p) > rem,
            past ==> s + 1 < self.table_size && p == ring_add(h, s + 1, self.table_size as int) && self.rem(
                ring_add(h, s, self.table_size as int),
            ) < rem && (!self.filled(p) || !self.is_continuation@[p]),
            self.fits(p, len, q, rem),
            ring_dist(q, p, self.table_size as int) == self.disp(h) + if past { s + 1 } else { s },
            n.q_bits == self.q_bits,
            n.r_bits == self.r_bits,
            n.q_mask == self.q_mask,
            n.r_mask == self.r_mask,
            n.table_size == self.table_size,
            n.count == self.count + 1,
            n.slots@ == shift_seq(self.slots@, p, len, self.table_size as int).update(p, Some(rem)),
            n.quots@ == shift_seq(self.quots@, p, len, self.table_size as int).update(p, q),
            n.is_shifted@ == shift_flags(self.is_shifted@, p, len, self.table_size as int).update(p, ring_dist(q, p, self.table_size as int) > 0),
            n.is_occupied@ == self.is_occupied@,
            n.is_continuation@ == (if p == h {
                shift_seq(self.is_continuation@, p, len, self.table_size as int).update(ring_next(p, self.table_size as int), true)
            } else {
                shift_seq(self.is_continuation@, p, len, self.table_size as int)
            }).update(p, p != h),
        ensures
            self.inserted(n, p, len, q, rem),
    {
        let ts = self.table_size as int;
        reveal(QuotientFilter::scanned);
        assert(n.is_occupied@ =~= self.is_occupied@.update(q, true));
        let t = if past { s + 1 } else { s };
        self.lemma_disp_range(h);
        let pp = ring_prev(p, ts);
        if p == h {
            assert(t == 0);
            self.use_flags(h);
            assert(ring_add(p, 0, ts) == p);
            assert(len >= 1);
        } else {
            assert(t > 0);
            assert(pp == ring_add(h, t - 1, ts));
            assert(self.filled(ring_add(h, t - 1, ts)));
        }
        assert forall|x: int| 0 <= x < ts && x != p implies #[trigger] n.is_continuation@[x] == (if len >= 1 && x == ring_next(p, ts) {
            self.quot(p) == q
        } else if moved_slot(p, len, x, ts) {
            self.is_continuation@[ring_prev(x, ts)]
        } else {
            self.is_continuation@[x]
        }) by {
            if len >= 1 && x == ring_next(p, ts) {
                assert(ring_prev(x, ts) == p);
                assert(ring_add(p, 0, ts) == p);
                assert(self.filled(ring_add(p, 0, ts)));
                if p != h {
                    if past {
                        self.use_flags(p);
                    } else {
                        assert(self.filled(ring_add(h, s, ts)));
                    }
                }
            }
        }
    }

    /// A fingerprint's home slot, seen from a slot holding its own quotient,
    /// lies no further than the fingerprint itself.
    proof fn lemma_member(&self, cs: int, i: int)
        requires
            self.shape(),
            self.sound(),
            0 <= cs < self.table_size,
            0 <= i < self.table_size,
            self.filled(cs),
            self.disp(cs) == 0,
            self.filled(i),
        ensures
            ring_dist(cs, i, self.table_size as int) >= self.disp(i),
            ring_dist(cs, self.quot(i), self.table_size as int) == ring_dist(cs, i, self.table_size as int) - self.disp(i),
            forall|k: int| ring_dist(cs, self.quot(i), self.table_size as int) <= k <= ring_dist(cs, i, self.table_size as int)
                ==> #[trigger] self.filled(ring_add(cs, k, self.table_size as int)),
    {
        let ts = self.table_size as int;
        self.lemma_disp_range(i);
        let d = ring_dist(cs, i, ts);
        if d < self.disp(i) {
            self.lemma_chain(i, d);
            assert(ring_sub(i, d, ts) == cs);
        }
        assert forall|k: int| ring_dist(cs, self.quot(i), ts) <= k <= d implies #[trigger] self.filled(ring_add(cs, k, ts)) by {
            self.lemma_chain(i, d - k);
            assert(ring_sub(i, d - k, ts) == ring_add(cs, k, ts));
        }
    }
}

} // verus!

verus! {

/// The quotient of a hash: the bits above the remainder, masked to q bits.
pub open spec fn quotient_of(h: u64, q_mask: u64, r_bits: u32) -> u64 {
    (h & q_mask) >> r_bits
}

/// The remainder of a hash: its low r bits.
pub open spec fn remainder_of(h: u64, r_mask: u64) -> u64 {
    h & r_mask
}

impl QuotientFilter {
    /// Split a hash into (quotient, remainder).
    fn fingerprint_hash(&self, hash: u64) -> (r: (usize, u64))
        requires
            self.shape(),
        ensures
            r.0 < self.slot_count(),
            r.0 == quotient_of(hash, self.q_mask, self.r_bits),
            r.1 == remainder_of(hash, self.r_mask),
    {
        let q = self.q_bits;
        let rb = self.r_bits;
        let qm = self.q_mask;
        proof {
            lemma_shift_pow2(q);
            assert((hash & qm) >> rb < (1u64 << q)) by (bit_vector)
                requires
                    1 <= q <= 24,
                    1 <= rb <= 40,
                    qm == ((((1u64 << q) - 1) as u64) << rb),
            ;
        }
        let quotient = ((hash & self.q_mask) >> self.r_bits) as usize;
        let remainder = hash & self.r_mask;
        (quotient, remainder)
    }

    /// Start of the run that holds (or would hold) `quotient`: walk back to
    /// the start of its cluster, then forward one run per occupied quotient.
    fn find_run_start(&self, quotient: usize) -> (pos: usize)
        requires
            self.shape(),
            self.sound(),
            quotient < self.table_size,
            self.is_occupied@[quotient as int] || self.count < self.table_size,
        ensures
            pos < self.table_size,
            self.is_occupied@[quotient as int] ==> self.run_head(pos as int, quotient as int),
            !self.is_occupied@[quotient as int] ==> self.gap(pos as int, quotient as int),
    {
        let ts = self.table_size;
        let ghost tsi = ts as int;
        let ghost q = quotient as int;
        proof {
            lemma_pow2_range(self.q_bits as nat);
        }
        let mut cluster_start = quotient;
        let mut steps: usize = 0;
        while self.is_shifted[cluster_start] && steps < ts
            invariant
                self.shape(),
                self.sound(),
                ts == self.table_size,
                tsi == ts,
                q == quotient,
                quotient < ts,
                cluster_start < ts,
                steps <= ts,
                cluster_start as int == ring_sub(q, steps as int, tsi),
                forall|k: int| 0 <= k < steps ==> #[trigger] self.is_shifted@[ring_sub(q, k, tsi)],
                steps > 0 && cluster_start == quotient ==> steps == ts,
            ensures
                !self.is_shifted@[cluster_start as int] || steps == ts,
            decreases ts - steps,
        {
            proof {
                assert(self.is_shifted@[ring_sub(q, steps as int, tsi)]);
            }
            cluster_start = if cluster_start == 0 { ts - 1 } else { cluster_start - 1 };
            steps += 1;
            if cluster_start == quotient {
                break;
            }
        }
        proof {
            // The walk stops at an unshifted slot: a full ring of shifted slots
            // would leave no fingerprint at home.
            if steps == ts {
                assert forall|x: int| 0 <= x < tsi implies #[trigger] self.slots@[x] is Some by {
                    let k = ring_dist(x, q, tsi);
                    assert(ring_sub(q, k, tsi) == x);
                    assert(self.is_shifted@[x]);
                    self.use_flags(x);
                }
                lemma_filled_count_full(self.slots@);
                self.use_count();
                let i = choose|i: int| 0 <= i < self.table_size && #[trigger] self.filled(i) && self.disp(i) == 0;
                let k = ring_dist(i, q, tsi);
                assert(ring_sub(q, k, tsi) == i);
                assert(self.is_shifted@[i]);
                self.use_flags(i);
                assert(false);
            }
        }
        assert(!self.is_shifted@[cluster_start as int]);
        let ghost cs = cluster_start as int;
        let ghost qd = steps as int;
        proof {
            assert(qd == ring_dist(cs, q, tsi));
            if qd > 0 {
                let n1 = ring_sub(q, qd - 1, tsi);
                assert(self.is_shifted@[n1]);
                self.use_flags(n1);
                assert(self.filled(n1));
                assert(self.disp(n1) > 0);
                self.use_chain(n1);
                assert(ring_prev(n1, tsi) == cs);
                assert forall|k: int| 0 <= k <= qd implies #[trigger] self.filled(ring_add(cs, k, tsi)) by {
                    if k > 0 {
                        assert(ring_add(cs, k, tsi) == ring_sub(q, qd - k, tsi));
                        assert(self.is_shifted@[ring_sub(q, qd - k, tsi)]);
                        self.use_flags(ring_add(cs, k, tsi));
                    } else {
                        assert(ring_add(cs, 0, tsi) == cs);
                    }
                }
            } else {
                assert(cs == q);
            }
        }
        let mut pos = cluster_start;
        let mut target_quotient = cluster_start;
        let mut budget: usize = 0;
        let ghost mut p: int = 0;
        proof {
            assert(ring_add(cs, qd, tsi) == q);
            self.use_flags(cs);
            if self.filled(cs) {
                self.lemma_disp_range(cs);
            }
            if qd > 0 {
                reveal(QuotientFilter::filled_upto);
            }
            self.lemma_walk_start(cs, qd, q);
            assert(ring_add(cs, 0, tsi) == cs);
        }
        while target_quotient != quotient && budget < ts
            invariant
                self.shape(),
                self.sound(),
                ts == self.table_size,
                tsi == ts,
                q == quotient,
                quotient < ts,
                0 <= cs < ts,
                0 <= qd < ts,
                q == ring_add(cs, qd, tsi),
                qd > 0 ==> self.anchored(cs, qd),
                qd == 0 ==> cs == q && p == 0,
                qd == 0 && self.filled(cs) ==> self.disp(cs) == 0,
                self.is_occupied@[q] || self.count < self.table_size,
                budget <= qd,
                target_quotient as int == ring_add(cs, budget as int, tsi),
                0 <= p < ts,
                pos as int == ring_add(cs, p, tsi),
                self.homes_below(cs, p, budget as int),
                self.walk_at(cs, p, budget as int, qd, q),
            decreases ts - budget,
        {
            let ghost b0 = budget as int;
            let ghost p0 = p;
            proof {
                assert(b0 < qd) by {
                    if b0 == qd {
                        assert(ring_add(cs, qd, tsi) == q);
                    }
                }
                self.lemma_walk_head(cs, qd, q, p0, b0);
            }
            let mut scan: usize = 0;
            loop
                invariant_except_break
                    self.homes_equal(cs, p0, p0 + scan, b0),
                invariant
                    self.shape(),
                    self.sound(),
                    ts == self.table_size,
                    tsi == ts,
                    q == quotient,
                    quotient < ts,
                    self.anchored(cs, qd),
                    0 < qd,
                    q == ring_add(cs, qd, tsi),
                    self.is_occupied@[q] || self.count < self.table_size,
                    0 <= b0 < qd,
                    0 <= p0,
                    p0 + scan < ts,
                    pos as int == ring_add(cs, p0 + scan, tsi),
                    self.homes_below(cs, p0, b0),
                ensures
                    scan >= 1,
                    p0 + scan < ts,
                    pos as int == ring_add(cs, p0 + scan, tsi),
                    !self.is_continuation@[pos as int],
                    self.homes_below(cs, p0, b0),
                    self.homes_equal(cs, p0, p0 + scan - 1, b0),
                decreases ts - scan,
            {
                if scan >= ts {
                    break;
                }
                proof {
                    self.lemma_run_not_wrap(cs, qd, q, p0, p0 + scan, b0);
                    lemma_mod_next(pos as int, tsi);
                }
                pos = (pos + 1) % ts;
                scan += 1;
                if !self.is_continuation[pos] {
                    break;
                }
                proof {
                    self.lemma_run_extend(cs, qd, p0, p0 + scan, b0);
                }
            }
            let ghost p2 = p0 + scan;
            proof {
                self.lemma_run_end(cs, qd, p0, p2, b0);
                lemma_mod_next(target_quotient as int, tsi);
            }
            target_quotient = (target_quotient + 1) % ts;
            budget += 1;
            while !self.is_occupied[target_quotient] && target_quotient != quotient && budget < ts
                invariant
                    self.shape(),
                    ts == self.table_size,
                    tsi == ts,
                    q == quotient,
                    quotient < ts,
                    0 <= cs < ts,
                    0 < qd < ts,
                    q == ring_add(cs, qd, tsi),
                    b0 < budget <= qd,
                    target_quotient as int == ring_add(cs, budget as int, tsi),
                    forall|b: int| b0 < b < budget ==> !#[trigger] self.is_occupied@[ring_add(cs, b, tsi)],
                decreases ts - budget,
            {
                proof {
                    lemma_mod_next(target_quotient as int, tsi);
                    assert(budget < qd);
                }
                target_quotient = (target_quotient + 1) % ts;
                budget += 1;
            }
            proof {
                assert(budget as int == qd || self.is_occupied@[ring_add(cs, budget as int, tsi)]);
                self.lemma_walk_next(cs, qd, q, p2, b0, budget as int);
                p = p2;
            }
        }
        proof {
            assert(budget as int == qd) by {
                if budget as int != qd {
                    assert(target_quotient as int != q);
                }
            }
            self.lemma_walk_done(cs, qd, q, p);
        }
        pos
    }

    /// First empty slot at or after `start` (cyclically); `start` when full.
    fn find_first_empty_from(&self, start: usize) -> (pos: usize)
        requires
            self.shape(),
            start < self.table_size,
        ensures
            pos < self.table_size,
            forall|j: int| 0 <= j < ring_dist(start as int, pos as int, self.table_size as int) ==>
                #[trigger] self.filled(ring_add(start as int, j, self.table_size as int)),
            !self.filled(pos as int) || (pos == start && forall|x: int| 0 <= x < self.table_size ==> #[trigger] self.filled(x)),
    {
        let ts = self.table_size;
        let ghost tsi = ts as int;
        let mut pos = start;
        let mut i: usize = 0;
        while i < ts
            invariant
                self.shape(),
                ts == self.table_size,
                tsi == ts,
                start < ts,
                i <= ts,
                i < ts ==> pos as int == ring_add(start as int, i as int, tsi),
                i == ts ==> pos == start,
                forall|j: int| 0 <= j < i ==> #[trigger] self.filled(ring_add(start as int, j, tsi)),
            decreases ts - i,
        {
            if self.slots[pos].is_none() {
                proof {
                    assert(ring_dist(start as int, pos as int, tsi) == i);
                }
                return pos;
            }
            proof {
                lemma_mod_next(pos as int, tsi);
            }
            pos = (pos + 1) % ts;
            i += 1;
        }
        proof {
            assert forall|x: int| 0 <= x < tsi implies #[trigger] self.filled(x) by {
                let j = ring_dist(start as int, x, tsi);
                assert(ring_add(start as int, j, tsi) == x);
            }
        }
        start
    }

    /// Move the entries from `pos` up to the next empty slot one step right,
    /// leaving `pos` free for an insertion. Returns how many entries moved.
    fn shift_right(&mut self, pos: usize) -> (moved: Ghost<int>)
        requires
            old(self).shape(),
            pos < old(self).table_size,
        ensures
            final(self).shape(),
            final(self).count == old(self).count,
            final(self).table_size == old(self).table_size,
            final(self).q_bits == old(self).q_bits,
            final(self).r_bits == old(self).r_bits,
            final(self).q_mask == old(self).q_mask,
            final(self).r_mask == old(self).r_mask,
            final(self).is_occupied == old(self).is_occupied,
            0 <= moved@ < old(self).table_size,
            forall|j: int| 0 <= j < moved@ ==> #[trigger] old(self).filled(ring_add(pos as int, j, old(self).table_size as int)),
            !old(self).filled(ring_add(pos as int, moved@, old(self).table_size as int)) || forall|x: int|
                0 <= x < old(self).table_size ==> #[trigger] old(self).filled(x),
            final(self).slots@ == shift_seq(old(self).slots@, pos as int, moved@, old(self).table_size as int),
            final(self).is_continuation@ == shift_seq(old(self).is_continuation@, pos as int, moved@, old(self).table_size as int),
            final(self).is_shifted@ == shift_flags(old(self).is_shifted@, pos as int, moved@, old(self).table_size as int),
            final(self).quots@ == shift_seq(old(self).quots@, pos as int, moved@, old(self).table_size as int),
    {
        let ghost tsi = self.table_size as int;
        let ghost p = pos as int;
        if self.slots[pos].is_none() {
            proof {
                assert(ring_add(p, 0, tsi) == p);
                assert(self.slots@ =~= shift_seq(self.slots@, p, 0, tsi));
                assert(self.is_continuation@ =~= shift_seq(self.is_continuation@, p, 0, tsi));
                assert(self.is_shifted@ =~= shift_flags(self.is_shifted@, p, 0, tsi));
                assert(self.quots@ =~= shift_seq(self.quots@, p, 0, tsi));
            }
            return Ghost(0);
        }
        let ts = self.table_size;
        let empty = self.find_first_empty_from(pos);
        let ghost len = ring_dist(p, empty as int, tsi);
        let ghost s0 = self.slots@;
        let ghost c0 = self.is_continuation@;
        let ghost h0 = self.is_shifted@;
        let ghost g0 = self.quots@;
        proof {
            assert(ring_add(p, len, tsi) == empty);
            assert(g0 =~= Seq::new(g0.len(), |x: int| if ring_dist(p, empty as int, tsi) < ring_dist(p, x, tsi) <= len { g0[ring_prev(x, tsi)] } else { g0[x] }));
        }
        let mut current = empty;
        let mut steps: usize = 0;
        while current != pos && steps < ts
            invariant
                self.shape(),
                ts == self.table_size,
                tsi == ts,
                p == pos,
                pos < ts,
                current < ts,
                0 <= len < ts,
                steps as int + ring_dist(p, current as int, tsi) == len,
                self.count == old(self).count,
                self.table_size == old(self).table_size,
                self.q_bits == old(self).q_bits,
                self.r_bits == old(self).r_bits,
                self.q_mask == old(self).q_mask,
                self.r_mask == old(self).r_mask,
                self.is_occupied == old(self).is_occupied,
                s0 == old(self).slots@,
                c0 == old(self).is_continuation@,
                h0 == old(self).is_shifted@,
                g0 == old(self).quots@,
                self.slots@ == Seq::new(s0.len(), |x: int| if ring_dist(p, current as int, tsi) < ring_dist(p, x, tsi) <= len { s0[ring_prev(x, tsi)] } else { s0[x] }),
                self.is_continuation@ == Seq::new(c0.len(), |x: int| if ring_dist(p, current as int, tsi) < ring_dist(p, x, tsi) <= len { c0[ring_prev(x, tsi)] } else { c0[x] }),
                self.is_shifted@ == Seq::new(h0.len(), |x: int| if ring_dist(p, current as int, tsi) < ring_dist(p, x, tsi) <= len { true } else { h0[x] }),
                self.quots@ == Seq::new(g0.len(), |x: int| if ring_dist(p, current as int, tsi) < ring_dist(p, x, tsi) <= len { g0[ring_prev(x, tsi)] } else { g0[x] }),
            decreases ts - steps,
        {
            let prev = if current == 0 { ts - 1 } else { current - 1 };
            let ghost c = ring_dist(p, current as int, tsi);
            proof {
                assert(prev as int == ring_prev(current as int, tsi));
                assert(ring_dist(p, prev as int, tsi) == c - 1);
            }
            let s = self.slots[prev];
            self.slots.set(current, s);
            let cb = self.is_continuation[prev];
            self.is_continuation.set(current, cb);
            self.is_shifted.set(current, true);
            self.quots = Ghost(self.quots@.update(current as int, self.quots@[prev as int]));
            current = prev;
            steps += 1;
            proof {
                assert(self.slots@ =~= Seq::new(s0.len(), |x: int| if ring_dist(p, current as int, tsi) < ring_dist(p, x, tsi) <= len { s0[ring_prev(x, tsi)] } else { s0[x] }));
                assert(self.is_continuation@ =~= Seq::new(c0.len(), |x: int| if ring_dist(p, current as int, tsi) < ring_dist(p, x, tsi) <= len { c0[ring_prev(x, tsi)] } else { c0[x] }));
                assert(self.is_shifted@ =~= Seq::new(h0.len(), |x: int| if ring_dist(p, current as int, tsi) < ring_dist(p, x, tsi) <= len { true } else { h0[x] }));
                assert(self.quots@ =~= Seq::new(g0.len(), |x: int| if ring_dist(p, current as int, tsi) < ring_dist(p, x, tsi) <= len { g0[ring_prev(x, tsi)] } else { g0[x] }));
            }
        }
        proof {
            assert(current == pos);
            assert(self.slots@ =~= shift_seq(s0, p, len, tsi));
            assert(self.is_continuation@ =~= shift_seq(c0, p, len, tsi));
            assert(self.is_shifted@ =~= shift_flags(h0, p, len, tsi));
            assert(self.quots@ =~= shift_seq(g0, p, len, tsi));
        }
        Ghost(len)
    }
}

} // verus!

verus! {

impl QuotientFilter {
    /// The table layout is unchanged (only contents and the count may differ).
    pub closed spec fn same_shape(&self, other: &Self) -> bool {
        &&& self.q_bits == other.q_bits
        &&& self.r_bits == other.r_bits
        &&& self.q_mask == other.q_mask
        &&& self.r_mask == other.r_mask
        &&& self.table_size == other.table_size
    }

    /// Insert a hash. Returns `true` when its fingerprint was stored, and
    /// `false` when the filter is full or an equal fingerprint is already
    /// present. Nothing stored is ever lost.
    pub fn insert_hash(&mut self, hash: u64) -> (r: bool)
        requires
            old(self).wf(),
        ensures
            final(self).wf(),
            final(self).same_shape(&old(self)),
            r == (old(self).size() < old(self).slot_count() && !old(self).holds_hash(hash)),
            final(self).size() == old(self).size() + if r { 1nat } else { 0nat },
            forall|v: int, x: u64| #[trigger] final(self).holds(v, x) == (old(self).holds(v, x) || (r && v == old(self).hash_quotient(hash)
                && x == old(self).hash_remainder(hash))),
            old(self).size() < old(self).slot_count() ==> final(self).holds_hash(hash),
            r ==> final(self).holds_hash(hash),
            forall|g: u64| #[trigger] old(self).holds_hash(g) ==> final(self).holds_hash(g),
            old(self).insert_effect(&*final(self), hash, r),
    {
        if self.count >= self.table_size {
            return false;
        }
        let (quotient, remainder) = self.fingerprint_hash(hash);
        let ts = self.table_size;
        let ghost tsi = ts as int;
        let ghost q = quotient as int;
        let ghost pre = *self;
        proof {
            self.use_occupied(q);
        }
        if !self.is_occupied[quotient] {
            let run_start = self.find_run_start(quotient);
            let ghost pos = run_start as int;
            let moved = self.shift_right(run_start);
            proof {
                pre.lemma_fits_gap(pos, moved@, q, remainder);
            }
            self.slots.set(run_start, Some(remainder));
            self.quots = Ghost(self.quots@.update(pos, q));
            self.is_occupied.set(quotient, true);
            self.is_shifted.set(run_start, run_start != quotient);
            self.is_continuation.set(run_start, false);
            self.count += 1;
            proof {
                assert(self.slots@ =~= shift_seq(pre.slots@, pos, moved@, tsi).update(pos, Some(remainder)));
                assert(self.quots@ =~= shift_seq(pre.quots@, pos, moved@, tsi).update(pos, q));
                assert(self.is_shifted@ =~= shift_flags(pre.is_shifted@, pos, moved@, tsi).update(pos, ring_dist(q, pos, tsi) > 0));
                assert(self.is_occupied@ =~= pre.is_occupied@.update(q, true));
                assert(self.is_continuation@ =~= shift_seq(pre.is_continuation@, pos, moved@, tsi).update(pos, false));
                pre.lemma_inserted_gap(&*self, pos, moved@, q, remainder);
                pre.lemma_ins_sound(&*self, pos, moved@, q, remainder);
                pre.use_occupied(q);
                assert(!pre.holds(q, remainder));
                assert(self.holds(q, remainder));
            }
            return true;
        }
        let run_start = self.find_run_start(quotient);
        let ghost h = run_start as int;
        let mut pos = run_start;
        let mut steps: usize = 0;
        let ghost mut past: bool = false;
        proof {
            self.lemma_scan_start(h, q, remainder);
            assert(ring_add(h, 0, tsi) == h);
        }
        while steps < ts
            invariant_except_break
                !past,
                pos as int == ring_add(h, steps as int, tsi),
            invariant
                self.shape(),
                self.sound(),
                *self == pre,
                pre == *old(self),
                ts == self.table_size,
                tsi == ts,
                q == quotient,
                quotient < ts,
                self.count < ts,
                0 <= h < ts,
                h == run_start,
                self.run_head(h, q),
                self.is_occupied@[q],
                steps < ts,
                self.scanned(h, q, steps as int, remainder),
                quotient as int == quotient_of(hash, self.q_mask, self.r_bits),
                remainder == remainder_of(hash, self.r_mask),
            ensures
                steps < ts,
                self.scanned(h, q, steps as int, remainder),
                !past ==> pos as int == ring_add(h, steps as int, tsi) && self.rem(pos as int) > remainder,
                past ==> steps + 1 < ts && pos as int == ring_add(h, steps + 1, tsi) && self.rem(ring_add(h, steps as int, tsi)) < remainder
                    && (!self.filled(pos as int) || !self.is_continuation@[pos as int]),
            decreases ts - steps,
        {
            proof {
                reveal(QuotientFilter::scanned);
                assert(self.filled(ring_add(h, steps as int, tsi)));
            }
            match self.slots[pos] {
                None => {
                    break;
                },
                Some(r) => {
                    if r == remainder {
                        return false;
                    }
                    if r > remainder {
                        break;
                    }
                    proof {
                        lemma_mod_next(pos as int, tsi);
                    }
                    let next = (pos + 1) % ts;
                    proof {
                        if steps + 1 < ts {
                            assert(next as int == ring_add(h, steps + 1, tsi));
                        } else {
                            assert(next == run_start);
                        }
                    }
                    if next == run_start {
                        proof {
                            self.lemma_scan_covers_all(h, q, steps as int, remainder);
                            assert(false);
                        }
                        return false;
                    }
                    if !self.is_continuation[next] || self.slots[next].is_none() {
                        pos = next;
                        proof {
                            past = true;
                        }
                        break;
                    }
                    proof {
                        self.lemma_scan_step(h, q, steps as int, remainder);
                    }
                    pos = next;
                },
            }
            steps += 1;
        }
        let ghost s = steps as int;
        let ghost p = pos as int;
        proof {
            if past {
                self.lemma_scan_absent(h, q, s, remainder);
            } else {
                self.lemma_scan_absent(h, q, s, remainder);
            }
            assert(!pre.holds(q, remainder));
        }
        let moved = self.shift_right(pos);
        proof {
            pre.lemma_fits_scan(h, s, past, p, moved@, q, remainder);
        }
        self.slots.set(pos, Some(remainder));
        self.quots = Ghost(self.quots@.update(p, q));
        if pos == run_start {
            let next = (pos + 1) % ts;
            proof {
                lemma_mod_next(p, tsi);
            }
            self.is_continuation.set(next, true);
        }
        self.is_shifted.set(pos, pos != quotient);
        self.is_continuation.set(pos, pos != run_start);
        self.count += 1;
        proof {
            assert(self.slots@ =~= shift_seq(pre.slots@, p, moved@, tsi).update(p, Some(remainder)));
            assert(self.quots@ =~= shift_seq(pre.quots@, p, moved@, tsi).update(p, q));
            assert(self.is_shifted@ =~= shift_flags(pre.is_shifted@, p, moved@, tsi).update(p, ring_dist(q, p, tsi) > 0));
            assert(self.is_occupied@ =~= pre.is_occupied@);
            assert(self.is_continuation@ =~= (if p == h {
                shift_seq(pre.is_continuation@, p, moved@, tsi).update(ring_next(p, tsi), true)
            } else {
                shift_seq(pre.is_continuation@, p, moved@, tsi)
            }).update(p, p != h));
            pre.lemma_inserted_scan(&*self, h, s, past, p, moved@, q, remainder);
            pre.lemma_ins_sound(&*self, p, moved@, q, remainder);
            assert(self.holds(q, remainder));
        }
        true
    }

    /// Whether a hash may be in the filter: exactly when its fingerprint is
    /// stored, so `false` means definitely absent.
    pub fn may_contain_hash(&self, hash: u64) -> (r: bool)
        requires
            self.wf(),
        ensures
            r == self.holds_hash(hash),
            self.holds_hash(hash) ==> r,
    {
        let (quotient, remainder) = self.fingerprint_hash(hash);
        let ghost q = quotient as int;
        proof {
            self.use_occupied(q);
        }
        if !self.is_occupied[quotient] {
            return false;
        }
        let ts = self.table_size;
        let ghost tsi = ts as int;
        let run_start = self.find_run_start(quotient);
        let ghost h = run_start as int;
        let mut pos = run_start;
        let mut steps: usize = 0;
        proof {
            self.lemma_scan_start(h, q, remainder);
            assert(ring_add(h, 0, tsi) == h);
        }
        while steps < ts
            invariant
                self.shape(),
                self.sound(),
                ts == self.table_size,
                tsi == ts,
                q == quotient,
                quotient < ts,
                0 <= h < ts,
                h == run_start,
                self.run_head(h, q),
                steps < ts,
                pos as int == ring_add(h, steps as int, tsi),
                self.scanned(h, q, steps as int, remainder),
                quotient as int == quotient_of(hash, self.q_mask, self.r_bits),
                remainder == remainder_of(hash, self.r_mask),
            decreases ts - steps,
        {
            proof {
                reveal(QuotientFilter::scanned);
                assert(self.filled(ring_add(h, steps as int, tsi)));
            }
            match self.slots[pos] {
                Some(r) => {
                    if r == remainder {
                        return true;
                    }
                    if r > remainder {
                        proof {
                            self.lemma_scan_absent(h, q, steps as int, remainder);
                        }
                        return false;
                    }
                },
                None => {
                    return false;
                },
            }
            proof {
                lemma_mod_next(pos as int, tsi);
            }
            let next = (pos + 1) % ts;
            proof {
                if steps + 1 < ts {
                    assert(next as int == ring_add(h, steps + 1, tsi));
                } else {
                    assert(next == run_start);
                }
            }
            if next == run_start {
                proof {
                    assert(steps + 1 == ts);
                    self.lemma_scan_absent(h, q, steps as int, remainder);
                }
                return false;
            }
            if !self.is_continuation[next] || self.slots[next].is_none() {
                proof {
                    self.lemma_scan_absent(h, q, steps as int, remainder);
                }
                return false;
            }
            proof {
                self.lemma_scan_step(h, q, steps as int, remainder);
            }
            pos = next;
            steps += 1;
        }
        false
    }

    /// What inserting `hash` does: it is stored unless the filter is full or
    /// its fingerprint is already there, and nothing stored is lost.
    pub open spec fn insert_effect(&self, after: &Self, hash: u64, r: bool) -> bool {
        &&& after.same_shape(self)
        &&& r == (self.size() < self.slot_count() && !self.holds_hash(hash))
        &&& after.size() == self.size() + if r { 1nat } else { 0nat }
        &&& forall|v: int, x: u64| #[trigger] after.holds(v, x) == (self.holds(v, x) || (r && v == self.hash_quotient(hash) && x
            == self.hash_remainder(hash)))
        &&& self.size() < self.slot_count() ==> after.holds_hash(hash)
    }

    /// The (quotient, remainder) fingerprint of a value's FxHash.
    pub fn fingerprint<T: std::hash::Hash + ?Sized>(&self, value: &T) -> (r: (usize, u64))
        requires
            self.wf(),
        ensures
            r.0 < self.slot_count(),
            exists|h: u64| r.0 == #[trigger] self.hash_quotient(h) && r.1 == self.hash_remainder(h),
    {
        let h = fx_hash(value);
        let r = self.fingerprint_hash(h);
        proof {
            assert(r.0 == self.hash_quotient(h) && r.1 == self.hash_remainder(h));
        }
        r
    }

    /// Insert a value by its FxHash (see `insert_hash`). Returns `true` when
    /// its fingerprint was stored.
    pub fn insert<T: std::hash::Hash + ?Sized>(&mut self, value: &T) -> (r: bool)
        requires
            old(self).wf(),
        ensures
            final(self).wf(),
            final(self).same_shape(&old(self)),
            final(self).size() == old(self).size() + if r { 1nat } else { 0nat },
            old(self).size() >= old(self).slot_count() ==> !r,
            exists|h: u64| #[trigger] old(self).insert_effect(&*final(self), h, r),
            forall|g: u64| #[trigger] old(self).holds_hash(g) ==> final(self).holds_hash(g),
    {
        let h = fx_hash(value);
        let r = self.insert_hash(h);
        proof {
            assert(old(self).insert_effect(&*self, h, r));
        }
        r
    }

    /// Whether a value may be in the filter: whether the fingerprint of its
    /// FxHash is stored (see `may_contain_hash`).
    pub fn may_contain<T: std::hash::Hash + ?Sized>(&self, value: &T) -> (r: bool)
        requires
            self.wf(),
        ensures
            exists|h: u64| r == #[trigger] self.holds_hash(h),
            self.size() == 0 ==> !r,
    {
        let h = fx_hash(value);
        let r = self.may_contain_hash(h);
        proof {
            if self.size() == 0 && r {
                self.use_count();
                reveal(QuotientFilter::inv_count);
                let i = choose|i: int| 0 <= i < self.table_size && #[trigger] self.filled(i) && self.quot(i) == self.hash_quotient(h)
                    && self.rem(i) == self.hash_remainder(h);
                lemma_filled_count_missing_some(self.slots@, i);
                assert(false);
            }
        }
        r
    }

    /// Number of stored fingerprints.
    pub fn len(&self) -> (n: usize)
        ensures
            n == self.size(),
    {
        self.count
    }

    /// Whether nothing is stored.
    pub fn is_empty(&self) -> (b: bool)
        ensures
            b == (self.size() == 0),
    {
        self.count == 0
    }

    /// Number of slots.
    pub fn table_size(&self) -> (n: usize)
        ensures
            n == self.slot_count(),
    {
        self.table_size
    }

    /// Remainder width in bits.
    pub fn r_bits(&self) -> (n: u32)
        ensures
            n == self.remainder_bits(),
    {
        self.r_bits
    }

    /// Approximate memory: 8 + 3 bytes per slot plus the struct itself.
    pub fn memory_bytes(&self) -> (r: usize)
        requires
            self.wf(),
            self.slot_count() * 11 + vstd::layout::size_of::<Self>() <= usize::MAX,
        ensures
            r == self.slot_count() * 11 + vstd::layout::size_of::<Self>(),
    {
        proof {
            lemma_pow2_range(self.q_bits as nat);
        }
        self.table_size * (8 + 3) + std::mem::size_of::<Self>()
    }

    /// A filter sized for `expected_elements` at a load of at most 75%:
    /// q is the bit length of ceil(4n/3) (n at least 1), clamped to 1..=24; r is 16.
    pub fn with_capacity(expected_elements: usize) -> (f: Self)
        requires
            expected_elements <= usize::MAX / 4,
        ensures
            f.wf(),
            f.remainder_bits() == 16,
            f.quotient_bits() == clamp_spec(bit_length(ceil_div((if expected_elements < 1 { 1 } else { expected_elements as int }) * 4, 3)) as int, 1, 24),
            f.slot_count() == pow2(f.quotient_bits()),
            f.slot_count() >= 2,
            forall|q: int, r: u64| !f.holds(q, r),
            f.size() == 0,
    {
        let expected = if expected_elements < 1 { 1 } else { expected_elements };
        let min_slots = (expected * 4) / 3 + if (expected * 4) % 3 != 0 { 1 } else { 0 };
        let bits = bit_length_usize(min_slots);
        let q_bits = if bits < 1 { 1 } else if bits > 24 { 24 } else { bits };
        Self::new(q_bits, 16)
    }
}

/// No false negatives: inserting a hash into a filter with room leaves its
/// fingerprint held, and an insertion never drops a fingerprint held before;
/// `may_contain_hash` answers exactly whether the fingerprint is held.
pub proof fn law_no_false_negatives(before: QuotientFilter, after: QuotientFilter, h: u64, r: bool, g: u64)
    requires
        before.wf(),
        before.insert_effect(&after, h, r),
    ensures
        before.size() < before.slot_count() ==> after.holds_hash(h),
        before.holds_hash(g) ==> after.holds_hash(g),
{
    assert(after.hash_quotient(g) == before.hash_quotient(g));
    assert(after.hash_remainder(g) == before.hash_remainder(g));
    if before.holds_hash(g) {
        assert(after.holds(before.hash_quotient(g), before.hash_remainder(g)));
    }
}

proof fn lemma_bit_length_le(x: int, k: nat)
    requires
        0 <= x < pow2(k),
    ensures
        bit_length(x) <= k,
    decreases k,
{
    if k > 0 && x > 0 {
        lemma_bit_length_le(x / 2, (k - 1) as nat);
    }
}

proof fn lemma_pow2_64()
    ensures
        pow2(64) == 0x1_0000_0000_0000_0000,
{
    reveal_with_fuel(pow2, 65);
}

/// ceil(a / b).
pub open spec fn ceil_div(a: int, b: int) -> int {
    if a % b != 0 {
        a / b + 1
    } else {
        a / b
    }
}

/// Number of bits needed to write `x` (0 for 0).
pub open spec fn bit_length(x: int) -> nat
    decreases x,
{
    if x <= 0 {
        0
    } else {
        1 + bit_length(x / 2)
    }
}

/// `usize::BITS - x.leading_zeros()`.
fn bit_length_usize(x: usize) -> (n: u32)
    ensures
        n == bit_length(x as int),
        n <= 64,
{
    proof {
        lemma_pow2_64();
        assert(x < pow2(64));
        lemma_bit_length_le(x as int, 64);
    }
    let mut n: u32 = 0;
    let mut v = x;
    while v > 0
        invariant
            n + bit_length(v as int) == bit_length(x as int),
            n <= 64,
            v as int <= x,
            bit_length(x as int) <= 64,
        decreases v,
    {
        v = v / 2;
        n += 1;
    }
    n
}

} // verus!
