//! Cache-friendly orderings: Morton (Z-order) codes, rank-blocked edge groups
//! and the van Emde Boas order of a complete binary tree.
use vstd::prelude::*;
use vstd::arithmetic::power2::{pow2, lemma_pow2_adds, lemma_pow2_pos, lemma_pow2_strictly_increases};
use vstd::bits::{lemma_usize_shl_is_mul, lemma_usize_pow2_no_overflow};

verus! {

/// Bits `2i` and `2i + 1` of `code` are bit `i` of `x` and of `y`.
pub open spec fn interleaves_at(code: u64, x: u64, y: u64, i: u64) -> bool {
    &&& (code >> (2 * i)) & 1u64 == (x >> i) & 1u64
    &&& (code >> (2 * i + 1)) & 1u64 == (y >> i) & 1u64
}

spec fn spread_mask(v: u64) -> u64 {
    let v1 = v & 0x0000_0000_FFFF_FFFFu64;
    let v2 = (v1 | (v1 << 16u64)) & 0x0000_FFFF_0000_FFFFu64;
    let v3 = (v2 | (v2 << 8u64)) & 0x00FF_00FF_00FF_00FFu64;
    let v4 = (v3 | (v3 << 4u64)) & 0x0F0F_0F0F_0F0F_0F0Fu64;
    let v5 = (v4 | (v4 << 2u64)) & 0x3333_3333_3333_3333u64;
    (v5 | (v5 << 1u64)) & 0x5555_5555_5555_5555u64
}

proof fn lemma_spread(x: u64, y: u64)
    by (bit_vector)
    requires
        x < 0x1_0000_0000u64,
        y < 0x1_0000_0000u64,
    ensures
        forall|i: u64| i < 32 ==> #[trigger] interleaves_at(spread_mask(x) | (spread_mask(y) << 1u64), x, y, i),
{
}

} // verus!
verus! {

spec fn compact_mask(v: u64) -> u64 {
    let v1 = v & 0x5555_5555_5555_5555u64;
    let v2 = (v1 | (v1 >> 1u64)) & 0x3333_3333_3333_3333u64;
    let v3 = (v2 | (v2 >> 2u64)) & 0x0F0F_0F0F_0F0F_0F0Fu64;
    let v4 = (v3 | (v3 >> 4u64)) & 0x00FF_00FF_00FF_00FFu64;
    let v5 = (v4 | (v4 >> 8u64)) & 0x0000_FFFF_0000_FFFFu64;
    (v5 | (v5 >> 16u64)) & 0x0000_0000_FFFF_FFFFu64
}

proof fn lemma_compact(c: u64)
    by (bit_vector)
    ensures
        compact_mask(c) < 0x1_0000_0000u64,
        compact_mask(c >> 1u64) < 0x1_0000_0000u64,
        forall|i: u64| i < 32 ==> #[trigger] interleaves_at(c, compact_mask(c), compact_mask(c >> 1u64), i),
{
}

proof fn lemma_shift_step(a: u64, x: u64, k: u64)
    by (bit_vector)
    requires
        k < 63,
        a >> (k + 1) == x >> (k + 1),
        (a >> k) & 1u64 == (x >> k) & 1u64,
    ensures
        a >> k == x >> k,
{
}

proof fn lemma_high_zero(a: u64)
    by (bit_vector)
    requires
        a < 0x1_0000_0000u64,
    ensures
        a >> 32u64 == 0u64,
{
}

/// Two words below 2^32 whose low 32 bits agree from bit `k` upward agree above `k`.
proof fn lemma_bits_agree_from(a: u64, x: u64, k: u64)
    requires
        a < 0x1_0000_0000u64,
        x < 0x1_0000_0000u64,
        k <= 32,
        forall|i: u64| k <= i < 32 ==> #[trigger] ((a >> i) & 1u64) == ((x >> i) & 1u64),
    ensures
        a >> k == x >> k,
    decreases 32 - k,
{
    if k == 32 {
        lemma_high_zero(a);
        lemma_high_zero(x);
    } else {
        lemma_bits_agree_from(a, x, (k + 1) as u64);
        assert(((a >> k) & 1u64) == ((x >> k) & 1u64));
        lemma_shift_step(a, x, k);
    }
}

proof fn lemma_bits_determine(c: u64, x: u64, y: u64, a: u64, b: u64)
    requires
        x < 0x1_0000_0000u64,
        y < 0x1_0000_0000u64,
        a < 0x1_0000_0000u64,
        b < 0x1_0000_0000u64,
        forall|i: u64| i < 32 ==> #[trigger] interleaves_at(c, x, y, i),
        forall|i: u64| i < 32 ==> #[trigger] interleaves_at(c, a, b, i),
    ensures
        a == x,
        b == y,
{
    assert forall|i: u64| 0 <= i < 32 implies #[trigger] ((a >> i) & 1u64) == ((x >> i) & 1u64) by {
        assert(interleaves_at(c, x, y, i));
        assert(interleaves_at(c, a, b, i));
    }
    assert forall|i: u64| 0 <= i < 32 implies #[trigger] ((b >> i) & 1u64) == ((y >> i) & 1u64) by {
        assert(interleaves_at(c, x, y, i));
        assert(interleaves_at(c, a, b, i));
    }
    lemma_bits_agree_from(a, x, 0);
    lemma_bits_agree_from(b, y, 0);
    assert(a >> 0u64 == a) by (bit_vector);
    assert(x >> 0u64 == x) by (bit_vector);
    assert(b >> 0u64 == b) by (bit_vector);
    assert(y >> 0u64 == y) by (bit_vector);
}

} // verus!

verus! {

/// `code` interleaves `x` (even bits) and `y` (odd bits).
pub open spec fn is_morton_code(code: u64, x: u32, y: u32) -> bool {
    forall|i: u64| i < 32 ==> #[trigger] interleaves_at(code, x as u64, y as u64, i)
}

fn interleave_bits(v: u64) -> (r: u64)
    ensures
        r == spread_mask(v),
{
    let mut v = v;
    v = v & 0x0000_0000_FFFF_FFFF;
    v = (v | (v << 16u64)) & 0x0000_FFFF_0000_FFFF;
    v = (v | (v << 8u64)) & 0x00FF_00FF_00FF_00FF;
    v = (v | (v << 4u64)) & 0x0F0F_0F0F_0F0F_0F0F;
    v = (v | (v << 2u64)) & 0x3333_3333_3333_3333;
    v = (v | (v << 1u64)) & 0x5555_5555_5555_5555;
    v
}

fn compact_bits(v: u64) -> (r: u64)
    ensures
        r == compact_mask(v),
{
    let mut v = v;
    v = v & 0x5555_5555_5555_5555;
    v = (v | (v >> 1u64)) & 0x3333_3333_3333_3333;
    v = (v | (v >> 2u64)) & 0x0F0F_0F0F_0F0F_0F0F;
    v = (v | (v >> 4u64)) & 0x00FF_00FF_00FF_00FF;
    v = (v | (v >> 8u64)) & 0x0000_FFFF_0000_FFFF;
    v = (v | (v >> 16u64)) & 0x0000_0000_FFFF_FFFF;
    v
}

/// Morton (Z-order) code of `(x, y)`: bit `i` of `x` goes to bit `2i`, bit `i` of `y`
/// to bit `2i + 1`.
pub fn morton_code(x: u32, y: u32) -> (code: u64)
    ensures
        is_morton_code(code, x, y),
{
    let code = interleave_bits(x as u64) | (interleave_bits(y as u64) << 1u64);
    proof {
        lemma_spread(x as u64, y as u64);
    }
    code
}

/// The coordinates whose Morton code is `code`.
pub fn morton_decode(code: u64) -> (xy: (u32, u32))
    ensures
        is_morton_code(code, xy.0, xy.1),
{
    let cx = compact_bits(code);
    let cy = compact_bits(code >> 1u64);
    proof {
        lemma_compact(code);
    }
    (cx as u32, cy as u32)
}

/// Decoding the Morton code of `(x, y)` gives back `(x, y)`: a code belongs to one pair only.
pub proof fn lemma_morton_roundtrip(code: u64, x: u32, y: u32, dx: u32, dy: u32)
    requires
        is_morton_code(code, x, y),
        is_morton_code(code, dx, dy),
    ensures
        dx == x,
        dy == y,
{
    lemma_bits_determine(code, x as u64, y as u64, dx as u64, dy as u64);
}

/// A pair has one Morton code only.
pub proof fn lemma_morton_unique(code1: u64, code2: u64, x: u32, y: u32)
    requires
        is_morton_code(code1, x, y),
        is_morton_code(code2, x, y),
    ensures
        code1 == code2,
{
    assert(forall|i: u64| i < 32 ==> #[trigger] interleaves_at(code1, x as u64, y as u64, i));
    assert(forall|i: u64| i < 32 ==> #[trigger] interleaves_at(code2, x as u64, y as u64, i));
    lemma_codes_agree(code1, code2, x as u64, y as u64);
}

proof fn lemma_top_bit(a: u64, x: u64)
    by (bit_vector)
    requires
        (a >> 63u64) & 1u64 == (x >> 63u64) & 1u64,
    ensures
        a >> 63u64 == x >> 63u64,
{
}

/// Two words whose bits agree from bit `k` upward agree above `k`.
proof fn lemma_word_agree_from(a: u64, x: u64, k: u64)
    requires
        k <= 63,
        forall|i: u64| k <= i < 64 ==> #[trigger] ((a >> i) & 1u64) == ((x >> i) & 1u64),
    ensures
        a >> k == x >> k,
    decreases 63 - k,
{
    if k == 63 {
        assert(((a >> 63u64) & 1u64) == ((x >> 63u64) & 1u64));
        lemma_top_bit(a, x);
    } else {
        lemma_word_agree_from(a, x, (k + 1) as u64);
        assert(((a >> k) & 1u64) == ((x >> k) & 1u64));
        lemma_shift_step(a, x, k);
    }
}

proof fn lemma_codes_agree(c1: u64, c2: u64, x: u64, y: u64)
    requires
        forall|i: u64| i < 32 ==> #[trigger] interleaves_at(c1, x, y, i),
        forall|i: u64| i < 32 ==> #[trigger] interleaves_at(c2, x, y, i),
    ensures
        c1 == c2,
{
    assert forall|j: u64| 0 <= j < 64 implies #[trigger] ((c1 >> j) & 1u64) == ((c2 >> j) & 1u64) by {
        let i = j / 2;
        assert(interleaves_at(c1, x, y, i));
        assert(interleaves_at(c2, x, y, i));
        if j % 2 == 0 {
            assert(j == 2 * i);
        } else {
            assert(j == 2 * i + 1);
        }
    }
    lemma_word_agree_from(c1, c2, 0);
    assert(c1 >> 0u64 == c1) by (bit_vector);
    assert(c2 >> 0u64 == c2) by (bit_vector);
}

} // verus!

verus! {

/// Indices `i < upto` with `ranks[i] == rank`, in increasing order.
pub open spec fn indices_of_rank(ranks: Seq<usize>, rank: usize, upto: nat) -> Seq<usize>
    decreases upto,
{
    if upto == 0 {
        Seq::empty()
    } else {
        let before = indices_of_rank(ranks, rank, (upto - 1) as nat);
        if ranks[upto - 1] == rank {
            before.push((upto - 1) as usize)
        } else {
            before
        }
    }
}

/// Total length of a sequence of groups.
pub open spec fn total_len(groups: Seq<Vec<usize>>) -> nat
    decreases groups.len(),
{
    if groups.len() == 0 {
        0
    } else {
        total_len(groups.drop_last()) + groups.last()@.len()
    }
}

/// Edge indices grouped by the rank of their source node.
#[derive(Debug, Clone)]
pub struct BlockedEdgeGroups {
    /// For each rank: indices into the original edge list.
    pub rank_groups: Vec<Vec<usize>>,
    /// Total number of ranks.
    pub num_ranks: usize,
}

impl BlockedEdgeGroups {
    /// Group the edges by source rank: `edge_source_ranks[i]` is the rank of edge `i`'s
    /// source. Edges whose rank is not below `num_ranks` belong to no group.
    pub fn from_ranks(edge_source_ranks: &[usize], num_ranks: usize) -> (g: Self)
        ensures
            g.num_ranks == num_ranks,
            g.rank_groups.len() == num_ranks,
            forall|r: int| 0 <= r < num_ranks ==> (#[trigger] g.rank_groups[r])@
                == indices_of_rank(edge_source_ranks@, r as usize, edge_source_ranks@.len()),
    {
        let mut rank_groups: Vec<Vec<usize>> = Vec::new();
        let mut r: usize = 0;
        while r < num_ranks
            invariant
                r <= num_ranks,
                rank_groups.len() == r,
                forall|q: int| 0 <= q < r ==> (#[trigger] rank_groups[q])@ == Seq::<usize>::empty(),
            decreases num_ranks - r,
        {
            rank_groups.push(Vec::new());
            r = r + 1;
        }
        let mut edge_idx: usize = 0;
        while edge_idx < edge_source_ranks.len()
            invariant
                edge_idx <= edge_source_ranks.len(),
                rank_groups.len() == num_ranks,
                forall|q: int| 0 <= q < num_ranks ==> (#[trigger] rank_groups[q])@
                    == indices_of_rank(edge_source_ranks@, q as usize, edge_idx as nat),
            decreases edge_source_ranks.len() - edge_idx,
        {
            let rank = edge_source_ranks[edge_idx];
            if rank < num_ranks {
                rank_groups[rank].push(edge_idx);
            }
            edge_idx = edge_idx + 1;
        }
        BlockedEdgeGroups { rank_groups, num_ranks }
    }

    /// The edge indices of `rank`; empty for a rank past the last group.
    pub fn edges_for_rank(&self, rank: usize) -> (s: &[usize])
        ensures
            s@ == (if rank < self.rank_groups.len() {
                self.rank_groups[rank as int]@
            } else {
                Seq::<usize>::empty()
            }),
    {
        if rank < self.rank_groups.len() {
            self.rank_groups[rank].as_slice()
        } else {
            &[]
        }
    }

    /// The number of edge indices over all groups.
    pub fn total_edges(&self) -> (n: usize)
        requires
            total_len(self.rank_groups@) <= usize::MAX,
        ensures
            n == total_len(self.rank_groups@),
    {
        let mut sum: usize = 0;
        let mut i: usize = 0;
        while i < self.rank_groups.len()
            invariant
                i <= self.rank_groups.len(),
                total_len(self.rank_groups@) <= usize::MAX,
                sum == total_len(self.rank_groups@.take(i as int)),
            decreases self.rank_groups.len() - i,
        {
            proof {
                let gs = self.rank_groups@;
                assert(gs.take(i + 1).drop_last() =~= gs.take(i as int));
                lemma_total_len_prefix(gs, (i + 1) as nat);
            }
            sum = sum + self.rank_groups[i].len();
            i = i + 1;
        }
        proof {
            assert(self.rank_groups@.take(i as int) =~= self.rank_groups@);
        }
        sum
    }
}

proof fn lemma_total_len_prefix(gs: Seq<Vec<usize>>, k: nat)
    requires
        k <= gs.len(),
    ensures
        total_len(gs.take(k as int)) <= total_len(gs),
    decreases gs.len(),
{
    if k < gs.len() {
        assert(gs.drop_last().take(k as int) =~= gs.take(k as int));
        lemma_total_len_prefix(gs.drop_last(), k);
    } else {
        assert(gs.take(k as int) =~= gs);
    }
}

} // verus!

verus! {

/// Node `v` (breadth-first index) lies `k` levels below node `root` of a complete binary tree.
pub open spec fn in_block(root: nat, k: nat, v: nat) -> bool {
    (root + 1) * pow2(k) <= v + 1 && v + 1 < (root + 2) * pow2(k)
}

/// Node `v` lies in the subtree of height `height` rooted at `root`.
pub open spec fn in_subtree(root: nat, height: nat, v: nat) -> bool {
    exists|k: nat| k < height && #[trigger] in_block(root, k, v)
}

/// The nodes of the level `d` below `root`: `c` with `(root+1)·2^d ≤ c+1 < (root+2)·2^d`.
pub open spec fn at_level(root: nat, d: nat, c: nat) -> bool {
    (root + 1) * pow2(d) <= c + 1 && c + 1 < (root + 2) * pow2(d)
}

proof fn lemma_pow2_le(a: nat, b: nat)
    requires
        a <= b,
    ensures
        pow2(a) <= pow2(b),
{
    if a < b {
        lemma_pow2_strictly_increases(a, b);
    }
}

proof fn lemma_mul_le(a: nat, b: nat, c: nat)
    requires
        a <= b,
    ensures
        a * c <= b * c,
{
    assert(a * c <= b * c) by (nonlinear_arith)
        requires
            a <= b,
    ;
}

/// A node below a level-`d` node `c` lies below `root`.
proof fn lemma_block_up(root: nat, d: nat, c: nat, j: nat, v: nat)
    requires
        at_level(root, d, c),
        in_block(c, j, v),
    ensures
        in_block(root, d + j, v),
{
    lemma_pow2_adds(d, j);
    let p = pow2(d);
    let q = pow2(j);
    assert((root + 1) * p * q <= (c + 1) * q) by {
        lemma_mul_le((root + 1) * p, c + 1, q);
    }
    assert((c + 2) * q <= (root + 2) * p * q) by {
        lemma_mul_le(c + 2, (root + 2) * p, q);
    }
    assert((root + 1) * p * q == (root + 1) * (p * q)) by (nonlinear_arith);
    assert((root + 2) * p * q == (root + 2) * (p * q)) by (nonlinear_arith);
}

/// A node `k ≥ d` levels below `root` lies below one of root's level-`d` nodes.
proof fn lemma_block_down(root: nat, d: nat, k: nat, v: nat) -> (c: nat)
    requires
        d <= k,
        in_block(root, k, v),
    ensures
        at_level(root, d, c),
        in_block(c, (k - d) as nat, v),
{
    let j = (k - d) as nat;
    lemma_pow2_adds(d, j);
    assert(d + j == k);
    let p = pow2(d);
    let q = pow2(j);
    lemma_pow2_pos(j);
    lemma_pow2_pos(d);
    let x = v + 1;
    let qt = x / q;
    let rm = x % q;
    assert(x == qt * q + rm && 0 <= rm < q) by (nonlinear_arith)
        requires
            q > 0,
            qt == x / q,
            rm == x % q,
    ;
    assert(pow2(k) == p * q);
    assert((root + 1) * p * q == (root + 1) * (p * q)) by (nonlinear_arith);
    assert((root + 2) * p * q == (root + 2) * (p * q)) by (nonlinear_arith);
    assert((root + 1) * p * q <= x);
    assert(x < (root + 2) * p * q);
    assert((root + 1) * p <= qt) by (nonlinear_arith)
        requires
            (root + 1) * p * q <= x,
            x == qt * q + rm,
            0 <= rm < q,
    ;
    assert(qt < (root + 2) * p) by (nonlinear_arith)
        requires
            x < (root + 2) * p * q,
            x == qt * q + rm,
            0 <= rm,
            q > 0,
    ;
    assert((root + 1) * p >= 1) by (nonlinear_arith)
        requires
            p > 0,
    ;
    let c = (qt - 1) as nat;
    assert(qt * q <= x && x < (qt + 1) * q) by (nonlinear_arith)
        requires
            x == qt * q + rm,
            0 <= rm < q,
    ;
    c
}

/// Nodes of the top `d` levels below `root` come before root's level-`d` nodes.
proof fn lemma_top_below(root: nat, d: nat, v: nat)
    requires
        in_subtree(root, d, v),
    ensures
        v + 1 < (root + 1) * pow2(d),
{
    let k = choose|k: nat| k < d && #[trigger] in_block(root, k, v);
    lemma_pow2_adds(k, 1);
    assert(pow2(1) == 2) by {
        vstd::arithmetic::power2::lemma2_to64();
    }
    lemma_pow2_le(k + 1, d);
    assert((root + 2) * pow2(k) <= (root + 1) * (pow2(k) * 2)) by (nonlinear_arith);
    lemma_mul_le(pow2(k + 1), pow2(d), root + 1);
    assert((root + 1) * pow2(k + 1) == pow2(k + 1) * (root + 1)) by (nonlinear_arith);
    assert((root + 1) * pow2(d) == pow2(d) * (root + 1)) by (nonlinear_arith);
}

/// A node below `c` is not before `c`.
proof fn lemma_block_at_least(c: nat, j: nat, v: nat)
    requires
        in_block(c, j, v),
    ensures
        c <= v,
{
    lemma_pow2_pos(j);
    assert((c + 1) <= (c + 1) * pow2(j)) by (nonlinear_arith)
        requires
            pow2(j) >= 1,
    ;
}

/// Subtrees of two level-`d` nodes never share a node unless the nodes are the same.
proof fn lemma_level_disjoint(root: nat, d: nat, c1: nat, c2: nat, j1: nat, j2: nat, v: nat)
    requires
        at_level(root, d, c1),
        at_level(root, d, c2),
        in_block(c1, j1, v),
        in_block(c2, j2, v),
    ensures
        c1 == c2,
{
    lemma_level_same_depth(root, d, c1, c2, j1, j2, v);
    lemma_level_same_depth(root, d, c2, c1, j2, j1, v);
    let q = pow2(j1);
    if c1 < c2 {
        lemma_mul_le(c1 + 2, c2 + 1, q);
    } else if c2 < c1 {
        lemma_mul_le(c2 + 2, c1 + 1, q);
    }
}

proof fn lemma_level_same_depth(root: nat, d: nat, c1: nat, c2: nat, j1: nat, j2: nat, v: nat)
    requires
        at_level(root, d, c1),
        at_level(root, d, c2),
        in_block(c1, j1, v),
        in_block(c2, j2, v),
    ensures
        j2 <= j1,
{
    if j1 < j2 {
        let p = pow2(d);
        let q1 = pow2(j1);
        lemma_pow2_adds(j1, 1);
        assert(pow2(1) == 2) by {
            vstd::arithmetic::power2::lemma2_to64();
        }
        lemma_pow2_le(j1 + 1, j2);
        lemma_mul_le(c1 + 2, (root + 2) * p, q1);
        assert((root + 2) * p * q1 <= (root + 1) * p * (q1 * 2)) by (nonlinear_arith);
        lemma_mul_le((root + 1) * p, c2 + 1, q1 * 2);
        lemma_mul_le(pow2(j1 + 1), pow2(j2), c2 + 1);
        assert((c2 + 1) * pow2(j1 + 1) == pow2(j1 + 1) * (c2 + 1)) by (nonlinear_arith);
        assert((c2 + 1) * pow2(j2) == pow2(j2) * (c2 + 1)) by (nonlinear_arith);
    }
}

/// The subtree of height `h` at `root` splits into its top `d` levels and the subtrees of
/// height `h - d` of root's level-`d` nodes.
proof fn lemma_subtree_split(root: nat, h: nat, d: nat, v: nat)
    requires
        0 < d < h,
    ensures
        in_subtree(root, h, v) <==> (in_subtree(root, d, v) || exists|c: nat| at_level(root, d, c)
            && #[trigger] in_subtree(c, (h - d) as nat, v)),
{
    if in_subtree(root, h, v) {
        let k = choose|k: nat| k < h && #[trigger] in_block(root, k, v);
        if k >= d {
            let c = lemma_block_down(root, d, k, v);
            assert(in_block(c, (k - d) as nat, v));
            assert(in_subtree(c, (h - d) as nat, v));
        } else {
            assert(in_block(root, k, v));
        }
    }
    if exists|c: nat| at_level(root, d, c) && #[trigger] in_subtree(c, (h - d) as nat, v) {
        let c = choose|c: nat| at_level(root, d, c) && #[trigger] in_subtree(c, (h - d) as nat, v);
        let j = choose|j: nat| j < h - d && #[trigger] in_block(c, j, v);
        lemma_block_up(root, d, c, j, v);
        assert(in_block(root, d + j, v));
    }
    if in_subtree(root, d, v) {
        let k = choose|k: nat| k < d && #[trigger] in_block(root, k, v);
        assert(in_block(root, k, v));
    }
}

} // verus!

verus! {

/// `s` lists, each once, the nodes below `n` of the subtree of height `height` at `root`.
pub open spec fn lists_subtree(s: Seq<usize>, root: nat, height: nat, n: nat) -> bool {
    &&& s.no_duplicates()
    &&& forall|v: usize| #[trigger] s.contains(v) <==> (v < n && in_subtree(root, height, v as nat))
}

proof fn lemma_concat_no_dup(a: Seq<usize>, b: Seq<usize>)
    requires
        a.no_duplicates(),
        b.no_duplicates(),
        forall|x: usize| a.contains(x) ==> !b.contains(x),
    ensures
        (a + b).no_duplicates(),
        forall|x: usize| #[trigger] (a + b).contains(x) <==> a.contains(x) || b.contains(x),
{
    let s = a + b;
    assert forall|i: int, j: int| 0 <= i < s.len() && 0 <= j < s.len() && i != j implies s[i] != s[j] by {
        if i < a.len() && j >= a.len() {
            assert(a.contains(s[i]));
            assert(b.contains(s[j]));
        } else if j < a.len() && i >= a.len() {
            assert(a.contains(s[j]));
            assert(b.contains(s[i]));
        } else if i >= a.len() && j >= a.len() {
            assert(s[i] == b[i - a.len()] && s[j] == b[j - a.len()]);
        }
    }
    assert forall|x: usize| #[trigger] s.contains(x) implies a.contains(x) || b.contains(x) by {
        let i = choose|i: int| 0 <= i < s.len() && s[i] == x;
        if i < a.len() {
            assert(a[i] == x);
        } else {
            assert(b[i - a.len()] == x);
        }
    }
    assert forall|x: usize| a.contains(x) || b.contains(x) implies #[trigger] s.contains(x) by {
        if a.contains(x) {
            let i = choose|i: int| 0 <= i < a.len() && a[i] == x;
            assert(s[i] == x);
        } else {
            let i = choose|i: int| 0 <= i < b.len() && b[i] == x;
            assert(s[i + a.len()] == x);
        }
    }
}

fn saturating_mul_usize(a: usize, b: usize) -> (r: usize)
    ensures
        r == (if a * b > usize::MAX { usize::MAX as int } else { a * b }),
{
    match a.checked_mul(b) {
        Some(v) => v,
        None => usize::MAX,
    }
}

/// The level-`d` nodes below `n` are exactly those in `[first_leaf, child_root)` once the
/// loop over the level has stopped.
proof fn lemma_level_window(root: nat, d: nat, n: usize, first_leaf: usize, last_leaf: usize, child_root: usize,
    big_f: int, c: nat)
    requires
        big_f == (root + 1) * pow2(d) - 1,
        first_leaf == (if big_f > usize::MAX { usize::MAX as int } else { big_f }),
        last_leaf == (if first_leaf + pow2(d) > usize::MAX { usize::MAX as int } else { first_leaf + pow2(d) }),
        child_root >= n || child_root >= last_leaf,
        child_root <= last_leaf,
        c < n,
    ensures
        at_level(root, d, c) <==> first_leaf <= c < child_root,
{
    assert((root + 2) * pow2(d) == (root + 1) * pow2(d) + pow2(d)) by (nonlinear_arith);
}

/// Once the loop over the level-`d` nodes has stopped (past `n` or past the level), the
/// nodes listed are exactly those of the whole subtree.
proof fn lemma_veb_cover(root: nat, height: nat, d: nat, b: nat, n: usize, first_leaf: usize, last_leaf: usize,
    child_root: usize, big_f: int, added: Seq<usize>)
    requires
        0 < d < height,
        b == height - d,
        big_f == (root + 1) * pow2(d) - 1,
        first_leaf == (if big_f > usize::MAX { usize::MAX as int } else { big_f }),
        last_leaf == (if first_leaf + pow2(d) > usize::MAX { usize::MAX as int } else { first_leaf + pow2(d) }),
        child_root >= n || child_root >= last_leaf,
        first_leaf <= child_root,
        child_root <= last_leaf,
        forall|v: usize| #[trigger] added.contains(v) <==> (v < n && (in_subtree(root, d, v as nat)
            || exists|c: nat| first_leaf <= c < child_root && #[trigger] in_subtree(c, b, v as nat))),
    ensures
        forall|v: usize| #[trigger] added.contains(v) <==> (v < n && in_subtree(root, height, v as nat)),
{
    assert forall|v: usize| #[trigger] added.contains(v) implies (v < n && in_subtree(root, height, v as nat)) by {
        lemma_subtree_split(root, height, d, v as nat);
        assert(v < n && (in_subtree(root, d, v as nat)
            || exists|c: nat| first_leaf <= c < child_root && #[trigger] in_subtree(c, b, v as nat)));
        if in_subtree(root, d, v as nat) {
            assert(in_subtree(root, height, v as nat));
        } else {
            let c = choose|c: nat| first_leaf <= c < child_root && #[trigger] in_subtree(c, b, v as nat);
            let j = choose|j: nat| j < b && #[trigger] in_block(c, j, v as nat);
            lemma_block_at_least(c, j, v as nat);
            lemma_level_window(root, d, n, first_leaf, last_leaf, child_root, big_f, c);
            assert(b == (height - d) as nat);
            assert(at_level(root, d, c) && in_subtree(c, (height - d) as nat, v as nat));
        }
    }
    assert forall|v: usize| v < n && in_subtree(root, height, v as nat) implies #[trigger] added.contains(v) by {
        lemma_subtree_split(root, height, d, v as nat);
        if !in_subtree(root, d, v as nat) {
            let c = choose|c: nat| at_level(root, d, c) && #[trigger] in_subtree(c, b, v as nat);
            let j = choose|j: nat| j < b && #[trigger] in_block(c, j, v as nat);
            lemma_block_at_least(c, j, v as nat);
            lemma_level_window(root, d, n, first_leaf, last_leaf, child_root, big_f, c);
            assert(first_leaf <= c < child_root && in_subtree(c, b, v as nat));
        }
    }
}

/// How many of the `2^d` subtree roots from breadth-first index `f` on lie below `n`.
pub open spec fn veb_child_count(f: int, d: nat, n: nat) -> nat {
    if f >= n {
        0
    } else if n - f < pow2(d) {
        (n - f) as nat
    } else {
        pow2(d)
    }
}

/// The van Emde Boas order of the nodes below `n` of the subtree of height `h` at
/// breadth-first index `root`: the top half-tree (height `h / 2`) first, then, left to
/// right, the subtrees of the remaining height below it, each in the same order.
pub open spec fn veb_seq(root: nat, h: nat, n: nat) -> Seq<usize>
    decreases h, 0nat,
{
    if h == 0 || root >= n {
        Seq::empty()
    } else if h == 1 {
        seq![root as usize]
    } else {
        let d = h / 2;
        let f = (root + 1) * pow2(d) - 1;
        veb_seq(root, d, n) + veb_children(f, veb_child_count(f, d, n), (h - d) as nat, n)
    }
}

/// The van Emde Boas orders of the `k` subtrees of height `b` at breadth-first indices
/// `first`, `first + 1`, ..., one after another.
pub open spec fn veb_children(first: int, k: nat, b: nat, n: nat) -> Seq<usize>
    decreases b, k,
{
    if k == 0 {
        Seq::empty()
    } else {
        veb_children(first, (k - 1) as nat, b, n) + veb_seq((first + k - 1) as nat, b, n)
    }
}

/// A nonempty subtree order starts at its root.
pub proof fn lemma_veb_root_first(root: nat, h: nat, n: nat)
    requires
        root < n <= usize::MAX,
        h >= 1,
    ensures
        veb_seq(root, h, n).len() > 0,
        veb_seq(root, h, n)[0] == root,
    decreases h,
{
    if h > 1 {
        lemma_veb_root_first(root, h / 2, n);
        let d = h / 2;
        let f = (root + 1) * pow2(d) - 1;
        let top = veb_seq(root, d, n);
        let rest = veb_children(f, veb_child_count(f, d, n), (h - d) as nat, n);
        assert((top + rest)[0] == top[0]);
    }
}

/// The height of the complete binary tree of `n` nodes: the least `h` with `n < 2^h`.
pub open spec fn tree_height(n: nat) -> nat {
    choose|h: nat| n < #[trigger] pow2(h) && (n > 0 ==> pow2((h - 1) as nat) <= n)
}

proof fn lemma_tree_height(n: nat, h: nat)
    requires
        n > 0,
        n < pow2(h),
        pow2((h - 1) as nat) <= n,
    ensures
        tree_height(n) == h,
{
    let t = tree_height(n);
    assert(n < pow2(t) && pow2((t - 1) as nat) <= n);
    if t < h {
        if t <= (h - 1) as nat && t < (h - 1) as nat {
            lemma_pow2_strictly_increases(t, (h - 1) as nat);
        }
    } else if h < t {
        if h < (t - 1) as nat {
            lemma_pow2_strictly_increases(h, (t - 1) as nat);
        }
    }
}

/// Append, in van Emde Boas order, the nodes below `n` of the subtree of height `height`
/// rooted at breadth-first index `root_bfs`.
fn build_veb(root_bfs: usize, height: usize, n: usize, result: &mut Vec<usize>)
    requires
        height <= usize::BITS,
    ensures
        old(result)@.len() <= final(result)@.len(),
        final(result)@.take(old(result)@.len() as int) == old(result)@,
        lists_subtree(final(result)@.skip(old(result)@.len() as int), root_bfs as nat, height as nat, n as nat),
        final(result)@.skip(old(result)@.len() as int) == veb_seq(root_bfs as nat, height as nat, n as nat),
    decreases height,
{
    let ghost start = result@.len();
    if height == 0 || root_bfs >= n {
        proof {
            assert(result@.skip(start as int) =~= Seq::<usize>::empty());
            assert forall|v: usize| !(v < n && in_subtree(root_bfs as nat, height as nat, v as nat)) by {
                if v < n && in_subtree(root_bfs as nat, height as nat, v as nat) {
                    let k = choose|k: nat| k < height && #[trigger] in_block(root_bfs as nat, k, v as nat);
                    lemma_block_at_least(root_bfs as nat, k, v as nat);
                }
            }
            assert(result@.take(start as int) =~= result@);
            assert(result@.skip(start as int) =~= veb_seq(root_bfs as nat, height as nat, n as nat));
        }
        return;
    }
    if height == 1 {
        result.push(root_bfs);
        proof {
            let added = result@.skip(start as int);
            assert(added =~= seq![root_bfs]);
            vstd::arithmetic::power2::lemma2_to64();
            assert forall|v: usize| #[trigger] added.contains(v) <==> (v < n && in_subtree(root_bfs as nat, 1, v as nat)) by {
                if added.contains(v) {
                    assert(added[0] == v);
                    assert(in_block(root_bfs as nat, 0, v as nat));
                }
                if in_subtree(root_bfs as nat, 1, v as nat) {
                    let k = choose|k: nat| k < 1 && #[trigger] in_block(root_bfs as nat, k, v as nat);
                    assert(k == 0);
                    assert(added[0] == root_bfs);
                }
            }
            assert(result@.take(start as int) =~= old(result)@);
            assert(added =~= veb_seq(root_bfs as nat, height as nat, n as nat));
        }
        return;
    }
    let half_height = height / 2;
    let bottom_height = height - half_height;
    build_veb(root_bfs, half_height, n, result);
    let ghost top = result@.skip(start as int);
    proof {
        assert(top.no_duplicates());
    }
    let d = half_height;
    if d >= usize::BITS as usize {
        return;
    }
    proof {
        lemma_usize_pow2_no_overflow(d as nat);
        lemma_usize_shl_is_mul(1, d);
    }
    let level_size: usize = 1usize << d;
    assert(level_size == pow2(d as nat));
    let first_leaf = saturating_mul_usize(root_bfs, level_size).saturating_add(level_size - 1);
    let last_leaf = first_leaf.saturating_add(level_size);
    let ghost big_f: int = (root_bfs as nat + 1) * pow2(d as nat) - 1;
    proof {
        assert(root_bfs * level_size + (level_size - 1) == big_f) by (nonlinear_arith)
            requires
                level_size == pow2(d as nat),
                big_f == (root_bfs as nat + 1) * pow2(d as nat) - 1,
        ;
        assert(first_leaf == (if big_f > usize::MAX { usize::MAX as int } else { big_f })) by (nonlinear_arith)
            requires
                root_bfs * level_size + (level_size - 1) == big_f,
                first_leaf == (if (if root_bfs * level_size > usize::MAX { usize::MAX as int } else { root_bfs * level_size }) + (level_size - 1) > usize::MAX { usize::MAX as int } else { (if root_bfs * level_size > usize::MAX { usize::MAX as int } else { root_bfs * level_size }) + (level_size - 1) }),
                level_size >= 1,
        ;
    }
    proof {
        assert(result@.skip(start as int) =~= top + veb_children(big_f, 0, bottom_height as nat, n as nat));
    }
    let mut child_root = first_leaf;
    while child_root < last_leaf
        invariant_except_break
            child_root <= last_leaf,
        invariant
            first_leaf <= child_root,
            level_size == pow2(d as nat),
            0 < d < height,
            bottom_height == height - d,
            height <= usize::BITS,
            big_f == (root_bfs as nat + 1) * pow2(d as nat) - 1,
            first_leaf == (if big_f > usize::MAX { usize::MAX as int } else { big_f }),
            last_leaf == (if first_leaf + level_size > usize::MAX { usize::MAX as int } else { first_leaf + level_size }),
            start <= result@.len(),
            result@.take(start as int) == old(result)@,
            top.no_duplicates(),
            forall|v: usize| #[trigger] top.contains(v) <==> (v < n && in_subtree(root_bfs as nat, d as nat, v as nat)),
            result@.skip(start as int).no_duplicates(),
            forall|v: usize| #[trigger] result@.skip(start as int).contains(v) <==> (v < n && (in_subtree(root_bfs as nat, d as nat, v as nat)
                || exists|c: nat| first_leaf <= c < child_root && #[trigger] in_subtree(c, bottom_height as nat, v as nat))),
            top == veb_seq(root_bfs as nat, d as nat, n as nat),
            child_root <= n || child_root == first_leaf,
            result@.skip(start as int) == top + veb_children(big_f, (child_root - first_leaf) as nat, bottom_height as nat, n as nat),
        ensures
            result@.skip(start as int) == top + veb_children(big_f, (child_root - first_leaf) as nat, bottom_height as nat, n as nat),
            child_root <= n || child_root == first_leaf,
            child_root >= n || child_root >= last_leaf,
            first_leaf <= child_root,
            child_root <= last_leaf,
            start <= result@.len(),
            result@.take(start as int) == old(result)@,
            result@.skip(start as int).no_duplicates(),
            forall|v: usize| #[trigger] result@.skip(start as int).contains(v) <==> (v < n && (in_subtree(root_bfs as nat, d as nat, v as nat)
                || exists|c: nat| first_leaf <= c < child_root && #[trigger] in_subtree(c, bottom_height as nat, v as nat))),
        decreases last_leaf - child_root,
    {
        if child_root >= n {
            break;
        }
        let ghost before = result@;
        let ghost prev = result@.skip(start as int);
        build_veb(child_root, bottom_height, n, result);
        proof {
            let piece = result@.skip(before.len() as int);
            assert(result@.take(before.len() as int) == before);
            assert(result@.skip(start as int) =~= prev + piece) by {
                assert(result@ =~= before + piece);
            }
            assert(result@.take(start as int) =~= before.take(start as int));
            // child_root is a level-d node of root
            assert(child_root < n);
            assert(first_leaf == big_f);
            assert((root_bfs as nat + 2) * pow2(d as nat) == (root_bfs as nat + 1) * pow2(d as nat) + pow2(d as nat)) by (nonlinear_arith);
            assert(at_level(root_bfs as nat, d as nat, child_root as nat));
            assert forall|x: usize| prev.contains(x) implies !piece.contains(x) by {
                if piece.contains(x) {
                    let j = choose|j: nat| j < bottom_height && #[trigger] in_block(child_root as nat, j, x as nat);
                    lemma_block_at_least(child_root as nat, j, x as nat);
                    if in_subtree(root_bfs as nat, d as nat, x as nat) {
                        lemma_top_below(root_bfs as nat, d as nat, x as nat);
                    } else {
                        let c = choose|c: nat| first_leaf <= c < child_root && #[trigger] in_subtree(c, bottom_height as nat, x as nat);
                        let j2 = choose|j2: nat| j2 < bottom_height && #[trigger] in_block(c, j2, x as nat);
                        lemma_block_at_least(c, j2, x as nat);
                        assert(at_level(root_bfs as nat, d as nat, c));
                        lemma_level_disjoint(root_bfs as nat, d as nat, c, child_root as nat, j2, j, x as nat);
                    }
                }
            }
            lemma_concat_no_dup(prev, piece);
            let k = (child_root - first_leaf) as nat;
            assert(big_f + k == child_root);
            assert(veb_children(big_f, k + 1, bottom_height as nat, n as nat) == veb_children(big_f, k, bottom_height as nat, n as nat)
                + veb_seq(child_root as nat, bottom_height as nat, n as nat));
            assert(result@.skip(start as int) =~= top + veb_children(big_f, k + 1, bottom_height as nat, n as nat));
            assert forall|v: usize| #[trigger] result@.skip(start as int).contains(v) <==> (v < n && (in_subtree(root_bfs as nat, d as nat, v as nat)
                || exists|c: nat| first_leaf <= c < child_root + 1 && #[trigger] in_subtree(c, bottom_height as nat, v as nat))) by {
                if exists|c: nat| first_leaf <= c < child_root + 1 && #[trigger] in_subtree(c, bottom_height as nat, v as nat) {
                    let c = choose|c: nat| first_leaf <= c < child_root + 1 && #[trigger] in_subtree(c, bottom_height as nat, v as nat);
                    if c < child_root {
                        assert(exists|c: nat| first_leaf <= c < child_root && #[trigger] in_subtree(c, bottom_height as nat, v as nat));
                    }
                }
                if exists|c: nat| first_leaf <= c < child_root && #[trigger] in_subtree(c, bottom_height as nat, v as nat) {
                    let c = choose|c: nat| first_leaf <= c < child_root && #[trigger] in_subtree(c, bottom_height as nat, v as nat);
                    assert(first_leaf <= c < child_root + 1);
                }
                if piece.contains(v) {
                    assert(first_leaf <= child_root < child_root + 1);
                }
            }
        }
        child_root = child_root + 1;
    }
    proof {
        lemma_veb_cover(root_bfs as nat, height as nat, d as nat, bottom_height as nat, n, first_leaf, last_leaf,
            child_root, big_f, result@.skip(start as int));
        assert((child_root - first_leaf) as nat == veb_child_count(big_f, d as nat, n as nat));
        assert(result@.skip(start as int) =~= veb_seq(root_bfs as nat, height as nat, n as nat));
    }
}

} // verus!

verus! {

/// A positive `x` below `2^h` has a level `k < h`: `2^k ≤ x < 2^(k+1)`.
proof fn lemma_level_exists(x: nat, h: nat)
    requires
        1 <= x < pow2(h),
    ensures
        exists|k: nat| k < h && #[trigger] in_block(0, k, (x - 1) as nat),
    decreases h,
{
    vstd::arithmetic::power2::lemma2_to64();
    if h == 0 {
    } else {
        let h1 = (h - 1) as nat;
        lemma_pow2_adds(h1, 1);
        if x < pow2(h1) {
            lemma_level_exists(x, h1);
            let k = choose|k: nat| k < h1 && #[trigger] in_block(0, k, (x - 1) as nat);
            assert(in_block(0, k, (x - 1) as nat));
        } else {
            assert(h1 + 1 == h);
            assert(pow2(h) == pow2(h1) * pow2(1));
            assert((0 + 1) * pow2(h1) == pow2(h1)) by (nonlinear_arith);
            assert((0 + 2) * pow2(h1) == pow2(h1) * 2) by (nonlinear_arith);
            assert(in_block(0, h1, (x - 1) as nat));
        }
    }
}

/// The van Emde Boas order of the `n` nodes of a complete binary tree given in
/// breadth-first order: a permutation of `0..n` in which each recursive half of the
/// tree occupies a contiguous run.
pub fn veb_layout_order(n: usize) -> (order: Vec<usize>)
    ensures
        order.len() == n,
        order@.no_duplicates(),
        forall|v: usize| #[trigger] order@.contains(v) <==> v < n,
        order@ == veb_seq(0, tree_height(n as nat), n as nat),
        n > 0 ==> order@[0] == 0,
{
    if n == 0 {
        let empty: Vec<usize> = Vec::new();
        proof {
            assert forall|v: usize| #[trigger] empty@.contains(v) <==> v < n by {}
        }
        proof {
            assert(empty@ =~= veb_seq(0, tree_height(n as nat), n as nat));
        }
        return empty;
    }
    let mut result: Vec<usize> = Vec::with_capacity(n);
    let height = bit_length(n);
    build_veb(0, height, n, &mut result);
    proof {
        vstd::arithmetic::power2::lemma2_to64();
        lemma_tree_height(n as nat, height as nat);
        assert(result@.skip(0) =~= result@);
        lemma_veb_root_first(0, height as nat, n as nat);
        let s = result@;
        assert(s.skip(0) =~= s);
        assert(s.take(0) =~= Seq::<usize>::empty());
        assert forall|v: usize| #[trigger] s.contains(v) <==> v < n by {
            if v < n {
                lemma_level_exists(v as nat + 1, height as nat);
            }
        }
        let si = s.map_values(|x: usize| x as int);
        assert(si.no_duplicates()) by {
            assert forall|i: int, j: int| 0 <= i < si.len() && 0 <= j < si.len() && i != j implies si[i] != si[j] by {
                assert(s[i] != s[j]);
            }
        }
        assert(si.to_set() =~= vstd::set_lib::set_int_range(0, n as int)) by {
            assert forall|x: int| si.to_set().contains(x) <==> 0 <= x < n by {
                if si.to_set().contains(x) {
                    assert(si.contains(x));
                    let i = choose|i: int| 0 <= i < si.len() && si[i] == x;
                    assert(s.contains(s[i]));
                }
                if 0 <= x < n {
                    assert(s.contains(x as usize));
                    let i = choose|i: int| 0 <= i < s.len() && s[i] == x as usize;
                    assert(si[i] == x);
                    assert(si.contains(x));
                }
            }
        }
        si.unique_seq_to_set();
        vstd::set_lib::lemma_int_range(0, n as int);
    }
    result
}

/// The number of bits of `n`: the least `h` with `n < 2^h`.
fn bit_length(n: usize) -> (h: usize)
    ensures
        h <= usize::BITS,
        (n as nat) < pow2(h as nat),
        n > 0 ==> pow2((h - 1) as nat) <= n,
{
    let mut m: usize = n;
    let mut height: usize = 0;
    proof {
        vstd::arithmetic::power2::lemma2_to64();
        assert(n as nat / 1 == n as nat);
    }
    while m > 0
        invariant
            m as nat == n as nat / pow2(height as nat),
            height <= usize::BITS,
            height > 0 ==> pow2((height - 1) as nat) <= n,
        decreases m,
    {
        proof {
            let p = pow2(height as nat);
            lemma_pow2_pos(height as nat);
            lemma_pow2_adds(height as nat, 1);
            vstd::arithmetic::power2::lemma2_to64();
            vstd::arithmetic::power2::lemma2_to64_rest();
            vstd::arithmetic::div_mod::lemma_div_denominator(n as int, p as int, 2);
            if (n as nat) < p {
                vstd::arithmetic::div_mod::lemma_basic_div(n as int, p as int);
            }
            if height >= usize::BITS {
                lemma_pow2_le(usize::BITS as nat, height as nat);
            }
        }
        m = m / 2;
        height = height + 1;
    }
    proof {
        lemma_pow2_pos(height as nat);
        vstd::arithmetic::div_mod::lemma_small_div_converse(n as int, pow2(height as nat) as int);
    }
    height
}

} // verus!

verus! {

/// Number of indices `i < upto` whose rank is below `num_ranks`.
pub open spec fn in_range_count(ranks: Seq<usize>, num_ranks: usize, upto: nat) -> nat
    decreases upto,
{
    if upto == 0 {
        0
    } else {
        in_range_count(ranks, num_ranks, (upto - 1) as nat) + if ranks[upto - 1] < num_ranks { 1nat } else { 0nat }
    }
}

/// Total size of the groups of the ranks below `k`, each over the first `m` indices.
spec fn group_total(ranks: Seq<usize>, k: nat, m: nat) -> nat
    decreases k,
{
    if k == 0 {
        0
    } else {
        group_total(ranks, (k - 1) as nat, m) + indices_of_rank(ranks, (k - 1) as usize, m).len()
    }
}

proof fn lemma_group_total_step(ranks: Seq<usize>, k: nat, m: nat)
    requires
        0 < m <= ranks.len(),
        k <= usize::MAX + 1,
    ensures
        group_total(ranks, k, m) == group_total(ranks, k, (m - 1) as nat) + if ranks[m - 1] < k { 1nat } else { 0nat },
    decreases k,
{
    if k > 0 {
        lemma_group_total_step(ranks, (k - 1) as nat, m);
    }
}

proof fn lemma_group_total_count(ranks: Seq<usize>, num_ranks: usize, m: nat)
    requires
        m <= ranks.len(),
    ensures
        group_total(ranks, num_ranks as nat, m) == in_range_count(ranks, num_ranks, m),
    decreases m,
{
    if m == 0 {
        lemma_group_total_zero(ranks, num_ranks as nat);
    } else {
        lemma_group_total_count(ranks, num_ranks, (m - 1) as nat);
        lemma_group_total_step(ranks, num_ranks as nat, m);
    }
}

proof fn lemma_group_total_zero(ranks: Seq<usize>, k: nat)
    ensures
        group_total(ranks, k, 0) == 0,
    decreases k,
{
    if k > 0 {
        lemma_group_total_zero(ranks, (k - 1) as nat);
    }
}

proof fn lemma_total_len_groups(gs: Seq<Vec<usize>>, ranks: Seq<usize>, k: nat)
    requires
        k <= gs.len(),
        forall|r: int| 0 <= r < gs.len() ==> (#[trigger] gs[r])@ == indices_of_rank(ranks, r as usize, ranks.len()),
    ensures
        total_len(gs.take(k as int)) == group_total(ranks, k, ranks.len()),
    decreases k,
{
    if k > 0 {
        assert(gs.take(k as int).drop_last() =~= gs.take(k - 1));
        lemma_total_len_groups(gs, ranks, (k - 1) as nat);
        assert(gs.take(k as int).last() == gs[k - 1]);
    }
}

/// The groups hold, together, exactly one entry per edge whose rank is in range: the
/// edge total of grouped edges is the number of edges with a rank below the number of ranks.
pub proof fn law_groups_count_in_range_edges(g: BlockedEdgeGroups, ranks: Seq<usize>)
    requires
        g.rank_groups.len() == g.num_ranks,
        forall|r: int| 0 <= r < g.num_ranks ==> (#[trigger] g.rank_groups[r])@ == indices_of_rank(ranks, r as usize, ranks.len()),
    ensures
        total_len(g.rank_groups@) == in_range_count(ranks, g.num_ranks, ranks.len()),
{
    lemma_total_len_groups(g.rank_groups@, ranks, g.num_ranks as nat);
    assert(g.rank_groups@.take(g.num_ranks as int) =~= g.rank_groups@);
    lemma_group_total_count(ranks, g.num_ranks, ranks.len());
}

/// Position `a` comes before position `b` when ordered by code, then by index.
pub open spec fn code_before(codes: Seq<u64>, a: usize, b: usize) -> bool {
    codes[a as int] < codes[b as int] || (codes[a as int] == codes[b as int] && a < b)
}

/// The indices `0..codes.len()` ordered by their codes, ties by index: the order of
/// points along the Morton curve once each point has its code.
pub fn order_by_code(codes: &Vec<u64>) -> (r: Vec<usize>)
    ensures
        r@.len() == codes@.len(),
        forall|i: usize| i < codes@.len() <==> #[trigger] r@.contains(i),
        forall|a: int, b: int| 0 <= a < b < r@.len() ==> code_before(codes@, #[trigger] r@[a], #[trigger] r@[b]),
{
    let mut r: Vec<usize> = Vec::new();
    let mut i: usize = 0;
    while i < codes.len()
        invariant
            i <= codes@.len(),
            r@.len() == i,
            forall|x: usize| x < i <==> #[trigger] r@.contains(x),
            forall|k: int| 0 <= k < r@.len() ==> (#[trigger] r@[k]) < i,
            forall|a: int, b: int| 0 <= a < b < r@.len() ==> code_before(codes@, #[trigger] r@[a], #[trigger] r@[b]),
        decreases codes@.len() - i,
    {
        let c = codes[i];
        let mut p: usize = 0;
        while p < r.len() && codes[r[p]] <= c
            invariant
                p <= r@.len(),
                i < codes@.len(),
                forall|k: int| 0 <= k < r@.len() ==> (#[trigger] r@[k]) < i,
                forall|k: int| 0 <= k < p ==> codes@[r@[k] as int] <= c,
            decreases r@.len() - p,
        {
            p = p + 1;
        }
        let ghost before = r@;
        r.insert(p, i);
        proof {
            assert forall|a: int, b: int| 0 <= a < b < r@.len() implies code_before(codes@, #[trigger] r@[a], #[trigger] r@[b]) by {
                if b < p {
                    assert(r@[a] == before[a] && r@[b] == before[b]);
                } else if b == p {
                    assert(r@[a] == before[a]);
                    assert(codes@[before[a] as int] <= c && before[a] < i);
                } else if a < p {
                    assert(r@[a] == before[a] && r@[b] == before[b - 1]);
                } else if a == p {
                    assert(r@[b] == before[b - 1]);
                    assert(codes@[before[p as int] as int] > c);
                    if b - 1 > p {
                        assert(code_before(codes@, before[p as int], before[b - 1]));
                    }
                } else {
                    assert(r@[a] == before[a - 1] && r@[b] == before[b - 1]);
                }
            }
            assert forall|x: usize| x < i + 1 <==> #[trigger] r@.contains(x) by {
                if r@.contains(x) {
                    let k = choose|k: int| 0 <= k < r@.len() && r@[k] == x;
                    if k < p {
                        assert(before[k] == x);
                        assert(before.contains(x));
                    } else if k > p {
                        assert(before[k - 1] == x);
                        assert(before.contains(x));
                    }
                }
                if x < i {
                    assert(before.contains(x));
                    let k = choose|k: int| 0 <= k < before.len() && before[k] == x;
                    if k < p {
                        assert(r@[k] == x);
                    } else {
                        assert(r@[k + 1] == x);
                    }
                }
                if x == i {
                    assert(r@[p as int] == i);
                }
            }
            assert forall|k: int| 0 <= k < r@.len() implies (#[trigger] r@[k]) < i + 1 by {
                if k < p {
                    assert(r@[k] == before[k]);
                } else if k > p {
                    assert(r@[k] == before[k - 1]);
                }
            }
        }
        i = i + 1;
    }
    r
}

} // verus!
