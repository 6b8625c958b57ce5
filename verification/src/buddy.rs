//! Buddy allocator.
//!
//! The managed region is split into blocks whose sizes are powers of two,
//! from `2^MIN_ORDER` to `2^MAX_ORDER` bytes.  The blocks form a binary
//! tree: node 0 is the root, node `i*2+1` and node `i*2+2` are the two
//! halves of node `i`.  A bitset over the tree records, for every node,
//! whether it is allocated or split in two.  Free blocks are kept in one
//! circular list per order.  A region whose size is not a power of two is
//! handled as the region of the next power of two whose tail blocks are
//! never free.
use vstd::prelude::*;
use crate::rkalloc::{RKalloc, RKallocExt, RKallocState, copy_bytes, copied};
use vstd::arithmetic::power2::{pow2, lemma_pow2_pos, lemma_pow2_adds, lemma_pow2_unfold, lemma_pow2_strictly_increases};
use vstd::bits::{lemma_u64_shr_is_div, lemma_u64_shl_is_mul, lemma_u64_pow2_no_overflow};

verus! {

/// Order of the smallest block.
pub const MIN_ORDER: u64 = 4;
/// Order of the largest block.
pub const MAX_ORDER: u64 = 48;
/// Size of the smallest block.
pub const MIN_SIZE: u64 = 16;
/// Size of the largest block.
pub const MAX_SIZE: u64 = 0x1_0000_0000_0000;
/// The alignment of a page, the largest alignment that may be asked for.
pub const PAGE_ALIGNMENT: u64 = 4096;

/// `y` is the integer binary logarithm of `x`.
pub open spec fn is_log2(x: int, y: nat) -> bool {
    pow2(y) <= x < pow2(y + 1)
}

proof fn lemma_log_step(x: int, xc: int, a: int, b: int, s: nat)
    requires
        a > 0,
        b == pow2(s),
        a * xc <= x < a * (xc + 1),
        xc >= 0,
    ensures
        a * b * (xc / b) <= x < a * b * (xc / b + 1),
{
    lemma_pow2_pos(s);
    let q = xc / b;
    let r = xc % b;
    assert(xc == b * q + r && 0 <= r < b) by (nonlinear_arith)
        requires b > 0, q == xc / b, r == xc % b;
    assert(a * b * q <= a * xc) by (nonlinear_arith)
        requires a > 0, xc == b * q + r, 0 <= r;
    assert(a * (xc + 1) <= a * b * (q + 1)) by (nonlinear_arith)
        requires a > 0, xc == b * q + r, r < b;
}

/// Integer binary logarithm; 0 for 0.
pub fn log2_usize(x: u64) -> (y: u64)
    ensures
        x == 0 ==> y == 0,
        x > 0 ==> is_log2(x as int, y as nat),
        y < 64,
{
    let ghost x0 = x;
    let mut x = x;
    let mut y: u64 = 0;
    proof {
        lemma2_facts();
    }
    if x >= 4294967296 {
        proof { lemma_u64_shr_is_div(x, 32); lemma_log_step(x0 as int, x as int, 1, pow2(32) as int, 32); }
        y += 32;
        x >>= 32;
    }
    assert(pow2(y as nat) * x <= x0 < pow2(y as nat) * (x + 1) && x < 4294967296);
    if x >= 65536 {
        proof { lemma_u64_shr_is_div(x, 16); lemma_log_step(x0 as int, x as int, pow2(y as nat) as int, pow2(16) as int, 16); lemma_pow2_adds(y as nat, 16); }
        y += 16;
        x >>= 16;
    }
    assert(pow2(y as nat) * x <= x0 < pow2(y as nat) * (x + 1) && x < 65536);
    if x >= 256 {
        proof { lemma_u64_shr_is_div(x, 8); lemma_log_step(x0 as int, x as int, pow2(y as nat) as int, pow2(8) as int, 8); lemma_pow2_adds(y as nat, 8); }
        y += 8;
        x >>= 8;
    }
    assert(pow2(y as nat) * x <= x0 < pow2(y as nat) * (x + 1) && x < 256);
    if x >= 16 {
        proof { lemma_u64_shr_is_div(x, 4); lemma_log_step(x0 as int, x as int, pow2(y as nat) as int, pow2(4) as int, 4); lemma_pow2_adds(y as nat, 4); }
        y += 4;
        x >>= 4;
    }
    assert(pow2(y as nat) * x <= x0 < pow2(y as nat) * (x + 1) && x < 16);
    if x >= 4 {
        proof { lemma_u64_shr_is_div(x, 2); lemma_log_step(x0 as int, x as int, pow2(y as nat) as int, pow2(2) as int, 2); lemma_pow2_adds(y as nat, 2); }
        y += 2;
        x >>= 2;
    }
    assert(pow2(y as nat) * x <= x0 < pow2(y as nat) * (x + 1) && x < 4);
    proof {
        lemma_pow2_pos(y as nat);
        lemma_pow2_unfold((y + 1) as nat);
        lemma_pow2_unfold((y + 2) as nat);
        let a = pow2(y as nat) as int;
        if x == 1 {
            assert(a * 1 <= x0 < a * 2) by (nonlinear_arith) requires a * x <= x0 < a * (x + 1), x == 1;
        } else if x == 2 {
            assert(a * 2 <= x0 < a * 4) by (nonlinear_arith) requires a * x <= x0 < a * (x + 1), x == 2;
        } else if x == 3 {
            assert(a * 2 <= x0 < a * 4) by (nonlinear_arith) requires a * x <= x0 < a * (x + 1), x == 3, a > 0;
        } else {
            assert(x0 < a) by (nonlinear_arith) requires a * x <= x0 < a * (x + 1), x == 0;
            assert(x0 == 0) by {
                if x0 > 0 {
                    assert(a >= 1);
                }
            }
        }
    }
    if x >= 2 {
        y += 1;
    }
    y
}

proof fn lemma2_facts()
    ensures
        pow2(0) == 1,
        pow2(1) == 2,
        pow2(2) == 4,
        pow2(4) == 16,
        pow2(8) == 256,
        pow2(16) == 65536,
        pow2(32) == 4294967296,
{
    vstd::arithmetic::power2::lemma2_to64();
}

/// The least power of two that is at least `x`; 2 for 0.
pub open spec fn min_power2_spec(x: int) -> int {
    if x == 0 { 2 } else {
        let y = choose|y: nat| is_log2(x, y);
        if pow2(y) == x { x } else { pow2(y + 1) as int }
    }
}

proof fn lemma_log2_unique(x: int, y1: nat, y2: nat)
    requires
        is_log2(x, y1),
        is_log2(x, y2),
    ensures
        y1 == y2,
{
    if y1 < y2 {
        lemma_pow2_strictly_increases(y1, y2);
        if y1 + 1 < y2 {
            lemma_pow2_strictly_increases(y1 + 1, y2);
        }
    } else if y2 < y1 {
        lemma_pow2_strictly_increases(y2, y1);
        if y2 + 1 < y1 {
            lemma_pow2_strictly_increases(y2 + 1, y1);
        }
    }
}

/// The least power of two that is at least `x` (and 2 for 0).
pub fn min_power2(x: u64) -> (p: u64)
    requires
        x <= 0x8000_0000_0000_0000,
    ensures
        p == min_power2_spec(x as int),
        x > 0 ==> x <= p && p < 2 * x,
        x > 0 ==> exists|e: nat| e < 64 && #[trigger] pow2(e) == p,
{
    let y = log2_usize(x);
    proof {
        lemma2_facts();
        lemma_u64_shl_is_mul(1, y);
        if x > 0 {
            lemma_log2_unique(x as int, y as nat, choose|z: nat| is_log2(x as int, z));
            lemma_pow2_unfold((y + 1) as nat);
            if y == 63 {
                vstd::arithmetic::power2::lemma2_to64_rest();
            }
        }
    }
    if 1u64 << y == x {
        x
    } else {
        proof {
            if y < 63 {
                lemma_u64_shl_is_mul(1, (y + 1) as u64);
                lemma_u64_pow2_no_overflow((y + 1) as nat);
            } else {
                vstd::arithmetic::power2::lemma2_to64_rest();
                assert(false);
            }
        }
        1u64 << (y + 1)
    }
}

/// `m` blocks of 16 bytes, out of `t`, are enough to hold the bitset of the
/// tree over the other `t - m`: the bitset needs one bit per node up to the
/// last block of the least order, whose index is
/// `min_power2(t - m) - 2 + (t - m)`.
pub open spec fn meta_enough(t: int, m: int) -> bool {
    m >= (min_power2_spec(t - m) - 2 + (t - m)) / 128 + 1
}

fn meta_ok(t: u64, m: u64) -> (b: bool)
    requires
        1 <= t <= 0x8000_0000_0000_0000,
        t / 65 <= m,
        m < t,
    ensures
        b == meta_enough(t as int, m as int),
{
    let d = t - m;
    let p = min_power2(d);
    proof {
        let e = choose|e: nat| e < 64 && #[trigger] pow2(e) == p;
        if e < 63 {
            lemma_pow2_strictly_increases(e, 63);
        }
        vstd::arithmetic::power2::lemma2_to64_rest();
        assert(p <= 0x8000_0000_0000_0000);
        assert(d < 0x8000_0000_0000_0000);
    }
    m >= (p + d - 2) / 128 + 1
}

proof fn lemma_meta_enough_hi(t: int)
    requires
        1 <= t,
    ensures
        meta_enough(t, (t + 42) / 43),
{
    if t == 1 {
        assert((1 + 42) / 43 == 1);
        assert(min_power2_spec(0) == 2);
        return;
    }
    let hi = (t + 42) / 43;
    let d = t - hi;
    assert(d >= 1);
    let y = choose|y: nat| is_log2(d, y);
    assert(exists|y: nat| is_log2(d, y)) by {
        lemma_log2_exists(d);
    }
    lemma_pow2_unfold(y + 1);
    assert(min_power2_spec(d) <= 2 * d);
    assert(43 * hi >= t);
}

proof fn lemma_log2_exists(x: int)
    requires
        x >= 1,
    ensures
        exists|y: nat| is_log2(x, y),
    decreases x,
{
    lemma2_facts();
    if x == 1 {
        assert(is_log2(1, 0));
    } else {
        lemma_log2_exists(x / 2);
        let y = choose|y: nat| #[trigger] is_log2(x / 2, y);
        lemma_pow2_unfold(y + 1);
        lemma_pow2_unfold(y + 2);
        assert(is_log2(x, y + 1));
    }
}

/// Number of 16-byte blocks, out of `t`, that hold the bitset: found by
/// binary search between `t / 65` and `(t + 42) / 43`; the result is the
/// first count there that is enough, in the sense that it is enough and
/// the count below it is not (or it is the lower bound).
pub fn find_n_meta(t: u64) -> (m: u64)
    requires
        t <= 0x8000_0000_0000_0000,
    ensures
        t / 65 <= m <= (t + 42) / 43,
        m <= t,
        t >= 1 ==> meta_enough(t as int, m as int),
        m == t / 65 || !meta_enough(t as int, m - 1),
{
    let (mut l, mut r) = (t / 65, (t + 42) / 43);
    if t == 0 {
        return l;
    }
    proof {
        lemma_meta_enough_hi(t as int);
    }
    while l != r
        invariant
            1 <= t <= 0x8000_0000_0000_0000,
            t / 65 <= l <= r <= (t + 42) / 43,
            meta_enough(t as int, r as int),
            l == t / 65 || !meta_enough(t as int, l - 1),
        decreases r - l,
    {
        let mid = (l + r) >> 1;
        proof {
            lemma_u64_shr_is_div((l + r) as u64, 1);
            lemma2_facts();
        }
        if meta_ok(t, mid) {
            r = mid;
        } else {
            l = mid + 1;
        }
    }
    l
}

/// The left half of node `i`.
pub fn lchild(i: u64) -> (c: u64)
    requires
        i < 0x4000_0000_0000_0000,
    ensures
        c == i * 2 + 1,
{
    i * 2 + 1
}

/// The right half of node `i`.
pub fn rchild(i: u64) -> (c: u64)
    requires
        i < 0x4000_0000_0000_0000,
    ensures
        c == i * 2 + 2,
{
    i * 2 + 2
}

/// The node whose half node `i` is; `i` is not the root.
pub fn parent(i: u64) -> (p: u64)
    requires
        i > 0,
    ensures
        p == (i - 1) / 2,
{
    (i - 1) / 2
}

/// The other half of the parent of node `i`; `i` is not the root.
pub fn sibling(i: u64) -> (s: u64)
    requires
        0 < i < 0xffff_ffff_ffff_ffff,
    ensures
        s == if i % 2 == 1 { i + 1 } else { i - 1 },
{
    let x = i - 1;
    assert((x ^ 1) == if x % 2 == 0 { x + 1 } else { x - 1 }) by (bit_vector)
        requires x < 0xffff_ffff_ffff_ffff;
    (x ^ 1) + 1
}

/// Bit `b` of `w`.
pub open spec fn word_bit(w: u64, b: u64) -> bool {
    (w >> b) & 1 == 1
}

proof fn lemma_word_bits(w: u64, b: u64, c: u64)
    requires
        b < 64,
        c < 64,
    ensures
        ((w & (1u64 << b)) != 0) == word_bit(w, b),
        word_bit(w | (1u64 << b), c) == if c == b { true } else { word_bit(w, c) },
        word_bit(w & !(1u64 << b), c) == if c == b { false } else { word_bit(w, c) },
        word_bit(0, c) == false,
{
    assert(((w & (1u64 << b)) != 0) == ((w >> b) & 1 == 1)) by (bit_vector)
        requires b < 64;
    assert((((w | (1u64 << b)) >> c) & 1 == 1) == if c == b { true } else { (w >> c) & 1 == 1 }) by (bit_vector)
        requires b < 64, c < 64;
    assert((((w & !(1u64 << b)) >> c) & 1 == 1) == if c == b { false } else { (w >> c) & 1 == 1 }) by (bit_vector)
        requires b < 64, c < 64;
    assert(((0u64 >> c) & 1 == 1) == false) by (bit_vector);
}

/// `2^e` as a machine word.
fn pow2_u64(e: u64) -> (r: u64)
    requires
        e < 64,
    ensures
        r == pow2(e as nat),
        r > 0,
{
    proof {
        lemma_u64_pow2_no_overflow(e as nat);
        lemma_u64_shl_is_mul(1, e);
    }
    1u64 << e
}

proof fn lemma_blk(k: int)
    requires
        k >= 0,
    ensures
        blk(k) > 0,
        blk(k + 1) == 2 * blk(k),
{
    lemma_pow2_pos(k as nat);
    lemma_pow2_unfold((k + 1) as nat);
}

proof fn lemma_blk_adds(a: int, b: int)
    requires
        a >= 0,
        b >= 0,
    ensures
        blk(a + b) == blk(a) * blk(b),
        blk(a) > 0,
        blk(b) > 0,
{
    lemma_pow2_adds(a as nat, b as nat);
    lemma_pow2_pos(a as nat);
    lemma_pow2_pos(b as nat);
}

proof fn lemma_blk_mono(a: int, b: int)
    requires
        0 <= a <= b,
    ensures
        blk(a) <= blk(b),
{
    if a < b {
        lemma_pow2_strictly_increases(a as nat, b as nat);
    }
}

/// The block `j2` of size `b` lies within block `j2 / m` of size `m * b`.
proof fn lemma_block_within(j2: int, m: int, b: int)
    requires
        j2 >= 0,
        m > 0,
        b > 0,
    ensures
        (j2 / m) * (m * b) <= j2 * b,
        (j2 + 1) * b <= (j2 / m + 1) * (m * b),
        j2 / m >= 0,
{
    let q = j2 / m;
    let r = j2 % m;
    assert(j2 == m * q + r && 0 <= r < m) by (nonlinear_arith)
        requires m > 0, q == j2 / m, r == j2 % m;
    assert(q >= 0) by (nonlinear_arith) requires j2 == m * q + r, 0 <= r < m, j2 >= 0;
    assert(q * (m * b) <= j2 * b) by (nonlinear_arith)
        requires j2 == m * q + r, 0 <= r, b > 0;
    assert((j2 + 1) * b <= (q + 1) * (m * b)) by (nonlinear_arith)
        requires j2 == m * q + r, r < m, b > 0;
}

/// Two blocks of the same size with different indices do not overlap.
proof fn lemma_blocks_apart(j1: int, j2: int, b: int)
    requires
        j1 != j2,
        b > 0,
    ensures
        (j1 + 1) * b <= j2 * b || (j2 + 1) * b <= j1 * b,
{
    if j1 < j2 {
        assert((j1 + 1) * b <= j2 * b) by (nonlinear_arith) requires j1 + 1 <= j2, b > 0;
    } else {
        assert((j2 + 1) * b <= j1 * b) by (nonlinear_arith) requires j2 + 1 <= j1, b > 0;
    }
}

/// A bitset stored in 64-bit words.
pub struct Bitset {
    data: Vec<u64>,
}

impl Bitset {
    /// Number of words.
    pub closed spec fn words(&self) -> nat {
        self.data@.len()
    }

    /// Bit `i`; false past the end.
    pub closed spec fn bit(&self, i: int) -> bool {
        0 <= i && i / 64 < self.data@.len() && word_bit(self.data@[i / 64], (i % 64) as u64)
    }

    /// A bitset of `len` words, all bits clear.
    pub fn new(len: u64) -> (b: Bitset)
        requires
            len < 0x100_0000_0000_0000,
        ensures
            b.words() == len,
            forall|i: int| !#[trigger] b.bit(i),
    {
        let mut data: Vec<u64> = Vec::new();
        let mut k: u64 = 0;
        while k < len
            invariant
                k <= len,
                data@.len() == k,
                forall|j: int| 0 <= j < k ==> data@[j] == 0,
            decreases len - k,
        {
            data.push(0);
            k = k + 1;
        }
        let b = Bitset { data };
        proof {
            assert forall|i: int| !#[trigger] b.bit(i) by {
                if 0 <= i && i / 64 < b.data@.len() {
                    lemma_word_bits(0, 0, (i % 64) as u64);
                }
            }
        }
        b
    }

    /// Bit `index`; false past the end.
    pub fn get(&self, index: u64) -> (v: bool)
        ensures
            v == self.bit(index as int),
    {
        if index / 64 >= self.data.len() as u64 {
            false
        } else {
            proof {
                lemma_word_bits(self.data@[(index / 64) as int], index % 64, index % 64);
            }
            (self.data[(index / 64) as usize] & (1u64 << (index % 64))) != 0
        }
    }

    /// Sets bit `index` to `v`; the index must lie within the words.
    pub fn set(&mut self, index: u64, v: bool)
        requires
            (index / 64) < old(self).words(),
        ensures
            final(self).words() == old(self).words(),
            forall|i: int| #[trigger] final(self).bit(i) == if i == index { v } else { old(self).bit(i) },
    {
        proof {
            assert(self.data.len() == self.data@.len());
        }
        let w = (index / 64) as usize;
        assert(w as int == index / 64);
        let old_word = self.data[w];
        if v {
            self.data[w] = old_word | (1u64 << (index % 64));
        } else {
            self.data[w] = old_word & !(1u64 << (index % 64));
        }
        proof {
            assert forall|i: int| #[trigger] self.bit(i) == if i == index { v } else { old(self).bit(i) } by {
                if 0 <= i && i / 64 < self.data@.len() {
                    lemma_word_bits(old_word, index % 64, (i % 64) as u64);
                    if i / 64 == index / 64 && i != index {
                        assert(i % 64 != index % 64);
                    }
                }
            }
        }
    }
}

/// What a node of the tree is, as the allocator sees it.
pub enum Status {
    /// A free block, in the free list of its order.
    Free,
    /// An allocated block.
    Alloc,
    /// A block split into its two halves.
    Split,
    /// A block inside a free or allocated block.
    Inside,
    /// A block that the allocator never hands out as such.
    Absent,
}

/// The allocator's state.
struct Data {
    /// Free blocks of order `k` at index `k - MIN_ORDER`; each list is
    /// circular, its head first, then the nodes in `next` order.
    free_list_head: Vec<Vec<u64>>,
    /// Order of the largest block: the logarithm of the data size.
    max_order: u64,
    /// Order of the root: the logarithm of the data size, rounded up.
    root_order: u64,
    meta_data: Bitset,
    base: u64,
    size_data: u64,
    size_left: u64,
    size_total: u64,
    /// The status of every node `(order, index in its level)`.
    status: Ghost<Map<(int, int), Status>>,
    /// The allocated nodes.
    live: Ghost<Seq<(int, int)>>,
}

/// `2^k` as an integer.
pub open spec fn blk(k: int) -> int {
    pow2(k as nat) as int
}

/// Start of the block of `s` bytes, counted from `base`, that holds
/// address `a`.
pub open spec fn block_start(base: int, a: int, s: int) -> int {
    base + ((a - base) / s) * s
}

/// The buddy of the block of `s` bytes at `a`, counted from `base`: the
/// other half of the block of `2 * s` bytes that holds it.
pub open spec fn buddy_addr(base: int, a: int, s: int) -> int {
    if ((a - base) / s) % 2 == 0 {
        a + s
    } else {
        a - s
    }
}

/// The block of order `k` at index `j`, its buddy, and the block of order
/// `k + 1` that holds both.
proof fn lemma_blocks(base: int, a: int, k: int, j: int)
    requires
        k >= 0,
        j >= 0,
        a == base + j * blk(k),
    ensures
        (a - base) / blk(k) == j,
        block_start(base, a, blk(k)) == a,
        buddy_addr(base, a, blk(k)) == base + (if j % 2 == 0 { j + 1 } else { j - 1 }) * blk(k),
        block_start(base, a, blk(k + 1)) == base + (j / 2) * blk(k + 1),
{
    lemma_blk(k);
    let b = blk(k);
    vstd::arithmetic::div_mod::lemma_div_by_multiple(j, b);
    assert(j * b >= 0) by (nonlinear_arith) requires j >= 0, b > 0;
    vstd::arithmetic::div_mod::lemma_div_denominator(j * b, b, 2);
    assert(b * 2 == blk(k + 1));
    assert((j + 1) * b == j * b + b) by (nonlinear_arith);
    assert((j - 1) * b == j * b - b) by (nonlinear_arith);
}

/// The block of order `k + 1` that holds address `p` is the one that holds
/// the block of order `k` that holds `p`.
proof fn lemma_path_step(base: int, p: int, k: int)
    requires
        p >= base,
        k >= 0,
    ensures
        block_start(base, block_start(base, p, blk(k)), blk(k + 1)) == block_start(base, p, blk(k + 1)),
        block_start(base, p, blk(k)) >= base,
{
    lemma_blk(k);
    let q = (p - base) / blk(k);
    vstd::arithmetic::div_mod::lemma_div_pos_is_pos(p - base, blk(k));
    lemma_blocks(base, base + q * blk(k), k, q);
    vstd::arithmetic::div_mod::lemma_div_denominator(p - base, blk(k), 2);
    assert(q * blk(k) >= 0) by (nonlinear_arith) requires q >= 0, blk(k) > 0;
}

/// The buddy of a block is a block at the other side of it, whose buddy is
/// the block itself.
proof fn lemma_buddy_sym(base: int, a: int, k: int)
    requires
        a >= base,
        (a - base) % blk(k) == 0,
        k >= 0,
    ensures
        buddy_addr(base, buddy_addr(base, a, blk(k)), blk(k)) == a,
        buddy_addr(base, a, blk(k)) != a,
        buddy_addr(base, a, blk(k)) >= base,
        buddy_addr(base, a, blk(k)) <= a + blk(k),
{
    lemma_blk(k);
    let q = (a - base) / blk(k);
    lemma_fundamental_div(a - base, blk(k));
    assert(a - base == q * blk(k)) by (nonlinear_arith) requires a - base == blk(k) * q + 0;
    vstd::arithmetic::div_mod::lemma_div_pos_is_pos(a - base, blk(k));
    lemma_blocks(base, a, k, q);
    let q2 = if q % 2 == 0 { q + 1 } else { q - 1 };
    lemma_blocks(base, base + q2 * blk(k), k, q2);
    assert(q2 * blk(k) >= 0) by (nonlinear_arith) requires q2 >= 0, blk(k) > 0;
    assert((q + 1) * blk(k) == q * blk(k) + blk(k)) by (nonlinear_arith);
    assert((q - 1) * blk(k) == q * blk(k) - blk(k)) by (nonlinear_arith);
}

/// Below the order of a block aligned to `blk(m)`, the block is the lower
/// half of the block of the next order, whose upper half is its buddy.
proof fn lemma_aligned_below(base: int, r: int, k: int, m: int)
    requires
        r >= base,
        (r - base) % blk(m) == 0,
        0 <= k < m,
    ensures
        block_start(base, r, blk(k + 1)) == r,
        buddy_addr(base, r, blk(k)) == r + blk(k),
{
    lemma_blk(k);
    lemma_blk(m);
    lemma_blk_adds(m - (k + 1), k + 1);
    lemma_fundamental_div(r - base, blk(m));
    let q = (r - base) / blk(m);
    vstd::arithmetic::div_mod::lemma_div_pos_is_pos(r - base, blk(m));
    let mm = q * blk(m - (k + 1));
    assert(r - base == q * blk(m)) by (nonlinear_arith) requires r - base == blk(m) * q + 0;
    assert(q * blk(m) == mm * blk(k + 1)) by (nonlinear_arith)
        requires blk(m) == blk(m - (k + 1)) * blk(k + 1), mm == q * blk(m - (k + 1));
    assert(mm * blk(k + 1) == (2 * mm) * blk(k)) by (nonlinear_arith) requires blk(k + 1) == 2 * blk(k);
    assert(mm >= 0) by (nonlinear_arith) requires q >= 0, blk(m - (k + 1)) > 0, mm == q * blk(m - (k + 1));
    lemma_blocks(base, r, k, 2 * mm);
    assert((2 * mm + 1) * blk(k) == (2 * mm) * blk(k) + blk(k)) by (nonlinear_arith);
}

/// Sum of the block sizes of the nodes `s`.
pub open spec fn sum_sizes(s: Seq<(int, int)>) -> int
    decreases s.len(),
{
    if s.len() == 0 { 0 } else { sum_sizes(s.drop_last()) + blk(s.last().0) }
}

impl Data {
    /// Number of nodes of order `k`.
    spec fn nlevel(&self, k: int) -> int {
        blk(self.root_order - k)
    }

    /// `(k, j)` is a node of the tree.
    spec fn valid(&self, k: int, j: int) -> bool {
        MIN_ORDER <= k <= self.root_order && 0 <= j < self.nlevel(k)
    }

    /// The block of node `(k, j)` lies within the data.
    spec fn in_range(&self, k: int, j: int) -> bool {
        self.valid(k, j) && (j + 1) * blk(k) <= self.size_data
    }

    /// Index of node `(k, j)` in the bitset.
    spec fn flat(&self, k: int, j: int) -> int {
        self.nlevel(k) - 1 + j
    }

    /// Address of the block of node `(k, j)`.
    spec fn addr(&self, k: int, j: int) -> int {
        self.base + j * blk(k)
    }

    spec fn st(&self, k: int, j: int) -> Status {
        self.status@[(k, j)]
    }

    /// The free list of order `k`.
    spec fn ring(&self, k: int) -> Seq<u64> {
        self.free_list_head@[k - MIN_ORDER]@
    }

    /// Address `a` is the block of a free node of order `k`.
    spec fn free_at(&self, k: int, a: int) -> bool {
        &&& a >= self.base
        &&& (a - self.base) % blk(k) == 0
        &&& self.valid(k, (a - self.base) / blk(k))
        &&& self.st(k, (a - self.base) / blk(k)) is Free
    }

    spec fn wf_shape(&self) -> bool {
        &&& self.free_list_head@.len() == MAX_ORDER - MIN_ORDER + 1
        &&& self.max_order <= self.root_order <= MAX_ORDER
        &&& self.size_data > 0 ==> {
            &&& MIN_ORDER <= self.max_order
            &&& blk(self.max_order as int) <= self.size_data < blk(self.max_order + 1)
            &&& self.size_data <= blk(self.root_order as int)
            &&& (self.root_order == self.max_order || self.root_order == self.max_order + 1)
        }
        &&& self.size_data == 0 ==> self.max_order == 0 && self.root_order == 1
        &&& self.size_data % MIN_SIZE == 0
        &&& self.size_data <= self.size_total
        &&& self.base + self.size_total <= u64::MAX
        &&& self.base % PAGE_ALIGNMENT == 0
        &&& self.base > 0
        &&& self.status@.dom() =~= Set::<(int, int)>::full()
    }

    spec fn wf_bits(&self) -> bool {
        &&& forall|k: int, j: int| #[trigger] self.in_range(k, j) ==> self.flat(k, j) < 64 * self.meta_data.words()
        &&& forall|k: int, j: int| #![trigger self.st(k, j)] self.valid(k, j) ==>
            (self.meta_data.bit(self.flat(k, j)) <==> (self.st(k, j) is Alloc || self.st(k, j) is Split))
    }

    /// If node `(k, j)` is split, both its halves are in use, free or split.
    spec fn split_at(&self, k: int, j: int) -> bool {
        self.valid(k, j) && self.st(k, j) is Split ==> {
            &&& k > MIN_ORDER
            &&& !(self.st(k - 1, 2 * j) is Inside || self.st(k - 1, 2 * j) is Absent)
            &&& !(self.st(k - 1, 2 * j + 1) is Inside || self.st(k - 1, 2 * j + 1) is Absent)
        }
    }

    spec fn tree_split(&self) -> bool {
        forall|k: int, j: int| #[trigger] self.split_at(k, j)
    }

    /// If node `(k, j)` is free, allocated or inner, both its halves are inner.
    spec fn down_at(&self, k: int, j: int) -> bool {
        self.valid(k, j) && k > MIN_ORDER
            && (self.st(k, j) is Free || self.st(k, j) is Alloc || self.st(k, j) is Inside) ==> {
            &&& self.st(k - 1, 2 * j) is Inside
            &&& self.st(k - 1, 2 * j + 1) is Inside
        }
    }

    spec fn tree_down(&self) -> bool {
        forall|k: int, j: int| #[trigger] self.down_at(k, j)
    }

    /// Free, allocated and split nodes lie within the data; absent ones do not.
    spec fn tree_range(&self) -> bool {
        &&& forall|k: int, j: int| #![trigger self.st(k, j)] self.valid(k, j)
            && (self.st(k, j) is Free || self.st(k, j) is Alloc || self.st(k, j) is Split) ==> self.in_range(k, j)
        &&& forall|k: int, j: int| #![trigger self.st(k, j)] self.valid(k, j) && self.st(k, j) is Absent
            ==> !self.in_range(k, j)
    }

    spec fn wf_tree(&self) -> bool {
        &&& self.tree_split()
        &&& self.tree_down()
        &&& self.tree_range()
    }

    /// The free lists hold exactly the free blocks, but for node `(ek, ej)`,
    /// which may be free and missing from its list.
    spec fn rings_ok(&self, ek: int, ej: int) -> bool {
        forall|k: int| #![trigger self.ring(k)] MIN_ORDER <= k <= MAX_ORDER ==> {
            &&& self.ring(k).no_duplicates()
            &&& forall|x: int| 0 <= x < self.ring(k).len() ==> #[trigger] self.free_at(k, self.ring(k)[x] as int)
            &&& forall|j: int| self.valid(k, j) && #[trigger] self.st(k, j) is Free && (k, j) != (ek, ej)
                ==> self.ring(k).contains(self.addr(k, j) as u64)
        }
    }

    spec fn wf_rings(&self) -> bool {
        self.rings_ok(-1, -1)
    }

    /// The state in the middle of an allocation or a release: all holds but
    /// that the free node `(k, j)` is missing from its list.
    spec fn wf_but(&self, k: int, j: int) -> bool {
        &&& self.wf_shape()
        &&& self.wf_bits()
        &&& self.wf_tree()
        &&& self.rings_ok(k, j)
        &&& self.wf_acct()
        &&& self.valid(k, j)
        &&& self.st(k, j) is Free
        &&& !self.ring(k).contains(self.addr(k, j) as u64)
    }

    spec fn wf_acct(&self) -> bool {
        &&& self.live@.no_duplicates()
        &&& forall|x: int| 0 <= x < self.live@.len() ==> {
            let (k, j) = #[trigger] self.live@[x];
            self.valid(k, j) && self.st(k, j) is Alloc
        }
        &&& forall|k: int, j: int| #![trigger self.st(k, j)] self.valid(k, j) && self.st(k, j) is Alloc ==> self.live@.contains((k, j))
        &&& self.size_left + sum_sizes(self.live@) == self.size_data
    }

    spec fn wf(&self) -> bool {
        &&& self.wf_shape()
        &&& self.wf_bits()
        &&& self.wf_tree()
        &&& self.wf_rings()
        &&& self.wf_acct()
    }
}


impl Data {
    /// Node `(k2, j2)` lies below node `(k, j)`.
    spec fn below(k: int, j: int, k2: int, j2: int) -> bool {
        k2 < k && j2 >= 0 && j2 / blk(k - k2) == j
    }

    proof fn lemma_nlevel(&self, k: int)
        requires
            self.root_order <= MAX_ORDER,
            k <= self.root_order,
        ensures
            self.nlevel(k) > 0,
            k < self.root_order ==> self.nlevel(k) == 2 * self.nlevel(k + 1),
    {
        if k < self.root_order {
            lemma_blk(self.root_order - k - 1);
        }
        lemma_pow2_pos((self.root_order - k) as nat);
    }

    /// The halves of a free, allocated or inner node are inner.
    proof fn lemma_down(&self, k: int, j: int)
        requires
            self.root_order <= MAX_ORDER,
            self.tree_down(),
            self.valid(k, j),
            k > MIN_ORDER,
            self.st(k, j) is Free || self.st(k, j) is Alloc || self.st(k, j) is Inside,
        ensures
            self.valid(k - 1, 2 * j),
            self.valid(k - 1, 2 * j + 1),
            self.st(k - 1, 2 * j) is Inside,
            self.st(k - 1, 2 * j + 1) is Inside,
    {
        self.lemma_nlevel(k - 1);
        assert(self.down_at(k, j));
    }

    /// Everything below a free, allocated or inner node is inner.
    proof fn lemma_below_inside(&self, k: int, j: int, k2: int, j2: int)
        requires
            self.root_order <= MAX_ORDER,
            self.tree_down(),
            self.valid(k, j),
            self.st(k, j) is Free || self.st(k, j) is Alloc || self.st(k, j) is Inside,
            MIN_ORDER <= k2,
            Self::below(k, j, k2, j2),
        ensures
            self.valid(k2, j2),
            self.st(k2, j2) is Inside,
        decreases k - k2,
    {
        let d = k - k2;
        lemma_below_step(j2, j, d);
        if d == 1 {
            self.lemma_down(k, j);
        } else {
            self.lemma_below_inside(k, j, k2 + 1, j2 / 2);
            self.lemma_down(k2 + 1, j2 / 2);
        }
    }
}

impl Data {
    /// Distinct nodes have distinct indices in the bitset.
    proof fn lemma_flat_inj(&self, k1: int, j1: int, k2: int, j2: int)
        requires
            self.root_order <= MAX_ORDER,
            self.valid(k1, j1),
            self.valid(k2, j2),
            self.flat(k1, j1) == self.flat(k2, j2),
        ensures
            k1 == k2,
            j1 == j2,
    {
        if k1 > k2 {
            lemma_blk(self.root_order - k1);
            lemma_blk_mono(self.root_order - k1 + 1, self.root_order - k2);
        } else if k2 > k1 {
            lemma_blk(self.root_order - k2);
            lemma_blk_mono(self.root_order - k2 + 1, self.root_order - k1);
        }
    }

    /// The bytes left are at least those of any free block: the allocated
    /// blocks and a free one do not overlap and lie within the data.
    proof fn lemma_free_fits(&self, k: int, j: int)
        requires
            self.wf(),
            self.valid(k, j),
            self.st(k, j) is Free,
        ensures
            self.size_left >= blk(k),
    {
        let live = self.live@;
        let s = live.push((k, j));
        assert forall|i: int| 0 <= i < s.len() implies {
            &&& 0 <= #[trigger] lo_of(s[i])
            &&& hi_of(s[i]) <= self.size_data
            &&& hi_of(s[i]) == lo_of(s[i]) + blk(s[i].0)
            &&& blk(s[i].0) > 0
        } by {
            let (ki, ji) = s[i];
            if i < live.len() {
                assert(s[i] == live[i]);
                assert(self.valid(ki, ji) && self.st(ki, ji) is Alloc);
            }
            assert(self.valid(ki, ji));
            assert(self.st(ki, ji) is Alloc || self.st(ki, ji) is Free);
            assert(self.in_range(ki, ji));
            self.lemma_addr_fits(ki, ji);
            lemma_pow2_pos(ki as nat);
            assert((ji + 1) * blk(ki) == ji * blk(ki) + blk(ki)) by (nonlinear_arith);
        }
        assert forall|a: int, b: int| #![trigger s[a], s[b]] 0 <= a < s.len() && 0 <= b < s.len() && a != b
            implies hi_of(s[a]) <= lo_of(s[b]) || hi_of(s[b]) <= lo_of(s[a]) by {
            let (ka, ja) = s[a];
            let (kb, jb) = s[b];
            if a < live.len() {
                assert(s[a] == live[a]);
                assert(self.valid(ka, ja) && self.st(ka, ja) is Alloc);
            }
            if b < live.len() {
                assert(s[b] == live[b]);
                assert(self.valid(kb, jb) && self.st(kb, jb) is Alloc);
            }
            if a < live.len() && b < live.len() {
                assert(live[a] != live[b]);
            }
            self.lemma_alloc_apart(ka, ja, kb, jb);
        }
        lemma_pack(s, self.size_data as int);
        assert(s.drop_last() =~= live);
    }

    /// Two distinct nodes, each free or allocated, have blocks that do not
    /// overlap.
    proof fn lemma_alloc_apart(&self, k1: int, j1: int, k2: int, j2: int)
        requires
            self.root_order <= MAX_ORDER,
            self.tree_down(),
            self.valid(k1, j1),
            self.valid(k2, j2),
            self.st(k1, j1) is Alloc || self.st(k1, j1) is Free,
            self.st(k2, j2) is Alloc || self.st(k2, j2) is Free,
            (k1, j1) != (k2, j2),
        ensures
            (j1 + 1) * blk(k1) <= j2 * blk(k2) || (j2 + 1) * blk(k2) <= j1 * blk(k1),
    {
        if k1 >= k2 {
            self.lemma_apart_ordered(k1, j1, k2, j2);
        } else {
            self.lemma_apart_ordered(k2, j2, k1, j1);
        }
    }

    proof fn lemma_apart_ordered(&self, k1: int, j1: int, k2: int, j2: int)
        requires
            self.root_order <= MAX_ORDER,
            self.tree_down(),
            self.valid(k1, j1),
            self.valid(k2, j2),
            self.st(k1, j1) is Alloc || self.st(k1, j1) is Free,
            self.st(k2, j2) is Alloc || self.st(k2, j2) is Free,
            (k1, j1) != (k2, j2),
            k1 >= k2,
        ensures
            (j1 + 1) * blk(k1) <= j2 * blk(k2) || (j2 + 1) * blk(k2) <= j1 * blk(k1),
    {
        let m = blk(k1 - k2);
        let b = blk(k2);
        lemma_blk_adds(k1 - k2, k2);
        assert(blk(k1) == m * b);
        lemma_block_within(j2, m, b);
        let q = j2 / m;
        if q == j1 {
            if k1 == k2 {
                assert(m == 1) by { lemma2_facts(); }
                assert(j2 / 1 == j2);
            } else {
                assert(Self::below(k1, j1, k2, j2));
                self.lemma_below_inside(k1, j1, k2, j2);
            }
        } else {
            lemma_blk(k1);
            lemma_blocks_apart(j1, q, m * b);
        }
    }

    /// A free address is the address of its node.
    proof fn lemma_free_at_addr(&self, k: int, a: int)
        requires
            self.free_at(k, a),
        ensures
            a == self.addr(k, (a - self.base) / blk(k)),
    {
        lemma_pow2_pos(k as nat);
        let q = (a - self.base) / blk(k);
        lemma_fundamental_div(a - self.base, blk(k));
        assert(blk(k) * q == q * blk(k)) by (nonlinear_arith);
    }

    /// The block of a node within the data fits in the address space.
    proof fn lemma_addr_fits(&self, k: int, j: int)
        requires
            self.wf_shape(),
            self.in_range(k, j),
        ensures
            self.base <= self.addr(k, j),
            self.addr(k, j) + blk(k) <= self.base + self.size_data,
            self.base + self.size_data <= u64::MAX,
    {
        lemma_pow2_pos(k as nat);
        assert((j + 1) * blk(k) == j * blk(k) + blk(k)) by (nonlinear_arith);
        assert(j * blk(k) >= 0) by (nonlinear_arith) requires j >= 0, blk(k) > 0;
    }

    /// The invariants that do not speak of the free lists carry over to a
    /// state that differs in the free lists alone.
    proof fn lemma_same_core(old: &Data, new: &Data)
        requires
            old.wf_bits(),
            old.wf_tree(),
            old.wf_acct(),
            new.same_scalars(old),
            new.meta_data == old.meta_data,
            new.status == old.status,
        ensures
            new.wf_bits(),
            new.wf_tree(),
            new.wf_acct(),
    {
        assert forall|k2: int, j2: int| #[trigger] new.in_range(k2, j2) implies new.flat(k2, j2) < 64 * new.meta_data.words() by {
            assert(old.in_range(k2, j2));
        }
        assert forall|k2: int, j2: int| #![trigger new.st(k2, j2)] new.valid(k2, j2) implies
            (new.meta_data.bit(new.flat(k2, j2)) <==> (new.st(k2, j2) is Alloc || new.st(k2, j2) is Split)) by {
            assert(old.st(k2, j2) == new.st(k2, j2));
        }
        assert forall|k2: int, j2: int| #[trigger] new.split_at(k2, j2) by {
            assert(old.split_at(k2, j2));
        }
        assert forall|k2: int, j2: int| #[trigger] new.down_at(k2, j2) by {
            assert(old.down_at(k2, j2));
        }
        assert forall|k2: int, j2: int| #![trigger new.st(k2, j2)] new.valid(k2, j2)
            && (new.st(k2, j2) is Free || new.st(k2, j2) is Alloc || new.st(k2, j2) is Split)
            implies new.in_range(k2, j2) by {
            assert(old.st(k2, j2) == new.st(k2, j2));
        }
        assert forall|k2: int, j2: int| #![trigger new.st(k2, j2)] new.valid(k2, j2) && new.st(k2, j2) is Absent
            implies !new.in_range(k2, j2) by {
            assert(old.st(k2, j2) == new.st(k2, j2));
        }
        assert forall|x: int| 0 <= x < new.live@.len() implies {
            let (k2, j2) = #[trigger] new.live@[x];
            new.valid(k2, j2) && new.st(k2, j2) is Alloc
        } by {
            let (k2, j2) = old.live@[x];
            assert(old.st(k2, j2) is Alloc);
        }
        assert forall|k2: int, j2: int| #![trigger new.st(k2, j2)] new.valid(k2, j2) && new.st(k2, j2) is Alloc
            implies new.live@.contains((k2, j2)) by {
            assert(old.st(k2, j2) == new.st(k2, j2));
        }
    }

    spec fn same_scalars(&self, old: &Data) -> bool {
        &&& self.max_order == old.max_order
        &&& self.root_order == old.root_order
        &&& self.base == old.base
        &&& self.size_data == old.size_data
        &&& self.size_left == old.size_left
        &&& self.size_total == old.size_total
        &&& self.live == old.live
    }

    /// `self` is `old` after node `(k + 1, j)` was split: it is marked in
    /// the bitset, its halves are free and the right half alone is in the
    /// free list of order `k`.
    spec fn split_step(&self, old: &Data, k: int, j: int) -> bool {
        &&& self.same_scalars(old)
        &&& self.free_list_head@.len() == old.free_list_head@.len()
        &&& forall|i: int| 0 <= i < old.free_list_head@.len() && i != k - MIN_ORDER
            ==> #[trigger] self.free_list_head@[i] == old.free_list_head@[i]
        &&& self.ring(k) == seq![old.addr(k, 2 * j + 1) as u64]
        &&& self.meta_data.words() == old.meta_data.words()
        &&& forall|i: int| #[trigger] self.meta_data.bit(i) == if i == old.flat(k + 1, j) { true } else { old.meta_data.bit(i) }
        &&& self.status@ == old.status@.insert((k + 1, j), Status::Split).insert((k, 2 * j), Status::Free).insert(
            (k, 2 * j + 1),
            Status::Free,
        )
    }

    proof fn lemma_split(old: &Data, new: &Data, k: int, j: int)
        requires
            old.wf_but(k + 1, j),
            MIN_ORDER <= k,
            old.ring(k).len() == 0,
            new.split_step(old, k, j),
        ensures
            new.wf_but(k, 2 * j),
    {
        let r = old.root_order as int;
        old.lemma_nlevel(k);
        old.lemma_down(k + 1, j);
        lemma_blk(k);
        assert(old.in_range(k + 1, j));
        assert((j + 1) * blk(k + 1) == (2 * j + 2) * blk(k)) by (nonlinear_arith)
            requires blk(k + 1) == 2 * blk(k);
        assert((2 * j + 1) * blk(k) <= (2 * j + 2) * blk(k)) by (nonlinear_arith)
            requires blk(k) > 0;
        assert(new.in_range(k, 2 * j) && new.in_range(k, 2 * j + 1));
        // bits
        assert forall|k2: int, j2: int| #![trigger new.st(k2, j2)] new.valid(k2, j2) implies
            (new.meta_data.bit(new.flat(k2, j2)) <==> (new.st(k2, j2) is Alloc || new.st(k2, j2) is Split)) by {
            assert(new.flat(k2, j2) == old.flat(k2, j2));
            assert(old.valid(k2, j2));
            assert(old.meta_data.bit(old.flat(k2, j2)) <==> (old.st(k2, j2) is Alloc || old.st(k2, j2) is Split));
            if new.flat(k2, j2) == old.flat(k + 1, j) {
                old.lemma_flat_inj(k2, j2, k + 1, j);
            } else {
                assert(new.meta_data.bit(new.flat(k2, j2)) == old.meta_data.bit(old.flat(k2, j2)));
                if (k2, j2) == (k, 2 * j) || (k2, j2) == (k, 2 * j + 1) {
                    assert(old.st(k2, j2) is Inside);
                } else {
                    assert(new.st(k2, j2) == old.st(k2, j2));
                }
            }
        }
        assert forall|k2: int, j2: int| #[trigger] new.in_range(k2, j2) implies new.flat(k2, j2) < 64 * new.meta_data.words() by {
            assert(old.in_range(k2, j2));
        }
        assert(new.wf_bits());
        // tree
        assert forall|k2: int, j2: int| #[trigger] new.split_at(k2, j2) by {
            assert(old.split_at(k2, j2));
        }
        assert forall|k2: int, j2: int| #[trigger] new.down_at(k2, j2) by {
            assert(old.down_at(k2, j2));
            if k2 == k && (j2 == 2 * j || j2 == 2 * j + 1) && k > MIN_ORDER {
                assert(old.down_at(k, j2));
            }
        }
        assert(new.tree_range()) by {
            assert forall|k2: int, j2: int| #![trigger new.st(k2, j2)] new.valid(k2, j2)
                && (new.st(k2, j2) is Free || new.st(k2, j2) is Alloc || new.st(k2, j2) is Split)
                implies new.in_range(k2, j2) by {
                if (k2, j2) == (k, 2 * j) || (k2, j2) == (k, 2 * j + 1) {
                } else if (k2, j2) == (k + 1, j) {
                    assert(old.in_range(k + 1, j));
                } else {
                    assert(new.st(k2, j2) == old.st(k2, j2));
                    assert(old.in_range(k2, j2));
                }
            }
            assert forall|k2: int, j2: int| #![trigger new.st(k2, j2)] new.valid(k2, j2) && new.st(k2, j2) is Absent
                implies !new.in_range(k2, j2) by {
                if (k2, j2) != (k, 2 * j) && (k2, j2) != (k, 2 * j + 1) && (k2, j2) != (k + 1, j) {
                    assert(new.st(k2, j2) == old.st(k2, j2));
                    assert(!old.in_range(k2, j2));
                }
            }
        }
        // rings
        let right = old.addr(k, 2 * j + 1);
        assert((right - old.base) == (2 * j + 1) * blk(k));
        vstd::arithmetic::div_mod::lemma_mod_multiples_basic(2 * j + 1, blk(k));
        vstd::arithmetic::div_mod::lemma_div_by_multiple(2 * j + 1, blk(k));
        assert(new.free_at(k, right));
        assert forall|k2: int| #![trigger new.ring(k2)] MIN_ORDER <= k2 <= MAX_ORDER implies {
            &&& new.ring(k2).no_duplicates()
            &&& forall|x: int| 0 <= x < new.ring(k2).len() ==> #[trigger] new.free_at(k2, new.ring(k2)[x] as int)
            &&& forall|j2: int| new.valid(k2, j2) && #[trigger] new.st(k2, j2) is Free && (k2, j2) != (k, 2 * j)
                ==> new.ring(k2).contains(new.addr(k2, j2) as u64)
        } by {
            if k2 != k {
                assert(new.free_list_head@[k2 - MIN_ORDER] == old.free_list_head@[k2 - MIN_ORDER]);
                assert(new.ring(k2) == old.ring(k2));
                assert(old.ring(k2) == old.ring(k2));
                assert forall|x: int| 0 <= x < new.ring(k2).len() implies #[trigger] new.free_at(k2, new.ring(k2)[x] as int) by {
                    let a = new.ring(k2)[x] as int;
                    assert(old.free_at(k2, a));
                    if k2 == k + 1 && (a - old.base) / blk(k2) == j {
                        old.lemma_free_at_addr(k2, a);
                        assert(a == old.addr(k + 1, j));
                        assert(old.ring(k2).contains(a as u64));
                    }
                }
                assert forall|j2: int| new.valid(k2, j2) && #[trigger] new.st(k2, j2) is Free && (k2, j2) != (k, 2 * j)
                    implies new.ring(k2).contains(new.addr(k2, j2) as u64) by {
                    assert((k2, j2) != (k + 1, j));
                    assert(new.st(k2, j2) == old.st(k2, j2));
                    assert(old.st(k2, j2) is Free);
                    assert(old.ring(k2).contains(old.addr(k2, j2) as u64));
                }
            } else {
                assert(new.ring(k2).no_duplicates());
                assert forall|j2: int| new.valid(k2, j2) && #[trigger] new.st(k2, j2) is Free && (k2, j2) != (k, 2 * j)
                    implies new.ring(k2).contains(new.addr(k2, j2) as u64) by {
                    assert(old.st(k2, j2) == old.st(k2, j2));
                    if j2 != 2 * j + 1 {
                        assert(old.st(k2, j2) is Free);
                        assert(old.ring(k2).contains(old.addr(k2, j2) as u64));
                    }
                    assert(new.ring(k2)[0] == new.addr(k2, j2) as u64);
                }
            }
        }
        // accounting
        assert forall|x: int| 0 <= x < new.live@.len() implies {
            let (k2, j2) = #[trigger] new.live@[x];
            new.valid(k2, j2) && new.st(k2, j2) is Alloc
        } by {
            let (k2, j2) = new.live@[x];
            assert(old.st(k2, j2) is Alloc);
        }
        assert forall|k2: int, j2: int| #![trigger new.st(k2, j2)] new.valid(k2, j2) && new.st(k2, j2) is Alloc
            implies new.live@.contains((k2, j2)) by {
            if (k2, j2) != (k, 2 * j) && (k2, j2) != (k, 2 * j + 1) && (k2, j2) != (k + 1, j) {
                assert(new.st(k2, j2) == old.st(k2, j2));
                assert(old.st(k2, j2) is Alloc);
            }
        }
        assert((2 * j + 1) * blk(k) == 2 * j * blk(k) + blk(k)) by (nonlinear_arith);
        assert(new.addr(k, 2 * j) != right);
        assert(!new.ring(k).contains(new.addr(k, 2 * j) as u64));
    }
}

impl Data {
    /// `self` is `old` after node `(k, j)` was handed out.
    spec fn alloc_step(&self, old: &Data, k: int, j: int) -> bool {
        &&& self.free_list_head == old.free_list_head
        &&& self.max_order == old.max_order
        &&& self.root_order == old.root_order
        &&& self.base == old.base
        &&& self.size_data == old.size_data
        &&& self.size_total == old.size_total
        &&& self.size_left == old.size_left - blk(k)
        &&& self.live@ == old.live@.push((k, j))
        &&& self.meta_data.words() == old.meta_data.words()
        &&& forall|i: int| #[trigger] self.meta_data.bit(i) == if i == old.flat(k, j) { true } else { old.meta_data.bit(i) }
        &&& self.status@ == old.status@.insert((k, j), Status::Alloc)
    }

    proof fn lemma_alloc_step(old: &Data, new: &Data, k: int, j: int)
        requires
            old.wf_but(k, j),
            new.alloc_step(old, k, j),
        ensures
            new.wf(),
    {
        old.lemma_nlevel(k);
        assert(old.in_range(k, j));
        assert forall|k2: int, j2: int| #[trigger] new.in_range(k2, j2) implies new.flat(k2, j2) < 64 * new.meta_data.words() by {
            assert(old.in_range(k2, j2));
        }
        assert forall|k2: int, j2: int| #![trigger new.st(k2, j2)] new.valid(k2, j2) implies
            (new.meta_data.bit(new.flat(k2, j2)) <==> (new.st(k2, j2) is Alloc || new.st(k2, j2) is Split)) by {
            assert(old.valid(k2, j2));
            assert(old.meta_data.bit(old.flat(k2, j2)) <==> (old.st(k2, j2) is Alloc || old.st(k2, j2) is Split));
            if new.flat(k2, j2) == old.flat(k, j) {
                old.lemma_flat_inj(k2, j2, k, j);
            }
        }
        assert forall|k2: int, j2: int| #[trigger] new.split_at(k2, j2) by {
            assert(old.split_at(k2, j2));
        }
        assert forall|k2: int, j2: int| #[trigger] new.down_at(k2, j2) by {
            assert(old.down_at(k2, j2));
        }
        assert(new.tree_range()) by {
            assert forall|k2: int, j2: int| #![trigger new.st(k2, j2)] new.valid(k2, j2)
                && (new.st(k2, j2) is Free || new.st(k2, j2) is Alloc || new.st(k2, j2) is Split)
                implies new.in_range(k2, j2) by {
                if (k2, j2) != (k, j) {
                    assert(new.st(k2, j2) == old.st(k2, j2));
                    assert(old.in_range(k2, j2));
                }
            }
            assert forall|k2: int, j2: int| #![trigger new.st(k2, j2)] new.valid(k2, j2) && new.st(k2, j2) is Absent
                implies !new.in_range(k2, j2) by {
                assert(new.st(k2, j2) == old.st(k2, j2));
                assert(!old.in_range(k2, j2));
            }
        }
        assert forall|k2: int| #![trigger new.ring(k2)] MIN_ORDER <= k2 <= MAX_ORDER implies {
            &&& new.ring(k2).no_duplicates()
            &&& forall|x: int| 0 <= x < new.ring(k2).len() ==> #[trigger] new.free_at(k2, new.ring(k2)[x] as int)
            &&& forall|j2: int| new.valid(k2, j2) && #[trigger] new.st(k2, j2) is Free && (k2, j2) != (-1int, -1int)
                ==> new.ring(k2).contains(new.addr(k2, j2) as u64)
        } by {
            assert(new.ring(k2) == old.ring(k2));
            assert forall|x: int| 0 <= x < new.ring(k2).len() implies #[trigger] new.free_at(k2, new.ring(k2)[x] as int) by {
                let a = new.ring(k2)[x] as int;
                assert(old.free_at(k2, a));
                if k2 == k && (a - old.base) / blk(k2) == j {
                    old.lemma_free_at_addr(k2, a);
                    assert(old.ring(k2).contains(a as u64));
                }
            }
            assert forall|j2: int| new.valid(k2, j2) && #[trigger] new.st(k2, j2) is Free
                implies new.ring(k2).contains(new.addr(k2, j2) as u64) by {
                assert(new.st(k2, j2) == old.st(k2, j2));
                assert(old.st(k2, j2) is Free);
            }
        }
        // accounting
        assert(!old.live@.contains((k, j)));
        assert forall|x: int| 0 <= x < new.live@.len() implies {
            let (k2, j2) = #[trigger] new.live@[x];
            new.valid(k2, j2) && new.st(k2, j2) is Alloc
        } by {
            if x < old.live@.len() {
                let (k2, j2) = old.live@[x];
                assert(old.st(k2, j2) is Alloc);
            }
        }
        assert forall|k2: int, j2: int| #![trigger new.st(k2, j2)] new.valid(k2, j2) && new.st(k2, j2) is Alloc
            implies new.live@.contains((k2, j2)) by {
            if (k2, j2) != (k, j) {
                assert(new.st(k2, j2) == old.st(k2, j2));
                assert(old.live@.contains((k2, j2)));
                let x = old.live@.index_of((k2, j2));
                assert(new.live@[x] == (k2, j2));
            } else {
                assert(new.live@[old.live@.len() as int] == (k, j));
            }
        }
        assert(new.live@.drop_last() =~= old.live@);
        assert(new.live@.no_duplicates());
    }

    /// Index in the bitset of the node of order `order` whose block starts
    /// at `addr`.
    fn index(&self, addr: u64, order: u64) -> (i: u64)
        requires
            self.wf_shape(),
            MIN_ORDER <= order,
            self.base <= addr,
            self.valid(order as int, (addr - self.base) / blk(order as int)),
        ensures
            i == self.flat(order as int, (addr - self.base) / blk(order as int)),
    {
        proof {
            lemma_blk_mono((self.root_order - order) as int, 44);
            assert(blk(44) == 0x1000_0000_0000) by { vstd::arithmetic::power2::lemma2_to64_rest(); }
        }
        let p = pow2_u64(self.root_order - order);
        let b = pow2_u64(order);
        p - 1 + (addr - self.base) / b
    }

    /// Splits the free block of order `order + 1` at `ptr` into its halves;
    /// the right half becomes the only member of the free list of order
    /// `order`, which was empty.
    fn split(&mut self, ptr: u64, order: u64)
        requires
            MIN_ORDER <= order,
            ptr >= old(self).base,
            (ptr - old(self).base) % blk(order + 1) == 0,
            old(self).wf_but(order + 1, (ptr - old(self).base) / blk(order + 1)),
            old(self).ring(order as int).len() == 0,
        ensures
            final(self).wf_but(order as int, (ptr - old(self).base) / blk(order as int)),
            (ptr - old(self).base) % blk(order as int) == 0,
            final(self).same_scalars(old(self)),
            forall|k: int| MIN_ORDER <= k <= MAX_ORDER && k != order ==> #[trigger] final(self).ring(k) == old(self).ring(k),
            final(self).ring(order as int) == seq![(ptr + blk(order as int)) as u64],
    {
        let ghost pre = *self;
        let ghost k = order as int;
        let ghost j = (ptr - self.base) / blk(k + 1);
        proof {
            lemma_blk(k);
            lemma_fundamental_div(ptr - self.base, blk(k + 1));
            assert(self.in_range(k + 1, j));
            assert(ptr - self.base == j * blk(k + 1)) by (nonlinear_arith)
                requires ptr - self.base == blk(k + 1) * j + 0;
            assert(ptr - self.base == (2 * j) * blk(k)) by (nonlinear_arith)
                requires ptr - self.base == j * blk(k + 1), blk(k + 1) == 2 * blk(k);
            assert((2 * j) * blk(k) + blk(k) <= (j + 1) * blk(k + 1)) by (nonlinear_arith)
                requires blk(k + 1) == 2 * blk(k);
            vstd::arithmetic::div_mod::lemma_mod_multiples_basic(2 * j, blk(k));
            vstd::arithmetic::div_mod::lemma_div_by_multiple(2 * j, blk(k));
        }
        let i = self.index(ptr, order + 1);
        self.meta_data.set(i, true);
        let right = ptr + pow2_u64(order);
        let mut v: Vec<u64> = Vec::new();
        v.push(right);
        self.free_list_head.set((order - MIN_ORDER) as usize, v);
        self.status = Ghost(
            self.status@.insert((k + 1, j), Status::Split).insert((k, 2 * j), Status::Free).insert(
                (k, 2 * j + 1),
                Status::Free,
            ),
        );
        proof {
            assert((2 * j + 1) * blk(k) == (2 * j) * blk(k) + blk(k)) by (nonlinear_arith);
            assert(right == pre.addr(k, 2 * j + 1));
            assert(self.ring(k) =~= seq![pre.addr(k, 2 * j + 1) as u64]);
            assert forall|i2: int| 0 <= i2 < pre.free_list_head@.len() && i2 != k - MIN_ORDER
                implies #[trigger] self.free_list_head@[i2] == pre.free_list_head@[i2] by {}
            Self::lemma_split(&pre, self, k, j);
            assert forall|k2: int| MIN_ORDER <= k2 <= MAX_ORDER && k2 != order implies #[trigger] self.ring(k2) == pre.ring(k2) by {
                assert(self.free_list_head@[k2 - MIN_ORDER] == pre.free_list_head@[k2 - MIN_ORDER]);
            }
        }
    }
}

/// `size` is the size of a block: a power of two from `MIN_SIZE` to `MAX_SIZE`.
pub open spec fn is_block_size(size: int) -> bool {
    exists|e: nat| MIN_ORDER <= e <= MAX_ORDER && pow2(e) == size
}

/// The order of a block of `size` bytes.
pub open spec fn order_of(size: int) -> int {
    (choose|e: nat| MIN_ORDER <= e <= MAX_ORDER && pow2(e) == size) as int
}

proof fn lemma_order_of(size: int, y: nat)
    requires
        is_block_size(size),
        is_log2(size, y),
    ensures
        order_of(size) == y,
        blk(y as int) == size,
        MIN_ORDER <= y <= MAX_ORDER,
{
    let e = order_of(size);
    lemma_pow2_unfold(e as nat + 1);
    lemma_pow2_pos(e as nat);
    assert(is_log2(size, e as nat));
    lemma_log2_unique(size, e as nat, y);
}

impl Data {
    /// The least order from `k` on whose free list is not empty; past
    /// `max_order` if there is none.
    /// Where the free block at `a` of order `k` ends up: while its buddy is
    /// in the free list of its order, the two become one block of the next
    /// order.  Gives the address and the order.
    spec fn merged(&self, a: int, k: int) -> (int, int)
        decreases MAX_ORDER - k,
    {
        if MIN_ORDER <= k < MAX_ORDER && self.ring(k).contains(buddy_addr(self.base as int, a, blk(k)) as u64) {
            self.merged(block_start(self.base as int, a, blk(k + 1)), k + 1)
        } else {
            (a, k)
        }
    }

    spec fn first_free(&self, k: int) -> int
        decreases MAX_ORDER + 1 - k,
    {
        if k > self.max_order || k > MAX_ORDER || self.ring(k).len() > 0 {
            k
        } else {
            self.first_free(k + 1)
        }
    }

    /// Taking a free address out of its list leaves its node as the one
    /// free node missing from the lists.
    proof fn lemma_take_free(old: &Data, new: &Data, k: int, a: u64)
        requires
            old.wf(),
            MIN_ORDER <= k <= MAX_ORDER,
            old.ring(k).contains(a),
            new.same_but_ring(old, k),
            new.ring(k).no_duplicates(),
            forall|x: u64| #[trigger] new.ring(k).contains(x) <==> old.ring(k).contains(x) && x != a,
        ensures
            a >= old.base,
            (a - old.base) % blk(k) == 0,
            a == old.addr(k, (a - old.base) / blk(k)),
            new.wf_but(k, (a - old.base) / blk(k)),
    {
        let x0 = old.ring(k).index_of(a);
        assert(old.ring(k) == old.ring(k));
        assert(old.free_at(k, old.ring(k)[x0] as int));
        old.lemma_free_at_addr(k, a as int);
        let j0 = (a - old.base) / blk(k);
        lemma_pow2_pos(k as nat);
        assert forall|k2: int| #![trigger new.ring(k2)] MIN_ORDER <= k2 <= MAX_ORDER implies {
            &&& new.ring(k2).no_duplicates()
            &&& forall|x: int| 0 <= x < new.ring(k2).len() ==> #[trigger] new.free_at(k2, new.ring(k2)[x] as int)
            &&& forall|j2: int| new.valid(k2, j2) && #[trigger] new.st(k2, j2) is Free && (k2, j2) != (k, j0)
                ==> new.ring(k2).contains(new.addr(k2, j2) as u64)
        } by {
            assert(old.ring(k2) == old.ring(k2));
            if k2 != k {
                assert(new.free_list_head@[k2 - MIN_ORDER] == old.free_list_head@[k2 - MIN_ORDER]);
                assert(new.ring(k2) == old.ring(k2));
                assert forall|x: int| 0 <= x < new.ring(k2).len() implies #[trigger] new.free_at(k2, new.ring(k2)[x] as int) by {
                    assert(old.free_at(k2, old.ring(k2)[x] as int));
                }
                assert forall|j2: int| new.valid(k2, j2) && #[trigger] new.st(k2, j2) is Free && (k2, j2) != (k, j0)
                    implies new.ring(k2).contains(new.addr(k2, j2) as u64) by {
                    assert(old.st(k2, j2) is Free);
                }
            } else {
                assert forall|x: int| 0 <= x < new.ring(k2).len() implies #[trigger] new.free_at(k2, new.ring(k2)[x] as int) by {
                    let v = new.ring(k2)[x];
                    assert(new.ring(k2).contains(v));
                    let y = old.ring(k2).index_of(v);
                    assert(old.free_at(k2, old.ring(k2)[y] as int));
                }
                assert forall|j2: int| new.valid(k2, j2) && #[trigger] new.st(k2, j2) is Free && (k2, j2) != (k, j0)
                    implies new.ring(k2).contains(new.addr(k2, j2) as u64) by {
                    assert(old.st(k2, j2) is Free);
                    assert(old.ring(k2).contains(old.addr(k2, j2) as u64));
                    old.lemma_addr_fits(k2, j2);
                    if old.addr(k2, j2) == a {
                        assert(j2 * blk(k) == j0 * blk(k));
                        assert(j2 == j0) by (nonlinear_arith) requires j2 * blk(k) == j0 * blk(k), blk(k) > 0;
                    }
                }
            }
        }
        Self::lemma_same_core(old, new);
        assert(new.valid(k, j0));
        assert(new.st(k, j0) is Free);
        assert(!new.ring(k).contains(new.addr(k, j0) as u64));
    }
    /// Hands out a block of `size` bytes: the first block of the least
    /// order from that of `size` on that has free blocks, split down to
    /// `size`; 0 when no order has free blocks.
    fn alloc_mut(&mut self, size: u64) -> (r: u64)
        requires
            old(self).wf(),
            is_block_size(size as int),
        ensures
            final(self).wf(),
            r == 0 <==> old(self).first_free(order_of(size as int)) > old(self).max_order,
            r == 0 ==> *final(self) == *old(self),
            r != 0 ==> {
                &&& r == old(self).ring(old(self).first_free(order_of(size as int)))[0]
                &&& final(self).live@ == old(self).live@.push((order_of(size as int), (r - old(self).base) / size as int))
                &&& final(self).size_left == old(self).size_left - size
                &&& r >= old(self).base
                &&& (r - old(self).base) % (size as int) == 0
                &&& ({
                    let ls = order_of(size as int);
                    let kf = old(self).first_free(ls);
                    &&& forall|k2: int| #![trigger final(self).ring(k2)] MIN_ORDER <= k2 <= MAX_ORDER ==> {
                        &&& ls <= k2 < kf ==> final(self).ring(k2) == seq![(r + blk(k2)) as u64]
                        &&& (k2 < ls || k2 > kf) ==> final(self).ring(k2) == old(self).ring(k2)
                    }
                    &&& forall|x: u64| #[trigger] final(self).ring(kf).contains(x) <==> old(self).ring(kf).contains(x) && x != r
                })
            },
            final(self).max_order == old(self).max_order,
            final(self).root_order == old(self).root_order,
            final(self).base == old(self).base,
            final(self).size_data == old(self).size_data,
            final(self).size_total == old(self).size_total,
    {
        let ghost pre = *self;
        let log2size = log2_usize(size);
        proof {
            let e = choose|e: nat| MIN_ORDER <= e <= MAX_ORDER && pow2(e) == size;
            lemma_pow2_pos(e);
            lemma_order_of(size as int, log2size as nat);
        }
        let ghost ls = log2size as int;
        let mut i = log2size;
        while i <= self.max_order && self.free_list_head[(i - MIN_ORDER) as usize].len() == 0
            invariant
                self.wf(),
                *self == pre,
                ls <= i <= MAX_ORDER + 1,
                i == ls || i <= self.max_order + 1,
                MIN_ORDER <= ls <= MAX_ORDER,
                self.first_free(ls) == self.first_free(i as int),
                forall|o: int| ls <= o < i ==> #[trigger] self.ring(o).len() == 0,
            decreases MAX_ORDER + 1 - i,
        {
            i += 1;
        }
        if i > self.max_order {
            return 0;
        }
        let ghost k0 = i as int;
        assert(self.ring(k0).len() > 0);
        assert(self.first_free(ls) == k0);
        let ptr = self.free_list_head[(i - MIN_ORDER) as usize][0];
        proof {
            assert(self.ring(k0)[0] == ptr);
            assert(self.ring(k0).contains(ptr));
            assert(self.free_at(k0, ptr as int));
            self.lemma_free_fits(k0, (ptr - self.base) / blk(k0));
            lemma_blk_mono(ls, k0);
            assert(self.size_left >= size);
        }
        self.remove_node(i, ptr);
        proof {
            Self::lemma_take_free(&pre, self, k0, ptr);
            assert forall|o: int| ls <= o < i implies #[trigger] self.ring(o).len() == 0 by {
                assert(self.free_list_head@[o - MIN_ORDER] == pre.free_list_head@[o - MIN_ORDER]);
                assert(pre.ring(o).len() == 0);
            }
        }
        proof {
            assert forall|k2: int| #![trigger self.ring(k2)] MIN_ORDER <= k2 <= MAX_ORDER && k2 != k0 implies self.ring(k2) == pre.ring(k2) by {
                assert(self.free_list_head@[k2 - MIN_ORDER] == pre.free_list_head@[k2 - MIN_ORDER]);
            }
        }
        while i != log2size
            invariant
                ls <= i <= k0,
                MIN_ORDER <= ls <= MAX_ORDER,
                log2size == ls,
                k0 <= MAX_ORDER,
                forall|x: u64| #[trigger] self.ring(k0).contains(x) <==> pre.ring(k0).contains(x) && x != ptr,
                forall|k2: int| #![trigger self.ring(k2)] MIN_ORDER <= k2 <= MAX_ORDER ==> {
                    &&& i <= k2 < k0 ==> self.ring(k2) == seq![(ptr + blk(k2)) as u64]
                    &&& (k2 < i || k2 > k0) ==> self.ring(k2) == pre.ring(k2)
                },
                ptr >= self.base,
                (ptr - self.base) % blk(i as int) == 0,
                self.wf_but(i as int, (ptr - self.base) / blk(i as int)),
                forall|o: int| ls <= o < i ==> #[trigger] self.ring(o).len() == 0,
                self.same_scalars(&pre),
            decreases i,
        {
            i -= 1;
            let ghost bsplit = *self;
            self.split(ptr, i);
            proof {
                assert(self.ring(k0) == bsplit.ring(k0));
            }
        }
        let ghost j = (ptr - self.base) / blk(ls);
        let ghost mid = *self;
        proof {
            assert(self.in_range(ls, j));
        }
        let idx = self.index(ptr, i);
        self.meta_data.set(idx, true);
        self.status = Ghost(self.status@.insert((ls, j), Status::Alloc));
        self.live = Ghost(self.live@.push((ls, j)));
        self.size_left -= size;
        proof {
            Self::lemma_alloc_step(&mid, self, ls, j);
            assert(self.free_list_head == mid.free_list_head);
            assert(forall|k2: int| #![trigger self.ring(k2)] self.ring(k2) == mid.ring(k2));
            assert(pre.first_free(ls) == k0);
        }
        ptr
    }
}

/// Dropping an element from a list of nodes takes its size off their sum.
proof fn lemma_sum_remove(s: Seq<(int, int)>, i: int)
    requires
        0 <= i < s.len(),
    ensures
        sum_sizes(s.remove(i)) == sum_sizes(s) - blk(s[i].0),
    decreases s.len(),
{
    if i == s.len() - 1 {
        assert(s.remove(i) =~= s.drop_last());
    } else {
        lemma_sum_remove(s.drop_last(), i);
        assert(s.remove(i).drop_last() =~= s.drop_last().remove(i));
        assert(s.remove(i).last() == s.last());
    }
}

/// First byte offset of the block of node `x`.
spec fn lo_of(x: (int, int)) -> int {
    x.1 * blk(x.0)
}

/// Byte offset just past the block of node `x`.
spec fn hi_of(x: (int, int)) -> int {
    (x.1 + 1) * blk(x.0)
}

/// A node whose block starts last.
proof fn lemma_last_start(s: Seq<(int, int)>) -> (m: int)
    requires
        s.len() > 0,
    ensures
        0 <= m < s.len(),
        forall|i: int| 0 <= i < s.len() ==> #[trigger] lo_of(s[i]) <= lo_of(s[m]),
    decreases s.len(),
{
    if s.len() == 1 {
        0
    } else {
        let m0 = lemma_last_start(s.drop_last());
        assert forall|i: int| 0 <= i < s.len() - 1 implies #[trigger] lo_of(s[i]) <= lo_of(s[m0]) by {
            assert(s[i] == s.drop_last()[i]);
        }
        if lo_of(s.last()) >= lo_of(s[m0]) {
            (s.len() - 1) as int
        } else {
            m0
        }
    }
}

/// Blocks that do not overlap and lie in the first `n` bytes add up to at
/// most `n` bytes.
proof fn lemma_pack(s: Seq<(int, int)>, n: int)
    requires
        n >= 0,
        forall|i: int| 0 <= i < s.len() ==> {
            &&& 0 <= #[trigger] lo_of(s[i])
            &&& hi_of(s[i]) <= n
            &&& hi_of(s[i]) == lo_of(s[i]) + blk(s[i].0)
            &&& blk(s[i].0) > 0
        },
        forall|a: int, b: int| #![trigger s[a], s[b]] 0 <= a < s.len() && 0 <= b < s.len() && a != b
            ==> hi_of(s[a]) <= lo_of(s[b]) || hi_of(s[b]) <= lo_of(s[a]),
    ensures
        sum_sizes(s) <= n,
    decreases s.len(),
{
    if s.len() > 0 {
        let m = lemma_last_start(s);
        let t = s.remove(m);
        let top = lo_of(s[m]);
        assert forall|i: int| 0 <= i < t.len() implies {
            &&& 0 <= #[trigger] lo_of(t[i])
            &&& hi_of(t[i]) <= top
            &&& hi_of(t[i]) == lo_of(t[i]) + blk(t[i].0)
            &&& blk(t[i].0) > 0
        } by {
            let a = if i < m { i } else { i + 1 };
            assert(t[i] == s[a]);
            assert(lo_of(s[a]) <= lo_of(s[m]));
            assert(hi_of(s[a]) <= lo_of(s[m]) || hi_of(s[m]) <= lo_of(s[a]));
        }
        assert forall|a: int, b: int| #![trigger t[a], t[b]] 0 <= a < t.len() && 0 <= b < t.len() && a != b
            implies hi_of(t[a]) <= lo_of(t[b]) || hi_of(t[b]) <= lo_of(t[a]) by {
            let a2 = if a < m { a } else { a + 1 };
            let b2 = if b < m { b } else { b + 1 };
            assert(t[a] == s[a2]);
            assert(t[b] == s[b2]);
        }
        lemma_pack(t, top);
        lemma_sum_remove(s, m);
    }
}

impl Data {
    /// `self` is `old` after the allocated node `(k, j)` was given back and
    /// marked free, before it is put into a free list.
    spec fn release_step(&self, old: &Data, k: int, j: int) -> bool {
        &&& self.free_list_head == old.free_list_head
        &&& self.max_order == old.max_order
        &&& self.root_order == old.root_order
        &&& self.base == old.base
        &&& self.size_data == old.size_data
        &&& self.size_total == old.size_total
        &&& self.size_left == old.size_left + blk(k)
        &&& self.live@ == old.live@.remove(old.live@.index_of((k, j)))
        &&& self.meta_data.words() == old.meta_data.words()
        &&& forall|i: int| #[trigger] self.meta_data.bit(i) == if i == old.flat(k, j) { false } else { old.meta_data.bit(i) }
        &&& self.status@ == old.status@.insert((k, j), Status::Free)
    }

    proof fn lemma_release_step(old: &Data, new: &Data, k: int, j: int)
        requires
            old.wf(),
            old.valid(k, j),
            old.st(k, j) is Alloc,
            new.release_step(old, k, j),
        ensures
            new.wf_but(k, j),
    {
        old.lemma_nlevel(k);
        assert(old.in_range(k, j));
        assert forall|k2: int, j2: int| #[trigger] new.in_range(k2, j2) implies new.flat(k2, j2) < 64 * new.meta_data.words() by {
            assert(old.in_range(k2, j2));
        }
        assert forall|k2: int, j2: int| #![trigger new.st(k2, j2)] new.valid(k2, j2) implies
            (new.meta_data.bit(new.flat(k2, j2)) <==> (new.st(k2, j2) is Alloc || new.st(k2, j2) is Split)) by {
            assert(old.valid(k2, j2));
            assert(old.meta_data.bit(old.flat(k2, j2)) <==> (old.st(k2, j2) is Alloc || old.st(k2, j2) is Split));
            if new.flat(k2, j2) == old.flat(k, j) {
                old.lemma_flat_inj(k2, j2, k, j);
            }
        }
        assert forall|k2: int, j2: int| #[trigger] new.split_at(k2, j2) by {
            assert(old.split_at(k2, j2));
        }
        assert forall|k2: int, j2: int| #[trigger] new.down_at(k2, j2) by {
            assert(old.down_at(k2, j2));
        }
        assert(new.tree_range()) by {
            assert forall|k2: int, j2: int| #![trigger new.st(k2, j2)] new.valid(k2, j2)
                && (new.st(k2, j2) is Free || new.st(k2, j2) is Alloc || new.st(k2, j2) is Split)
                implies new.in_range(k2, j2) by {
                if (k2, j2) != (k, j) {
                    assert(new.st(k2, j2) == old.st(k2, j2));
                    assert(old.in_range(k2, j2));
                }
            }
            assert forall|k2: int, j2: int| #![trigger new.st(k2, j2)] new.valid(k2, j2) && new.st(k2, j2) is Absent
                implies !new.in_range(k2, j2) by {
                assert(new.st(k2, j2) == old.st(k2, j2));
                assert(!old.in_range(k2, j2));
            }
        }
        assert forall|k2: int| #![trigger new.ring(k2)] MIN_ORDER <= k2 <= MAX_ORDER implies {
            &&& new.ring(k2).no_duplicates()
            &&& forall|x: int| 0 <= x < new.ring(k2).len() ==> #[trigger] new.free_at(k2, new.ring(k2)[x] as int)
            &&& forall|j2: int| new.valid(k2, j2) && #[trigger] new.st(k2, j2) is Free && (k2, j2) != (k, j)
                ==> new.ring(k2).contains(new.addr(k2, j2) as u64)
        } by {
            assert(new.ring(k2) == old.ring(k2));
            assert forall|x: int| 0 <= x < new.ring(k2).len() implies #[trigger] new.free_at(k2, new.ring(k2)[x] as int) by {
                let a = new.ring(k2)[x] as int;
                assert(old.free_at(k2, a));
            }
            assert forall|j2: int| new.valid(k2, j2) && #[trigger] new.st(k2, j2) is Free && (k2, j2) != (k, j)
                implies new.ring(k2).contains(new.addr(k2, j2) as u64) by {
                assert(new.st(k2, j2) == old.st(k2, j2));
                assert(old.st(k2, j2) is Free);
            }
        }
        // the node was not in its free list
        if old.ring(k).contains(old.addr(k, j) as u64) {
            let x = old.ring(k).index_of(old.addr(k, j) as u64);
            assert(old.ring(k) == old.ring(k));
            assert(old.free_at(k, old.ring(k)[x] as int));
            old.lemma_addr_fits(k, j);
            lemma_pow2_pos(k as nat);
            vstd::arithmetic::div_mod::lemma_div_by_multiple(j, blk(k));
            assert(false);
        }
        // accounting
        let xi = old.live@.index_of((k, j));
        assert(old.live@.contains((k, j)));
        lemma_sum_remove(old.live@, xi);
        assert forall|x: int| 0 <= x < new.live@.len() implies {
            let (k2, j2) = #[trigger] new.live@[x];
            new.valid(k2, j2) && new.st(k2, j2) is Alloc
        } by {
            let y = if x < xi { x } else { x + 1 };
            assert(new.live@[x] == old.live@[y]);
            let (k2, j2) = old.live@[y];
            assert(old.st(k2, j2) is Alloc);
            assert((k2, j2) != (k, j));
        }
        assert forall|k2: int, j2: int| #![trigger new.st(k2, j2)] new.valid(k2, j2) && new.st(k2, j2) is Alloc
            implies new.live@.contains((k2, j2)) by {
            assert(new.st(k2, j2) == old.st(k2, j2));
            assert(old.live@.contains((k2, j2)));
            let y = old.live@.index_of((k2, j2));
            assert(y != xi);
            let x = if y < xi { y } else { y - 1 };
            assert(new.live@[x] == (k2, j2));
        }
        assert forall|a: int, b: int| 0 <= a < b < new.live@.len() implies new.live@[a] != new.live@[b] by {
            let ya = if a < xi { a } else { a + 1 };
            let yb = if b < xi { b } else { b + 1 };
            assert(new.live@[a] == old.live@[ya]);
            assert(new.live@[b] == old.live@[yb]);
        }
    }

    /// `self` is `old` after the free node `(k, j)` was merged with its free
    /// buddy: the buddy left its list, both became inner and their parent
    /// became free.
    spec fn merge_step(&self, old: &Data, k: int, j: int) -> bool {
        let b = if j % 2 == 0 { j + 1 } else { j - 1 };
        &&& self.same_scalars(old)
        &&& self.free_list_head@.len() == old.free_list_head@.len()
        &&& forall|i: int| 0 <= i < old.free_list_head@.len() && i != k - MIN_ORDER
            ==> #[trigger] self.free_list_head@[i] == old.free_list_head@[i]
        &&& self.ring(k).no_duplicates()
        &&& forall|x: u64| #[trigger] self.ring(k).contains(x) <==> old.ring(k).contains(x) && x != old.addr(k, b)
        &&& self.meta_data.words() == old.meta_data.words()
        &&& forall|i: int| #[trigger] self.meta_data.bit(i) == if i == old.flat(k + 1, j / 2) { false } else { old.meta_data.bit(i) }
        &&& self.status@ == old.status@.insert((k, j), Status::Inside).insert((k, b), Status::Inside).insert(
            (k + 1, j / 2),
            Status::Free,
        )
    }

    proof fn lemma_merge(old: &Data, new: &Data, k: int, j: int)
        requires
            old.wf_but(k, j),
            k < old.root_order,
            old.st(k + 1, j / 2) is Split,
            old.st(k, if j % 2 == 0 { j + 1 } else { j - 1 }) is Free,
            new.merge_step(old, k, j),
        ensures
            new.wf_but(k + 1, j / 2),
    {
        let b = if j % 2 == 0 { j + 1 } else { j - 1 };
        let p = j / 2;
        old.lemma_nlevel(k);
        old.lemma_nlevel(k + 1);
        assert(old.valid(k + 1, p));
        assert(old.valid(k, b));
        assert(old.in_range(k + 1, p));
        assert(old.split_at(k + 1, p));
        assert(j == 2 * p || j == 2 * p + 1);
        assert(b == 2 * p || b == 2 * p + 1);
        assert forall|k2: int, j2: int| #[trigger] new.in_range(k2, j2) implies new.flat(k2, j2) < 64 * new.meta_data.words() by {
            assert(old.in_range(k2, j2));
        }
        assert forall|k2: int, j2: int| #![trigger new.st(k2, j2)] new.valid(k2, j2) implies
            (new.meta_data.bit(new.flat(k2, j2)) <==> (new.st(k2, j2) is Alloc || new.st(k2, j2) is Split)) by {
            assert(old.valid(k2, j2));
            assert(old.meta_data.bit(old.flat(k2, j2)) <==> (old.st(k2, j2) is Alloc || old.st(k2, j2) is Split));
            if new.flat(k2, j2) == old.flat(k + 1, p) {
                old.lemma_flat_inj(k2, j2, k + 1, p);
            } else if (k2, j2) == (k, j) || (k2, j2) == (k, b) {
            } else {
                assert(new.st(k2, j2) == old.st(k2, j2));
            }
        }
        assert forall|k2: int, j2: int| #[trigger] new.split_at(k2, j2) by {
            assert(old.split_at(k2, j2));
        }
        assert forall|k2: int, j2: int| #[trigger] new.down_at(k2, j2) by {
            assert(old.down_at(k2, j2));
            if (k2, j2) == (k, j) || (k2, j2) == (k, b) {
            } else if (k2, j2) == (k + 1, p) {
            } else if k2 == k + 2 && (j2 == p / 2) {
                assert(p == 2 * j2 || p == 2 * j2 + 1);
                assert(new.st(k2, j2) == old.st(k2, j2));
            } else {
                assert(new.st(k2, j2) == old.st(k2, j2));
            }
        }
        assert(new.tree_range()) by {
            assert forall|k2: int, j2: int| #![trigger new.st(k2, j2)] new.valid(k2, j2)
                && (new.st(k2, j2) is Free || new.st(k2, j2) is Alloc || new.st(k2, j2) is Split)
                implies new.in_range(k2, j2) by {
                if (k2, j2) != (k + 1, p) {
                    assert(new.st(k2, j2) == old.st(k2, j2));
                    assert(old.in_range(k2, j2));
                }
            }
            assert forall|k2: int, j2: int| #![trigger new.st(k2, j2)] new.valid(k2, j2) && new.st(k2, j2) is Absent
                implies !new.in_range(k2, j2) by {
                assert(new.st(k2, j2) == old.st(k2, j2));
                assert(!old.in_range(k2, j2));
            }
        }
        lemma_pow2_pos(k as nat);
        lemma_pow2_pos((k + 1) as nat);
        assert forall|k2: int| #![trigger new.ring(k2)] MIN_ORDER <= k2 <= MAX_ORDER implies {
            &&& new.ring(k2).no_duplicates()
            &&& forall|x: int| 0 <= x < new.ring(k2).len() ==> #[trigger] new.free_at(k2, new.ring(k2)[x] as int)
            &&& forall|j2: int| new.valid(k2, j2) && #[trigger] new.st(k2, j2) is Free && (k2, j2) != (k + 1, p)
                ==> new.ring(k2).contains(new.addr(k2, j2) as u64)
        } by {
            assert(old.ring(k2) == old.ring(k2));
            if k2 != k {
                assert(new.free_list_head@[k2 - MIN_ORDER] == old.free_list_head@[k2 - MIN_ORDER]);
                assert(new.ring(k2) == old.ring(k2));
                assert forall|x: int| 0 <= x < new.ring(k2).len() implies #[trigger] new.free_at(k2, new.ring(k2)[x] as int) by {
                    let a = new.ring(k2)[x] as int;
                    assert(old.free_at(k2, a));
                    if k2 == k + 1 && (a - old.base) / blk(k2) == p {
                        assert(old.st(k + 1, p) is Free);
                    }
                }
                assert forall|j2: int| new.valid(k2, j2) && #[trigger] new.st(k2, j2) is Free && (k2, j2) != (k + 1, p)
                    implies new.ring(k2).contains(new.addr(k2, j2) as u64) by {
                    assert(new.st(k2, j2) == old.st(k2, j2));
                    assert(old.st(k2, j2) is Free);
                }
            } else {
                assert forall|x: int| 0 <= x < new.ring(k2).len() implies #[trigger] new.free_at(k2, new.ring(k2)[x] as int) by {
                    let v = new.ring(k2)[x];
                    assert(new.ring(k2).contains(v));
                    let y = old.ring(k2).index_of(v);
                    assert(old.free_at(k2, old.ring(k2)[y] as int));
                    let jj = (v - old.base) / blk(k);
                    old.lemma_free_at_addr(k, v as int);
                    if jj == b {
                        assert(v == old.addr(k, b));
                    }
                    if jj == j {
                        assert(old.ring(k).contains(old.addr(k, j) as u64));
                    }
                }
                assert forall|j2: int| new.valid(k2, j2) && #[trigger] new.st(k2, j2) is Free && (k2, j2) != (k + 1, p)
                    implies new.ring(k2).contains(new.addr(k2, j2) as u64) by {
                    assert(new.st(k2, j2) == old.st(k2, j2));
                    assert(old.st(k2, j2) is Free);
                    assert(old.ring(k2).contains(old.addr(k2, j2) as u64));
                    old.lemma_addr_fits(k2, j2);
                    old.lemma_addr_fits(k, b);
                    if old.addr(k2, j2) == old.addr(k, b) {
                        assert(j2 * blk(k) == b * blk(k));
                        assert(j2 == b) by (nonlinear_arith) requires j2 * blk(k) == b * blk(k), blk(k) > 0;
                    }
                }
            }
        }
        // the parent was split, so its block was not in its free list
        if new.ring(k + 1).contains(new.addr(k + 1, p) as u64) {
            let x = old.ring(k + 1).index_of(old.addr(k + 1, p) as u64);
            assert(old.ring(k + 1) == old.ring(k + 1));
            assert(old.free_at(k + 1, old.ring(k + 1)[x] as int));
            old.lemma_addr_fits(k + 1, p);
            vstd::arithmetic::div_mod::lemma_div_by_multiple(p, blk(k + 1));
            assert(false);
        }
        // accounting
        assert forall|x: int| 0 <= x < new.live@.len() implies {
            let (k2, j2) = #[trigger] new.live@[x];
            new.valid(k2, j2) && new.st(k2, j2) is Alloc
        } by {
            let (k2, j2) = old.live@[x];
            assert(old.st(k2, j2) is Alloc);
        }
        assert forall|k2: int, j2: int| #![trigger new.st(k2, j2)] new.valid(k2, j2) && new.st(k2, j2) is Alloc
            implies new.live@.contains((k2, j2)) by {
            assert(new.st(k2, j2) == old.st(k2, j2));
            assert(old.st(k2, j2) is Alloc);
        }
    }

    /// `self` is `old` after the free node `(k, j)` went into its free list.
    proof fn lemma_put_free(old: &Data, new: &Data, k: int, j: int)
        requires
            old.wf_but(k, j),
            MIN_ORDER <= k <= MAX_ORDER,
            new.same_but_ring(old, k),
            new.ring(k).no_duplicates(),
            forall|x: u64| #[trigger] new.ring(k).contains(x) <==> old.ring(k).contains(x) || x == old.addr(k, j),
        ensures
            new.wf(),
    {
        Self::lemma_same_core(old, new);
        assert(old.in_range(k, j));
        old.lemma_addr_fits(k, j);
        lemma_pow2_pos(k as nat);
        assert forall|k2: int| #![trigger new.ring(k2)] MIN_ORDER <= k2 <= MAX_ORDER implies {
            &&& new.ring(k2).no_duplicates()
            &&& forall|x: int| 0 <= x < new.ring(k2).len() ==> #[trigger] new.free_at(k2, new.ring(k2)[x] as int)
            &&& forall|j2: int| new.valid(k2, j2) && #[trigger] new.st(k2, j2) is Free && (k2, j2) != (-1int, -1int)
                ==> new.ring(k2).contains(new.addr(k2, j2) as u64)
        } by {
            assert(old.ring(k2) == old.ring(k2));
            if k2 != k {
                assert(new.free_list_head@[k2 - MIN_ORDER] == old.free_list_head@[k2 - MIN_ORDER]);
                assert(new.ring(k2) == old.ring(k2));
                assert forall|x: int| 0 <= x < new.ring(k2).len() implies #[trigger] new.free_at(k2, new.ring(k2)[x] as int) by {
                    assert(old.free_at(k2, old.ring(k2)[x] as int));
                }
                assert forall|j2: int| new.valid(k2, j2) && #[trigger] new.st(k2, j2) is Free
                    implies new.ring(k2).contains(new.addr(k2, j2) as u64) by {
                    assert(old.st(k2, j2) is Free);
                }
            } else {
                assert forall|x: int| 0 <= x < new.ring(k2).len() implies #[trigger] new.free_at(k2, new.ring(k2)[x] as int) by {
                    let v = new.ring(k2)[x];
                    assert(new.ring(k2).contains(v));
                    if v as int == old.addr(k, j) {
                        assert((v - old.base) == j * blk(k));
                        vstd::arithmetic::div_mod::lemma_mod_multiples_basic(j, blk(k));
                        vstd::arithmetic::div_mod::lemma_div_by_multiple(j, blk(k));
                    } else {
                        let y = old.ring(k2).index_of(v);
                        assert(old.free_at(k2, old.ring(k2)[y] as int));
                    }
                }
                assert forall|j2: int| new.valid(k2, j2) && #[trigger] new.st(k2, j2) is Free
                    implies new.ring(k2).contains(new.addr(k2, j2) as u64) by {
                    assert(old.st(k2, j2) is Free);
                    if j2 != j {
                        assert(old.ring(k2).contains(old.addr(k2, j2) as u64));
                    }
                }
            }
        }
    }
}

/// Sums of node sizes are not negative.
proof fn lemma_sum_nonneg(s: Seq<(int, int)>)
    ensures
        sum_sizes(s) >= 0,
    decreases s.len(),
{
    if s.len() > 0 {
        lemma_sum_nonneg(s.drop_last());
        lemma_pow2_pos(s.last().0 as nat);
    }
}

impl Data {
    /// How the bitset indices of a node, its parent and its buddy relate.
    proof fn lemma_flat_family(&self, k: int, j: int)
        requires
            self.root_order <= MAX_ORDER,
            self.valid(k, j),
        ensures
            self.flat(k, j) == 0 <==> k == self.root_order,
            self.flat(k, j) >= 0,
            self.flat(k, j) < 0x1_0000_0000_0000,
            k < self.root_order ==> {
                &&& (self.flat(k, j) % 2 == 1 <==> j % 2 == 0)
                &&& (self.flat(k, j) - 1) / 2 == self.flat(k + 1, j / 2)
                &&& self.flat(k, j) % 2 == 1 ==> self.flat(k, j) + 1 == self.flat(k, j + 1)
                &&& self.flat(k, j) % 2 == 0 ==> self.flat(k, j) - 1 == self.flat(k, j - 1)
                &&& self.valid(k + 1, j / 2)
                &&& self.valid(k, if j % 2 == 0 { j + 1 } else { j - 1 })
            },
    {
        self.lemma_nlevel(k);
        lemma_blk_mono(self.root_order - k, 44);
        assert(blk(44) == 0x1000_0000_0000) by { vstd::arithmetic::power2::lemma2_to64_rest(); }
        if k < self.root_order {
            self.lemma_nlevel(k + 1);
        } else {
            assert(self.nlevel(k) == 1) by { lemma2_facts(); }
        }
    }

    /// Merges the free node of order `order` at `ptr`, whose index in the
    /// bitset is `i`, with its free buddy; gives the address of the merged
    /// block, which is in no free list.
    fn merge(&mut self, ptr: u64, order: u64, i: u64) -> (r: u64)
        requires
            MIN_ORDER <= order < old(self).root_order,
            ptr >= old(self).base,
            (ptr - old(self).base) % blk(order as int) == 0,
            old(self).wf_but(order as int, (ptr - old(self).base) / blk(order as int)),
            i == old(self).flat(order as int, (ptr - old(self).base) / blk(order as int)),
            !old(self).meta_data.bit(
                old(self).flat(
                    order as int,
                    if ((ptr - old(self).base) / blk(order as int)) % 2 == 0 {
                        (ptr - old(self).base) / blk(order as int) + 1
                    } else {
                        (ptr - old(self).base) / blk(order as int) - 1
                    },
                ),
            ),
            old(self).meta_data.bit(old(self).flat(order + 1, ((ptr - old(self).base) / blk(order as int)) / 2)),
        ensures
            r >= old(self).base,
            (r - old(self).base) % blk(order + 1) == 0,
            (r - old(self).base) / blk(order + 1) == ((ptr - old(self).base) / blk(order as int)) / 2,
            final(self).wf_but(order + 1, ((ptr - old(self).base) / blk(order as int)) / 2),
            final(self).same_scalars(old(self)),
            ({
                let j = (ptr - old(self).base) / blk(order as int);
                let bd = old(self).addr(order as int, if j % 2 == 0 { j + 1 } else { j - 1 }) as u64;
                &&& old(self).ring(order as int).contains(bd)
                &&& forall|x: u64| #[trigger] final(self).ring(order as int).contains(x)
                    <==> old(self).ring(order as int).contains(x) && x != bd
            }),
            forall|k2: int| #![trigger final(self).ring(k2)] MIN_ORDER <= k2 <= MAX_ORDER && k2 != order
                ==> final(self).ring(k2) == old(self).ring(k2),
    {
        let ghost pre = *self;
        let ghost k = order as int;
        let ghost j = (ptr - self.base) / blk(k);
        let ghost p = j / 2;
        let ghost b = if j % 2 == 0 { j + 1 } else { j - 1 };
        proof {
            self.lemma_flat_family(k, j);
            self.lemma_nlevel(k);
            assert(self.st(k + 1, p) is Alloc || self.st(k + 1, p) is Split);
            if self.st(k + 1, p) is Alloc {
                self.lemma_down(k + 1, p);
                assert(j == 2 * p || j == 2 * p + 1);
                assert(false);
            }
            assert(self.split_at(k + 1, p));
            assert(b == 2 * p || b == 2 * p + 1);
            assert(self.st(k, b) is Free);
            assert(self.ring(k).contains(self.addr(k, b) as u64));
            assert(self.in_range(k + 1, p));
            self.lemma_addr_fits(k, b);
            self.lemma_addr_fits(k + 1, p);
            lemma_blk(k);
            lemma_fundamental_div(ptr - self.base, blk(k));
            assert(ptr - self.base == j * blk(k)) by (nonlinear_arith)
                requires ptr - self.base == blk(k) * j + 0;
            assert((j + 1) * blk(k) == j * blk(k) + blk(k)) by (nonlinear_arith);
            assert((j - 1) * blk(k) == j * blk(k) - blk(k)) by (nonlinear_arith);
            assert(p * blk(k + 1) == (2 * p) * blk(k)) by (nonlinear_arith) requires blk(k + 1) == 2 * blk(k);
            vstd::arithmetic::div_mod::lemma_mod_multiples_basic(p, blk(k + 1));
            vstd::arithmetic::div_mod::lemma_div_by_multiple(p, blk(k + 1));
        }
        let half = pow2_u64(order);
        let p_idx = parent(i);
        if i % 2 == 1 {
            let buddy = ptr + half;
            assert(buddy == pre.addr(k, b));
            self.remove_node(order, buddy);
            self.meta_data.set(p_idx, false);
            self.status = Ghost(
                self.status@.insert((k, j), Status::Inside).insert((k, b), Status::Inside).insert((k + 1, p), Status::Free),
            );
            proof {
                assert forall|i2: int| 0 <= i2 < pre.free_list_head@.len() && i2 != k - MIN_ORDER
                    implies #[trigger] self.free_list_head@[i2] == pre.free_list_head@[i2] by {}
                Self::lemma_merge(&pre, self, k, j);
            }
            ptr
        } else {
            let buddy = ptr - half;
            assert(buddy == pre.addr(k, b));
            self.remove_node(order, buddy);
            self.meta_data.set(p_idx, false);
            self.status = Ghost(
                self.status@.insert((k, j), Status::Inside).insert((k, b), Status::Inside).insert((k + 1, p), Status::Free),
            );
            proof {
                assert forall|i2: int| 0 <= i2 < pre.free_list_head@.len() && i2 != k - MIN_ORDER
                    implies #[trigger] self.free_list_head@[i2] == pre.free_list_head@[i2] by {}
                Self::lemma_merge(&pre, self, k, j);
            }
            buddy
        }
    }

    /// While node `(k, j)` waits to be put into its free list, a buddy of it
    /// in the free list of order `k` makes the merge go on: the node is not
    /// the root, its buddy's bit is clear and its parent's bit is set.
    proof fn lemma_free_buddy(&self, k: int, j: int)
        requires
            self.wf_but(k, j),
            self.ring(k).contains(self.addr(k, if j % 2 == 0 { j + 1 } else { j - 1 }) as u64),
        ensures
            k < self.root_order,
            !self.meta_data.bit(self.flat(k, if j % 2 == 0 { j + 1 } else { j - 1 })),
            self.meta_data.bit(self.flat(k + 1, j / 2)),
    {
        let bb = if j % 2 == 0 { j + 1 } else { j - 1 };
        let p = j / 2;
        assert(self.in_range(k, j));
        self.lemma_addr_fits(k, j);
        lemma_blk(k);
        assert((j + 1) * blk(k) == j * blk(k) + blk(k)) by (nonlinear_arith);
        assert((j - 1) * blk(k) == j * blk(k) - blk(k)) by (nonlinear_arith);
        let v = self.addr(k, bb) as u64;
        assert(v as int == self.addr(k, bb));
        let x = self.ring(k).index_of(v);
        assert(self.ring(k)[x] == v);
        assert(self.free_at(k, v as int));
        lemma_blocks(self.base as int, self.addr(k, bb), k, bb);
        assert(self.valid(k, bb) && self.st(k, bb) is Free);
        self.lemma_nlevel(k);
        if k == self.root_order {
            assert(blk(0) == 1) by { lemma2_facts(); }
            assert(false);
        }
        self.lemma_flat_family(k, j);
        self.lemma_nlevel(k + 1);
        assert(bb == 2 * p || bb == 2 * p + 1);
        assert(j == 2 * p || j == 2 * p + 1);
        if self.st(k + 1, p) is Free || self.st(k + 1, p) is Alloc || self.st(k + 1, p) is Inside {
            self.lemma_down(k + 1, p);
            assert(false);
        }
        if self.st(k + 1, p) is Absent {
            assert(self.in_range(k, bb));
            assert((2 * p + 2) * blk(k) == (p + 1) * blk(k + 1)) by (nonlinear_arith) requires blk(k + 1) == 2 * blk(k);
            assert((2 * p + 1 + 1) * blk(k) <= self.size_data);
            assert(self.in_range(k + 1, p));
            assert(false);
        }
        assert(self.st(k + 1, p) is Split);
    }

    /// Gives back the allocated block of `size` bytes at `ptr`, and merges
    /// it with its buddy as long as the buddy is free.
    fn dealloc_mut(&mut self, ptr: u64, size: u64)
        requires
            old(self).wf(),
            is_block_size(size as int),
            ptr >= old(self).base,
            (ptr - old(self).base) % (size as int) == 0,
            old(self).valid(order_of(size as int), (ptr - old(self).base) / size as int),
            old(self).st(order_of(size as int), (ptr - old(self).base) / size as int) is Alloc,
        ensures
            final(self).wf(),
            final(self).live@ == old(self).live@.remove(
                old(self).live@.index_of((order_of(size as int), (ptr - old(self).base) / size as int)),
            ),
            final(self).size_left == old(self).size_left + size,
            final(self).max_order == old(self).max_order,
            final(self).root_order == old(self).root_order,
            final(self).base == old(self).base,
            final(self).size_data == old(self).size_data,
            final(self).size_total == old(self).size_total,
            ({
                let ls = order_of(size as int);
                let base = old(self).base as int;
                let (ma, mk) = old(self).merged(ptr as int, ls);
                forall|k: int, x: u64| #![trigger final(self).ring(k).contains(x)] MIN_ORDER <= k <= MAX_ORDER ==> (
                    final(self).ring(k).contains(x) <==> (k == mk && x == ma as u64) || (old(self).ring(k).contains(x)
                        && !(ls <= k < mk && x == buddy_addr(base, block_start(base, ptr as int, blk(k)), blk(k)) as u64)))
            }),
    {
        let ghost pre = *self;
        let ghost p0 = ptr;
        let mut order = log2_usize(size);
        proof {
            let e = choose|e: nat| MIN_ORDER <= e <= MAX_ORDER && pow2(e) == size;
            lemma_pow2_pos(e);
            lemma_order_of(size as int, order as nat);
        }
        let ghost ls = order as int;
        let ghost j0 = (ptr - self.base) / blk(ls);
        let mut i = self.index(ptr, order);
        proof {
            self.lemma_nlevel(ls);
            assert(self.in_range(ls, j0));
            let xi = self.live@.index_of((ls, j0));
            assert(self.live@.contains((ls, j0)));
            lemma_sum_remove(self.live@, xi);
            lemma_sum_nonneg(self.live@.remove(xi));
        }
        self.meta_data.set(i, false);
        self.status = Ghost(self.status@.insert((ls, j0), Status::Free));
        self.live = Ghost(self.live@.remove(self.live@.index_of((ls, j0))));
        self.size_left = self.size_left + size;
        proof {
            Self::lemma_release_step(&pre, self, ls, j0);
            self.lemma_flat_family(ls, j0);
        }
        let ghost mid = *self;
        let ghost base = pre.base as int;
        proof {
            lemma_blk(ls);
            lemma_fundamental_div(p0 - base, blk(ls));
            assert(p0 - base == j0 * blk(ls)) by (nonlinear_arith)
                requires p0 - base == blk(ls) * j0 + 0;
            vstd::arithmetic::div_mod::lemma_div_pos_is_pos(p0 - base, blk(ls));
            lemma_blocks(base, p0 as int, ls, j0);
            assert(forall|k2: int| #![trigger self.ring(k2)] self.ring(k2) == pre.ring(k2));
        }
        let mut ptr = ptr;
        while i != 0 && !self.meta_data.get(sibling(i)) && self.meta_data.get(parent(i))
            invariant
                MIN_ORDER <= order <= self.root_order,
                ptr >= self.base,
                (ptr - self.base) % blk(order as int) == 0,
                self.wf_but(order as int, (ptr - self.base) / blk(order as int)),
                i == self.flat(order as int, (ptr - self.base) / blk(order as int)),
                i < 0x1_0000_0000_0000,
                self.same_scalars(&mid),
                mid.base == pre.base,
                base == pre.base,
                pre.root_order <= MAX_ORDER,
                ls <= order,
                ls == order_of(size as int),
                p0 >= pre.base,
                ptr as int == block_start(base, p0 as int, blk(order as int)),
                pre.merged(p0 as int, ls) == pre.merged(ptr as int, order as int),
                forall|k2: int, x: u64| #![trigger self.ring(k2).contains(x)] MIN_ORDER <= k2 <= MAX_ORDER ==> (
                    self.ring(k2).contains(x) <==> pre.ring(k2).contains(x)
                        && !(ls <= k2 < order && x == buddy_addr(base, block_start(base, p0 as int, blk(k2)), blk(k2)) as u64)),
            decreases self.root_order - order,
        {
            proof {
                self.lemma_flat_family(order as int, (ptr - self.base) / blk(order as int));
            }
            let ghost before = *self;
            let ghost ko = order as int;
            let ghost pold = ptr as int;
            let ghost jc = (ptr - self.base) / blk(order as int);
            proof {
                lemma_blk(ko);
                lemma_fundamental_div(pold - base, blk(ko));
                assert(pold - base == jc * blk(ko)) by (nonlinear_arith)
                    requires pold - base == blk(ko) * jc + 0;
                vstd::arithmetic::div_mod::lemma_div_pos_is_pos(pold - base, blk(ko));
                lemma_blocks(base, pold, ko, jc);
                lemma_path_step(base, p0 as int, ko);
            }
            ptr = self.merge(ptr, order, i);
            proof {
                let bd = before.addr(ko, if jc % 2 == 0 { jc + 1 } else { jc - 1 }) as u64;
                assert(before.ring(ko).contains(bd));
                assert(pre.ring(ko).contains(bd));
                assert(buddy_addr(base, pold, blk(ko)) as u64 == bd);
                assert(pre.merged(pold, ko) == pre.merged(block_start(base, pold, blk(ko + 1)), ko + 1));
                lemma_blk(ko + 1);
                lemma_fundamental_div(ptr - base, blk(ko + 1));
                assert(ptr - base == (jc / 2) * blk(ko + 1)) by (nonlinear_arith)
                    requires ptr - base == blk(ko + 1) * (jc / 2) + 0;
                assert(ptr as int == block_start(base, pold, blk(ko + 1)));
                assert forall|k2: int, x: u64| MIN_ORDER <= k2 <= MAX_ORDER implies (
                    #[trigger] self.ring(k2).contains(x) <==> pre.ring(k2).contains(x)
                        && !(ls <= k2 < ko + 1 && x == buddy_addr(base, block_start(base, p0 as int, blk(k2)), blk(k2)) as u64)) by {
                    if k2 != ko {
                        assert(self.ring(k2) == before.ring(k2));
                        assert(before.ring(k2).contains(x) == self.ring(k2).contains(x));
                    }
                }
            }
            order += 1;
            i = parent(i);
            proof {
                self.lemma_flat_family(order as int, (ptr - self.base) / blk(order as int));
            }
        }
        proof {
            self.lemma_flat_family(order as int, (ptr - self.base) / blk(order as int));
            let ko = order as int;
            let jc = (ptr - self.base) / blk(ko);
            lemma_blk(ko);
            lemma_fundamental_div(ptr - base, blk(ko));
            assert(ptr - base == jc * blk(ko)) by (nonlinear_arith)
                requires ptr - base == blk(ko) * jc + 0;
            vstd::arithmetic::div_mod::lemma_div_pos_is_pos(ptr - base, blk(ko));
            lemma_blocks(base, ptr as int, ko, jc);
            let bb = if jc % 2 == 0 { jc + 1 } else { jc - 1 };
            if ko < MAX_ORDER && pre.ring(ko).contains(buddy_addr(base, ptr as int, blk(ko)) as u64) {
                assert(self.ring(ko).contains(self.addr(ko, bb) as u64));
                self.lemma_free_buddy(ko, jc);
                assert(false);
            }
            assert(pre.merged(ptr as int, ko) == (ptr as int, ko));
        }
        let ghost before = *self;
        self.insert_node(order, ptr);
        proof {
            let jj = (ptr - before.base) / blk(order as int);
            lemma_pow2_pos(order as nat);
            lemma_fundamental_div(ptr - before.base, blk(order as int));
            assert(ptr - before.base == jj * blk(order as int)) by (nonlinear_arith)
                requires ptr - before.base == blk(order as int) * jj + 0;
            assert(ptr == before.addr(order as int, jj));
            Self::lemma_put_free(&before, self, order as int, jj);
            assert forall|k: int, x: u64| MIN_ORDER <= k <= MAX_ORDER implies (#[trigger] self.ring(k).contains(x)
                <==> (k == order && x == ptr) || (pre.ring(k).contains(x)
                    && !(ls <= k < order && x == buddy_addr(base, block_start(base, p0 as int, blk(k)), blk(k)) as u64))) by {
                if k != order {
                    assert(self.free_list_head@[k - MIN_ORDER] == before.free_list_head@[k - MIN_ORDER]);
                    assert(self.ring(k) == before.ring(k));
                    assert(before.ring(k).contains(x) == self.ring(k).contains(x));
                }
            }
        }
    }
}

/// The status of node `(k, j)` in a fresh allocator over `s` bytes whose
/// root has order `r`: the largest nodes within the data are free, the
/// nodes inside them inner, the rest absent.
pub open spec fn init_st(s: int, r: int, k: int, j: int) -> Status {
    if MIN_ORDER <= k <= r && j >= 0 && (j + 1) * blk(k) <= s {
        if k == r || (j / 2 + 1) * blk(k + 1) > s {
            Status::Free
        } else {
            Status::Inside
        }
    } else {
        Status::Absent
    }
}

/// The free list of order `k` of a fresh allocator over `s` bytes at
/// `base`: the block just below `s`'s multiple of `2^k` when that multiple
/// is odd, else nothing.
pub open spec fn init_ring(base: int, s: int, k: int) -> Seq<u64> {
    if (s / blk(k)) % 2 == 1 {
        seq![(base + (s / blk(k) - 1) * blk(k)) as u64]
    } else {
        seq![]
    }
}

/// Division of `q * d + r` by `d`, for `0 <= r < d`.
proof fn lemma_div_exact(x: int, d: int, q: int, r: int)
    requires
        d > 0,
        0 <= r < d,
        x == q * d + r,
    ensures
        x / d == q,
        x % d == r,
{
    vstd::arithmetic::div_mod::lemma_fundamental_div_mod_converse(x, d, q, r);
}

/// One step of cutting the largest block off the rest `cur` of `s`, where
/// `cur` is what is left of `s` below `2^l`.
proof fn lemma_decomp_step(s: int, l: int, cur: int, i: int)
    requires
        s >= 0,
        l >= 0,
        i >= 0,
        cur == s % blk(l),
        cur > 0,
        is_log2(cur, i as nat),
    ensures
        i < l,
        forall|k: int| i < k < l ==> #[trigger] ((s / blk(k)) % 2) == 0,
        (s / blk(i)) % 2 == 1,
        (s / blk(i) - 1) * blk(i) == s - cur,
        cur - blk(i) == s % blk(i),
{
    lemma_blk(l);
    lemma_fundamental_div(s, blk(l));
    let q = s / blk(l);
    assert(q >= 0) by (nonlinear_arith) requires s >= 0, blk(l) > 0, q == s / blk(l);
    if i >= l {
        lemma_blk_mono(l, i);
    }
    assert forall|k: int| i < k < l implies #[trigger] ((s / blk(k)) % 2) == 0 by {
        lemma_blk_adds(l - k, k);
        lemma_blk(l - k - 1);
        lemma_blk_adds(1, l - k - 1);
        lemma_blk_mono(i + 1, k);
        let m = blk(l - k);
        assert(s == (q * m) * blk(k) + cur) by (nonlinear_arith)
            requires s == blk(l) * q + cur, blk(l) == m * blk(k);
        lemma_div_exact(s, blk(k), q * m, cur);
        assert(m == 2 * blk(l - k - 1)) by {
            assert(blk(1) == 2) by { lemma2_facts(); }
        }
        let w = blk(l - k - 1);
        assert(q * m == (q * w) * 2) by (nonlinear_arith) requires m == 2 * w;
        lemma_div_exact(q * m, 2, q * w, 0);
    }
    lemma_blk_adds(l - i, i);
    lemma_blk(i);
    let m = blk(l - i);
    assert(s == (q * m + 1) * blk(i) + (cur - blk(i))) by (nonlinear_arith)
        requires s == blk(l) * q + cur, blk(l) == m * blk(i);
    lemma_div_exact(s, blk(i), q * m + 1, cur - blk(i));
    lemma_blk(l - i - 1);
    assert(blk(1) == 2) by { lemma2_facts(); }
    lemma_blk_adds(1, l - i - 1);
    let w = blk(l - i - 1);
    assert(q * m + 1 == (q * w) * 2 + 1) by (nonlinear_arith) requires m == 2 * w;
    lemma_div_exact(q * m + 1, 2, q * w, 1);
    assert((s / blk(i) - 1) * blk(i) == s - cur) by (nonlinear_arith)
        requires s / blk(i) == q * m + 1, s == blk(l) * q + cur, blk(l) == m * blk(i);
}

/// Once nothing is left below `2^l`, no order below `l` has an odd multiple.
proof fn lemma_decomp_end(s: int, l: int, k: int)
    requires
        s >= 0,
        0 <= k < l,
        s % blk(l) == 0,
    ensures
        (s / blk(k)) % 2 == 0,
{
    lemma_blk(l);
    lemma_fundamental_div(s, blk(l));
    let q = s / blk(l);
    lemma_blk_adds(l - k, k);
    lemma_blk(l - k - 1);
    lemma_blk_adds(1, l - k - 1);
    assert(blk(1) == 2) by { lemma2_facts(); }
    let m = blk(l - k);
    assert(s == (q * m) * blk(k) + 0) by (nonlinear_arith)
        requires s == blk(l) * q + 0, blk(l) == m * blk(k);
    lemma_blk(k);
    lemma_div_exact(s, blk(k), q * m, 0);
    let w = blk(l - k - 1);
    assert(q * m == (q * w) * 2) by (nonlinear_arith) requires m == 2 * w;
    lemma_div_exact(q * m, 2, q * w, 0);
}

/// A free node of a fresh allocator is the block just below the odd
/// multiple of its size.
proof fn lemma_init_free_unique(s: int, r: int, k: int, j: int)
    requires
        0 <= s <= blk(r),
        init_st(s, r, k, j) is Free,
    ensures
        (s / blk(k)) % 2 == 1,
        j == s / blk(k) - 1,
{
    lemma_blk(k);
    let b = blk(k);
    if k == r {
        assert(j == 0) by (nonlinear_arith) requires (j + 1) * b <= s, s <= b, j >= 0, b > 0;
        assert(s == b) by (nonlinear_arith) requires (j + 1) * b <= s, s <= b, j == 0;
        assert(s == 1 * b + 0);
        lemma_div_exact(s, b, 1, 0);
    } else {
        let p = j / 2;
        assert(j == 2 * p || j == 2 * p + 1);
        assert((p + 1) * blk(k + 1) == (2 * p + 2) * b) by (nonlinear_arith) requires blk(k + 1) == 2 * b;
        if j == 2 * p + 1 {
            assert(false) by (nonlinear_arith) requires (j + 1) * b <= s, (p + 1) * blk(k + 1) > s,
                (p + 1) * blk(k + 1) == (2 * p + 2) * b, j == 2 * p + 1;
        }
        assert(s == (2 * p + 1) * b + (s - (2 * p + 1) * b));
        assert(s - (2 * p + 1) * b < b) by (nonlinear_arith)
            requires (p + 1) * blk(k + 1) > s, (p + 1) * blk(k + 1) == (2 * p + 2) * b;
        lemma_div_exact(s, b, 2 * p + 1, s - (2 * p + 1) * b);
        lemma_div_exact(2 * p + 1, 2, p, 1);
    }
}

/// When the multiple of `2^k` in `s` is odd, the block just below it is a
/// free node of a fresh allocator.
proof fn lemma_init_free_exists(s: int, r: int, k: int)
    requires
        0 <= s <= blk(r),
        MIN_ORDER <= k,
        r >= 0,
        (s / blk(k)) % 2 == 1,
    ensures
        k <= r,
        init_st(s, r, k, s / blk(k) - 1) is Free,
{
    lemma_blk(k);
    let b = blk(k);
    let q = s / b;
    lemma_fundamental_div(s, b);
    assert(q >= 1) by (nonlinear_arith) requires q % 2 == 1, s >= 0, b > 0, q == s / b;
    assert(q * b <= s) by (nonlinear_arith) requires s == b * q + s % b, s % b >= 0;
    assert(s < (q + 1) * b) by (nonlinear_arith) requires s == b * q + s % b, s % b < b;
    if k > r {
        lemma_blk_mono(r + 1, k);
        lemma_blk(r);
        assert(b <= s) by (nonlinear_arith) requires q >= 1, q * b <= s, b > 0;
        assert(false);
    }
    let j = q - 1;
    assert((j + 1) * b <= s);
    if k < r {
        let p = j / 2;
        lemma_div_exact(q, 2, (q - 1) / 2, 1);
        assert(j == 2 * p);
        assert((p + 1) * blk(k + 1) == (q + 1) * b) by (nonlinear_arith) requires blk(k + 1) == 2 * b, j == 2 * p, j == q - 1;
    }
}

/// Every node within the data of a fresh allocator has its bit in the
/// bitset: `m` blocks of 16 bytes, out of `t`, suffice.
proof fn lemma_init_flat(s: int, r: int, t: int, m: int, k: int, j: int)
    requires
        s == 16 * (t - m),
        t - m >= 1,
        meta_enough(t, m),
        blk(r) == 16 * min_power2_spec(t - m),
        MIN_ORDER <= k <= r,
        j >= 0,
        (j + 1) * blk(k) <= s,
    ensures
        blk(r - k) - 1 + j < 128 * m,
{
    let d = t - m;
    let pp = min_power2_spec(d);
    lemma_blk_adds(r - k, k);
    lemma_blk_adds(k - 4, 4);
    assert(blk(4) == 16) by { lemma2_facts(); }
    let a = blk(r - k);
    let c = blk(k - 4);
    assert(a * c == pp) by (nonlinear_arith) requires blk(r) == a * blk(k), blk(k) == c * 16, blk(r) == 16 * pp;
    assert(a <= pp) by (nonlinear_arith) requires a * c == pp, c > 0, a > 0;
    assert((j + 1) * c <= d) by (nonlinear_arith) requires (j + 1) * blk(k) <= s, blk(k) == c * 16, s == 16 * d;
    assert(j + 1 <= d) by (nonlinear_arith) requires (j + 1) * c <= d, c > 0, j >= 0;
    let x = pp - 2 + d;
    assert(x >= 0);
    lemma_fundamental_div(x, 128);
    assert(m >= x / 128 + 1);
}

/// The arithmetic of the orders of a fresh allocator over `16 * d` bytes.
proof fn lemma_init_orders(d: int, mx: int)
    requires
        d >= 1,
        is_log2(16 * d, mx as nat),
        mx >= 0,
    ensures
        mx >= MIN_ORDER,
        blk(mx) == 16 * d ==> blk(mx) == 16 * min_power2_spec(d),
        blk(mx) != 16 * d ==> blk(mx + 1) == 16 * min_power2_spec(d),
{
    lemma2_facts();
    if mx < 4 {
        lemma_blk_mono(mx + 1, 4);
        assert(false);
    }
    lemma_blk_adds(mx - 4, 4);
    lemma_blk_adds(mx - 3, 4);
    assert(blk(4) == 16);
    assert(blk(mx) == blk(mx - 4) * 16);
    assert(blk(mx + 1) == blk(mx - 3) * 16);
    assert(pow2((mx - 4) as nat) <= d < pow2(((mx - 4) as nat + 1) as nat));
    assert(is_log2(d, (mx - 4) as nat));
    let y = choose|y: nat| is_log2(d, y);
    lemma_log2_unique(d, y, (mx - 4) as nat);
    assert(pow2(y) == blk(mx - 4));
    assert(pow2(y + 1) == blk(mx - 3));
}

impl Data {
    /// A fresh allocator's state is well formed.
    proof fn lemma_init_wf(d: &Data, t: int, m: int)
        requires
            d.wf_shape(),
            0 <= m <= t,
            d.size_data == 16 * (t - m),
            t >= 1 ==> meta_enough(t, m),
            d.size_data > 0 ==> blk(d.root_order as int) == 16 * min_power2_spec(t - m),
            forall|k: int| MIN_ORDER <= k <= MAX_ORDER ==> #[trigger] d.ring(k) == init_ring(
                d.base as int,
                d.size_data as int,
                k,
            ),
            d.meta_data.words() == 2 * m,
            forall|i: int| !#[trigger] d.meta_data.bit(i),
            forall|k: int, j: int| #[trigger] d.st(k, j) == init_st(d.size_data as int, d.root_order as int, k, j),
            d.live@ == Seq::<(int, int)>::empty(),
            d.size_left == d.size_data,
        ensures
            d.wf(),
    {
        let s = d.size_data as int;
        let r = d.root_order as int;
        lemma_blk_mono(0, r);
        assert(blk(0) == 1) by { lemma2_facts(); }
        assert(s <= blk(r));
        // bits
        assert forall|k: int, j: int| #[trigger] d.in_range(k, j) implies d.flat(k, j) < 64 * d.meta_data.words() by {
            lemma_blk(k);
            assert(s > 0) by (nonlinear_arith) requires (j + 1) * blk(k) <= s, j >= 0, blk(k) > 0;
            lemma_init_flat(s, r, t, m, k, j);
        }
        // tree
        assert forall|k: int, j: int| #[trigger] d.split_at(k, j) by {
            assert(d.st(k, j) == init_st(s, r, k, j));
        }
        assert forall|k: int, j: int| #[trigger] d.down_at(k, j) by {
            assert(d.st(k, j) == init_st(s, r, k, j));
            if d.valid(k, j) && k > MIN_ORDER && (d.st(k, j) is Free || d.st(k, j) is Inside) {
                assert(d.st(k - 1, 2 * j) == init_st(s, r, k - 1, 2 * j));
                assert(d.st(k - 1, 2 * j + 1) == init_st(s, r, k - 1, 2 * j + 1));
                lemma_blk(k - 1);
                assert((2 * j + 1) / 2 == j);
                assert((2 * j) / 2 == j);
                assert((2 * j + 2) * blk(k - 1) == (j + 1) * blk(k)) by (nonlinear_arith) requires blk(k) == 2 * blk(k - 1);
                assert((2 * j + 1) * blk(k - 1) <= (2 * j + 2) * blk(k - 1)) by (nonlinear_arith) requires blk(k - 1) > 0;
            }
        }
        assert forall|k: int, j: int| #![trigger d.st(k, j)] d.valid(k, j)
            && (d.st(k, j) is Free || d.st(k, j) is Alloc || d.st(k, j) is Split) implies d.in_range(k, j) by {
            assert(d.st(k, j) == init_st(s, r, k, j));
        }
        assert forall|k: int, j: int| #![trigger d.st(k, j)] d.valid(k, j) && d.st(k, j) is Absent
            implies !d.in_range(k, j) by {
            assert(d.st(k, j) == init_st(s, r, k, j));
        }
        // rings
        assert forall|k: int| #![trigger d.ring(k)] MIN_ORDER <= k <= MAX_ORDER implies {
            &&& d.ring(k).no_duplicates()
            &&& forall|x: int| 0 <= x < d.ring(k).len() ==> #[trigger] d.free_at(k, d.ring(k)[x] as int)
            &&& forall|j: int| d.valid(k, j) && #[trigger] d.st(k, j) is Free && (k, j) != (-1int, -1int)
                ==> d.ring(k).contains(d.addr(k, j) as u64)
        } by {
            assert(d.ring(k) == init_ring(d.base as int, s, k));
            lemma_blk(k);
            if (s / blk(k)) % 2 == 1 {
                lemma_init_free_exists(s, r, k);
                let j = s / blk(k) - 1;
                assert(init_st(s, r, k, j) is Free);
                assert(d.st(k, j) == init_st(s, r, k, j));
                lemma_blk_adds(r - k, k);
                assert(j < blk(r - k)) by (nonlinear_arith)
                    requires (j + 1) * blk(k) <= s, s <= blk(r), blk(r) == blk(r - k) * blk(k), blk(k) > 0;
                assert(d.in_range(k, j));
                d.lemma_addr_fits(k, j);
                assert(j * blk(k) >= 0) by (nonlinear_arith) requires j >= 0, blk(k) > 0;
                vstd::arithmetic::div_mod::lemma_mod_multiples_basic(j, blk(k));
                vstd::arithmetic::div_mod::lemma_div_by_multiple(j, blk(k));
                assert(d.free_at(k, d.ring(k)[0] as int));
            }
            assert forall|j: int| d.valid(k, j) && #[trigger] d.st(k, j) is Free
                implies d.ring(k).contains(d.addr(k, j) as u64) by {
                assert(d.st(k, j) == init_st(s, r, k, j));
                lemma_init_free_unique(s, r, k, j);
                assert(d.ring(k)[0] == d.addr(k, j) as u64);
            }
        }
        assert forall|k: int, j: int| #![trigger d.st(k, j)] d.valid(k, j) && d.st(k, j) is Alloc
            implies d.live@.contains((k, j)) by {
            assert(d.st(k, j) == init_st(s, r, k, j));
        }
        assert(d.wf_bits()) by {
            assert forall|k: int, j: int| #![trigger d.st(k, j)] d.valid(k, j) implies
                (d.meta_data.bit(d.flat(k, j)) <==> (d.st(k, j) is Alloc || d.st(k, j) is Split)) by {
                assert(d.st(k, j) == init_st(s, r, k, j));
            }
        }
    }
}

impl Data {
    /// Sets up an allocator over the `size` bytes at `base`: the tail of
    /// the region holds the bitset, the rest is cut into the largest
    /// aligned blocks, from the lowest address up, and these are free.
    fn new(base: u64, size: u64) -> (d: Data)
        requires
            base > 0,
            base % PAGE_ALIGNMENT == 0,
            size % MIN_SIZE == 0,
            size <= MAX_SIZE,
            base + size <= u64::MAX,
        ensures
            d.wf(),
            d.base == base,
            d.size_total == size,
            d.size_left == d.size_data,
            d.live@ == Seq::<(int, int)>::empty(),
            ({
                let t = size as int / 16;
                let m = (size - d.size_data) / 16;
                &&& d.size_data <= size
                &&& (size - d.size_data) % 16 == 0
                &&& t / 65 <= m <= (t + 42) / 43
                &&& t >= 1 ==> meta_enough(t, m)
                &&& m == t / 65 || !meta_enough(t, m - 1)
            }),
            forall|k: int| MIN_ORDER <= k <= MAX_ORDER ==> #[trigger] d.ring(k) == init_ring(
                base as int,
                d.size_data as int,
                k,
            ),
    {
        let n_blocks = size / MIN_SIZE;
        let n_meta_blocks = find_n_meta(n_blocks);
        let n_data_blocks = n_blocks - n_meta_blocks;
        let data_size = n_data_blocks * MIN_SIZE;
        let ghost sd = data_size as int;
        let max_order = log2_usize(data_size);
        let root_order = if pow2_u64(max_order) == data_size {
            max_order
        } else {
            max_order + 1
        };
        proof {
            lemma2_facts();
            vstd::arithmetic::power2::lemma2_to64_rest();
            if data_size > 0 {
                lemma_init_orders(n_data_blocks as int, max_order as int);
                if max_order >= 48 {
                    lemma_blk_mono(48, max_order as int);
                    assert(blk(48) == 0x1_0000_0000_0000);
                    assert(data_size == blk(max_order as int));
                }
                if root_order == max_order + 1 {
                    assert(blk(max_order + 1) > data_size);
                }
            }
        }
        let mut free_list_head: Vec<Vec<u64>> = Vec::new();
        let mut c: usize = 0;
        while c < 45
            invariant
                c <= 45,
                free_list_head@.len() == c,
                forall|x: int| 0 <= x < c ==> #[trigger] free_list_head@[x]@ == Seq::<u64>::empty(),
            decreases 45 - c,
        {
            free_list_head.push(Vec::new());
            c += 1;
        }
        let mut cur = data_size;
        let mut b = base;
        let ghost mut l: int = 49;
        proof {
            lemma_blk_mono(48, 49);
            lemma_div_exact(sd, blk(49), 0, sd);
        }
        while cur > 0
            invariant
                free_list_head@.len() == 45,
                0 <= cur <= data_size,
                data_size <= MAX_SIZE,
                base + data_size <= u64::MAX,
                b == base + (data_size - cur),
                MIN_ORDER <= l <= 49,
                cur == sd % blk(l),
                sd == data_size,
                cur % 16 == 0,
                forall|k: int| MIN_ORDER <= k <= MAX_ORDER ==> #[trigger] free_list_head@[k - MIN_ORDER]@ == if k >= l {
                    init_ring(base as int, sd, k)
                } else {
                    Seq::<u64>::empty()
                },
            decreases cur,
        {
            let i = log2_usize(cur);
            proof {
                lemma_decomp_step(sd, l, cur as int, i as int);
                if i < 4 {
                    lemma_blk_mono(i + 1, 4);
                    lemma2_facts();
                    assert(false);
                }
                lemma_blk_adds(i - 4, 4);
                lemma2_facts();
                vstd::arithmetic::div_mod::lemma_mod_multiples_basic(blk(i - 4), 16);
            }
            let mut v: Vec<u64> = Vec::new();
            v.push(b);
            let ghost fl0 = free_list_head@;
            free_list_head.set((i - MIN_ORDER) as usize, v);
            let bi = pow2_u64(i);
            b = b + bi;
            cur = cur - bi;
            proof {
                assert(init_ring(base as int, sd, i as int) =~= seq![(base + (sd - (cur + bi))) as u64]);
                assert forall|k: int| MIN_ORDER <= k <= MAX_ORDER implies #[trigger] free_list_head@[k - MIN_ORDER]@ == if k >= i {
                    init_ring(base as int, sd, k)
                } else {
                    Seq::<u64>::empty()
                } by {
                    if k != i {
                        assert(free_list_head@[k - MIN_ORDER] == fl0[k - MIN_ORDER]);
                    }
                }
                l = i as int;
                assert(blk(i as int) % 16 == 0);
            }
        }
        proof {
            assert forall|k: int| MIN_ORDER <= k <= MAX_ORDER implies #[trigger] free_list_head@[k - MIN_ORDER]@
                == init_ring(base as int, sd, k) by {
                if k < l {
                    lemma_decomp_end(sd, l, k);
                }
            }
        }
        let meta_data = Bitset::new(n_meta_blocks * 2);
        let ghost r = root_order as int;
        let d = Data {
            free_list_head,
            max_order,
            root_order,
            meta_data,
            base,
            size_data: data_size,
            size_left: data_size,
            size_total: size,
            status: Ghost(Map::new(|p: (int, int)| true, |p: (int, int)| init_st(sd, r, p.0, p.1))),
            live: Ghost(Seq::empty()),
        };
        proof {
            assert(d.status@.dom() =~= Set::<(int, int)>::full());
            assert forall|k: int, j: int| #[trigger] d.st(k, j) == init_st(sd, r, k, j) by {}
            assert forall|k: int| MIN_ORDER <= k <= MAX_ORDER implies #[trigger] d.ring(k) == init_ring(
                base as int,
                sd,
                k,
            ) by {
                assert(d.free_list_head@[k - MIN_ORDER]@ == init_ring(base as int, sd, k));
            }
            Self::lemma_init_wf(&d, n_blocks as int, n_meta_blocks as int);
        }
        d
    }
}

impl Data {
    /// `ptr` is the address of an allocated node.
    spec fn alloc_at(&self, ptr: int) -> bool {
        exists|k: int, j: int| #![trigger self.st(k, j)] self.valid(k, j) && self.st(k, j) is Alloc && ptr == self.addr(k, j)
    }

    /// The size of the allocated block at `ptr`, read from the bitset: going
    /// down from the largest order, the first node at `ptr` whose bit is
    /// clear lies just inside the allocated block.
    #[verifier::spinoff_prover]
    fn find_size_when_alloc(&self, ptr: u64) -> (size: u64)
        requires
            self.wf(),
            self.alloc_at(ptr as int),
        ensures
            forall|k: int, j: int| #![trigger self.st(k, j)]
                self.valid(k, j) && self.st(k, j) is Alloc && ptr == self.addr(k, j) ==> size == blk(k),
    {
        let ghost (a, ja) = choose|k: int, j: int| #![trigger self.st(k, j)]
            self.valid(k, j) && self.st(k, j) is Alloc && ptr == self.addr(k, j);
        proof {
            self.lemma_nlevel(a);
            assert(self.in_range(a, ja));
            self.lemma_addr_fits(a, ja);
            lemma_pow2_pos(a as nat);
            assert(forall|k: int, j: int| #![trigger self.st(k, j)]
                self.valid(k, j) && self.st(k, j) is Alloc && ptr == self.addr(k, j) ==> k == a && j == ja) by {
                assert forall|k: int, j: int| #![trigger self.st(k, j)]
                    self.valid(k, j) && self.st(k, j) is Alloc && ptr == self.addr(k, j) implies k == a && j == ja by {
                    if (k, j) != (a, ja) {
                        self.lemma_alloc_apart(k, j, a, ja);
                        lemma_pow2_pos(k as nat);
                        assert((j + 1) * blk(k) == j * blk(k) + blk(k)) by (nonlinear_arith);
                        assert((ja + 1) * blk(a) == ja * blk(a) + blk(a)) by (nonlinear_arith);
                    }
                }
            }
        }
        let mut o = self.root_order;
        while o > MIN_ORDER
            invariant
                self.wf(),
                MIN_ORDER <= a <= o <= self.root_order,
                self.valid(a, ja),
                self.st(a, ja) is Alloc,
                self.in_range(a, ja),
                ptr == self.addr(a, ja),
                self.base <= ptr <= self.base + self.size_data,
                forall|k: int, j: int| #![trigger self.st(k, j)]
                    self.valid(k, j) && self.st(k, j) is Alloc && ptr == self.addr(k, j) ==> k == a && j == ja,
            decreases o,
        {
            o -= 1;
            let b = pow2_u64(o);
            proof {
                lemma_blk_mono(self.root_order as int, 48);
                assert(blk(48) == 0x1_0000_0000_0000) by { vstd::arithmetic::power2::lemma2_to64_rest(); }
                lemma_blk_mono(o as int, 47);
                assert(blk(47) == 0x8000_0000_0000) by { vstd::arithmetic::power2::lemma2_to64_rest(); }
            }
            if (ptr - self.base) % b == 0 && ptr - self.base + b <= self.size_data {
                let ghost q = (ptr - self.base) / blk(o as int);
                proof {
                    lemma_fundamental_div(ptr - self.base, blk(o as int));
                    assert(ptr - self.base == q * blk(o as int)) by (nonlinear_arith)
                        requires ptr - self.base == blk(o as int) * q + 0;
                    assert((q + 1) * blk(o as int) == q * blk(o as int) + blk(o as int)) by (nonlinear_arith);
                    lemma_blk_adds(self.root_order - o, o as int);
                    assert(q < self.nlevel(o as int)) by (nonlinear_arith)
                        requires (q + 1) * blk(o as int) <= self.size_data, self.size_data <= blk(self.root_order as int),
                            blk(self.root_order as int) == self.nlevel(o as int) * blk(o as int), blk(o as int) > 0;
                    assert(q >= 0) by (nonlinear_arith) requires ptr - self.base == q * blk(o as int), blk(o as int) > 0, ptr >= self.base;
                    assert(self.in_range(o as int, q));
                }
                let idx = self.index(ptr, o);
                let bit = self.meta_data.get(idx);
                proof {
                    assert(self.meta_data.bit(self.flat(o as int, q)) <==> (self.st(o as int, q) is Alloc || self.st(o as int, q) is Split));
                    if o as int >= a {
                        // the node at `ptr` of order `o` holds the allocated block
                        lemma_blk_adds(o - a, a);
                        assert(ptr - self.base == ja * blk(a));
                        assert(ja * blk(a) == blk(a) * ja) by (nonlinear_arith);
                        vstd::arithmetic::div_mod::lemma_div_denominator(ja * blk(a), blk(a), blk(o - a));
                        vstd::arithmetic::div_mod::lemma_div_by_multiple(ja, blk(a));
                        assert(q == ja / blk(o - a));
                        if o as int == a {
                            assert(blk(0) == 1) by { lemma2_facts(); }
                            assert(q == ja);
                        } else {
                            if !(self.st(o as int, q) is Split) {
                                assert(!(self.st(o as int, q) is Absent));
                                assert(Self::below(o as int, q, a, ja));
                                self.lemma_below_inside(o as int, q, a, ja);
                            }
                        }
                    } else {
                        // `o` is one below the order of the allocated block
                        lemma_blk(o as int);
                        assert(o + 1 == a);
                        assert(ptr - self.base == ja * blk(a));
                        assert(ja * blk(a) == (2 * ja) * blk(o as int)) by (nonlinear_arith) requires blk(a) == 2 * blk(o as int);
                        vstd::arithmetic::div_mod::lemma_div_by_multiple(2 * ja, blk(o as int));
                        assert(q == 2 * ja);
                        self.lemma_down(a, ja);
                    }
                }
                if !bit {
                    proof {
                        lemma_blk(o as int);
                    }
                    return 2 * b;
                }
            } else {
                proof {
                    if o as int >= a {
                    } else {
                        // the node below the allocated block is aligned and within the data
                        lemma_blk(o as int);
                        assert(ptr - self.base == ja * blk(a));
                        assert(ja * blk(a) == (2 * ja) * blk(o as int)) by (nonlinear_arith) requires blk(a) == 2 * blk(o as int);
                        vstd::arithmetic::div_mod::lemma_mod_multiples_basic(2 * ja, blk(o as int));
                        assert((ja + 1) * blk(a) == ja * blk(a) + blk(a)) by (nonlinear_arith);
                        assert(false);
                    }
                }
            }
        }
        assert(blk(4) == 16) by { lemma2_facts(); }
        MIN_SIZE
    }
}

/// `x` is a power of two.
pub open spec fn is_pow2(x: int) -> bool {
    exists|e: nat| pow2(e) == x
}

/// The largest of three integers.
pub open spec fn max3(a: int, b: int, c: int) -> int {
    if a >= b && a >= c { a } else if b >= c { b } else { c }
}

/// The size of the block that serves a request for `size` bytes aligned to
/// `align`: the least power of two that is at least both and `MIN_SIZE`.
pub open spec fn block_for(size: int, align: int) -> int {
    min_power2_spec(max3(size, align, MIN_SIZE as int))
}

/// A block serving a request holds at least the bytes asked for.
proof fn lemma_block_for_ge(size: int, align: int)
    requires
        size >= 0,
        align >= 0,
    ensures
        size <= block_for(size, align),
        align <= block_for(size, align),
{
    lemma_min_power2_ge(max3(size, align, MIN_SIZE as int));
}

proof fn lemma_min_power2_ge(x: int)
    requires
        x >= 1,
    ensures
        x <= min_power2_spec(x) < 2 * x,
        is_pow2(min_power2_spec(x)),
{
    lemma_log2_exists(x);
    let y = choose|y: nat| is_log2(x, y);
    lemma_pow2_unfold(y + 1);
    lemma_pow2_pos(y);
}

/// A power of two is its own least power of two above.
proof fn lemma_min_power2_exact(e: nat)
    ensures
        min_power2_spec(pow2(e) as int) == pow2(e),
{
    lemma_pow2_pos(e);
    lemma_pow2_unfold(e + 1);
    let x = pow2(e) as int;
    assert(is_log2(x, e));
    let y = choose|y: nat| is_log2(x, y);
    lemma_log2_unique(x, y, e);
}

/// A power of two from 16 to `2^48` is a block size.
proof fn lemma_block_size(x: int)
    requires
        is_pow2(x),
        MIN_SIZE <= x <= MAX_SIZE,
    ensures
        is_block_size(x),
        blk(order_of(x)) == x,
        MIN_ORDER <= order_of(x) <= MAX_ORDER,
{
    let e = choose|e: nat| pow2(e) == x;
    lemma2_facts();
    vstd::arithmetic::power2::lemma2_to64_rest();
    if e < 4 {
        lemma_blk_mono(e as int, 3);
        assert(blk(3) == 8) by { vstd::arithmetic::power2::lemma2_to64(); }
    }
    if e > 48 {
        lemma_blk_mono(49, e as int);
        assert(blk(49) == 0x2_0000_0000_0000);
    }
    assert(MIN_ORDER <= e <= MAX_ORDER && pow2(e) == x);
}

/// Blocks of powers of two at the same address and of the same size are
/// the same node.
proof fn lemma_block_inj(k1: int, j1: int, k2: int, j2: int)
    requires
        k1 >= 0,
        k2 >= 0,
        blk(k1) == blk(k2),
        j1 * blk(k1) == j2 * blk(k2),
    ensures
        k1 == k2,
        j1 == j2,
{
    if k1 < k2 {
        lemma_pow2_strictly_increases(k1 as nat, k2 as nat);
    } else if k2 < k1 {
        lemma_pow2_strictly_increases(k2 as nat, k1 as nat);
    }
    lemma_pow2_pos(k1 as nat);
    assert(j1 == j2) by (nonlinear_arith) requires j1 * blk(k1) == j2 * blk(k1), blk(k1) > 0;
}

/// A block of a power-of-two size at a multiple of its size above a page
/// boundary is aligned to every power of two up to its size and the page.
proof fn lemma_aligned(base: int, j: int, size: int, align: int)
    requires
        base >= 0,
        j >= 0,
        base % (PAGE_ALIGNMENT as int) == 0,
        is_pow2(size),
        is_pow2(align),
        align <= size,
        align <= PAGE_ALIGNMENT,
    ensures
        (base + j * size) % align == 0,
{
    let es = choose|e: nat| pow2(e) == size;
    let ea = choose|e: nat| pow2(e) == align;
    lemma2_facts();
    assert(blk(12) == 4096) by { vstd::arithmetic::power2::lemma2_to64(); }
    if ea > es {
        lemma_pow2_strictly_increases(es, ea);
    }
    if ea > 12 {
        lemma_pow2_strictly_increases(12, ea);
    }
    lemma_blk_adds(es - ea, ea as int);
    lemma_blk_adds(12 - ea, ea as int);
    let ms = blk(es - ea);
    let mp = blk(12 - ea);
    lemma_fundamental_div(base, 4096);
    let qb = base / 4096;
    assert(base + j * size == (qb * mp + j * ms) * align) by (nonlinear_arith)
        requires base == 4096 * qb + 0, 4096 == mp * align, size == ms * align;
    vstd::arithmetic::div_mod::lemma_mod_multiples_basic(qb * mp + j * ms, align);
}

/// A buddy allocator over a region of memory.  Addresses are plain
/// integers; 0 stands for no block.
pub struct AllocBuddy {
    data: Data,
}

impl AllocBuddy {
    /// The allocator's invariant; among others, no free block has its
    /// buddy free as well (`coalesced`).
    pub closed spec fn wf(&self) -> bool {
        self.data.wf() && self.coalesced()
    }

    /// Start of the region.
    pub closed spec fn base(&self) -> int {
        self.data.base as int
    }

    /// Bytes that can be handed out: the region less the bitset.
    pub closed spec fn data_size(&self) -> int {
        self.data.size_data as int
    }

    /// Bytes in the region.
    pub closed spec fn total(&self) -> int {
        self.data.size_total as int
    }

    /// Bytes not handed out.
    pub closed spec fn left(&self) -> int {
        self.data.size_left as int
    }

    /// Order of the largest block.
    pub closed spec fn max_order(&self) -> int {
        self.data.max_order as int
    }

    /// The blocks handed out, as pairs of address and size.
    pub closed spec fn allocated(&self) -> Set<(int, int)> {
        Set::new(
            |x: (int, int)|
                exists|k: int, j: int| #[trigger] self.data.live@.contains((k, j)) && x == (self.data.addr(k, j), blk(k)),
        )
    }

    /// The free list of order `k`, its head first.
    pub closed spec fn free_list(&self, k: int) -> Seq<u64> {
        self.data.ring(k)
    }

    /// The least order from `k` on whose free list is not empty; past
    /// `max_order()` if there is none.
    pub closed spec fn first_free(&self, k: int) -> int {
        self.data.first_free(k)
    }

    /// Where a free block at `a` of order `k` ends up: while its buddy is in
    /// the free list of its order, the two become one block of the next
    /// order.  Gives the address and the order.
    pub open spec fn merged(&self, a: int, k: int) -> (int, int)
        decreases MAX_ORDER - k,
    {
        if MIN_ORDER <= k < MAX_ORDER && self.free_list(k).contains(buddy_addr(self.base(), a, blk(k)) as u64) {
            self.merged(block_start(self.base(), a, blk(k + 1)), k + 1)
        } else {
            (a, k)
        }
    }

    /// The free lists of `self` are those of `old` once the block of `b`
    /// bytes at `ptr` was given back: it merges with its buddy, and the
    /// block of twice the size with its own buddy, as long as the buddy is
    /// free; each buddy so taken leaves the list of its order, and the block
    /// merged last joins the list of its order.
    pub open spec fn lists_after_free(&self, old: &AllocBuddy, ptr: int, b: int) -> bool {
        let ls = order_of(b);
        let base = old.base();
        let (ma, mk) = old.merged(ptr, ls);
        forall|k: int, x: u64| #![trigger self.free_list(k).contains(x)] MIN_ORDER <= k <= MAX_ORDER ==> (
            self.free_list(k).contains(x) <==> (k == mk && x == ma as u64) || (old.free_list(k).contains(x)
                && !(ls <= k < mk && x == buddy_addr(base, block_start(base, ptr, blk(k)), blk(k)) as u64)))
    }

    /// The free lists of `self` are those of `old` once the block of `b`
    /// bytes at `r` was handed out: `r` was the head of the first non-empty
    /// list from the order of `b` on and leaves it; splitting it down gave
    /// each order from that of `b` up to below that list's the upper half
    /// of the block split there, as the list's only entry.
    pub open spec fn lists_after_alloc(&self, old: &AllocBuddy, r: int, b: int) -> bool {
        let ls = order_of(b);
        let kf = old.first_free(ls);
        &&& forall|k: int| #![trigger self.free_list(k)] MIN_ORDER <= k <= MAX_ORDER ==> {
            &&& ls <= k < kf ==> self.free_list(k) == seq![(r + blk(k)) as u64]
            &&& (k < ls || k > kf) ==> self.free_list(k) == old.free_list(k)
        }
        &&& forall|x: u64| #[trigger] self.free_list(kf).contains(x) <==> old.free_list(kf).contains(x) && x != r as u64
    }

    /// No free block has its buddy free as well: the two would have been
    /// merged.
    pub open spec fn coalesced(&self) -> bool {
        forall|k: int, x: u64| #![trigger self.free_list(k).contains(x)] MIN_ORDER <= k < MAX_ORDER && self.free_list(k).contains(x)
            ==> !self.free_list(k).contains(buddy_addr(self.base(), x as int, blk(k)) as u64)
    }

    /// A free block lies within the data, aligned to its size.
    proof fn lemma_free_aligned(&self, k: int, x: u64)
        requires
            self.data.wf(),
            MIN_ORDER <= k <= MAX_ORDER,
            self.free_list(k).contains(x),
        ensures
            x >= self.base(),
            (x - self.base()) % blk(k) == 0,
            x + blk(k) <= self.base() + self.data_size(),
            self.base() + self.data_size() <= u64::MAX,
    {
        let d = self.data;
        let i = d.ring(k).index_of(x);
        assert(d.ring(k)[i] == x);
        assert(d.ring(k) == d.ring(k));
        assert(d.free_at(k, x as int));
        let j = (x - d.base) / blk(k);
        d.lemma_free_at_addr(k, x as int);
        assert(d.in_range(k, j));
        d.lemma_addr_fits(k, j);
    }

    /// The walk of `merged` ends at a block whose buddy is not free.
    proof fn lemma_merged_stop(&self, a: int, k: int)
        ensures
            ({
                let (ma, mk) = self.merged(a, k);
                &&& !(MIN_ORDER <= mk < MAX_ORDER && self.free_list(mk).contains(buddy_addr(self.base(), ma, blk(mk)) as u64))
                &&& a >= self.base() && k >= 0 ==> self.base() <= ma <= a
            }),
        decreases MAX_ORDER - k,
    {
        if MIN_ORDER <= k < MAX_ORDER && self.free_list(k).contains(buddy_addr(self.base(), a, blk(k)) as u64) {
            let a2 = block_start(self.base(), a, blk(k + 1));
            self.lemma_merged_stop(a2, k + 1);
            lemma_blk(k + 1);
            if a >= self.base() {
                lemma_fundamental_div(a - self.base(), blk(k + 1));
                vstd::arithmetic::div_mod::lemma_div_pos_is_pos(a - self.base(), blk(k + 1));
                assert(((a - self.base()) / blk(k + 1)) * blk(k + 1) >= 0) by (nonlinear_arith)
                    requires (a - self.base()) / blk(k + 1) >= 0, blk(k + 1) > 0;
                assert(((a - self.base()) / blk(k + 1)) * blk(k + 1) == blk(k + 1) * ((a - self.base()) / blk(k + 1))) by (nonlinear_arith);
            }
        }
    }

    /// The lists from `k` on up to below `first_free(k)` are empty, and that
    /// one is not, when it is at most `max_order()`.
    proof fn lemma_first_free(&self, k: int)
        ensures
            self.first_free(k) >= k,
            forall|k2: int| k <= k2 < self.first_free(k) ==> #[trigger] self.free_list(k2).len() == 0,
            self.first_free(k) <= self.max_order() && self.first_free(k) <= MAX_ORDER ==> self.free_list(self.first_free(k)).len() > 0,
        decreases MAX_ORDER + 1 - k,
    {
        if !(k > self.data.max_order || k > MAX_ORDER || self.data.ring(k).len() > 0) {
            self.lemma_first_free(k + 1);
        }
    }

    /// Handing out a block keeps the free blocks apart from their buddies.
    proof fn lemma_coalesced_after_alloc(old: &AllocBuddy, new: &AllocBuddy, r: u64, b: int)
        requires
            old.data.wf(),
            old.first_free(order_of(b)) <= MAX_ORDER,
            old.free_list(old.first_free(order_of(b))).contains(r),
            old.coalesced(),
            new.base() == old.base(),
            new.lists_after_alloc(old, r as int, b),
        ensures
            new.coalesced(),
    {
        let ls = order_of(b);
        let kf = old.first_free(ls);
        assert forall|k: int, x: u64| MIN_ORDER <= k < MAX_ORDER && #[trigger] new.free_list(k).contains(x)
            implies !new.free_list(k).contains(buddy_addr(new.base(), x as int, blk(k)) as u64) by {
            let z = buddy_addr(new.base(), x as int, blk(k)) as u64;
            lemma_blk(k);
            if ls <= k < kf {
                assert(new.free_list(k) == seq![(r + blk(k)) as u64]);
                old.lemma_free_aligned(kf, r);
                lemma_blk_mono(k + 1, kf);
                lemma_blk(kf);
                assert((r + blk(k)) as u64 as int == r + blk(k));
                if new.free_list(k).contains(z) {
                    assert(x == (r + blk(k)) as u64);
                    assert(z == (r + blk(k)) as u64);
                    assert(false);
                }
            } else if k == kf {
                assert(old.free_list(k).contains(x));
            } else {
                assert(new.free_list(k) == old.free_list(k));
                assert(old.free_list(k).contains(x));
            }
        }
    }

    /// Giving back a block keeps the free blocks apart from their buddies.
    proof fn lemma_coalesced_after_free(old: &AllocBuddy, new: &AllocBuddy, ptr: int, b: int)
        requires
            old.data.wf(),
            new.data.wf(),
            old.coalesced(),
            new.base() == old.base(),
            old.base() <= ptr <= u64::MAX,
            order_of(b) >= 0,
            new.lists_after_free(old, ptr, b),
        ensures
            new.coalesced(),
    {
        let ls = order_of(b);
        let base = old.base();
        let (ma, mk) = old.merged(ptr, ls);
        old.lemma_merged_stop(ptr, ls);
        assert forall|k: int, x: u64| MIN_ORDER <= k < MAX_ORDER && #[trigger] new.free_list(k).contains(x)
            implies !new.free_list(k).contains(buddy_addr(base, x as int, blk(k)) as u64) by {
            let zi = buddy_addr(base, x as int, blk(k));
            let z = zi as u64;
            lemma_blk(k);
            new.lemma_free_aligned(k, x);
            lemma_buddy_sym(base, x as int, k);
            assert(zi as u64 as int == zi);
            assert(ma as u64 as int == ma);
            if new.free_list(k).contains(z) {
                if k == mk && x == ma as u64 {
                    if z == ma as u64 {
                        assert(false);
                    } else {
                        assert(old.free_list(k).contains(z));
                        assert(false);
                    }
                } else {
                    assert(old.free_list(k).contains(x));
                    if k == mk && z == ma as u64 {
                        assert(buddy_addr(base, ma, blk(k)) == x);
                        assert(false);
                    } else {
                        assert(old.free_list(k).contains(z));
                        assert(false);
                    }
                }
            }
        }
    }

    proof fn lemma_merged_same(&self, a: int, k: int)
        ensures
            self.merged(a, k) == self.data.merged(a, k),
        decreases MAX_ORDER - k,
    {
        if MIN_ORDER <= k < MAX_ORDER && self.free_list(k).contains(buddy_addr(self.base(), a, blk(k)) as u64) {
            self.lemma_merged_same(block_start(self.base(), a, blk(k + 1)), k + 1);
        }
    }

    /// Creates an allocator over the `size` bytes at `base`, which is
    /// page-aligned; `size` is a multiple of 16.
    pub fn new(base: u64, size: u64) -> (a: AllocBuddy)
        requires
            base > 0,
            base % PAGE_ALIGNMENT == 0,
            size % MIN_SIZE == 0,
            size <= MAX_SIZE,
            base + size <= u64::MAX,
        ensures
            a.wf(),
            a.base() == base,
            a.total() == size,
            a.allocated() == Set::<(int, int)>::empty(),
            a.left() == a.data_size(),
            ({
                let t = size as int / 16;
                let m = (size - a.data_size()) / 16;
                &&& a.data_size() <= size
                &&& (size - a.data_size()) % 16 == 0
                &&& t / 65 <= m <= (t + 42) / 43
                &&& t >= 1 ==> meta_enough(t, m)
                &&& m == t / 65 || !meta_enough(t, m - 1)
            }),
            forall|k: int| MIN_ORDER <= k <= MAX_ORDER ==> #[trigger] a.free_list(k) == init_ring(
                base as int,
                a.data_size(),
                k,
            ),
    {
        let a = AllocBuddy { data: Data::new(base, size) };
        proof {
            assert(a.allocated() =~= Set::<(int, int)>::empty());
            assert forall|k: int, x: u64| MIN_ORDER <= k < MAX_ORDER && #[trigger] a.free_list(k).contains(x)
                implies !a.free_list(k).contains(buddy_addr(a.base(), x as int, blk(k)) as u64) by {
                a.lemma_free_aligned(k, x);
                lemma_buddy_sym(a.base(), x as int, k);
                let z = buddy_addr(a.base(), x as int, blk(k));
                assert(z as u64 as int == z);
                assert(a.free_list(k) == init_ring(base as int, a.data_size(), k));
                assert(a.free_list(k).len() <= 1);
                if a.free_list(k).contains(z as u64) {
                    assert(a.free_list(k)[0] == x);
                    assert(a.free_list(k)[0] == z as u64);
                    assert(false);
                }
            }
        }
        a
    }

    /// Hands out a block for `size` bytes aligned to `align`: the head of
    /// the first non-empty free list from the order of `block_for(size,
    /// align)` on, split down to that size.  Gives 0, and changes nothing,
    /// when fewer bytes are left than that or no list has a block.
    fn alloc_block(&mut self, size: u64, align: u64) -> (r: u64)
        requires
            old(self).wf(),
            is_pow2(align as int),
            align <= PAGE_ALIGNMENT,
        ensures
            final(self).wf(),
            final(self).base() == old(self).base(),
            final(self).data_size() == old(self).data_size(),
            final(self).total() == old(self).total(),
            final(self).max_order() == old(self).max_order(),
            r == 0 <==> block_for(size as int, align as int) > old(self).left()
                || old(self).first_free(order_of(block_for(size as int, align as int))) > old(self).max_order(),
            r == 0 ==> *final(self) == *old(self),
            r != 0 ==> {
                let b = block_for(size as int, align as int);
                &&& r == old(self).free_list(old(self).first_free(order_of(b)))[0]
                &&& !old(self).allocated().contains((r as int, b))
                &&& final(self).allocated() == old(self).allocated().insert((r as int, b))
                &&& final(self).left() == old(self).left() - b
                &&& r % align == 0
                &&& forall|s: int| !#[trigger] old(self).allocated().contains((r as int, s))
                &&& final(self).lists_after_alloc(old(self), r as int, b)
            },
    {
        let ghost start = *self;
        let need = if size >= align && size >= MIN_SIZE {
            size
        } else if align >= MIN_SIZE {
            align
        } else {
            MIN_SIZE
        };
        let ghost bf = block_for(size as int, align as int);
        proof {
            lemma_min_power2_ge(need as int);
            lemma_sum_nonneg(self.data.live@);
            lemma_blk_mono(self.data.root_order as int, 48);
            assert(blk(48) == 0x1_0000_0000_0000) by { vstd::arithmetic::power2::lemma2_to64_rest(); }
        }
        if need > self.data.size_left {
            return 0;
        }
        let s = min_power2(need);
        if self.data.size_left < s {
            return 0;
        }
        proof {
            lemma_blk_mono(self.data.root_order as int, 48);
            assert(blk(48) == 0x1_0000_0000_0000) by { vstd::arithmetic::power2::lemma2_to64_rest(); }
            lemma_block_size(s as int);
        }
        let ghost pre = *self;
        let r = self.data.alloc_mut(s);
        proof {
            if r != 0 {
                let ls = order_of(s as int);
                let jj = (r - pre.data.base) / (s as int);
                lemma_fundamental_div(r - pre.data.base, s as int);
                assert(r - pre.data.base == jj * blk(ls)) by (nonlinear_arith)
                    requires r - pre.data.base == (s as int) * jj + 0, blk(ls) == s;
                assert(r == pre.data.addr(ls, jj));
                assert forall|x: (int, int)| #[trigger] self.allocated().contains(x)
                    <==> pre.allocated().insert((r as int, s as int)).contains(x) by {
                    if self.allocated().contains(x) {
                        let (k, j) = choose|k: int, j: int| #[trigger] self.data.live@.contains((k, j)) && x == (self.data.addr(k, j), blk(k));
                        let y = self.data.live@.index_of((k, j));
                        if y < pre.data.live@.len() {
                            assert(pre.data.live@[y] == (k, j));
                            assert(pre.data.live@.contains((k, j)));
                        }
                    }
                    if pre.allocated().contains(x) {
                        let (k, j) = choose|k: int, j: int| #[trigger] pre.data.live@.contains((k, j)) && x == (pre.data.addr(k, j), blk(k));
                        let y = pre.data.live@.index_of((k, j));
                        assert(self.data.live@[y] == (k, j));
                        assert(self.data.live@.contains((k, j)));
                    }
                    if x == (r as int, s as int) {
                        assert(self.data.live@[pre.data.live@.len() as int] == (ls, jj));
                        assert(self.data.live@.contains((ls, jj)));
                    }
                }
                assert(self.allocated() =~= pre.allocated().insert((r as int, s as int)));
                if pre.allocated().contains((r as int, s as int)) {
                    let (k, j) = choose|k: int, j: int| #[trigger] pre.data.live@.contains((k, j))
                        && (r as int, s as int) == (pre.data.addr(k, j), blk(k));
                    let y = pre.data.live@.index_of((k, j));
                    assert(pre.data.valid(k, j));
                    lemma_block_inj(k, j, ls, jj);
                    assert(self.data.live@[y] == self.data.live@[pre.data.live@.len() as int]);
                    assert(false);
                }
                lemma_aligned(pre.data.base as int, jj, s as int, align as int);
                assert((pre.data.base + jj * s) % (align as int) == 0);
            }
            if r != 0 {
                let kf = start.first_free(order_of(bf));
                start.lemma_first_free(order_of(bf));
                assert(start.free_list(kf)[0] == r);
                assert(start.free_list(kf).contains(r));
                AllocBuddy::lemma_coalesced_after_alloc(&start, &*self, r, bf);
                AllocBuddy::lemma_fresh(&start, &*self, r as int, block_for(size as int, align as int));
            }
        }
        r
    }

    /// Gives back the block at `ptr` that served a request for `size`
    /// bytes aligned to `align`; nothing for 0.
    fn free_block(&mut self, ptr: u64, size: u64, align: u64)
        requires
            old(self).wf(),
            ptr == 0 || (is_pow2(align as int) && old(self).allocated().contains((ptr as int, block_for(size as int, align as int)))),
        ensures
            final(self).wf(),
            final(self).base() == old(self).base(),
            final(self).data_size() == old(self).data_size(),
            final(self).total() == old(self).total(),
            final(self).max_order() == old(self).max_order(),
            ptr == 0 ==> *final(self) == *old(self),
            ptr != 0 ==> {
                let b = block_for(size as int, align as int);
                &&& final(self).allocated() == old(self).allocated().remove((ptr as int, b))
                &&& final(self).left() == old(self).left() + b
                &&& final(self).lists_after_free(old(self), ptr as int, b)
            },
    {
        if ptr == 0 {
            return;
        }
        let need = if size >= align && size >= MIN_SIZE {
            size
        } else if align >= MIN_SIZE {
            align
        } else {
            MIN_SIZE
        };
        let ghost bf = block_for(size as int, align as int);
        proof {
            let (k, j) = choose|k: int, j: int| #[trigger] self.data.live@.contains((k, j))
                && (ptr as int, bf) == (self.data.addr(k, j), blk(k));
            let y = self.data.live@.index_of((k, j));
            assert(self.data.live@[y] == (k, j));
            lemma_blk_mono(k, 48);
            assert(blk(48) == 0x1_0000_0000_0000) by { vstd::arithmetic::power2::lemma2_to64_rest(); }
            lemma_min_power2_ge(need as int);
        }
        let s = min_power2(need);
        self.dealloc_block(ptr, s);
    }

    /// Gives back the allocated block of `s` bytes at `ptr`.
    fn dealloc_block(&mut self, ptr: u64, s: u64)
        requires
            old(self).wf(),
            old(self).allocated().contains((ptr as int, s as int)),
        ensures
            final(self).wf(),
            final(self).base() == old(self).base(),
            final(self).data_size() == old(self).data_size(),
            final(self).total() == old(self).total(),
            final(self).max_order() == old(self).max_order(),
            final(self).allocated() == old(self).allocated().remove((ptr as int, s as int)),
            final(self).left() == old(self).left() + s,
            final(self).lists_after_free(old(self), ptr as int, s as int),
    {
        let ghost pre = *self;
        let ghost (k, j) = choose|k: int, j: int| #[trigger] self.data.live@.contains((k, j))
            && (ptr as int, s as int) == (self.data.addr(k, j), blk(k));
        proof {
            let y = self.data.live@.index_of((k, j));
            assert(self.data.live@[y] == (k, j));
            assert(self.data.valid(k, j) && self.data.st(k, j) is Alloc);
            lemma_pow2_pos(k as nat);
            assert(is_pow2(s as int));
            lemma_blk_mono(k, 48);
            assert(blk(48) == 0x1_0000_0000_0000) by { vstd::arithmetic::power2::lemma2_to64_rest(); }
            lemma_blk_mono(4, k);
            assert(blk(4) == 16) by { lemma2_facts(); }
            lemma_block_size(s as int);
            lemma_block_inj(order_of(s as int), 0, k, 0);
            vstd::arithmetic::div_mod::lemma_mod_multiples_basic(j, s as int);
            vstd::arithmetic::div_mod::lemma_div_by_multiple(j, s as int);
            assert(ptr - self.data.base == j * (s as int));
        }
        self.data.dealloc_mut(ptr, s);
        proof {
            pre.lemma_merged_same(ptr as int, order_of(s as int));
            AllocBuddy::lemma_coalesced_after_free(&pre, &*self, ptr as int, s as int);
            let xi = pre.data.live@.index_of((k, j));
            assert forall|x: (int, int)| #[trigger] self.allocated().contains(x)
                <==> pre.allocated().remove((ptr as int, s as int)).contains(x) by {
                if self.allocated().contains(x) {
                    let (k2, j2) = choose|k2: int, j2: int| #[trigger] self.data.live@.contains((k2, j2)) && x == (self.data.addr(k2, j2), blk(k2));
                    let y = self.data.live@.index_of((k2, j2));
                    let z = if y < xi { y } else { y + 1 };
                    assert(pre.data.live@[z] == (k2, j2));
                    assert(pre.data.live@.contains((k2, j2)));
                    assert(pre.data.valid(k2, j2));
                    if x == (ptr as int, s as int) {
                        lemma_block_inj(k2, j2, k, j);
                        assert(z != xi);
                        assert(false);
                    }
                }
                if pre.allocated().remove((ptr as int, s as int)).contains(x) {
                    let (k2, j2) = choose|k2: int, j2: int| #[trigger] pre.data.live@.contains((k2, j2)) && x == (pre.data.addr(k2, j2), blk(k2));
                    let z = pre.data.live@.index_of((k2, j2));
                    assert(z != xi);
                    let y = if z < xi { z } else { z - 1 };
                    assert(self.data.live@[y] == (k2, j2));
                    assert(self.data.live@.contains((k2, j2)));
                }
            }
            assert(self.allocated() =~= pre.allocated().remove((ptr as int, s as int)));
        }
    }

    /// Gives back the block at `ptr`, whatever its size; nothing for 0.
    fn dealloc_any(&mut self, ptr: u64)
        requires
            old(self).wf(),
            ptr == 0 || exists|s: int| old(self).allocated().contains((ptr as int, s)),
        ensures
            final(self).wf(),
            final(self).base() == old(self).base(),
            final(self).data_size() == old(self).data_size(),
            final(self).total() == old(self).total(),
            final(self).max_order() == old(self).max_order(),
            ptr == 0 ==> *final(self) == *old(self),
            forall|s: int| ptr != 0 && #[trigger] old(self).allocated().contains((ptr as int, s)) ==> {
                &&& final(self).allocated() == old(self).allocated().remove((ptr as int, s))
                &&& final(self).left() == old(self).left() + s
                &&& final(self).lists_after_free(old(self), ptr as int, s)
            },
    {
        if ptr == 0 {
            return;
        }
        let s = self.size_of(ptr);
        self.dealloc_block(ptr, s);
    }

    /// The size of the allocated block at `ptr`.
    fn size_of(&self, ptr: u64) -> (s: u64)
        requires
            self.wf(),
            exists|s: int| self.allocated().contains((ptr as int, s)),
        ensures
            forall|s2: int| #[trigger] self.allocated().contains((ptr as int, s2)) <==> s2 == s,
    {
        proof {
            let s0 = choose|s: int| self.allocated().contains((ptr as int, s));
            let (k, j) = choose|k: int, j: int| #[trigger] self.data.live@.contains((k, j))
                && (ptr as int, s0) == (self.data.addr(k, j), blk(k));
            let y = self.data.live@.index_of((k, j));
            assert(self.data.live@[y] == (k, j));
            assert(self.data.valid(k, j) && self.data.st(k, j) is Alloc);
        }
        let s = self.data.find_size_when_alloc(ptr);
        proof {
            assert forall|s2: int| #[trigger] self.allocated().contains((ptr as int, s2)) <==> s2 == s by {
                if self.allocated().contains((ptr as int, s2)) {
                    let (k, j) = choose|k: int, j: int| #[trigger] self.data.live@.contains((k, j))
                        && (ptr as int, s2) == (self.data.addr(k, j), blk(k));
                    let y = self.data.live@.index_of((k, j));
                    assert(self.data.live@[y] == (k, j));
                    assert(self.data.valid(k, j) && self.data.st(k, j) is Alloc);
                }
                if s2 == s {
                    let s0 = choose|s: int| self.allocated().contains((ptr as int, s));
                    let (k, j) = choose|k: int, j: int| #[trigger] self.data.live@.contains((k, j))
                        && (ptr as int, s0) == (self.data.addr(k, j), blk(k));
                    let y = self.data.live@.index_of((k, j));
                    assert(self.data.live@[y] == (k, j));
                    assert(self.data.valid(k, j) && self.data.st(k, j) is Alloc);
                }
            }
        }
        s
    }

    /// Moves the block at `old_ptr`, which served `old_size` bytes aligned
    /// to `align`, to one for `new_size` bytes: keeps it when the sizes are
    /// equal, else hands out a new block and, when that succeeded, gives
    /// back the old one after copying the first `min(old_size, new_size)`
    /// bytes of `mem` over.
    fn realloc_block(&mut self, mem: &mut Vec<u8>, old_ptr: u64, old_size: u64, new_size: u64, align: u64) -> (r: u64)
        requires
            old(self).wf(),
            old(self).base() + old(self).data_size() <= old(mem).len(),
            is_pow2(align as int),
            align <= PAGE_ALIGNMENT,
            new_size == old_size || old_ptr == 0 || old(self).allocated().contains(
                (old_ptr as int, block_for(old_size as int, align as int)),
            ),
        ensures
            final(self).wf(),
            final(self).base() == old(self).base(),
            final(self).data_size() == old(self).data_size(),
            final(self).total() == old(self).total(),
            final(self).max_order() == old(self).max_order(),
            final(mem)@ == if new_size != old_size && r != 0 && old_ptr != 0 {
                copied(old(mem)@, old_ptr as int, r as int, if old_size < new_size { old_size as int } else { new_size as int })
            } else {
                old(mem)@
            },
            new_size == old_size ==> r == old_ptr && *final(self) == *old(self),
            new_size != old_size ==> {
                let b = block_for(new_size as int, align as int);
                let bo = block_for(old_size as int, align as int);
                &&& (r == 0 <==> b > old(self).left() || old(self).first_free(order_of(b)) > old(self).max_order())
                &&& r == 0 ==> *final(self) == *old(self)
                &&& r != 0 ==> {
                    &&& r == old(self).free_list(old(self).first_free(order_of(b)))[0]
                    &&& r % align == 0
                    &&& forall|s: int| !#[trigger] old(self).allocated().contains((r as int, s))
                    &&& old_ptr == 0 ==> final(self).allocated() == old(self).allocated().insert((r as int, b))
                        && final(self).left() == old(self).left() - b
                    &&& old_ptr != 0 ==> final(self).allocated() == old(self).allocated().insert((r as int, b)).remove(
                        (old_ptr as int, bo),
                    ) && final(self).left() == old(self).left() - b + bo
                }
            },
    {
        if new_size == old_size {
            return old_ptr;
        }
        let new_ptr = self.alloc_block(new_size, align);
        if new_ptr != 0 {
            if old_ptr != 0 {
                proof {
                    let b = block_for(new_size as int, align as int);
                    let bo = block_for(old_size as int, align as int);
                    lemma_block_for_ge(new_size as int, align as int);
                    lemma_block_for_ge(old_size as int, align as int);
                    assert(self.allocated().contains((new_ptr as int, b)));
                    assert(self.allocated().contains((old_ptr as int, bo)));
                    self.lemma_allocated_disjoint(new_ptr as int, b, old_ptr as int, bo);
                    self.lemma_allocated_within(new_ptr as int, b);
                    self.lemma_allocated_within(old_ptr as int, bo);
                }
                let n: u64 = if old_size < new_size { old_size } else { new_size };
                copy_bytes(mem, old_ptr, new_ptr, n as usize);
            }
            self.free_block(old_ptr, old_size, align);
        }
        new_ptr
    }

    /// `realloc` for a block whose size is read from the allocator, with
    /// the smallest alignment; a null `old_ptr` asks for a new block.
    fn realloc_any(&mut self, mem: &mut Vec<u8>, old_ptr: u64, new_size: u64) -> (r: u64)
        requires
            old(self).wf(),
            old(self).base() + old(self).data_size() <= old(mem).len(),
            old_ptr == 0 || exists|s: int| old(self).allocated().contains((old_ptr as int, s)),
        ensures
            final(self).wf(),
            final(self).base() == old(self).base(),
            final(self).data_size() == old(self).data_size(),
            final(self).total() == old(self).total(),
            final(self).max_order() == old(self).max_order(),
            old_ptr == 0 ==> final(mem)@ == old(mem)@,
            forall|s0: int| old_ptr != 0 && #[trigger] old(self).allocated().contains((old_ptr as int, s0)) ==>
                final(mem)@ == if new_size != s0 && r != 0 {
                    copied(old(mem)@, old_ptr as int, r as int, if s0 < new_size { s0 } else { new_size as int })
                } else {
                    old(mem)@
                },
            old_ptr == 0 ==> {
                let b = block_for(new_size as int, MIN_SIZE as int);
                &&& (r == 0 <==> b > old(self).left() || old(self).first_free(order_of(b)) > old(self).max_order())
                &&& r == 0 ==> *final(self) == *old(self)
                &&& r != 0 ==> final(self).allocated() == old(self).allocated().insert((r as int, b))
                    && final(self).left() == old(self).left() - b
                    && r == old(self).free_list(old(self).first_free(order_of(b)))[0]
            },
            forall|s0: int| old_ptr != 0 && #[trigger] old(self).allocated().contains((old_ptr as int, s0)) ==> {
                let b = block_for(new_size as int, MIN_SIZE as int);
                &&& new_size == s0 ==> r == old_ptr && *final(self) == *old(self)
                &&& new_size != s0 ==> {
                    &&& (r == 0 <==> b > old(self).left() || old(self).first_free(order_of(b)) > old(self).max_order())
                    &&& r == 0 ==> *final(self) == *old(self)
                    &&& r != 0 ==> final(self).allocated() == old(self).allocated().insert((r as int, b)).remove(
                        (old_ptr as int, s0),
                    ) && final(self).left() == old(self).left() - b + s0
                        && r == old(self).free_list(old(self).first_free(order_of(b)))[0]
                }
            },
    {
        proof {
            lemma2_facts();
            assert(is_pow2(MIN_SIZE as int));
        }
        if old_ptr == 0 {
            return self.alloc_block(new_size, MIN_SIZE);
        }
        let old_size = self.size_of(old_ptr);
        proof {
            let (k, j) = choose|k: int, j: int| #[trigger] self.data.live@.contains((k, j))
                && (old_ptr as int, old_size as int) == (self.data.addr(k, j), blk(k));
            let y = self.data.live@.index_of((k, j));
            assert(self.data.live@[y] == (k, j));
            assert(self.data.valid(k, j));
            lemma_min_power2_exact(k as nat);
            lemma_blk_mono(4, k);
            assert(blk(4) == 16);
            assert(block_for(old_size as int, MIN_SIZE as int) == old_size);
        }
        self.realloc_block(mem, old_ptr, old_size, new_size, MIN_SIZE)
    }

    /// A block just added to the blocks handed out was at an address at
    /// which no block was handed out before.
    proof fn lemma_fresh(a0: &AllocBuddy, a1: &AllocBuddy, r: int, b: int)
        requires
            a1.wf(),
            !a0.allocated().contains((r, b)),
            a1.allocated() == a0.allocated().insert((r, b)),
        ensures
            forall|s: int| !#[trigger] a0.allocated().contains((r, s)),
    {
        assert forall|s: int| !#[trigger] a0.allocated().contains((r, s)) by {
            if a0.allocated().contains((r, s)) {
                assert(a1.allocated().contains((r, s)));
                assert(a1.allocated().contains((r, b)));
                a1.lemma_allocated_disjoint(r, s, r, b);
                a1.lemma_allocated_within(r, s);
                a1.lemma_allocated_within(r, b);
                let e1 = choose|e: nat| MIN_ORDER <= e <= MAX_ORDER && pow2(e) == s;
                let e2 = choose|e: nat| MIN_ORDER <= e <= MAX_ORDER && pow2(e) == b;
                lemma_pow2_pos(e1);
                lemma_pow2_pos(e2);
            }
        }
    }

    /// Blocks handed out do not overlap.
    pub proof fn lemma_allocated_disjoint(&self, a1: int, s1: int, a2: int, s2: int)
        requires
            self.wf(),
            self.allocated().contains((a1, s1)),
            self.allocated().contains((a2, s2)),
            (a1, s1) != (a2, s2),
        ensures
            a1 + s1 <= a2 || a2 + s2 <= a1,
    {
        let (k1, j1) = choose|k: int, j: int| #[trigger] self.data.live@.contains((k, j))
            && (a1, s1) == (self.data.addr(k, j), blk(k));
        let (k2, j2) = choose|k: int, j: int| #[trigger] self.data.live@.contains((k, j))
            && (a2, s2) == (self.data.addr(k, j), blk(k));
        let y1 = self.data.live@.index_of((k1, j1));
        let y2 = self.data.live@.index_of((k2, j2));
        assert(self.data.live@[y1] == (k1, j1));
        assert(self.data.live@[y2] == (k2, j2));
        assert(self.data.valid(k1, j1) && self.data.st(k1, j1) is Alloc);
        assert(self.data.valid(k2, j2) && self.data.st(k2, j2) is Alloc);
        self.data.lemma_alloc_apart(k1, j1, k2, j2);
        assert((j1 + 1) * blk(k1) == j1 * blk(k1) + blk(k1)) by (nonlinear_arith);
        assert((j2 + 1) * blk(k2) == j2 * blk(k2) + blk(k2)) by (nonlinear_arith);
    }

    /// A block handed out lies within the data, at a multiple of its size
    /// from the start, and its size is a power of two from `MIN_SIZE` to
    /// `MAX_SIZE`.
    pub proof fn lemma_allocated_within(&self, a: int, s: int)
        requires
            self.wf(),
            self.allocated().contains((a, s)),
        ensures
            self.base() <= a,
            a + s <= self.base() + self.data_size(),
            is_block_size(s),
            (a - self.base()) % s == 0,
    {
        let (k, j) = choose|k: int, j: int| #[trigger] self.data.live@.contains((k, j))
            && (a, s) == (self.data.addr(k, j), blk(k));
        let y = self.data.live@.index_of((k, j));
        assert(self.data.live@[y] == (k, j));
        assert(self.data.valid(k, j) && self.data.st(k, j) is Alloc);
        self.data.lemma_nlevel(k);
        assert(self.data.in_range(k, j));
        self.data.lemma_addr_fits(k, j);
        lemma_pow2_pos(k as nat);
        assert(MIN_ORDER <= k <= MAX_ORDER && pow2(k as nat) == s);
        vstd::arithmetic::div_mod::lemma_mod_multiples_basic(j, s);
    }

    /// The bytes left never exceed the data, nor the data the region.
    pub proof fn lemma_sizes(&self)
        requires
            self.wf(),
        ensures
            0 <= self.left() <= self.data_size() <= self.total(),
    {
        lemma_sum_nonneg(self.data.live@);
    }

    /// Giving back a block just handed out restores the blocks handed out,
    /// the bytes left and what the free lists hold: the memory can be
    /// handed out again.
    pub proof fn lemma_alloc_then_dealloc(a0: &AllocBuddy, a1: &AllocBuddy, a2: &AllocBuddy, r: u64, b: int)
        requires
            a0.wf(),
            is_block_size(b),
            !a0.allocated().contains((r as int, b)),
            a1.allocated() == a0.allocated().insert((r as int, b)),
            a1.left() == a0.left() - b,
            a2.allocated() == a1.allocated().remove((r as int, b)),
            a2.left() == a1.left() + b,
            a0.first_free(order_of(b)) <= a0.max_order(),
            r == a0.free_list(a0.first_free(order_of(b)))[0],
            a1.base() == a0.base(),
            a1.lists_after_alloc(a0, r as int, b),
            a2.lists_after_free(a1, r as int, b),
        ensures
            a2.allocated() == a0.allocated(),
            a2.left() == a0.left(),
            forall|k: int, x: u64| MIN_ORDER <= k <= MAX_ORDER ==> (#[trigger] a2.free_list(k).contains(x) <==> a0.free_list(k).contains(x)),
    {
        assert(a2.allocated() =~= a0.allocated());
        let ls = order_of(b);
        let kf = a0.first_free(ls);
        let base = a0.base();
        a0.lemma_first_free(ls);
        assert(a0.data.max_order <= MAX_ORDER);
        assert(a0.free_list(kf)[0] == r);
        assert(a0.free_list(kf).contains(r));
        a0.lemma_free_aligned(kf, r);
        Self::lemma_climb(a0, a1, r, b, ls);
        assert forall|k: int, x: u64| MIN_ORDER <= k <= MAX_ORDER implies (#[trigger] a2.free_list(k).contains(x)
            <==> a0.free_list(k).contains(x)) by {
            if ls <= k < kf {
                lemma_aligned_below(base, r as int, k - 1, kf);
                lemma_aligned_below(base, r as int, k, kf);
                assert(a1.free_list(k) == seq![(r + blk(k)) as u64]);
                assert(a0.free_list(k).len() == 0);
                if a1.free_list(k).contains(x) {
                    assert(x == (r + blk(k)) as u64);
                }
            }
        }
    }

    /// From order `k` on, the block handed out at `r` merges with the upper
    /// halves that splitting it left, up to the order it was taken from.
    proof fn lemma_climb(a0: &AllocBuddy, a1: &AllocBuddy, r: u64, b: int, k: int)
        requires
            a0.wf(),
            is_block_size(b),
            order_of(b) <= k <= a0.first_free(order_of(b)),
            a0.first_free(order_of(b)) <= MAX_ORDER,
            a0.free_list(a0.first_free(order_of(b))).contains(r),
            r >= a0.base(),
            (r - a0.base()) % blk(a0.first_free(order_of(b))) == 0,
            a1.base() == a0.base(),
            a1.lists_after_alloc(a0, r as int, b),
        ensures
            a1.merged(r as int, k) == (r as int, a0.first_free(order_of(b))),
        decreases a0.first_free(order_of(b)) - k,
    {
        let ls = order_of(b);
        let kf = a0.first_free(ls);
        let base = a0.base();
        if k < kf {
            lemma_aligned_below(base, r as int, k, kf);
            assert(a1.free_list(k) == seq![(r + blk(k)) as u64]);
            assert(a1.free_list(k)[0] == (r + blk(k)) as u64);
            assert(a1.free_list(k).contains(buddy_addr(a1.base(), r as int, blk(k)) as u64));
            Self::lemma_climb(a0, a1, r, b, k + 1);
        } else {
            if kf < MAX_ORDER && a1.free_list(kf).contains(buddy_addr(base, r as int, blk(kf)) as u64) {
                assert(a0.free_list(kf).contains(buddy_addr(base, r as int, blk(kf)) as u64));
                assert(false);
            }
        }
    }
}

impl RKalloc for AllocBuddy {
    open spec fn inv(&self) -> bool {
        self.wf()
    }

    open spec fn serves(&self, align: usize) -> bool {
        is_pow2(align as int) && align <= PAGE_ALIGNMENT
    }

    open spec fn holds(&self, ptr: u64, size: usize, align: usize) -> bool {
        is_pow2(align as int) && self.allocated().contains((ptr as int, block_for(size as int, align as int)))
    }

    open spec fn limit(&self) -> int {
        self.base() + self.data_size()
    }

    proof fn lemma_holds(&self, p: u64, s: usize, a: usize) {
        lemma_block_for_ge(s as int, a as int);
        self.lemma_allocated_within(p as int, block_for(s as int, a as int));
    }

    proof fn lemma_apart(&self, p1: u64, s1: usize, a1: usize, p2: u64, s2: usize, a2: usize) {
        lemma_block_for_ge(s1 as int, a1 as int);
        lemma_block_for_ge(s2 as int, a2 as int);
        self.lemma_allocated_disjoint(p1 as int, block_for(s1 as int, a1 as int), p2 as int, block_for(s2 as int, a2 as int));
    }

    open spec fn next_block(&self, size: usize, align: usize) -> u64 {
        let b = block_for(size as int, align as int);
        if b > self.left() || self.first_free(order_of(b)) > self.max_order() {
            0
        } else {
            self.free_list(self.first_free(order_of(b)))[0]
        }
    }

    /// Hands out a block for `size` bytes aligned to `align`: the head of
    /// the first non-empty free list from the order of `block_for(size,
    /// align)` on, split down to that size.  Gives 0, and changes nothing,
    /// when fewer bytes are left than that or no list has a block.
    fn allocate(&mut self, size: usize, align: usize) -> (r: u64)
        ensures
            final(self).wf(),
            final(self).base() == old(self).base(),
            final(self).data_size() == old(self).data_size(),
            final(self).total() == old(self).total(),
            final(self).max_order() == old(self).max_order(),
            r == 0 <==> block_for(size as int, align as int) > old(self).left()
                || old(self).first_free(order_of(block_for(size as int, align as int))) > old(self).max_order(),
            r == 0 ==> *final(self) == *old(self),
            r != 0 ==> {
                let b = block_for(size as int, align as int);
                &&& r == old(self).free_list(old(self).first_free(order_of(b)))[0]
                &&& !old(self).allocated().contains((r as int, b))
                &&& final(self).allocated() == old(self).allocated().insert((r as int, b))
                &&& final(self).left() == old(self).left() - b
                &&& r as int % align as int == 0
                &&& final(self).lists_after_alloc(old(self), r as int, b)
            },
    {
        self.alloc_block(size as u64, align as u64)
    }

    /// Gives back the block at `ptr` that served a request for `size`
    /// bytes aligned to `align`; nothing for 0.
    fn dealloc(&mut self, ptr: u64, size: usize, align: usize)
        ensures
            final(self).wf(),
            final(self).base() == old(self).base(),
            final(self).data_size() == old(self).data_size(),
            final(self).total() == old(self).total(),
            final(self).max_order() == old(self).max_order(),
            ptr == 0 ==> *final(self) == *old(self),
            ptr != 0 ==> {
                let b = block_for(size as int, align as int);
                &&& final(self).allocated() == old(self).allocated().remove((ptr as int, b))
                &&& final(self).left() == old(self).left() + b
                &&& final(self).lists_after_free(old(self), ptr as int, b)
            },
    {
        self.free_block(ptr, size as u64, align as u64)
    }

    /// Moves the block at `old_ptr`, which served `old_size` bytes aligned
    /// to `align`, to one for `new_size` bytes: keeps it when the sizes are
    /// equal, else hands out a new block and, when that succeeded, gives
    /// back the old one after copying the first `min(old_size, new_size)`
    /// bytes over.
    fn realloc(&mut self, mem: &mut Vec<u8>, old_ptr: u64, old_size: usize, new_size: usize, align: usize) -> (r: u64)
        ensures
            final(self).wf(),
            final(self).base() == old(self).base(),
            final(self).data_size() == old(self).data_size(),
            final(self).total() == old(self).total(),
            final(self).max_order() == old(self).max_order(),
            new_size == old_size ==> r == old_ptr && *final(self) == *old(self),
            new_size != old_size ==> {
                let b = block_for(new_size as int, align as int);
                let bo = block_for(old_size as int, align as int);
                &&& (r == 0 <==> b > old(self).left() || old(self).first_free(order_of(b)) > old(self).max_order())
                &&& r == 0 ==> *final(self) == *old(self)
                &&& r != 0 ==> {
                    &&& r == old(self).free_list(old(self).first_free(order_of(b)))[0]
                    &&& r as int % align as int == 0
                    &&& forall|s: int| !#[trigger] old(self).allocated().contains((r as int, s))
                    &&& old_ptr == 0 ==> final(self).allocated() == old(self).allocated().insert((r as int, b))
                        && final(self).left() == old(self).left() - b
                    &&& old_ptr != 0 ==> final(self).allocated() == old(self).allocated().insert((r as int, b)).remove(
                        (old_ptr as int, bo),
                    ) && final(self).left() == old(self).left() - b + bo
                }
            },
    {
        self.realloc_block(mem, old_ptr, old_size as u64, new_size as u64, align as u64)
    }
}

impl RKallocExt for AllocBuddy {
    /// Gives back the block at `ptr`, whatever its size; nothing for 0.
    fn dealloc_ext(&mut self, ptr: u64)
        ensures
            final(self).wf(),
            final(self).base() == old(self).base(),
            final(self).data_size() == old(self).data_size(),
            final(self).total() == old(self).total(),
            final(self).max_order() == old(self).max_order(),
            ptr == 0 ==> *final(self) == *old(self),
            forall|s: int| ptr != 0 && #[trigger] old(self).allocated().contains((ptr as int, s)) ==> {
                &&& final(self).allocated() == old(self).allocated().remove((ptr as int, s))
                &&& final(self).left() == old(self).left() + s
                &&& final(self).lists_after_free(old(self), ptr as int, s)
            },
    {
        proof {
            if ptr != 0 {
                let (s, a) = choose|s: usize, a: usize| old(self).holds(ptr, s, a);
                assert(old(self).allocated().contains((ptr as int, block_for(s as int, a as int))));
            }
        }
        self.dealloc_any(ptr)
    }

    /// `realloc` for a block whose size is read from the allocator, with
    /// the smallest alignment; a null `old_ptr` asks for a new block.
    fn realloc_ext(&mut self, mem: &mut Vec<u8>, old_ptr: u64, new_size: usize) -> (r: u64)
        ensures
            final(self).wf(),
            final(self).base() == old(self).base(),
            final(self).data_size() == old(self).data_size(),
            final(self).total() == old(self).total(),
            final(self).max_order() == old(self).max_order(),
            old_ptr == 0 ==> final(mem)@ == old(mem)@,
            forall|s0: int| old_ptr != 0 && #[trigger] old(self).allocated().contains((old_ptr as int, s0)) ==>
                final(mem)@ == if new_size != s0 && r != 0 {
                    copied(old(mem)@, old_ptr as int, r as int, if s0 < new_size { s0 } else { new_size as int })
                } else {
                    old(mem)@
                },
            old_ptr == 0 ==> {
                let b = block_for(new_size as int, MIN_SIZE as int);
                &&& (r == 0 <==> b > old(self).left() || old(self).first_free(order_of(b)) > old(self).max_order())
                &&& r == 0 ==> *final(self) == *old(self)
                &&& r != 0 ==> final(self).allocated() == old(self).allocated().insert((r as int, b))
                    && final(self).left() == old(self).left() - b
                    && r == old(self).free_list(old(self).first_free(order_of(b)))[0]
            },
            forall|s0: int| old_ptr != 0 && #[trigger] old(self).allocated().contains((old_ptr as int, s0)) ==> {
                let b = block_for(new_size as int, MIN_SIZE as int);
                &&& new_size == s0 ==> r == old_ptr && *final(self) == *old(self)
                &&& new_size != s0 ==> {
                    &&& (r == 0 <==> b > old(self).left() || old(self).first_free(order_of(b)) > old(self).max_order())
                    &&& r == 0 ==> *final(self) == *old(self)
                    &&& r != 0 ==> final(self).allocated() == old(self).allocated().insert((r as int, b)).remove(
                        (old_ptr as int, s0),
                    ) && final(self).left() == old(self).left() - b + s0
                        && r == old(self).free_list(old(self).first_free(order_of(b)))[0]
                }
            },
    {
        proof {
            if old_ptr != 0 {
                let (s, a) = choose|s: usize, a: usize| old(self).holds(old_ptr, s, a);
                assert(old(self).allocated().contains((old_ptr as int, block_for(s as int, a as int))));
            }
        }
        self.realloc_any(mem, old_ptr, new_size as u64)
    }
}

impl RKallocState for AllocBuddy {
    /// Bytes in the region.
    fn total_size(&self) -> (n: usize)
        ensures
            self.total() <= usize::MAX ==> n == self.total(),
    {
        self.data.size_total as usize
    }

    /// Bytes not handed out.
    fn free_size(&self) -> (n: usize)
        ensures
            self.left() <= usize::MAX ==> n == self.left(),
    {
        self.data.size_left as usize
    }
}

/// `x` is `d` times its quotient plus its remainder.
proof fn lemma_fundamental_div(x: int, d: int)
    requires
        d > 0,
    ensures
        x == d * (x / d) + x % d,
        0 <= x % d < d,
{
    vstd::arithmetic::div_mod::lemma_fundamental_div_mod(x, d);
}

/// One step up from a node `d` levels below node `j`.
proof fn lemma_below_step(j2: int, j: int, d: int)
    requires
        d >= 1,
        j2 >= 0,
        j2 / blk(d) == j,
    ensures
        j2 == 2 * (j2 / 2) || j2 == 2 * (j2 / 2) + 1,
        j2 / 2 >= 0,
        d == 1 ==> j2 / 2 == j,
        d > 1 ==> (j2 / 2) / blk(d - 1) == j,
{
    lemma_blk_adds(1, d - 1);
    lemma_blk(0);
    assert(blk(0) == 1) by { lemma2_facts(); }
    vstd::arithmetic::div_mod::lemma_div_denominator(j2, 2, blk(d - 1));
    if d == 1 {
        assert(blk(d - 1) == 1);
        assert((j2 / 2) / 1 == j2 / 2);
    }
}

impl Data {
    /// `self` and `other` differ in the free list of order `k` at most.
    spec fn same_but_ring(&self, other: &Data, k: int) -> bool {
        &&& self.free_list_head@.len() == other.free_list_head@.len()
        &&& forall|i: int| 0 <= i < self.free_list_head@.len() && i != k - MIN_ORDER
            ==> #[trigger] self.free_list_head@[i] == other.free_list_head@[i]
        &&& self.max_order == other.max_order
        &&& self.root_order == other.root_order
        &&& self.meta_data == other.meta_data
        &&& self.base == other.base
        &&& self.size_data == other.size_data
        &&& self.size_left == other.size_left
        &&& self.size_total == other.size_total
        &&& self.status == other.status
        &&& self.live == other.live
    }

    /// Puts `node` into the free list of order `order`, right after its
    /// head.
    fn insert_node(&mut self, order: u64, node: u64)
        requires
            MIN_ORDER <= order <= MAX_ORDER,
            old(self).free_list_head@.len() == MAX_ORDER - MIN_ORDER + 1,
        ensures
            final(self).same_but_ring(old(self), order as int),
            final(self).ring(order as int) == if old(self).ring(order as int).len() == 0 {
                seq![node]
            } else {
                old(self).ring(order as int).insert(1, node)
            },
            forall|x: u64| #[trigger] final(self).ring(order as int).contains(x)
                <==> old(self).ring(order as int).contains(x) || x == node,
            old(self).ring(order as int).no_duplicates() && !old(self).ring(order as int).contains(node)
                ==> final(self).ring(order as int).no_duplicates(),
    {
        let idx = (order - MIN_ORDER) as usize;
        let ghost r0 = self.ring(order as int);
        if self.free_list_head[idx].len() == 0 {
            self.free_list_head[idx].push(node);
            proof {
                assert(self.ring(order as int) =~= seq![node]);
            }
        } else {
            self.free_list_head[idx].insert(1, node);
        }
        proof {
            let r1 = self.ring(order as int);
            assert forall|x: u64| #[trigger] r1.contains(x) <==> r0.contains(x) || x == node by {
                if r1.contains(x) {
                    let q = r1.index_of(x);
                    if x != node {
                        if r0.len() > 0 {
                            if q == 0 {
                                assert(r0[0] == x);
                            } else {
                                assert(q >= 2);
                                assert(r0[q - 1] == x);
                            }
                        }
                    }
                }
                if r0.contains(x) {
                    let q = r0.index_of(x);
                    if q == 0 {
                        assert(r1[0] == x);
                    } else {
                        assert(r1[q + 1] == x);
                    }
                }
                if x == node {
                    if r0.len() == 0 {
                        assert(r1[0] == x);
                    } else {
                        assert(r1[1] == x);
                    }
                }
            }
            if r0.no_duplicates() && !r0.contains(node) {
                assert forall|a: int, b: int| 0 <= a < b < r1.len() implies r1[a] != r1[b] by {
                    if r0.len() > 0 {
                        let fa = if a == 0 { 0 } else if a == 1 { -1 } else { a - 1 };
                        let fb = if b == 0 { 0 } else if b == 1 { -1 } else { b - 1 };
                        if fa >= 0 && fb >= 0 {
                            assert(r1[a] == r0[fa] && r1[b] == r0[fb]);
                        } else if fa < 0 {
                            assert(r1[b] == r0[fb]);
                        } else {
                            assert(r1[a] == r0[fa]);
                        }
                    }
                }
            }
        }
    }

    /// Takes `node` out of the free list of order `order`; the head becomes
    /// the node before it.
    fn remove_node(&mut self, order: u64, node: u64)
        requires
            MIN_ORDER <= order <= MAX_ORDER,
            old(self).free_list_head@.len() == MAX_ORDER - MIN_ORDER + 1,
            old(self).ring(order as int).contains(node),
            old(self).ring(order as int).no_duplicates(),
        ensures
            final(self).same_but_ring(old(self), order as int),
            final(self).ring(order as int).no_duplicates(),
            final(self).ring(order as int).len() == old(self).ring(order as int).len() - 1,
            forall|x: u64| #[trigger] final(self).ring(order as int).contains(x)
                <==> old(self).ring(order as int).contains(x) && x != node,
    {
        let idx = (order - MIN_ORDER) as usize;
        let n = self.free_list_head[idx].len();
        let mut p: usize = 0;
        while self.free_list_head[idx][p] != node
            invariant
                MIN_ORDER <= order <= MAX_ORDER,
                idx == order - MIN_ORDER,
                self.free_list_head@.len() == MAX_ORDER - MIN_ORDER + 1,
                n == self.ring(order as int).len(),
                n == self.free_list_head@[idx as int]@.len(),
                self.ring(order as int).contains(node),
                0 <= p < n,
                forall|q: int| 0 <= q < p ==> self.ring(order as int)[q] != node,
            decreases n - p,
        {
            p = p + 1;
        }
        let ghost old_ring = self.ring(order as int);
        let mut rest: Vec<u64> = Vec::new();
        let pre: usize = if p == 0 { n - 1 } else { p - 1 };
        let mut k: usize = 0;
        while k < n - 1
            invariant
                MIN_ORDER <= order <= MAX_ORDER,
                idx == order - MIN_ORDER,
                self.free_list_head@.len() == MAX_ORDER - MIN_ORDER + 1,
                old_ring == self.ring(order as int),
                n == old_ring.len(),
                0 <= p < n,
                old_ring[p as int] == node,
                pre == (if p == 0 { n - 1 } else { p - 1 }),
                k <= n - 1,
                rest@.len() == k,
                forall|q: int| 0 <= q < k ==> #[trigger] rest@[q] == old_ring[if q == 0 { pre as int } else if pre + q + 1 >= n { pre + q + 1 - n } else { pre + q + 1 }],
            decreases n - 1 - k,
        {
            let src = if k == 0 { pre } else if k + 1 >= n - pre { k + 1 - (n - pre) } else { pre + k + 1 };
            rest.push(self.free_list_head[idx][src]);
            k = k + 1;
        }
        let ghost from = |q: int| if q == 0 { pre as int } else if pre + q + 1 >= n { pre + q + 1 - n } else { pre + q + 1 };
        proof {
            assert forall|q: int| 0 <= q < n - 1 implies 0 <= #[trigger] from(q) < n && from(q) != p by {}
            assert forall|a: int, b: int| 0 <= a < b < n - 1 implies #[trigger] from(a) != #[trigger] from(b) by {}
        }
        self.free_list_head.set(idx, rest);
        proof {
            let r = self.ring(order as int);
            assert(r.len() == n - 1);
            assert forall|a: int, b: int| 0 <= a < b < r.len() implies r[a] != r[b] by {
                assert(r[a] == old_ring[from(a)]);
                assert(r[b] == old_ring[from(b)]);
            }
            assert forall|x: u64| #[trigger] r.contains(x) <==> old_ring.contains(x) && x != node by {
                if r.contains(x) {
                    let q = r.index_of(x);
                    assert(r[q] == old_ring[from(q)]);
                    assert(old_ring[from(q)] != old_ring[p as int]);
                }
                if old_ring.contains(x) && x != node {
                    let i = old_ring.index_of(x);
                    assert(i != p);
                    let q = if i == pre { 0 } else if i > pre { i - pre - 1 } else { i + n - pre - 1 };
                    assert(from(q) == i);
                    assert(r[q] == x);
                }
            }
            assert forall|i: int| 0 <= i < self.free_list_head@.len() && i != order - MIN_ORDER
                implies #[trigger] self.free_list_head@[i] == old(self).free_list_head@[i] by {}
        }
    }
}

} // verus!
