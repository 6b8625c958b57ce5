//! The interface of memory allocators, and the simplest one: a bump
//! allocator that never takes memory back.
//!
//! Addresses are plain integers; 0 stands for no memory.  The memory
//! itself is a vector of bytes indexed by address.
use vstd::prelude::*;

verus! {

/// `m` with the `n` bytes from `from` on copied to `to` on.
pub open spec fn copied(m: Seq<u8>, from: int, to: int, n: int) -> Seq<u8> {
    Seq::new(m.len(), |i: int| if to <= i < to + n { m[from + (i - to)] } else { m[i] })
}

/// `m` with the `n` bytes from `at` on cleared.
pub open spec fn zeroed(m: Seq<u8>, at: int, n: int) -> Seq<u8> {
    Seq::new(m.len(), |i: int| if at <= i < at + n { 0u8 } else { m[i] })
}

/// Copies the `n` bytes at `from` to `to`; the two ranges do not overlap.
pub fn copy_bytes(mem: &mut Vec<u8>, from: u64, to: u64, n: usize)
    requires
        from + n <= old(mem).len(),
        to + n <= old(mem).len(),
        from + n <= to || to + n <= from,
    ensures
        final(mem)@ == copied(old(mem)@, from as int, to as int, n as int),
{
    let ghost m0 = mem@;
    let total = mem.len();
    let f = from as usize;
    let t = to as usize;
    let mut i: usize = 0;
    while i < n
        invariant
            i <= n,
            mem@.len() == m0.len(),
            f == from,
            t == to,
            total == m0.len(),
            f + n <= total,
            t + n <= total,
            f + n <= t || t + n <= f,
            forall|j: int| 0 <= j < m0.len() ==> #[trigger] mem@[j] == if t <= j < t + i { m0[f + (j - t)] } else { m0[j] },
        decreases n - i,
    {
        let b = mem[f + i];
        mem.set(t + i, b);
        i = i + 1;
    }
    assert(mem@ =~= copied(m0, from as int, to as int, n as int));
}

/// Clears the `n` bytes at `at`.
pub fn zero_bytes(mem: &mut Vec<u8>, at: u64, n: usize)
    requires
        at + n <= old(mem).len(),
    ensures
        final(mem)@ == zeroed(old(mem)@, at as int, n as int),
{
    let ghost m0 = mem@;
    let total = mem.len();
    let a = at as usize;
    let mut i: usize = 0;
    while i < n
        invariant
            i <= n,
            mem@.len() == m0.len(),
            a == at,
            total == m0.len(),
            a + n <= total,
            forall|j: int| 0 <= j < m0.len() ==> #[trigger] mem@[j] == if a <= j < a + i { 0u8 } else { m0[j] },
        decreases n - i,
    {
        mem.set(a + i, 0);
        i = i + 1;
    }
    assert(mem@ =~= zeroed(m0, at as int, n as int));
}

/// A memory allocator.  Addresses are plain integers and 0 stands for no
/// memory; the bytes are those of a vector indexed by address that the
/// caller hands in where bytes are cleared or moved.
pub trait RKalloc: Sized {
    /// The allocator's own invariant.
    spec fn inv(&self) -> bool;

    /// Requests aligned to `align` can be served.
    spec fn serves(&self, align: usize) -> bool;

    /// The block at `ptr` was handed out for `size` bytes aligned to
    /// `align` and has not been given back.
    spec fn holds(&self, ptr: u64, size: usize, align: usize) -> bool;

    /// The address of the block that a request for `size` bytes aligned to
    /// `align` gets in this state, or 0 when it cannot be served.
    spec fn next_block(&self, size: usize, align: usize) -> u64;

    /// Every block handed out ends at or below this address.
    spec fn limit(&self) -> int;

    /// A block handed out ends at or below `limit()`.
    proof fn lemma_holds(&self, p: u64, s: usize, a: usize)
        requires
            self.inv(),
            self.holds(p, s, a),
        ensures
            p + s <= self.limit(),
    ;

    /// Two blocks handed out at different addresses do not overlap.
    proof fn lemma_apart(&self, p1: u64, s1: usize, a1: usize, p2: u64, s2: usize, a2: usize)
        requires
            self.inv(),
            self.holds(p1, s1, a1),
            self.holds(p2, s2, a2),
            p1 != p2,
        ensures
            p1 + s1 <= p2 || p2 + s2 <= p1,
    ;

    /// `size` bytes aligned to `align`, or 0: the block `next_block` names,
    /// at an address where no block was handed out.  The blocks already
    /// handed out stay so.
    fn allocate(&mut self, size: usize, align: usize) -> (p: u64)
        requires
            old(self).inv(),
            old(self).serves(align),
        ensures
            final(self).inv(),
            p == old(self).next_block(size, align),
            final(self).limit() == old(self).limit(),
            forall|a: usize| #[trigger] final(self).serves(a) == old(self).serves(a),
            forall|q: u64, s: usize, a: usize| #[trigger] old(self).holds(q, s, a) ==> final(self).holds(q, s, a),
            p != 0 ==> final(self).holds(p, size, align),
            p != 0 ==> forall|s: usize, a: usize| !#[trigger] old(self).holds(p, s, a),
    ;

    /// Gives back the `size` bytes at `ptr`, allocated with `align`;
    /// nothing for 0.  The blocks at other addresses stay handed out.
    fn dealloc(&mut self, ptr: u64, size: usize, align: usize)
        requires
            old(self).inv(),
            ptr == 0 || old(self).holds(ptr, size, align),
        ensures
            final(self).inv(),
            final(self).limit() == old(self).limit(),
            forall|a: usize| #[trigger] final(self).serves(a) == old(self).serves(a),
            forall|q: u64, s: usize, a: usize| #[trigger] old(self).holds(q, s, a) && q != ptr ==> final(self).holds(q, s, a),
            ptr != 0 ==> !final(self).holds(ptr, size, align),
    ;

    /// What `allocate` gives, with its `size` bytes cleared.
    fn alloc_zeroed(&mut self, mem: &mut Vec<u8>, size: usize, align: usize) -> (p: u64)
        requires
            old(self).inv(),
            old(self).serves(align),
            old(self).limit() <= old(mem).len(),
        ensures
            final(self).inv(),
            p == old(self).next_block(size, align),
            final(self).limit() == old(self).limit(),
            final(mem)@ == if p != 0 { zeroed(old(mem)@, p as int, size as int) } else { old(mem)@ },
            forall|a: usize| #[trigger] final(self).serves(a) == old(self).serves(a),
            forall|q: u64, s: usize, a: usize| #[trigger] old(self).holds(q, s, a) ==> final(self).holds(q, s, a),
            p != 0 ==> final(self).holds(p, size, align),
            p != 0 ==> forall|s: usize, a: usize| !#[trigger] old(self).holds(p, s, a),
    {
        let p = self.allocate(size, align);
        if p != 0 {
            proof { self.lemma_holds(p, size, align); }
            zero_bytes(mem, p, size);
        }
        p
    }

    /// Moves the `old_size` bytes at `old_ptr` to a block of `new_size`
    /// bytes: the same block for the same size, else a new one, into which
    /// the first `min(old_size, new_size)` bytes are copied and after which
    /// the old one is given back; when no new block can be had, nothing
    /// changes and 0 comes back.  A null `old_ptr` has no bytes to copy.
    fn realloc(&mut self, mem: &mut Vec<u8>, old_ptr: u64, old_size: usize, new_size: usize, align: usize) -> (p: u64)
        requires
            old(self).inv(),
            old(self).serves(align),
            new_size == old_size || old_ptr == 0 || old(self).holds(old_ptr, old_size, align),
            old(self).limit() <= old(mem).len(),
        ensures
            final(self).inv(),
            final(self).limit() == old(self).limit(),
            forall|a: usize| #[trigger] final(self).serves(a) == old(self).serves(a),
            final(mem)@ == if new_size != old_size && p != 0 && old_ptr != 0 {
                copied(old(mem)@, old_ptr as int, p as int, if old_size < new_size { old_size as int } else { new_size as int })
            } else {
                old(mem)@
            },
            new_size == old_size ==> p == old_ptr && *final(self) == *old(self),
            new_size != old_size ==> p == old(self).next_block(new_size, align),
            new_size != old_size && p != 0 ==> final(self).holds(p, new_size, align),
            new_size != old_size && p != 0 && old_ptr != 0 ==> !final(self).holds(old_ptr, old_size, align),
            forall|q: u64, s: usize, a: usize| #[trigger] old(self).holds(q, s, a) && (p == 0 || q != old_ptr)
                ==> final(self).holds(q, s, a),
    {
        if new_size == old_size {
            return old_ptr;
        }
        let new_ptr = self.allocate(new_size, align);
        if new_ptr != 0 {
            if old_ptr != 0 {
                proof {
                    assert(self.holds(old_ptr, old_size, align));
                    assert(new_ptr != old_ptr);
                    self.lemma_holds(old_ptr, old_size, align);
                    self.lemma_holds(new_ptr, new_size, align);
                    self.lemma_apart(old_ptr, old_size, align, new_ptr, new_size, align);
                }
                let n = if old_size < new_size { old_size } else { new_size };
                copy_bytes(mem, old_ptr, new_ptr, n);
            }
            self.dealloc(old_ptr, old_size, align);
        }
        new_ptr
    }
}

/// An allocator that also takes memory back without being told its size.
pub trait RKallocExt: RKalloc {
    /// Gives back the block at `ptr`; nothing for 0.
    fn dealloc_ext(&mut self, ptr: u64)
        requires
            old(self).inv(),
            ptr == 0 || exists|s: usize, a: usize| old(self).holds(ptr, s, a),
        ensures
            final(self).inv(),
            final(self).limit() == old(self).limit(),
            forall|q: u64, s: usize, a: usize| #[trigger] old(self).holds(q, s, a) && q != ptr ==> final(self).holds(q, s, a),
            ptr != 0 ==> forall|s: usize, a: usize| !#[trigger] final(self).holds(ptr, s, a),
    ;

    /// Moves the block at `old_ptr` to one of `new_size` bytes, as
    /// `realloc` does; for 0, just allocates.
    fn realloc_ext(&mut self, mem: &mut Vec<u8>, old_ptr: u64, new_size: usize) -> (p: u64)
        requires
            old(self).inv(),
            old_ptr == 0 || exists|s: usize, a: usize| old(self).holds(old_ptr, s, a),
            old(self).limit() <= old(mem).len(),
        ensures
            final(self).inv(),
            final(self).limit() == old(self).limit(),
    ;
}

/// An allocator that tells how much memory it has.
pub trait RKallocState {
    /// Bytes in all.
    fn total_size(&self) -> usize;
    /// Bytes free.
    fn free_size(&self) -> usize;
}

/// A bump allocator: it hands out the memory from `base` on, in order,
/// until `base` reaches `top`.
pub struct RKallocEmpty {
    base: u64,
    top: u64,
}

impl RKallocEmpty {
    /// The next address to hand out.
    pub closed spec fn next(&self) -> u64 {
        self.base
    }

    /// The end of the memory.
    pub closed spec fn end(&self) -> u64 {
        self.top
    }

    /// An allocator over the `size` bytes at `base`.
    pub fn new(base: u64, size: u64) -> (a: RKallocEmpty)
        requires
            base + size <= u64::MAX,
        ensures
            a.next() == base,
            a.end() == base + size,
    {
        RKallocEmpty { base, top: base + size }
    }

    /// The next `size` bytes, or 0 once the memory is used up.
    pub fn malloc(&mut self, size: u64) -> (p: u64)
        requires
            old(self).next() + size <= u64::MAX,
        ensures
            old(self).next() >= old(self).end() ==> p == 0 && *final(self) == *old(self),
            old(self).next() < old(self).end() ==> p == old(self).next() && final(self).next() == old(self).next() + size
                && final(self).end() == old(self).end(),
    {
        let p = self.base;
        if p >= self.top {
            return 0;
        }
        self.base = self.base + size;
        p
    }

    /// The next `nmemb * size` bytes, or 0.
    pub fn calloc(&mut self, nmemb: u64, size: u64) -> (p: u64)
        requires
            old(self).next() + nmemb * size <= u64::MAX,
        ensures
            old(self).next() >= old(self).end() ==> p == 0 && *final(self) == *old(self),
            old(self).next() < old(self).end() ==> p == old(self).next() && final(self).next() == old(self).next() + nmemb * size
                && final(self).end() == old(self).end(),
    {
        proof {
            assert(nmemb * size >= 0) by (nonlinear_arith);
        }
        self.malloc(nmemb * size)
    }

    /// The next `size` bytes, whatever the alignment asked for, or 0.
    pub fn memalign(&mut self, align: u64, size: u64) -> (p: u64)
        requires
            old(self).next() + size <= u64::MAX,
        ensures
            old(self).next() >= old(self).end() ==> p == 0 && *final(self) == *old(self),
            old(self).next() < old(self).end() ==> p == old(self).next() && final(self).next() == old(self).next() + size
                && final(self).end() == old(self).end(),
    {
        self.malloc(size)
    }

    /// The block itself: it is never moved.
    pub fn realloc(&mut self, ptr: u64, size: u64) -> (p: u64)
        ensures
            p == ptr,
            *final(self) == *old(self),
    {
        ptr
    }

    /// Nothing: memory is never taken back.
    pub fn free(&mut self, ptr: u64)
        ensures
            *final(self) == *old(self),
    {
    }

    /// Blocks handed out one after the other do not overlap: the second
    /// starts where the first ends.
    pub proof fn lemma_bump(a0: &Self, a1: &Self, a2: &Self, size1: u64, size2: u64, p1: u64, p2: u64)
        requires
            a0.next() < a0.end(),
            p1 == a0.next(),
            a1.next() == a0.next() + size1,
            a1.end() == a0.end(),
            a1.next() < a1.end(),
            p2 == a1.next(),
        ensures
            p1 + size1 == p2,
    {
    }
}

} // verus!
