//! A mailbox: a ring buffer of messages, which are machine words.
//!
//! A mailbox made for `size` messages has `size + 1` slots; the reading
//! position follows the writing position around the ring, and the two
//! meet only when the mailbox is empty.
use vstd::prelude::*;
use crate::rkalloc::RKalloc;

verus! {

/// The slots of a mailbox.
pub const MBOX_SLOTS: usize = 128;

/// A mailbox.
pub struct Mbox {
    /// Number of slots in use: the size asked for, plus one.
    pub len: u128,
    /// Slot of the next message to read.
    pub readpos: i64,
    /// Slot of the next message to write.
    pub writepos: i64,
    pub msgs: [u64; 128],
    /// Where the allocator placed the mailbox.
    pub addr: u64,
}

/// Position `k` slots after `start` in a ring of `len` slots.
pub open spec fn ring_pos(start: int, k: int, len: int) -> int {
    if start + k < len { start + k } else { start + k - len }
}

proof fn lemma_mod_step(x: int, len: int)
    requires
        0 <= x < len,
    ensures
        (x + 1) % len == if x + 1 < len { x + 1 } else { 0 },
{
    if x + 1 < len {
        vstd::arithmetic::div_mod::lemma_fundamental_div_mod_converse(x + 1, len, 0, x + 1);
    } else {
        vstd::arithmetic::div_mod::lemma_fundamental_div_mod_converse(x + 1, len, 1, 0);
    }
}

impl Mbox {
    /// The positions are slots of the ring, which fits the array.
    pub open spec fn wf(&self) -> bool {
        &&& 1 <= self.len <= MBOX_SLOTS
        &&& 0 <= self.readpos < self.len
        &&& 0 <= self.writepos < self.len
    }

    /// Number of messages waiting.
    pub open spec fn count(&self) -> int {
        if self.writepos >= self.readpos {
            self.writepos - self.readpos
        } else {
            self.writepos + self.len - self.readpos
        }
    }

    /// The messages waiting, the oldest first.
    pub open spec fn contents(&self) -> Seq<u64> {
        Seq::new(self.count() as nat, |k: int| self.msgs[ring_pos(self.readpos as int, k, self.len as int)])
    }

    /// An empty mailbox for `size` messages, placed in a block of `a` with
    /// room for the mailbox and its `size + 1` slots; `None` when `a` has no
    /// such block.
    pub fn new<A: RKalloc>(size: u128, a: &mut A) -> (m: Option<Mbox>)
        requires
            size + 1 <= usize::MAX,
            core::mem::size_of::<Mbox>() + core::mem::size_of::<u64>() * (size + 1) <= usize::MAX,
            old(a).inv(),
            old(a).serves(core::mem::align_of::<Mbox>()),
        ensures
            final(a).inv(),
            forall|q: u64, s: usize, al: usize| #[trigger] old(a).holds(q, s, al) ==> final(a).holds(q, s, al),
            ({
                let bytes = (core::mem::size_of::<Mbox>() + core::mem::size_of::<u64>() * (size + 1)) as usize;
                let p = old(a).next_block(bytes, core::mem::align_of::<Mbox>());
                &&& m is None <==> p == 0
                &&& m matches Some(b) ==> {
                    &&& b.len == size + 1
                    &&& b.readpos == 0
                    &&& b.writepos == 0
                    &&& b.addr == p
                    &&& final(a).holds(p, bytes, core::mem::align_of::<Mbox>())
                    &&& size < MBOX_SLOTS ==> b.wf() && b.contents() == Seq::<u64>::empty()
                }
            }),
    {
        let bytes = core::mem::size_of::<Mbox>() + core::mem::size_of::<u64>() * ((size + 1) as usize);
        let addr = a.allocate(bytes, core::mem::align_of::<Mbox>());
        if addr == 0 {
            return None;
        }
        let m = Mbox { len: size + 1, readpos: 0, writepos: 0, msgs: [0; 128], addr };
        proof {
            assert(m.contents() =~= Seq::<u64>::empty());
        }
        Some(m)
    }

    /// Takes the oldest message; the mailbox must not be empty.
    pub fn do_mbox_recv(&mut self) -> (r: Option<u64>)
        requires
            old(self).wf(),
            old(self).readpos != old(self).writepos,
        ensures
            final(self).wf(),
            final(self).len == old(self).len,
            r == Some(old(self).contents()[0]),
            final(self).contents() == old(self).contents().drop_first(),
    {
        let ret = self.msgs[self.readpos as usize];
        let len = self.len as i64;
        proof {
            lemma_mod_step(self.readpos as int, len as int);
        }
        self.readpos = (self.readpos + 1) % len;
        proof {
            assert(self.contents() =~= old(self).contents().drop_first());
        }
        Some(ret)
    }

    /// Puts `msg` in as the newest message; the mailbox must have room.
    pub fn do_mbox_post(&mut self, msg: u64)
        requires
            old(self).wf(),
            old(self).count() + 1 < old(self).len,
        ensures
            final(self).wf(),
            final(self).len == old(self).len,
            final(self).contents() == old(self).contents().push(msg),
    {
        let w = self.writepos as usize;
        self.msgs[w] = msg;
        let len = self.len as i64;
        proof {
            lemma_mod_step(self.writepos as int, len as int);
        }
        self.writepos = (self.writepos + 1) % len;
        proof {
            assert(self.contents() =~= old(self).contents().push(msg));
        }
    }

    /// Posts `msg`.
    pub fn mbox_post(&mut self, msg: u64)
        requires
            old(self).wf(),
            old(self).count() + 1 < old(self).len,
        ensures
            final(self).wf(),
            final(self).len == old(self).len,
            final(self).contents() == old(self).contents().push(msg),
    {
        self.do_mbox_post(msg);
    }

    /// Posts `msg` and gives 0.
    pub fn mbox_post_try(&mut self, msg: u64) -> (r: i32)
        requires
            old(self).wf(),
            old(self).count() + 1 < old(self).len,
        ensures
            r == 0,
            final(self).wf(),
            final(self).len == old(self).len,
            final(self).contents() == old(self).contents().push(msg),
    {
        self.do_mbox_post(msg);
        0
    }

    /// Posts `msg` and gives 0, the time it waited.
    pub fn mbox_post_to(&mut self, msg: u64, timeout: u64) -> (r: u64)
        requires
            old(self).wf(),
            old(self).count() + 1 < old(self).len,
        ensures
            r == 0,
            final(self).wf(),
            final(self).len == old(self).len,
            final(self).contents() == old(self).contents().push(msg),
    {
        let ret: u64 = 0;
        if ret != u64::MAX {
            self.do_mbox_post(msg);
        }
        ret
    }

    /// Takes the oldest message.
    pub fn mbox_recv(&mut self) -> (r: u64)
        requires
            old(self).wf(),
            old(self).readpos != old(self).writepos,
        ensures
            final(self).wf(),
            final(self).len == old(self).len,
            r == old(self).contents()[0],
            final(self).contents() == old(self).contents().drop_first(),
    {
        match self.do_mbox_recv() {
            None => 0,
            Some(x) => x,
        }
    }

    /// Takes the oldest message and gives 0 with it.
    pub fn mbox_recv_try(&mut self) -> (r: (i32, u64))
        requires
            old(self).wf(),
            old(self).readpos != old(self).writepos,
        ensures
            final(self).wf(),
            final(self).len == old(self).len,
            r == (0i32, old(self).contents()[0]),
            final(self).contents() == old(self).contents().drop_first(),
    {
        let m = match self.do_mbox_recv() {
            None => 0,
            Some(x) => x,
        };
        (0, m)
    }

    /// Takes the oldest message and gives 0, the time it waited, with it.
    pub fn mbox_recv_to(&mut self, timeout: u64) -> (r: (u64, u64))
        requires
            old(self).wf(),
            old(self).readpos != old(self).writepos,
        ensures
            final(self).wf(),
            final(self).len == old(self).len,
            r == (0u64, old(self).contents()[0]),
            final(self).contents() == old(self).contents().drop_first(),
    {
        let ret: u64 = 0;
        let mut m: u64 = 0;
        if ret != u64::MAX {
            m = match self.do_mbox_recv() {
                None => 0,
                Some(x) => x,
            };
        }
        (ret, m)
    }

    /// A message posted to an empty mailbox is the one read next, and
    /// reading it empties the mailbox again.
    pub proof fn lemma_post_recv(m0: &Mbox, m1: &Mbox, m2: &Mbox, msg: u64, r: u64)
        requires
            m0.contents() == Seq::<u64>::empty(),
            m1.contents() == m0.contents().push(msg),
            r == m1.contents()[0],
            m2.contents() == m1.contents().drop_first(),
        ensures
            r == msg,
            m2.contents() == Seq::<u64>::empty(),
    {
        assert(m2.contents() =~= Seq::<u64>::empty());
    }
}

} // verus!
