//! A mailbox for messages of any type, guarded by two semaphores: one
//! counts the messages waiting, the other the free slots.
//!
//! A mailbox for `size` messages has `size + 1` slots; a slot holds a
//! message from its posting to its reading.  Blocking is the scheduler's
//! work: the blocking operations are for a mailbox that will not block
//! them, the trying ones say when they would have blocked.
use vstd::prelude::*;
use crate::errno::Errno;
use crate::mbox::ring_pos;
use crate::rklock::semaphore::Semaphore;
use crate::rkalloc::RKalloc;

verus! {

/// A mailbox of messages of type `T`.
pub struct Mbox<T> {
    len: usize,
    readsem: Semaphore,
    readpos: usize,
    writesem: Semaphore,
    writepos: usize,
    msgs: Vec<Option<T>>,
    /// Where the allocator placed the slots.
    msgs_addr: u64,
}

proof fn lemma_step(x: int, len: int)
    requires
        0 <= x < len,
    ensures
        (if x + 1 != len { x + 1 } else { 0 }) == ring_pos(x, 1, len),
{
}

impl<T> Mbox<T> {
    /// Number of slots.
    pub closed spec fn slots(&self) -> int {
        self.len as int
    }

    /// Number of messages waiting.
    pub closed spec fn count(&self) -> int {
        if self.writepos >= self.readpos {
            self.writepos - self.readpos
        } else {
            self.writepos + self.len - self.readpos
        }
    }

    /// The slot `k` places after the reading position is in use.
    spec fn in_window(&self, i: int) -> bool {
        exists|k: int| 0 <= k < self.count() && i == ring_pos(self.readpos as int, k, self.len as int)
    }

    /// The semaphores count the messages and the free slots, and exactly
    /// the slots in use hold a message.
    pub closed spec fn wf(&self) -> bool {
        &&& self.ring_wf()
        &&& self.readsem.value() == self.count()
        &&& self.writesem.value() == self.len - 1 - self.count()
    }

    /// The ring without its semaphores.
    spec fn ring_wf(&self) -> bool {
        &&& 1 <= self.len <= i32::MAX + 1
        &&& self.msgs@.len() == self.len
        &&& self.readpos < self.len
        &&& self.writepos < self.len
        &&& forall|i: int| 0 <= i < self.len ==> ((#[trigger] self.msgs@[i]) is Some <==> self.in_window(i))
    }

    /// The messages waiting, the oldest first.
    pub closed spec fn contents(&self) -> Seq<T> {
        Seq::new(
            self.count() as nat,
            |k: int| self.msgs@[ring_pos(self.readpos as int, k, self.len as int)]->0,
        )
    }

    /// In a well-formed mailbox, the messages waiting are as many as
    /// `count` says, and fewer than the slots.
    pub proof fn lemma_count(&self)
        requires
            self.wf(),
        ensures
            self.count() == self.contents().len(),
            0 <= self.count() < self.slots(),
    {
    }

    /// The ring and its contents do not depend on the semaphores.
    proof fn lemma_frame(a: &Self, b: &Self)
        requires
            a.len == b.len,
            a.msgs == b.msgs,
            a.readpos == b.readpos,
            a.writepos == b.writepos,
        ensures
            a.ring_wf() == b.ring_wf(),
            a.count() == b.count(),
            a.contents() == b.contents(),
    {
        assert forall|i: int| a.in_window(i) == b.in_window(i) by {}
        if a.ring_wf() {
            assert forall|i: int| 0 <= i < b.len implies ((#[trigger] b.msgs@[i]) is Some <==> b.in_window(i)) by {
                assert(a.msgs@[i] is Some <==> a.in_window(i));
            }
        }
        if b.ring_wf() {
            assert forall|i: int| 0 <= i < a.len implies ((#[trigger] a.msgs@[i]) is Some <==> a.in_window(i)) by {
                assert(b.msgs@[i] is Some <==> b.in_window(i));
            }
        }
        assert(a.contents() =~= b.contents());
    }

    /// Where the allocator placed the slots.
    pub closed spec fn slots_addr(&self) -> u64 {
        self.msgs_addr
    }

    /// An empty mailbox for `size` messages, its slots taken from `a`;
    /// `None` when `a` has no block for them.
    pub fn new<A: RKalloc>(size: usize, a: &mut A) -> (m: Option<Self>)
        requires
            size <= i32::MAX,
            (size + 1) * core::mem::size_of::<T>() <= usize::MAX,
            old(a).inv(),
            old(a).serves(core::mem::align_of::<T>()),
        ensures
            final(a).inv(),
            forall|q: u64, s: usize, al: usize| #[trigger] old(a).holds(q, s, al) ==> final(a).holds(q, s, al),
            ({
                let bytes = ((size + 1) * core::mem::size_of::<T>()) as usize;
                let p = old(a).next_block(bytes, core::mem::align_of::<T>());
                &&& m is None <==> p == 0
                &&& m matches Some(b) ==> {
                    &&& b.wf()
                    &&& b.slots() == size + 1
                    &&& b.contents() == Seq::<T>::empty()
                    &&& b.slots_addr() == p
                    &&& final(a).holds(p, bytes, core::mem::align_of::<T>())
                }
            }),
    {
        let bytes = (size + 1) * core::mem::size_of::<T>();
        let addr = a.allocate(bytes, core::mem::align_of::<T>());
        if addr == 0 {
            return None;
        }
        let mut msgs: Vec<Option<T>> = Vec::new();
        let mut k: usize = 0;
        while k < size + 1
            invariant
                k <= size + 1,
                size <= i32::MAX,
                msgs@.len() == k,
                forall|i: int| 0 <= i < k ==> msgs@[i] is None,
            decreases size + 1 - k,
        {
            msgs.push(None);
            k = k + 1;
        }
        let m = Self {
            len: size + 1,
            readsem: Semaphore::new(0),
            writesem: Semaphore::new(size as i32),
            readpos: 0,
            writepos: 0,
            msgs,
            msgs_addr: addr,
        };
        proof {
            assert(m.contents() =~= Seq::<T>::empty());
        }
        Some(m)
    }

    /// Reads the oldest message, once the reading semaphore was taken.
    fn do_mbox_recv(&mut self) -> (r: T)
        requires
            old(self).ring_wf(),
            old(self).count() > 0,
            old(self).readsem.value() == old(self).count() - 1,
            old(self).writesem.value() == old(self).len - 1 - old(self).count(),
        ensures
            final(self).wf(),
            final(self).slots() == old(self).slots(),
            r == old(self).contents()[0],
            final(self).contents() == old(self).contents().drop_first(),
    {
        proof {
            assert(self.in_window(self.readpos as int)) by {
                assert(self.readpos as int == ring_pos(self.readpos as int, 0, self.len as int));
            }
        }
        let r = self.readpos;
        let ret = self.msgs[r].take();
        self.readpos = if r + 1 != self.len { r + 1 } else { 0 };
        self.writesem.signal();
        proof {
            lemma_step(r as int, self.len as int);
            assert forall|i: int| 0 <= i < self.len implies ((#[trigger] self.msgs@[i]) is Some <==> self.in_window(i)) by {
                assert(old(self).msgs@[i] is Some <==> old(self).in_window(i));
                if self.in_window(i) {
                    let k = choose|k: int| 0 <= k < self.count() && i == ring_pos(self.readpos as int, k, self.len as int);
                    assert(i == ring_pos(r as int, k + 1, self.len as int));
                }
                if old(self).in_window(i) && i != r {
                    let k = choose|k: int| 0 <= k < old(self).count() && i == ring_pos(r as int, k, self.len as int);
                    assert(k != 0);
                    assert(i == ring_pos(self.readpos as int, k - 1, self.len as int));
                }
                if i == r {
                    if self.in_window(i) {
                        let k = choose|k: int| 0 <= k < self.count() && i == ring_pos(self.readpos as int, k, self.len as int);
                        assert(false);
                    }
                }
            }
            assert(self.contents() =~= old(self).contents().drop_first());
        }
        ret.unwrap()
    }

    /// Writes `msg` as the newest message, once the writing semaphore was
    /// taken.
    fn do_mbox_post(&mut self, msg: T)
        requires
            old(self).ring_wf(),
            old(self).count() + 1 < old(self).slots(),
            old(self).readsem.value() == old(self).count(),
            old(self).writesem.value() == old(self).len - 2 - old(self).count(),
        ensures
            final(self).wf(),
            final(self).slots() == old(self).slots(),
            final(self).contents() == old(self).contents().push(msg),
    {
        let w = self.writepos;
        proof {
            if old(self).in_window(w as int) {
                let k = choose|k: int| 0 <= k < old(self).count() && w as int == ring_pos(self.readpos as int, k, self.len as int);
                assert(false);
            }
        }
        self.msgs.set(w, Some(msg));
        self.writepos = if w + 1 != self.len { w + 1 } else { 0 };
        self.readsem.signal();
        proof {
            lemma_step(w as int, self.len as int);
            assert forall|i: int| 0 <= i < self.len implies ((#[trigger] self.msgs@[i]) is Some <==> self.in_window(i)) by {
                assert(old(self).msgs@[i] is Some <==> old(self).in_window(i));
                if i == w {
                    assert(i == ring_pos(self.readpos as int, old(self).count(), self.len as int));
                }
                if self.in_window(i) && i != w {
                    let k = choose|k: int| 0 <= k < self.count() && i == ring_pos(self.readpos as int, k, self.len as int);
                    assert(k != old(self).count());
                    assert(old(self).in_window(i));
                }
                if old(self).in_window(i) {
                    let k = choose|k: int| 0 <= k < old(self).count() && i == ring_pos(self.readpos as int, k, self.len as int);
                    assert(self.in_window(i));
                }
            }
            assert(self.contents() =~= old(self).contents().push(msg));
        }
    }

    /// Posts `msg`; the mailbox has a free slot, so that the caller does
    /// not block.
    pub fn mbox_post(&mut self, msg: T)
        requires
            old(self).wf(),
            old(self).count() + 1 < old(self).slots(),
        ensures
            final(self).wf(),
            final(self).slots() == old(self).slots(),
            final(self).contents() == old(self).contents().push(msg),
    {
        let ghost pre = *self;
        let must_block = self.writesem.wait();
        proof {
            Self::lemma_frame(&pre, self);
        }
        self.do_mbox_post(msg);
    }

    /// Posts `msg` if there is a free slot, else fails with `NoBufS`.
    pub fn mbox_post_try(&mut self, msg: T) -> (r: Result<(), Errno>)
        requires
            old(self).wf(),
        ensures
            final(self).wf(),
            final(self).slots() == old(self).slots(),
            r is Ok <==> old(self).count() + 1 < old(self).slots(),
            r is Ok ==> final(self).contents() == old(self).contents().push(msg),
            r is Err ==> r == Err::<(), Errno>(Errno::NoBufS) && final(self).contents() == old(self).contents(),
    {
        let ghost pre = *self;
        let taken = self.writesem.try_wait();
        proof {
            Self::lemma_frame(&pre, self);
        }
        if !taken {
            return Err(Errno::NoBufS);
        }
        self.do_mbox_post(msg);
        Ok(())
    }

    /// Takes the oldest message; the mailbox holds one, so that the caller
    /// does not block.
    pub fn mbox_recv(&mut self) -> (r: T)
        requires
            old(self).wf(),
            old(self).count() > 0,
        ensures
            final(self).wf(),
            final(self).slots() == old(self).slots(),
            r == old(self).contents()[0],
            final(self).contents() == old(self).contents().drop_first(),
    {
        let ghost pre = *self;
        let must_block = self.readsem.wait();
        proof {
            Self::lemma_frame(&pre, self);
        }
        self.do_mbox_recv()
    }

    /// Takes the oldest message if there is one, else fails with `NoBufS`.
    pub fn mbox_recv_try(&mut self) -> (r: Result<T, Errno>)
        requires
            old(self).wf(),
        ensures
            final(self).wf(),
            final(self).slots() == old(self).slots(),
            r is Ok <==> old(self).count() > 0,
            r is Ok ==> r == Ok::<T, Errno>(old(self).contents()[0]) && final(self).contents() == old(self).contents().drop_first(),
            r is Err ==> r == Err::<T, Errno>(Errno::NoBufS) && final(self).contents() == old(self).contents(),
    {
        let ghost pre = *self;
        let taken = self.readsem.try_wait();
        proof {
            Self::lemma_frame(&pre, self);
        }
        if !taken {
            Err(Errno::NoBufS)
        } else {
            Ok(self.do_mbox_recv())
        }
    }

    /// Messages come out in the order they went in: after posting `a` and
    /// `b` to an empty mailbox, reading gives `a`, then `b`.
    pub proof fn lemma_fifo(m0: &Self, m1: &Self, m2: &Self, m3: &Self, a: T, b: T, ra: T)
        requires
            m0.contents() == Seq::<T>::empty(),
            m1.contents() == m0.contents().push(a),
            m2.contents() == m1.contents().push(b),
            ra == m2.contents()[0],
            m3.contents() == m2.contents().drop_first(),
        ensures
            ra == a,
            m3.contents()[0] == b,
            m3.contents().len() == 1,
    {
    }
}

} // verus!
