//! Fixed-capacity single-producer/single-consumer byte ring.

use vstd::prelude::*;

verus! {

/// One operation on a ring.
#[derive(Debug, Clone, Copy, PartialEq, Eq, Structural)]
pub enum RingOp {
    Push(u8),
    Pop,
}

/// What one operation does to the contents of a ring of `cap` bytes: the new
/// contents, and whether it succeeded (a push that fits, a pop of a byte).
pub open spec fn ring_apply(cap: nat, s: Seq<u8>, op: RingOp) -> (Seq<u8>, bool) {
    match op {
        RingOp::Push(b) => if s.len() < cap {
            (s.push(b), true)
        } else {
            (s, false)
        },
        RingOp::Pop => if s.len() > 0 {
            (s.drop_first(), true)
        } else {
            (s, false)
        },
    }
}

/// The contents of a new ring of `cap` bytes after `ops`.
pub open spec fn ring_run(cap: nat, ops: Seq<RingOp>) -> Seq<u8>
    decreases ops.len(),
{
    if ops.len() == 0 {
        Seq::empty()
    } else {
        ring_apply(cap, ring_run(cap, ops.drop_last()), ops.last()).0
    }
}

/// How many of `ops` were pushes that succeeded.
pub open spec fn pushes_ok(cap: nat, ops: Seq<RingOp>) -> nat
    decreases ops.len(),
{
    if ops.len() == 0 {
        0
    } else {
        pushes_ok(cap, ops.drop_last()) + if ops.last() is Push && ring_apply(
            cap,
            ring_run(cap, ops.drop_last()),
            ops.last(),
        ).1 {
            1nat
        } else {
            0nat
        }
    }
}

/// How many of `ops` were pops that returned a byte.
pub open spec fn pops_some(cap: nat, ops: Seq<RingOp>) -> nat
    decreases ops.len(),
{
    if ops.len() == 0 {
        0
    } else {
        pops_some(cap, ops.drop_last()) + if ops.last() is Pop && ring_apply(
            cap,
            ring_run(cap, ops.drop_last()),
            ops.last(),
        ).1 {
            1nat
        } else {
            0nat
        }
    }
}

/// Law (ring count): after any operations on a new ring, it holds the bytes
/// pushed successfully minus those popped, never more than its capacity.
pub proof fn ring_count(cap: nat, ops: Seq<RingOp>)
    ensures
        ring_run(cap, ops).len() == pushes_ok(cap, ops) - pops_some(cap, ops),
        ring_run(cap, ops).len() <= cap,
    decreases ops.len(),
{
    if ops.len() > 0 {
        ring_count(cap, ops.drop_last());
    }
}

/// A ring of `N` bytes with drop-on-overflow `push` and FIFO `pop`.
pub struct RingBuf<const N: usize> {
    buf: [u8; N],
    head: usize,
    tail: usize,
    full: bool,
}

impl<const N: usize> RingBuf<N> {
    #[verifier::type_invariant]
    spec fn inv(&self) -> bool {
        if N == 0 {
            self.head == 0 && self.tail == 0 && !self.full
        } else {
            &&& self.head < N
            &&& self.tail < N
            &&& self.full ==> self.head == self.tail
        }
    }

    /// Number of stored bytes, computed from the indices.
    spec fn count(&self) -> nat {
        if self.full {
            N as nat
        } else if self.head >= self.tail {
            (self.head - self.tail) as nat
        } else {
            (N - (self.tail - self.head)) as nat
        }
    }

    /// Position in `buf` of the `i`-th oldest stored byte.
    spec fn slot(&self, i: int) -> int {
        if self.tail + i < N {
            self.tail + i
        } else {
            self.tail + i - N
        }
    }
}

impl<const N: usize> View for RingBuf<N> {
    type V = Seq<u8>;

    /// The stored bytes, oldest first.
    closed spec fn view(&self) -> Seq<u8> {
        Seq::new(self.count(), |i: int| self.buf@[self.slot(i)])
    }
}

impl<const N: usize> RingBuf<N> {
    pub fn new() -> (r: Self)
        ensures
            r@ == Seq::<u8>::empty(),
            r@ == ring_run(N as nat, Seq::empty()),
    {
        Self { buf: [0; N], head: 0, tail: 0, full: false }
    }

    fn adv(i: usize) -> (r: usize)
        requires
            i < N,
        ensures
            r == (if i + 1 < N { i + 1 } else { 0 }),
    {
        proof {
            if i + 1 == N {
                vstd::arithmetic::div_mod::lemma_mod_self_0(N as int);
            } else {
                vstd::arithmetic::div_mod::lemma_small_mod((i + 1) as nat, N as nat);
            }
        }
        (i + 1) % N
    }

    pub fn is_empty(&self) -> (r: bool)
        ensures
            r == (self@.len() == 0),
    {
        proof {
            use_type_invariant(self);
        }
        !self.full && self.head == self.tail
    }

    pub fn is_full(&self) -> (r: bool)
        ensures
            r == (N > 0 && self@.len() == N),
    {
        proof {
            use_type_invariant(self);
        }
        self.full
    }

    pub fn len(&self) -> (r: usize)
        ensures
            r == self@.len(),
            r <= N,
    {
        proof {
            use_type_invariant(self);
        }
        if self.full {
            N
        } else if self.head >= self.tail {
            self.head - self.tail
        } else {
            N - (self.tail - self.head)
        }
    }

    pub fn push(&mut self, b: u8) -> (r: Result<(), ()>)
        requires
            N > 0,
        ensures
            r is Err <==> old(self)@.len() == N,
            r is Ok ==> final(self)@ == old(self)@.push(b),
            r is Err ==> final(self)@ == old(self)@,
            (final(self)@, r is Ok) == ring_apply(N as nat, old(self)@, RingOp::Push(b)),
    {
        proof {
            use_type_invariant(&*self);
        }
        if self.full {
            return Err(());
        }
        let mut buf = self.buf;
        buf[self.head] = b;
        let head = Self::adv(self.head);
        let tail = self.tail;
        let ghost old_view = self@;
        *self = Self { buf, head, tail, full: head == tail };
        proof {
            assert(self@ =~= old_view.push(b));
        }
        Ok(())
    }

    pub fn pop(&mut self) -> (r: Option<u8>)
        ensures
            r is None <==> old(self)@.len() == 0,
            r is None ==> final(self)@ == old(self)@,
            r matches Some(x) ==> x == old(self)@[0] && final(self)@ == old(self)@.drop_first(),
            (final(self)@, r is Some) == ring_apply(N as nat, old(self)@, RingOp::Pop),
    {
        proof {
            use_type_invariant(&*self);
        }
        if self.is_empty() {
            return None;
        }
        let b = self.buf[self.tail];
        let tail = Self::adv(self.tail);
        let ghost old_view = self@;
        *self = Self { buf: self.buf, head: self.head, tail, full: false };
        proof {
            assert(self@ =~= old_view.drop_first());
        }
        Some(b)
    }
}

} // verus!
