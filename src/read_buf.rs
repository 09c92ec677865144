use vstd::prelude::*;

verus! {

/// The power of two reached by doubling `p` until it is at least `cap`.
pub open spec fn pow2_from(p: nat, cap: nat) -> nat
    decreases (if p >= cap { 0 } else { cap - p }),
{
    if p == 0 || p >= cap {
        p
    } else {
        pow2_from(2 * p, cap)
    }
}

/// The smallest power of two that is at least `cap` (one for zero).
pub open spec fn round_up_pow2(cap: nat) -> nat {
    pow2_from(1, cap)
}

/// Little-endian value of four bytes.
pub open spec fn le_u32(b0: u8, b1: u8, b2: u8, b3: u8) -> nat {
    b0 as nat + 256 * (b1 as nat) + 65536 * (b2 as nat) + 16777216 * (b3 as nat)
}

/// Largest capacity a staging buffer may be asked for.
pub const MAX_CAPACITY: usize = 0x4000_0000;

/// Fixed-capacity byte accumulator in front of an input source.
///
/// Bytes are appended at `end` and read from `n`; the staged region is
/// `buf[n..end]`.
#[derive(Debug)]
pub struct Lz4ReadBuf {
    buf: Vec<u8>,
    n: usize,
    end: usize,
}

impl Lz4ReadBuf {
    /// The staged, not yet consumed bytes.
    pub closed spec fn view(&self) -> Seq<u8> {
        self.buf@.subrange(self.n as int, self.end as int)
    }

    /// Number of bytes the buffer can hold.
    pub closed spec fn cap(&self) -> nat {
        self.buf@.len()
    }

    /// Index of the first unread byte.
    pub closed spec fn head(&self) -> nat {
        self.n as nat
    }

    /// Index one past the last staged byte.
    pub closed spec fn tail(&self) -> nat {
        self.end as nat
    }

    pub closed spec fn wf(&self) -> bool {
        &&& self.n <= self.end <= self.buf@.len()
        &&& self.buf@.len() <= 2 * MAX_CAPACITY
    }

    pub proof fn lemma_shape(&self)
        requires
            self.wf(),
        ensures
            self.head() <= self.tail() <= self.cap() <= 2 * MAX_CAPACITY,
            self@.len() == self.tail() - self.head(),
    {
    }

    /// Create an empty buffer whose capacity is `cap` rounded up to a power of two.
    pub fn with_capacity(cap: usize) -> (r: Self)
        requires
            cap <= MAX_CAPACITY,
        ensures
            r.wf(),
            r@.len() == 0,
            r.head() == 0,
            r.cap() == round_up_pow2(cap as nat),
    {
        let mut p: usize = 1;
        while p < cap
            invariant
                1 <= p <= 2 * MAX_CAPACITY,
                cap <= MAX_CAPACITY,
                pow2_from(p as nat, cap as nat) == round_up_pow2(cap as nat),
            decreases 2 * MAX_CAPACITY - p,
        {
            p = p * 2;
        }
        let mut buf: Vec<u8> = Vec::new();
        while buf.len() < p
            invariant
                buf.len() <= p,
                p <= 2 * MAX_CAPACITY,
                p >= cap,
                p >= 1,
                pow2_from(p as nat, cap as nat) == round_up_pow2(cap as nat),
            decreases p - buf.len(),
        {
            buf.push(0u8);
        }
        Lz4ReadBuf { buf, n: 0, end: 0 }
    }

    /// Buffer capacity.
    pub fn capacity(&self) -> (r: usize)
        requires
            self.wf(),
        ensures
            r == self.cap(),
    {
        self.buf.len()
    }

    /// Append the `amt` bytes of `data` that start at `start`, which the
    /// caller has read from its source.
    pub fn extend_read(&mut self, data: &[u8], start: usize, amt: usize)
        requires
            old(self).wf(),
            start + amt <= data@.len(),
            old(self).tail() + amt <= old(self).cap(),
        ensures
            final(self).wf(),
            final(self)@ == old(self)@ + data@.subrange(start as int, start + amt),
            final(self).head() == old(self).head(),
            final(self).tail() == old(self).tail() + amt,
            final(self).cap() == old(self).cap(),
    {
        let dlen = data.len();
        let ghost before = self.buf@;
        let mut i: usize = 0;
        while i < amt
            invariant
                self.n <= self.end <= before.len(),
                self.n == old(self).n,
                self.end == old(self).end,
                before == old(self).buf@,
                before.len() <= 2 * MAX_CAPACITY,
                self.end + amt <= before.len(),
                start + amt <= data@.len(),
                dlen == data@.len(),
                i <= amt,
                self.buf@.len() == before.len(),
                forall|k: int| 0 <= k < self.end ==> #[trigger] self.buf@[k] == before[k],
                forall|k: int|
                    self.end <= k < self.end + i ==> #[trigger] self.buf@[k] == data@[start + k
                        - self.end],
            decreases amt - i,
        {
            self.buf.set(self.end + i, data[start + i]);
            i = i + 1;
        }
        let ghost old_view = before.subrange(self.n as int, self.end as int);
        self.end = self.end + amt;
        assert(self@ =~= old_view + data@.subrange(start as int, start + amt));
    }

    /// Little-endian `u32` at `index` bytes past the first unread byte.
    pub fn get_u32(&self, index: usize) -> (r: u32)
        requires
            self.wf(),
            index + 4 <= self@.len(),
        ensures
            r as nat == le_u32(
                self@[index as int],
                self@[index + 1],
                self@[index + 2],
                self@[index + 3],
            ),
    {
        let i = self.n + index;
        let b0 = self.buf[i] as u32;
        let b1 = self.buf[i + 1] as u32;
        let b2 = self.buf[i + 2] as u32;
        let b3 = self.buf[i + 3] as u32;
        assert(b0 + 256 * b1 + 65536 * b2 + 16777216 * b3 <= 0xffff_ffff) by (nonlinear_arith)
            requires
                b0 < 256,
                b1 < 256,
                b2 < 256,
                b3 < 256,
        ;
        b0 + 256 * b1 + 65536 * b2 + 16777216 * b3
    }

    /// The whole storage; the staged bytes are those from `head()` to `tail()`.
    pub fn storage(&self) -> (r: &[u8])
        requires
            self.wf(),
        ensures
            r@.len() == self.cap(),
            r@.subrange(self.head() as int, self.tail() as int) == self@,
    {
        self.buf.as_slice()
    }

    /// Index of the first unread byte.
    pub fn head_index(&self) -> (r: usize)
        requires
            self.wf(),
        ensures
            r == self.head(),
    {
        self.n
    }

    /// Byte at `index` past the first unread byte.
    pub fn byte_at(&self, index: usize) -> (r: u8)
        requires
            self.wf(),
            index < self@.len(),
        ensures
            r == self@[index as int],
    {
        self.buf[self.n + index]
    }

    /// Drop the consumed bytes and move the unread ones to the start of the buffer.
    pub fn compact(&mut self)
        requires
            old(self).wf(),
        ensures
            final(self).wf(),
            final(self)@ == old(self)@,
            final(self).head() == 0,
            final(self).cap() == old(self).cap(),
    {
        let ghost before = self@;
        if self.n < self.end {
            let mut i: usize = 0;
            while i < self.end - self.n
                invariant
                    self.n <= self.end <= self.buf@.len() <= 2 * MAX_CAPACITY,
                    self.buf@.len() == old(self).buf@.len(),
                    0 <= i <= self.end - self.n,
                    self.n == old(self).n,
                    self.end == old(self).end,
                    before == old(self)@,
                    forall|k: int| 0 <= k < i ==> #[trigger] self.buf@[k] == before[k],
                    forall|k: int|
                        self.n + i <= k < self.end ==> #[trigger] self.buf@[k] == old(
                            self,
                        ).buf@[k],
                decreases self.end - self.n - i,
            {
                let b = self.buf[self.n + i];
                self.buf.set(i, b);
                i = i + 1;
            }
        }
        self.end = self.end - self.n;
        self.n = 0;
        assert(self@ =~= before);
    }

    /// Mark `amt` bytes as read.
    pub fn consume(&mut self, amt: usize)
        requires
            old(self).wf(),
            amt <= old(self)@.len(),
        ensures
            final(self).wf(),
            final(self)@ == old(self)@.subrange(amt as int, old(self)@.len() as int),
            final(self).head() == old(self).head() + amt,
            final(self).tail() == old(self).tail(),
            final(self).cap() == old(self).cap(),
    {
        self.n = self.n + amt;
        assert(self@ =~= old(self)@.subrange(amt as int, old(self)@.len() as int));
    }

    /// Number of staged, unread bytes.
    pub fn len(&self) -> (r: usize)
        requires
            self.wf(),
        ensures
            r == self@.len(),
    {
        self.end - self.n
    }

    /// Take the first unread byte, if there is one.
    pub fn pop_byte(&mut self) -> (r: Option<u8>)
        requires
            old(self).wf(),
        ensures
            final(self).wf(),
            final(self).cap() == old(self).cap(),
            final(self).tail() == old(self).tail(),
            old(self)@.len() == 0 ==> r is None && final(self)@ == old(self)@ && final(self).head()
                == old(self).head(),
            old(self)@.len() > 0 ==> r == Some(old(self)@[0]) && final(self)@ == old(
                self,
            )@.drop_first() && final(self).head() == old(self).head() + 1,
    {
        if self.n == self.end {
            return None;
        }
        let v = self.buf[self.n];
        self.n = self.n + 1;
        assert(self@ =~= old(self)@.drop_first());
        Some(v)
    }
}

} // verus!
