use vstd::prelude::*;
use vstd::arithmetic::div_mod::{lemma_fundamental_div_mod, lemma_fundamental_div_mod_converse};

verus! {

/// Largest window a `Lz4WriteBuf` may be asked for.
pub const MAX_WINDOW: usize = 0x4000_0000;

/// The stream `s` extended by `n` bytes, each a copy of the byte `off`
/// positions behind the end of the stream at the moment it is appended.
///
/// When `n > off` the copied bytes are themselves part of what is produced,
/// which repeats the last `off` bytes as a run.
pub open spec fn copy_match(s: Seq<u8>, off: nat, n: nat) -> Seq<u8>
    decreases n,
{
    if n == 0 {
        s
    } else {
        let t = copy_match(s, off, (n - 1) as nat);
        t.push(t[t.len() - off])
    }
}

/// Appending `a` copies and then `b` more is appending `a + b` copies.
pub proof fn lemma_copy_match_split(s: Seq<u8>, off: nat, a: nat, b: nat)
    ensures
        copy_match(copy_match(s, off, a), off, b) == copy_match(s, off, a + b),
    decreases b,
{
    if b > 0 {
        lemma_copy_match_split(s, off, a, (b - 1) as nat);
    }
}

/// A copy keeps the stream it started from as a prefix and adds `n` bytes.
pub proof fn lemma_copy_match_len(s: Seq<u8>, off: nat, n: nat)
    ensures
        copy_match(s, off, n).len() == s.len() + n,
        copy_match(s, off, n).subrange(0, s.len() as int) == s,
    decreases n,
{
    if n > 0 {
        lemma_copy_match_len(s, off, (n - 1) as nat);
        let t = copy_match(s, off, (n - 1) as nat);
        assert(t.push(t[t.len() - off]).subrange(0, s.len() as int) =~= t.subrange(
            0,
            s.len() as int,
        ));
    }
}

/// A copy with offset one repeats the last byte of the stream `n` times.
pub proof fn lemma_copy_match_run(s: Seq<u8>, n: nat)
    requires
        s.len() > 0,
    ensures
        copy_match(s, 1, n) == s + Seq::new(n, |i: int| s.last()),
    decreases n,
{
    if n > 0 {
        lemma_copy_match_run(s, (n - 1) as nat);
        assert(copy_match(s, 1, n) =~= s + Seq::new(n, |i: int| s.last()));
    } else {
        assert(s =~= s + Seq::new(0, |i: int| s.last()));
    }
}

proof fn lemma_mod_step(x: int, m: int)
    requires
        0 <= x,
        0 < m,
    ensures
        (x + 1) % m == if x % m + 1 == m {
            0
        } else {
            x % m + 1
        },
{
    lemma_fundamental_div_mod(x, m);
    let q = x / m;
    let r = x % m;
    if r + 1 == m {
        assert(x + 1 == (q + 1) * m + 0) by (nonlinear_arith)
            requires
                x == m * q + r,
                r + 1 == m,
        ;
        lemma_fundamental_div_mod_converse(x + 1, m, q + 1, 0);
    } else {
        assert(x + 1 == q * m + (r + 1)) by (nonlinear_arith)
            requires
                x == m * q + r,
        ;
        lemma_fundamental_div_mod_converse(x + 1, m, q, r + 1);
    }
}

proof fn lemma_mod_distinct(j: int, k: int, m: int)
    requires
        0 <= j < k < j + m,
    ensures
        j % m != k % m,
{
    lemma_fundamental_div_mod(j, m);
    lemma_fundamental_div_mod(k, m);
    let qj = j / m;
    let qk = k / m;
    if j % m == k % m {
        assert(false) by (nonlinear_arith)
            requires
                j == m * qj + j % m,
                k == m * qk + k % m,
                j % m == k % m,
                0 < k - j < m,
                m > 0,
        ;
    }
}

/// Sliding window in front of an output sink.
///
/// Every emitted byte is recorded in a ring of fixed capacity, so that later
/// back-references can copy from the last `capacity` bytes, and is queued
/// for the caller to hand on to its sink. The byte at position `j` of the
/// history sits at ring index `(j + shift) % capacity`, where the ghost
/// `shift` changes only when a write longer than the ring restarts it at 0.
pub struct Lz4WriteBuf {
    buf: Vec<u8>,
    end: usize,
    pending: Vec<u8>,
    stream: Ghost<Seq<u8>>,
    taken: Ghost<nat>,
    shift: Ghost<nat>,
}

impl Lz4WriteBuf {
    /// Everything the window has emitted, after `cap()` zero bytes that stand
    /// for the initial content of the ring.
    pub closed spec fn history(&self) -> Seq<u8> {
        self.stream@
    }

    /// Emitted bytes that have not yet been taken by `take_output`.
    pub closed spec fn pending(&self) -> Seq<u8> {
        self.pending@
    }

    /// Length of the prefix of `history()` already handed over.
    pub closed spec fn taken(&self) -> nat {
        self.taken@
    }

    /// Capacity of the ring.
    pub closed spec fn cap(&self) -> nat {
        self.buf@.len()
    }

    /// Ring index at which the next emitted byte is stored.
    pub closed spec fn cursor(&self) -> nat {
        self.end as nat
    }

    pub closed spec fn wf(&self) -> bool {
        &&& 1 <= self.buf@.len() <= 2 * MAX_WINDOW
        &&& self.stream@.len() >= self.buf@.len()
        &&& self.end < self.buf@.len()
        &&& self.taken@ <= self.stream@.len()
        &&& self.pending@ == self.stream@.subrange(self.taken@ as int, self.stream@.len() as int)
        &&& self.end == (self.stream@.len() + self.shift@) as int % (self.buf@.len() as int)
        &&& forall|j: int|
            self.stream@.len() - self.buf@.len() <= j < self.stream@.len() ==> self.buf@[(j
                + self.shift@) % (self.buf@.len() as int)] == #[trigger] self.stream@[j]
    }

    pub proof fn lemma_shape(&self)
        requires
            self.wf(),
        ensures
            1 <= self.cap() <= 2 * MAX_WINDOW,
            self.history().len() >= self.cap(),
            self.cursor() < self.cap(),
            self.taken() <= self.history().len(),
            self.pending() == self.history().subrange(
                self.taken() as int,
                self.history().len() as int,
            ),
    {
    }

    /// Create a window whose ring holds `cap` rounded up to a power of two bytes,
    /// all zero.
    pub fn with_capacity(cap: usize) -> (r: Self)
        requires
            cap <= MAX_WINDOW,
        ensures
            r.wf(),
            r.cap() == crate::read_buf::round_up_pow2(cap as nat),
            r.history() == Seq::new(r.cap(), |i: int| 0u8),
            r.taken() == r.cap(),
            r.cursor() == 0,
    {
        let mut p: usize = 1;
        while p < cap
            invariant
                1 <= p <= 2 * MAX_WINDOW,
                cap <= MAX_WINDOW,
                crate::read_buf::pow2_from(p as nat, cap as nat) == crate::read_buf::round_up_pow2(
                    cap as nat,
                ),
            decreases 2 * MAX_WINDOW - p,
        {
            p = p * 2;
        }
        let mut buf: Vec<u8> = Vec::new();
        while buf.len() < p
            invariant
                buf.len() <= p,
                1 <= p <= 2 * MAX_WINDOW,
                crate::read_buf::pow2_from(p as nat, cap as nat) == crate::read_buf::round_up_pow2(
                    cap as nat,
                ),
                p >= cap,
                forall|k: int| 0 <= k < buf@.len() ==> buf@[k] == 0u8,
            decreases p - buf.len(),
        {
            buf.push(0u8);
        }
        let ghost zeros = Seq::new(p as nat, |i: int| 0u8);
        proof {
            lemma_fundamental_div_mod(p as int, p as int);
            lemma_fundamental_div_mod_converse(p as int, p as int, 1, 0);
            assert forall|j: int| 0 <= j < p implies buf@[(j + 0) % (p as int)] == #[trigger] zeros[j] by {
                lemma_fundamental_div_mod_converse(j, p as int, 0, j);
            }
        }
        let pending: Vec<u8> = Vec::new();
        assert(pending@ =~= zeros.subrange(p as int, p as int));
        Lz4WriteBuf {
            buf,
            end: 0,
            pending,
            stream: Ghost(zeros),
            taken: Ghost(p as nat),
            shift: Ghost(0),
        }
    }

    /// Emit one byte.
    fn push_byte(&mut self, b: u8)
        requires
            old(self).wf(),
        ensures
            final(self).wf(),
            final(self).cap() == old(self).cap(),
            final(self).history() == old(self).history().push(b),
            final(self).taken() == old(self).taken(),
            final(self).shift == old(self).shift,
            final(self).cursor() == if old(self).cursor() + 1 == old(self).cap() {
                0
            } else {
                old(self).cursor() + 1
            },
    {
        let ghost len = self.stream@.len() as int;
        let ghost sh = self.shift@ as int;
        let ghost m = self.buf@.len() as int;
        self.buf.set(self.end, b);
        self.pending.push(b);
        self.stream = Ghost(self.stream@.push(b));
        proof {
            lemma_mod_step(len + sh, m);
            assert(self.pending@ =~= self.stream@.subrange(self.taken@ as int, self.stream@.len() as int));
        }
        if self.end + 1 == self.buf.len() {
            self.end = 0;
        } else {
            self.end = self.end + 1;
        }
        proof {
            assert forall|j: int|
                self.stream@.len() - m <= j < self.stream@.len() implies self.buf@[(j + sh) % m]
                == #[trigger] self.stream@[j] by {
                if j < len {
                    lemma_mod_distinct(j + sh, len + sh, m);
                }
            }
        }
    }

    /// Emit the bytes `data`.
    pub fn write(&mut self, data: &[u8])
        requires
            old(self).wf(),
        ensures
            final(self).wf(),
            final(self).cap() == old(self).cap(),
            final(self).history() == old(self).history() + data@,
            final(self).taken() == old(self).taken(),
            data@.len() > old(self).cap() ==> final(self).cursor() == 0,
            data@.len() <= old(self).cap() ==> final(self).cursor() == (old(self).cursor()
                + data@.len()) as int % (old(self).cap() as int),
    {
        self.write_from(data, 0, data.len());
        assert(data@.subrange(0, data@.len() as int) =~= data@);
    }

    /// Emit the `amt` bytes of `data` that start at `start`. When they are
    /// more than the ring holds, only the last `cap()` of them are kept in the
    /// ring, stored from index 0, and the cursor restarts at 0.
    pub fn write_from(&mut self, data: &[u8], start: usize, amt: usize)
        requires
            old(self).wf(),
            start + amt <= data@.len(),
        ensures
            final(self).wf(),
            final(self).cap() == old(self).cap(),
            final(self).history() == old(self).history() + data@.subrange(
                start as int,
                start + amt,
            ),
            final(self).taken() == old(self).taken(),
            amt > old(self).cap() ==> final(self).cursor() == 0,
            amt <= old(self).cap() ==> final(self).cursor() == (old(self).cursor() + amt) as int
                % (old(self).cap() as int),
    {
        let dlen = data.len();
        let cap = self.buf.len();
        let ghost m = cap as int;
        if amt > cap {
            let ghost h0 = self.stream@;
            let mut i: usize = 0;
            while i < amt
                invariant
                    old(self).wf(),
                    self.stream@ == h0,
                    self.buf == old(self).buf,
                    self.end == old(self).end,
                    self.shift == old(self).shift,
                    self.taken == old(self).taken,
                    self.buf@.len() == m,
                    self.taken() == old(self).taken(),
                    self.pending@ == old(self).pending@ + data@.subrange(start as int, start + i),
                    h0 == old(self).stream@,
                    i <= amt,
                    start + amt <= data@.len(),
                    dlen == data@.len(),
                decreases amt - i,
            {
                self.pending.push(data[start + i]);
                i = i + 1;
                assert(data@.subrange(start as int, start + i) =~= data@.subrange(
                    start as int,
                    start + i - 1,
                ).push(data@[start + i - 1]));
            }
            let base = start + amt - cap;
            let mut k: usize = 0;
            while k < cap
                invariant
                    old(self).wf(),
                    self.stream@ == h0,
                    h0 == old(self).stream@,
                    self.taken == old(self).taken,
                    self.pending@ == old(self).pending@ + data@.subrange(start as int, start + amt),
                    amt > cap,
                    self.buf@.len() == m,
                    cap == m,
                    base + cap <= data@.len(),
                    dlen == data@.len(),
                    k <= cap,
                    forall|q: int| 0 <= q < k ==> #[trigger] self.buf@[q] == data@[base + q],
                decreases cap - k,
            {
                self.buf.set(k, data[base + k]);
                k = k + 1;
            }
            let ghost newlen = h0.len() + amt;
            let ghost r = newlen % m;
            let ghost q = newlen / m;
            self.stream = Ghost(h0 + data@.subrange(start as int, start + amt));
            self.end = 0;
            self.shift = Ghost((m - r) as nat);
            proof {
                lemma_fundamental_div_mod(newlen, m);
                assert(newlen + (m - r) == (q + 1) * m + 0) by (nonlinear_arith)
                    requires
                        newlen == m * q + r,
                ;
                lemma_fundamental_div_mod_converse(newlen + (m - r), m, q + 1, 0);
                let d = data@.subrange(start as int, start + amt);
                assert(old(self).pending@ == h0.subrange(self.taken@ as int, h0.len() as int));
                assert((h0 + d).subrange(self.taken@ as int, (h0 + d).len() as int) =~= h0.subrange(
                    self.taken@ as int,
                    h0.len() as int,
                ) + d);
                assert(self.pending@ =~= self.stream@.subrange(
                    self.taken@ as int,
                    self.stream@.len() as int,
                ));
                assert forall|j: int|
                    self.stream@.len() - m <= j < self.stream@.len() implies self.buf@[(j
                    + self.shift@) % m] == #[trigger] self.stream@[j] by {
                    let off = j - (newlen - m);
                    assert(j + (m - r) == q * m + off) by (nonlinear_arith)
                        requires
                            newlen == m * q + r,
                            off == j - (newlen - m),
                    ;
                    lemma_fundamental_div_mod_converse(j + (m - r), m, q, off);
                    assert(self.buf@[off] == data@[base + off]);
                }
            }
        } else {
            proof {
                lemma_fundamental_div_mod_converse(
                    old(self).cursor() as int,
                    m,
                    0,
                    old(self).cursor() as int,
                );
            }
            let mut i: usize = 0;
            while i < amt
                invariant
                    self.wf(),
                    self.cap() == old(self).cap(),
                    m == self.cap(),
                    self.taken() == old(self).taken(),
                    i <= amt,
                    start + amt <= data@.len(),
                    dlen == data@.len(),
                    self.history() == old(self).history() + data@.subrange(start as int, start + i),
                    self.cursor() == (old(self).cursor() + i) % m,
                decreases amt - i,
            {
                proof {
                    lemma_mod_step(old(self).cursor() + i, m);
                }
                self.push_byte(data[start + i]);
                i = i + 1;
                assert(data@.subrange(start as int, start + i) =~= data@.subrange(
                    start as int,
                    start + i - 1,
                ).push(data@[start + i - 1]));
            }
        }
    }

    /// Emit `amt` bytes read from ring position `index` onward, where `index`
    /// is `offset` bytes behind the cursor.
    fn copy_non_overlap(&mut self, index: usize, amt: usize, Ghost(offset): Ghost<nat>)
        requires
            old(self).wf(),
            1 <= offset <= old(self).cap(),
            index == (old(self).history().len() + old(self).shift@ - offset) % (old(self).cap() as int),
        ensures
            final(self).wf(),
            final(self).cap() == old(self).cap(),
            final(self).history() == copy_match(old(self).history(), offset, amt as nat),
            final(self).taken() == old(self).taken(),
            final(self).shift == old(self).shift,
    {
        let mut idx = index;
        let mut i: usize = 0;
        let ghost m = self.buf@.len() as int;
        proof {
            lemma_copy_match_len(old(self).history(), offset, 0);
        }
        while i < amt
            invariant
                self.wf(),
                self.cap() == old(self).cap(),
                m == self.cap(),
                1 <= offset <= m,
                i <= amt,
                self.history() == copy_match(old(self).history(), offset, i as nat),
                self.history().len() == old(self).history().len() + i,
                self.taken() == old(self).taken(),
                self.shift == old(self).shift,
                idx == (self.history().len() + self.shift@ - offset) % m,
            decreases amt - i,
        {
            let ghost h = self.history();
            let b = self.buf[idx];
            assert(b == h[h.len() - offset]);
            self.push_byte(b);
            proof {
                lemma_mod_step(h.len() + self.shift@ - offset, m);
            }
            if idx + 1 == self.buf.len() {
                idx = 0;
            } else {
                idx = idx + 1;
            }
            i = i + 1;
        }
    }

    /// Emit `amt` bytes, each equal to the byte `offset` positions behind the
    /// cursor at the moment it is emitted.
    ///
    /// The copy proceeds in chunks of at most `offset` bytes: each chunk reads
    /// bytes that were emitted before it began.
    pub fn copy_from_offset(&mut self, offset: usize, amt: usize)
        requires
            old(self).wf(),
            1 <= offset <= old(self).cap(),
        ensures
            final(self).wf(),
            final(self).cap() == old(self).cap(),
            final(self).history() == copy_match(old(self).history(), offset as nat, amt as nat),
            final(self).taken() == old(self).taken(),
    {
        let ghost m = self.buf@.len() as int;
        let ghost h0 = self.history();
        let mut idx = if self.end < offset {
            self.buf.len() + self.end - offset
        } else {
            self.end - offset
        };
        proof {
            let x = (h0.len() + self.shift@) as int;
            lemma_fundamental_div_mod(x, m);
            let q = x / m;
            if self.end < offset {
                assert(x - offset == (q - 1) * m + idx) by (nonlinear_arith)
                    requires
                        x == m * q + self.end,
                        idx == m + self.end - offset,
                ;
            } else {
                assert(x - offset == q * m + idx) by (nonlinear_arith)
                    requires
                        x == m * q + self.end,
                        idx == self.end - offset,
                ;
            }
            lemma_fundamental_div_mod_converse(
                x - offset,
                m,
                if self.end < offset { q - 1 } else { q },
                idx as int,
            );
        }
        let mut rest = amt;
        while rest > offset
            invariant
                self.wf(),
                self.cap() == old(self).cap(),
                m == self.cap(),
                1 <= offset <= m,
                rest <= amt,
                self.history() == copy_match(h0, offset as nat, (amt - rest) as nat),
                self.history().len() == h0.len() + (amt - rest),
                self.taken() == old(self).taken(),
                self.shift == old(self).shift,
                idx == (self.history().len() + self.shift@ - offset) % m,
                h0 == old(self).history(),
            decreases rest,
        {
            let ghost h = self.history();
            let next = self.end;
            self.copy_non_overlap(idx, offset, Ghost(offset as nat));
            proof {
                lemma_copy_match_split(h0, offset as nat, (amt - rest) as nat, offset as nat);
                lemma_copy_match_len(h, offset as nat, offset as nat);
            }
            idx = next;
            rest = rest - offset;
        }
        let ghost h = self.history();
        self.copy_non_overlap(idx, rest, Ghost(offset as nat));
        proof {
            lemma_copy_match_split(h0, offset as nat, (amt - rest) as nat, rest as nat);
            lemma_copy_match_len(h, offset as nat, rest as nat);
        }
    }

    /// Hand over the emitted bytes queued since the last call.
    pub fn take_output(&mut self) -> (r: Vec<u8>)
        requires
            old(self).wf(),
        ensures
            final(self).wf(),
            r@ == old(self).pending(),
            final(self).taken() == final(self).history().len(),
            final(self).history() == old(self).history(),
            final(self).cap() == old(self).cap(),
            final(self).cursor() == old(self).cursor(),
    {
        let mut out: Vec<u8> = Vec::new();
        core::mem::swap(&mut out, &mut self.pending);
        self.taken = Ghost(self.stream@.len());
        assert(self.pending@ =~= self.stream@.subrange(self.taken@ as int, self.stream@.len() as int));
        out
    }

    /// Ring index at which the next emitted byte is stored.
    pub fn end(&self) -> (r: usize)
        requires
            self.wf(),
        ensures
            r == self.cursor(),
    {
        self.end
    }
}

} // verus!
