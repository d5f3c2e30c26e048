//! Anonymous pipes: a fixed-capacity ring buffer shared by a read end and a
//! write end, with reference counts for each end.
use vstd::prelude::*;
use crate::errno::{VfsError, EAGAIN, EPIPE};

verus! {

pub const PIPE_CAPACITY: usize = 65536;

/// `O_NONBLOCK` as carried in file-descriptor flags.
pub const O_NONBLOCK_FLAG: u32 = 0o4000;
/// `O_CLOEXEC` as carried in file-descriptor flags.
pub const O_CLOEXEC_FLAG: u32 = 0o2000000;

/// Two distinct positions of a window shorter than the modulus land on
/// distinct ring slots.
pub proof fn lemma_ring_slots_distinct(x: int, y: int, m: int)
    requires
        0 <= x < y < x + m,
        m > 0,
    ensures
        x % m != y % m,
{
    vstd::arithmetic::div_mod::lemma_fundamental_div_mod(x, m);
    vstd::arithmetic::div_mod::lemma_fundamental_div_mod(y, m);
    if x % m == y % m {
        assert(m * (y / m) - m * (x / m) == y - x);
        vstd::arithmetic::mul::lemma_mul_is_distributive_sub(m, y / m, x / m);
        if y / m - x / m >= 1 {
            vstd::arithmetic::mul::lemma_mul_inequality(1, y / m - x / m, m);
            vstd::arithmetic::mul::lemma_mul_is_commutative(m, y / m - x / m);
        } else {
            vstd::arithmetic::mul::lemma_mul_inequality(y / m - x / m, 0, m);
            vstd::arithmetic::mul::lemma_mul_is_commutative(m, y / m - x / m);
        }
    }
}

/// Advancing a ring position by one, reduced, and then by `j` is the same
/// slot as advancing by `1 + j` from the start.
pub proof fn lemma_ring_step(a: int, j: int, m: int)
    requires
        0 <= a,
        0 <= j,
        m > 0,
    ensures
        ((a + 1) % m + j) % m == (a + 1 + j) % m,
{
    vstd::arithmetic::div_mod::lemma_add_mod_noop(a + 1, j, m);
    vstd::arithmetic::div_mod::lemma_mod_twice(j, m);
    vstd::arithmetic::div_mod::lemma_add_mod_noop((a + 1) % m, j, m);
    vstd::arithmetic::div_mod::lemma_mod_twice(a + 1, m);
}

/// Reducing the left summand first does not change the slot.
pub proof fn lemma_mod_absorb(a: int, b: int, m: int)
    requires
        0 <= a,
        0 <= b,
        m > 0,
    ensures
        ((a % m) + b) % m == (a + b) % m,
{
    vstd::arithmetic::div_mod::lemma_add_mod_noop(a, b, m);
    vstd::arithmetic::div_mod::lemma_add_mod_noop(a % m, b, m);
    vstd::arithmetic::div_mod::lemma_mod_twice(a, m);
}

/// The ring slot `k` places after `base`.
pub open spec fn ring_slot(base: int, k: int) -> int {
    (base + k) % (PIPE_CAPACITY as int)
}

/// The ring buffer behind one pipe.
pub struct PipeBuf {
    pub buf: Vec<u8>,
    pub read_pos: usize,
    pub write_pos: usize,
    pub len: usize,
    pub write_closed: bool,
    pub read_closed: bool,
    pub readers: usize,
    pub writers: usize,
}

impl PipeBuf {
    /// The ring is `PIPE_CAPACITY` bytes, positions stay inside it, and the
    /// write position is `len` slots after the read position.
    pub open spec fn wf(&self) -> bool {
        &&& self.buf@.len() == PIPE_CAPACITY
        &&& self.read_pos < PIPE_CAPACITY
        &&& self.write_pos < PIPE_CAPACITY
        &&& self.len <= PIPE_CAPACITY
        &&& self.write_pos as int == (self.read_pos + self.len) % (PIPE_CAPACITY as int)
    }

    /// The bytes queued in the pipe, oldest first.
    pub open spec fn contents(&self) -> Seq<u8> {
        Seq::new(
            self.len as nat,
            |i: int| self.buf@[(self.read_pos + i) % (PIPE_CAPACITY as int)],
        )
    }

    /// Everything but the queued bytes and the positions.
    pub open spec fn same_ends(&self, other: &PipeBuf) -> bool {
        &&& self.write_closed == other.write_closed
        &&& self.read_closed == other.read_closed
        &&& self.readers == other.readers
        &&& self.writers == other.writers
    }

    /// An empty pipe with one reader and one writer.
    pub fn new() -> (r: PipeBuf)
        ensures
            r.wf(),
            r.contents() == Seq::<u8>::empty(),
            !r.write_closed,
            !r.read_closed,
            r.readers == 1,
            r.writers == 1,
    {
        let r = PipeBuf {
            buf: vec![0u8; PIPE_CAPACITY],
            read_pos: 0,
            write_pos: 0,
            len: 0,
            write_closed: false,
            read_closed: false,
            readers: 1,
            writers: 1,
        };
        assert(r.contents() =~= Seq::<u8>::empty());
        r
    }

    /// A read would not block: data is queued or the write end is closed.
    pub fn readable(&self) -> (r: bool)
        ensures
            r == (self.len > 0 || self.write_closed),
    {
        self.len > 0 || self.write_closed
    }

    /// A write would not block: there is room and the read end is open.
    pub fn writable(&self) -> (r: bool)
        ensures
            r == (self.len < PIPE_CAPACITY && !self.read_closed),
    {
        self.len < PIPE_CAPACITY && !self.read_closed
    }

    /// Non-blocking read of up to `buf.len()` bytes.
    ///
    /// `Ok(0)` is end of file (empty pipe, write end closed); `Err(EAGAIN)`
    /// means the pipe is empty but a writer may still come.
    pub fn try_read(&mut self, buf: &mut [u8]) -> (r: Result<usize, VfsError>)
        requires
            old(self).wf(),
        ensures
            final(self).wf(),
            final(self).same_ends(old(self)),
            old(self).len == 0 && old(self).write_closed ==> r == Ok::<usize, VfsError>(0)
                && final(self).contents() == old(self).contents() && final(buf)@ == old(buf)@,
            old(self).len == 0 && !old(self).write_closed ==> r == Err::<usize, VfsError>(EAGAIN)
                && final(self).contents() == old(self).contents() && final(buf)@ == old(buf)@,
            old(self).len > 0 ==> ({
                let n = if old(buf)@.len() < old(self).len as int { old(buf)@.len() as int } else { old(self).len as int };
                &&& r == Ok::<usize, VfsError>(n as usize)
                &&& final(buf)@.len() == old(buf)@.len()
                &&& final(buf)@.subrange(0, n) == old(self).contents().subrange(0, n)
                &&& final(buf)@.subrange(n, old(buf)@.len() as int) == old(buf)@.subrange(n, old(buf)@.len() as int)
                &&& final(self).contents() == old(self).contents().subrange(n, old(self).len as int)
            }),
    {
        if self.len == 0 {
            return if self.write_closed { Ok(0) } else { Err(EAGAIN) };
        }
        let n = if buf.len() < self.len { buf.len() } else { self.len };
        let ghost old_contents = self.contents();
        let ghost old_rp = self.read_pos as int;
        let ghost old_buf = buf@;
        let mut i: usize = 0;
        while i < n
            invariant
                0 <= i <= n,
                n <= buf@.len(),
                n <= self.len,
                self.buf@.len() == PIPE_CAPACITY,
                self.read_pos < PIPE_CAPACITY,
                self.read_pos as int == (old_rp + i) % (PIPE_CAPACITY as int),
                0 <= old_rp < PIPE_CAPACITY,
                self.buf@ == old(self).buf@,
                self.len == old(self).len,
                self.write_pos == old(self).write_pos,
                self.same_ends(old(self)),
                old_contents == old(self).contents(),
                old_rp == old(self).read_pos,
                buf@.len() == old_buf.len(),
                forall|k: int| 0 <= k < i ==> buf@[k] == old_contents[k],
                forall|k: int| i <= k < buf@.len() ==> buf@[k] == old_buf[k],
            decreases n - i,
        {
            buf[i] = self.buf[self.read_pos];
            proof {
                assert(old_contents[i as int] == self.buf@[(old_rp + i) % (PIPE_CAPACITY as int)]);
                lemma_ring_step(old_rp + i, 0, PIPE_CAPACITY as int);
                vstd::arithmetic::div_mod::lemma_add_mod_noop(old_rp + i, 1, PIPE_CAPACITY as int);
            }
            self.read_pos = (self.read_pos + 1) % PIPE_CAPACITY;
            i = i + 1;
        }
        self.len = self.len - n;
        proof {
            let m = PIPE_CAPACITY as int;
            assert forall|j: int| 0 <= j < self.len implies #[trigger] self.contents()[j]
                == old_contents[n + j] by {
                vstd::arithmetic::div_mod::lemma_add_mod_noop(old_rp + n, j, m);
                vstd::arithmetic::div_mod::lemma_mod_twice(j, m);
                vstd::arithmetic::div_mod::lemma_add_mod_noop((old_rp + n) % m, j, m);
                vstd::arithmetic::div_mod::lemma_mod_twice(old_rp + n, m);
            }
            assert(self.contents() =~= old_contents.subrange(n as int, old(self).len as int));
            assert(buf@.subrange(0, n as int) =~= old_contents.subrange(0, n as int));
            assert(buf@.subrange(n as int, buf@.len() as int) =~= old_buf.subrange(n as int, old_buf.len() as int));
            vstd::arithmetic::div_mod::lemma_add_mod_noop(old_rp + n, self.len as int, m);
            vstd::arithmetic::div_mod::lemma_mod_twice(old_rp + n, m);
            lemma_mod_absorb(old_rp + n, self.len as int, m);
            assert((self.read_pos + self.len) % m == (old_rp + n + self.len) % m);
            assert(old_rp + n + self.len == old_rp + old(self).len);
        }
        Ok(n)
    }

    /// Non-blocking write of up to the free space.
    ///
    /// `Err(EPIPE)` once every reader is gone; `Err(EAGAIN)` when the ring
    /// is full.
    pub fn try_write(&mut self, data: &[u8]) -> (r: Result<usize, VfsError>)
        requires
            old(self).wf(),
        ensures
            final(self).wf(),
            final(self).same_ends(old(self)),
            old(self).read_closed ==> r == Err::<usize, VfsError>(EPIPE)
                && final(self).contents() == old(self).contents(),
            !old(self).read_closed && old(self).len == PIPE_CAPACITY ==> r == Err::<usize, VfsError>(EAGAIN)
                && final(self).contents() == old(self).contents(),
            !old(self).read_closed && old(self).len < PIPE_CAPACITY ==> ({
                let space = PIPE_CAPACITY - old(self).len;
                let n = if data@.len() < space { data@.len() as int } else { space as int };
                &&& r == Ok::<usize, VfsError>(n as usize)
                &&& final(self).contents() == old(self).contents() + data@.subrange(0, n)
            }),
    {
        if self.read_closed {
            return Err(EPIPE);
        }
        let space = PIPE_CAPACITY - self.len;
        if space == 0 {
            return Err(EAGAIN);
        }
        let n = if data.len() < space { data.len() } else { space };
        let ghost old_contents = self.contents();
        let ghost rp = self.read_pos as int;
        let ghost wp0 = self.write_pos as int;
        let ghost len0 = self.len as int;
        let ghost m = PIPE_CAPACITY as int;
        let mut i: usize = 0;
        while i < n
            invariant
                0 <= i <= n,
                n <= data@.len(),
                n + len0 <= m,
                m == PIPE_CAPACITY,
                self.buf@.len() == PIPE_CAPACITY,
                self.read_pos == old(self).read_pos,
                rp == old(self).read_pos,
                0 <= rp < m,
                len0 == old(self).len,
                self.len == old(self).len,
                self.same_ends(old(self)),
                self.write_pos < PIPE_CAPACITY,
                self.write_pos as int == (rp + len0 + i) % m,
                old_contents == old(self).contents(),
                forall|k: int| 0 <= k < len0 ==> #[trigger] self.buf@[ring_slot(rp, k)] == old_contents[k],
                forall|k: int| 0 <= k < i ==> #[trigger] self.buf@[ring_slot(rp + len0, k)] == data@[k],
            decreases n - i,
        {
            let ghost pos = self.write_pos as int;
            let ghost prev = self.buf@;
            self.buf.set(self.write_pos, data[i]);
            proof {
                assert forall|k: int| 0 <= k < len0 implies #[trigger] self.buf@[ring_slot(rp, k)]
                    == old_contents[k] by {
                    lemma_ring_slots_distinct(rp + k, rp + len0 + i, m);
                    assert(prev[ring_slot(rp, k)] == old_contents[k]);
                }
                assert forall|k: int| 0 <= k < i + 1 implies #[trigger] self.buf@[ring_slot(rp + len0, k)]
                    == data@[k] by {
                    if k < i {
                        lemma_ring_slots_distinct(rp + len0 + k, rp + len0 + i, m);
                        assert(prev[ring_slot(rp + len0, k)] == data@[k]);
                    }
                }
                vstd::arithmetic::div_mod::lemma_add_mod_noop(rp + len0 + i, 1, m);
                vstd::arithmetic::div_mod::lemma_mod_twice(rp + len0 + i, m);
            }
            self.write_pos = (self.write_pos + 1) % PIPE_CAPACITY;
            i = i + 1;
        }
        self.len = self.len + n;
        proof {
            assert forall|j: int| 0 <= j < self.len implies #[trigger] self.contents()[j]
                == (old_contents + data@.subrange(0, n as int))[j] by {
                if j < len0 {
                    assert(self.buf@[ring_slot(rp, j)] == old_contents[j]);
                } else {
                    assert(self.buf@[ring_slot(rp + len0, j - len0)] == data@[j - len0]);
                }
            }
            assert(self.contents() =~= old_contents + data@.subrange(0, n as int));
        }
        Ok(n)
    }

    /// One write end is closed; the last one marks the pipe write-closed.
    pub fn close_write(&mut self)
        requires
            old(self).wf(),
        ensures
            final(self).wf(),
            final(self).contents() == old(self).contents(),
            final(self).buf@ == old(self).buf@ && final(self).read_pos == old(self).read_pos
                && final(self).write_pos == old(self).write_pos && final(self).len == old(self).len,
            final(self).readers == old(self).readers,
            final(self).read_closed == old(self).read_closed,
            final(self).writers == if old(self).writers > 0 { (old(self).writers - 1) as usize } else { 0 },
            final(self).write_closed == (old(self).write_closed || final(self).writers == 0),
    {
        if self.writers > 0 {
            self.writers = self.writers - 1;
        }
        if self.writers == 0 {
            self.write_closed = true;
        }
    }

    /// One read end is closed; the last one marks the pipe read-closed.
    pub fn close_read(&mut self)
        requires
            old(self).wf(),
        ensures
            final(self).wf(),
            final(self).contents() == old(self).contents(),
            final(self).buf@ == old(self).buf@ && final(self).read_pos == old(self).read_pos
                && final(self).write_pos == old(self).write_pos && final(self).len == old(self).len,
            final(self).writers == old(self).writers,
            final(self).write_closed == old(self).write_closed,
            final(self).readers == if old(self).readers > 0 { (old(self).readers - 1) as usize } else { 0 },
            final(self).read_closed == (old(self).read_closed || final(self).readers == 0),
    {
        if self.readers > 0 {
            self.readers = self.readers - 1;
        }
        if self.readers == 0 {
            self.read_closed = true;
        }
    }

    /// A write end was duplicated.
    pub fn dup_write(&mut self)
        requires
            old(self).wf(),
        ensures
            final(self).wf(),
            final(self).contents() == old(self).contents(),
            final(self).writers == if old(self).writers < usize::MAX { (old(self).writers + 1) as usize } else { usize::MAX },
            final(self).readers == old(self).readers,
            final(self).write_closed == old(self).write_closed,
            final(self).read_closed == old(self).read_closed,
    {
        self.writers = self.writers.saturating_add(1);
    }

    /// A read end was duplicated.
    pub fn dup_read(&mut self)
        requires
            old(self).wf(),
        ensures
            final(self).wf(),
            final(self).contents() == old(self).contents(),
            final(self).readers == if old(self).readers < usize::MAX { (old(self).readers + 1) as usize } else { usize::MAX },
            final(self).writers == old(self).writers,
            final(self).write_closed == old(self).write_closed,
            final(self).read_closed == old(self).read_closed,
    {
        self.readers = self.readers.saturating_add(1);
    }

    /// Both ends are closed, so nothing can wait on this pipe any more.
    pub fn both_closed(&self) -> (r: bool)
        ensures
            r == (self.write_closed && self.read_closed),
    {
        self.write_closed && self.read_closed
    }
}

/// A new pipe: the shared ring and the descriptor flags of its read and
/// write ends.
pub struct PipePair {
    pub buf: PipeBuf,
    pub read_flags: u32,
    pub write_flags: u32,
}

/// A new pipe whose ends carry no flags.
pub fn new_pipe() -> (r: PipePair)
    ensures
        r.buf.wf(),
        r.buf.contents() == Seq::<u8>::empty(),
        r.buf.readers == 1 && r.buf.writers == 1,
        !r.buf.read_closed && !r.buf.write_closed,
        r.read_flags == 0,
        r.write_flags == 0,
{
    PipePair { buf: PipeBuf::new(), read_flags: 0, write_flags: 0 }
}

/// The descriptor flags that `pipe2(flags)` puts on both ends: only
/// `O_NONBLOCK` and `O_CLOEXEC` are carried over.
pub open spec fn pipe2_end_flags(flags: i32) -> u32 {
    (if flags & 0o4000 != 0 { O_NONBLOCK_FLAG } else { 0 }) | (if flags & 0o2000000 != 0 {
        O_CLOEXEC_FLAG
    } else {
        0
    })
}

/// A new pipe whose ends carry `O_NONBLOCK` / `O_CLOEXEC` when `flags`
/// asks for them.
pub fn new_pipe2(flags: i32) -> (r: PipePair)
    ensures
        r.buf.wf(),
        r.buf.contents() == Seq::<u8>::empty(),
        r.buf.readers == 1 && r.buf.writers == 1,
        !r.buf.read_closed && !r.buf.write_closed,
        r.read_flags == pipe2_end_flags(flags),
        r.write_flags == pipe2_end_flags(flags),
{
    let mut p = new_pipe();
    if flags & 0o4000 != 0 {
        p.read_flags = p.read_flags | O_NONBLOCK_FLAG;
        p.write_flags = p.write_flags | O_NONBLOCK_FLAG;
    }
    if flags & 0o2000000 != 0 {
        p.read_flags = p.read_flags | O_CLOEXEC_FLAG;
        p.write_flags = p.write_flags | O_CLOEXEC_FLAG;
    }
    proof {
        assert((0u32 | O_NONBLOCK_FLAG) | O_CLOEXEC_FLAG == O_NONBLOCK_FLAG | O_CLOEXEC_FLAG) by (bit_vector);
        assert(0u32 | O_NONBLOCK_FLAG == O_NONBLOCK_FLAG) by (bit_vector);
        assert(0u32 | O_CLOEXEC_FLAG == O_CLOEXEC_FLAG) by (bit_vector);
        assert(0u32 | 0u32 == 0u32) by (bit_vector);
        assert(O_NONBLOCK_FLAG | 0u32 == O_NONBLOCK_FLAG) by (bit_vector);
    }
    p
}

/// Bytes written into a pipe come out of it, in order, ahead of anything
/// written later: a write of `data` into an open pipe followed by a read
/// with room for everything yields what was queued, then `data`.
pub proof fn law_pipe_fifo(before: Seq<u8>, data: Seq<u8>, written: int, after_write: Seq<u8>)
    requires
        0 <= written <= data.len(),
        after_write == before + data.subrange(0, written),
    ensures
        after_write.subrange(before.len() as int, after_write.len() as int) == data.subrange(0, written),
        after_write.subrange(0, before.len() as int) == before,
{
    assert(after_write.subrange(before.len() as int, after_write.len() as int) =~= data.subrange(0, written));
    assert(after_write.subrange(0, before.len() as int) =~= before);
}


/// Each end of a pipe made by `pipe2(flags)` carries `O_NONBLOCK` exactly
/// when `flags` has the `O_NONBLOCK` bit (0o4000), `O_CLOEXEC` exactly when
/// it has the `O_CLOEXEC` bit (0o2000000), and no other flag.
pub proof fn law_pipe2_flags(flags: i32)
    ensures
        ({
            let w = pipe2_end_flags(flags);
            &&& (w & O_NONBLOCK_FLAG != 0) == (flags & 0o4000i32 != 0)
            &&& (w & O_CLOEXEC_FLAG != 0) == (flags & 0o2000000i32 != 0)
            &&& w & !0o2004000u32 == 0
        }),
{
    crate::flag_bits::lemma_flag_bits(0, 0, flags, 0);
}

} // verus!
