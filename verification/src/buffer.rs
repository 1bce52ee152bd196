use vstd::prelude::*;

verus! {

/// Capacity of the reusable terminal byte buffer.
pub const TTY_BUFFER_SIZE: usize = 8192;

/// Low-water mark: once the live region starts this close to the end of the
/// buffer, the unresolved bytes are compacted down to the front.
pub const TTY_BUFFER_THRESHOLD: usize = 512;

/// A fixed-capacity byte buffer holding the terminal bytes not yet resolved
/// into an event. The live region is `[head, head + pending)`; bytes before
/// `head` have been consumed and are reclaimed by compaction, bytes after the
/// live region are free space for the next read.
pub struct TtyBuffer {
    /// Backing storage; always exactly `TTY_BUFFER_SIZE` bytes.
    pub buf: Vec<u8>,
    /// Index of the first unresolved byte.
    pub head: usize,
    /// Number of unresolved bytes starting at `head`.
    pub pending: usize,
}

impl TtyBuffer {
    /// The buffer invariant: full-capacity storage, live region in bounds.
    pub open spec fn wf(self) -> bool {
        &&& self.buf.len() == TTY_BUFFER_SIZE
        &&& self.head + self.pending <= TTY_BUFFER_SIZE
    }

    /// The unresolved bytes, in order.
    pub open spec fn pending_bytes(self) -> Seq<u8> {
        self.buf@.subrange(self.head as int, self.head + self.pending)
    }

    /// How many bytes a read may deposit after the live region.
    pub open spec fn spec_free_len(self) -> int {
        TTY_BUFFER_SIZE - self.head - self.pending
    }

    /// A fresh, empty buffer.
    pub fn new() -> (r: TtyBuffer)
        ensures
            r.wf(),
            r.head == 0,
            r.pending == 0,
            r.pending_bytes() == Seq::<u8>::empty(),
    {
        let buf: Vec<u8> = vec![0u8; TTY_BUFFER_SIZE];
        let r = TtyBuffer { buf, head: 0, pending: 0 };
        proof {
            assert(r.pending_bytes() =~= Seq::<u8>::empty());
        }
        r
    }

    /// Room left for a read, in bytes. Zero here with bytes still pending
    /// means the driver could not make progress: the composition root treats
    /// that as a fatal defect before reading.
    pub fn free_len(&self) -> (r: usize)
        requires
            self.wf(),
        ensures
            r == self.spec_free_len(),
    {
        TTY_BUFFER_SIZE - self.head - self.pending
    }

    /// Appends freshly read bytes directly after the pending region, without
    /// disturbing the bytes already buffered.
    pub fn push_bytes(&mut self, new: &[u8])
        requires
            old(self).wf(),
            new@.len() <= old(self).spec_free_len(),
        ensures
            final(self).wf(),
            final(self).head == old(self).head,
            final(self).pending == old(self).pending + new@.len(),
            final(self).pending_bytes() == old(self).pending_bytes() + new@,
    {
        let n = new.len();
        let base = self.head + self.pending;
        let mut k: usize = 0;
        while k < n
            invariant
                self.buf.len() == TTY_BUFFER_SIZE,
                self.head == old(self).head,
                self.pending == old(self).pending,
                base == self.head + self.pending,
                base + n <= TTY_BUFFER_SIZE,
                k <= n,
                n == new@.len(),
                forall|j: int| 0 <= j < base ==> self.buf@[j] == old(self).buf@[j],
                forall|j: int| 0 <= j < k ==> self.buf@[base + j] == new@[j],
            decreases n - k,
        {
            let b = new[k];
            self.buf[base + k] = b;
            k += 1;
        }
        self.pending = self.pending + n;
        proof {
            assert(self.pending_bytes() =~= old(self).pending_bytes() + new@);
        }
    }

    /// Relocates the unresolved bytes to the front of the buffer and resets
    /// `head` to zero, reclaiming the consumed space before it. The pending
    /// bytes themselves are kept exactly as they were.
    pub fn compact(&mut self)
        requires
            old(self).wf(),
        ensures
            final(self).wf(),
            final(self).head == 0,
            final(self).pending == old(self).pending,
            final(self).pending_bytes() == old(self).pending_bytes(),
    {
        if self.head == 0 {
            proof {
                assert(self.pending_bytes() =~= old(self).pending_bytes());
            }
            return;
        }
        let h = self.head;
        let p = self.pending;
        let mut k: usize = 0;
        while k < p
            invariant
                self.buf.len() == TTY_BUFFER_SIZE,
                1 <= h,
                h + p <= TTY_BUFFER_SIZE,
                k <= p,
                self.head == h,
                self.pending == p,
                forall|j: int| k <= j < p ==> self.buf@[h + j] == #[trigger] old(self).buf@[h + j],
                forall|j: int| 0 <= j < k ==> #[trigger] self.buf@[j] == old(self).buf@[h + j],
            decreases p - k,
        {
            let b = self.buf[h + k];
            self.buf[k] = b;
            k += 1;
        }
        self.head = 0;
        proof {
            assert(self.pending_bytes() =~= old(self).pending_bytes());
        }
    }
}

} // verus!
