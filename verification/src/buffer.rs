//! The inbound accumulator: an append-only byte buffer that grows one
//! fixed-size chunk at a time.

use crate::layout::portion;
use crate::layout::space;
use vstd::prelude::*;
use vstd::slice::slice_subrange;

verus! {

/// Bytes per chunk. It sets the granularity of memory only and never shows
/// in the bytes that go in or come out.
pub const BUFFER_SIZE: usize = 512;

/// The byte a message ends with.
pub const LINE_FEED: u8 = 10;

/// How many bytes one more read may append to a buffer that holds `len`:
/// what is left of the tail chunk, or a whole new chunk when the tail is full.
pub open spec fn room_after(len: nat) -> nat {
    space(len as int, BUFFER_SIZE as int) as nat
}

/// How many of `offered` bytes a buffer that holds `len` takes in one read.
pub open spec fn taken(len: nat, offered: nat) -> nat {
    portion(len as int, BUFFER_SIZE as int, offered as int) as nat
}

/// A growable byte buffer made of chunks of `BUFFER_SIZE` bytes. A chunk is
/// added only when the one before it is full.
pub struct VectoredData {
    data: Vec<[u8; BUFFER_SIZE]>,
    data_length: usize,
}

impl View for VectoredData {
    type V = Seq<u8>;

    /// The bytes appended so far, in order.
    closed spec fn view(&self) -> Seq<u8> {
        Seq::new(
            self.data_length as nat,
            |k: int| self.data@[k / (BUFFER_SIZE as int)]@[k % (BUFFER_SIZE as int)],
        )
    }
}

impl VectoredData {
    /// The chunks hold every valid byte, and at most the tail chunk is empty.
    pub closed spec fn wf(&self) -> bool {
        &&& self.data_length <= self.data@.len() * BUFFER_SIZE
        &&& self.data@.len() * BUFFER_SIZE <= self.data_length + BUFFER_SIZE
    }

    /// An empty buffer, with no chunk allocated yet.
    pub fn new() -> (r: VectoredData)
        ensures
            r.wf(),
            r@ == Seq::<u8>::empty(),
    {
        let r = VectoredData { data: Vec::new(), data_length: 0 };
        assert(r@ =~= Seq::<u8>::empty());
        r
    }

    /// The number of valid bytes.
    pub fn len(&self) -> (n: usize)
        ensures
            n == self@.len(),
    {
        self.data_length
    }

    /// How many bytes the next `read` can take.
    pub fn room(&self) -> (n: usize)
        ensures
            n == room_after(self@.len()),
            1 <= n <= BUFFER_SIZE,
    {
        BUFFER_SIZE - self.data_length % BUFFER_SIZE
    }

    /// Appends what one read attempt delivered: the bytes of `bytes` that fit
    /// in the unused part of the tail chunk, after adding a new tail chunk if
    /// the current one is full. Returns how many bytes were appended; with
    /// `bytes` empty that is 0, the sign that the peer closed the stream.
    pub fn read(&mut self, bytes: &[u8]) -> (nb_read: usize)
        requires
            old(self).wf(),
            old(self)@.len() + BUFFER_SIZE <= usize::MAX,
        ensures
            final(self).wf(),
            nb_read == taken(old(self)@.len(), bytes@.len()),
            final(self)@ == old(self)@ + bytes@.take(nb_read as int),
    {
        if self.data_length % BUFFER_SIZE == 0 && self.data_length / BUFFER_SIZE
            == self.data.len() {
            self.data.push([0u8; BUFFER_SIZE]);
            assert(self@ =~= old(self)@);
        }
        let buf_index: usize = self.data_length / BUFFER_SIZE;
        let buf_read_index: usize = self.data_length % BUFFER_SIZE;
        let free: usize = BUFFER_SIZE - buf_read_index;
        let nb_read: usize = if bytes.len() <= free {
            bytes.len()
        } else {
            free
        };
        let ghost before = self@;
        let mut i: usize = 0;
        while i < nb_read
            invariant
                i <= nb_read,
                nb_read <= bytes@.len(),
                nb_read <= free,
                free == BUFFER_SIZE - buf_read_index,
                buf_index == self.data_length / BUFFER_SIZE,
                buf_read_index == self.data_length % BUFFER_SIZE,
                buf_index < self.data@.len(),
                self.data_length == old(self).data_length,
                self.wf(),
                self@ == before,
                forall|k: int|
                    0 <= k < i ==> self.data@[buf_index as int]@[buf_read_index + k] == bytes@[k],
            decreases nb_read - i,
        {
            self.data[buf_index][buf_read_index + i] = bytes[i];
            assert(self@ =~= before) by {
                assert forall|k: int| 0 <= k < self.data_length implies #[trigger] self@[k]
                    == before[k] by {
                    if k / (BUFFER_SIZE as int) == buf_index {
                        assert(k % (BUFFER_SIZE as int) < buf_read_index);
                    }
                }
            }
            i += 1;
        }
        self.data_length = self.data_length + nb_read;
        assert(self@ =~= before + bytes@.take(nb_read as int)) by {
            assert forall|k: int| 0 <= k < self@.len() implies self@[k] == (before + bytes@.take(
                nb_read as int,
            ))[k] by {
                if k >= before.len() {
                    let t = k - before.len();
                    assert(k / (BUFFER_SIZE as int) == buf_index);
                    assert(k % (BUFFER_SIZE as int) == buf_read_index + t);
                }
            }
        }
        nb_read
    }

    /// Whether the byte `c` occurs among the valid bytes. The chunks are
    /// scanned from the most recent one back, and the scan stops at the first
    /// match: a terminator is nearly always among the bytes that came last.
    pub fn contain(&self, c: u8) -> (found: bool)
        requires
            self.wf(),
        ensures
            found <==> self@.contains(c),
    {
        let chunks: usize = if self.data_length == 0 {
            0
        } else {
            (self.data_length - 1) / BUFFER_SIZE + 1
        };
        let mut index: usize = chunks;
        while index > 0
            invariant
                index <= chunks,
                self.wf(),
                chunks == if self.data_length == 0 {
                    0
                } else {
                    (self.data_length - 1) / (BUFFER_SIZE as int) + 1
                },
                forall|k: int| index * BUFFER_SIZE <= k < self.data_length ==> self@[k] != c,
            decreases index,
        {
            index -= 1;
            let valid: usize = if index == chunks - 1 {
                self.data_length - index * BUFFER_SIZE
            } else {
                BUFFER_SIZE
            };
            let chunk: &[u8; BUFFER_SIZE] = &self.data[index];
            let mut j: usize = 0;
            while j < valid
                invariant
                    j <= valid,
                    valid <= BUFFER_SIZE,
                    index < chunks,
                    index * BUFFER_SIZE + valid <= self.data_length,
                    index < self.data@.len(),
                    *chunk == self.data@[index as int],
                    forall|k: int|
                        index * BUFFER_SIZE <= k < index * BUFFER_SIZE + j ==> self@[k] != c,
                decreases valid - j,
            {
                if chunk[j] == c {
                    assert(self@[index * BUFFER_SIZE + j] == c);
                    return true;
                }
                j += 1;
            }
        }
        assert(!self@.contains(c));
        false
    }

    /// Hands the contents over and leaves an empty buffer in their place.
    /// After this the bytes handed over can no longer change.
    pub fn take(&mut self) -> (r: VectoredData)
        requires
            old(self).wf(),
        ensures
            final(self).wf(),
            final(self)@ == Seq::<u8>::empty(),
            r.wf(),
            r@ == old(self)@,
    {
        let mut r = VectoredData::new();
        core::mem::swap(self, &mut r);
        r
    }

    /// The valid bytes of the chunk that holds position `from`, from that
    /// position to the chunk's end or the end of the buffer.
    pub fn slice_from(&self, from: usize) -> (r: &[u8])
        requires
            self.wf(),
            from < self@.len(),
        ensures
            r@ == self@.subrange(
                from as int,
                crate::layout::slice_end(self@.len() as int, BUFFER_SIZE as int, from as int, 0),
            ),
            r@.len() >= 1,
            from + r@.len() <= self@.len(),
    {
        let index: usize = from / BUFFER_SIZE;
        let start: usize = from % BUFFER_SIZE;
        let left: usize = self.data_length - from;
        let end: usize = if left < BUFFER_SIZE - start {
            start + left
        } else {
            BUFFER_SIZE
        };
        let chunk: &[u8; BUFFER_SIZE] = &self.data[index];
        let r = slice_subrange(chunk.as_slice(), start, end);
        assert(r@ =~= self@.subrange(
            from as int,
            crate::layout::slice_end(self@.len() as int, BUFFER_SIZE as int, from as int, 0),
        )) by {
            assert forall|t: int| 0 <= t < end - start implies #[trigger] r@[t] == self@[from
                + t] by {
                assert((from + t) / (BUFFER_SIZE as int) == index);
                assert((from + t) % (BUFFER_SIZE as int) == start + t);
            }
        }
        r
    }
}

} // verus!
