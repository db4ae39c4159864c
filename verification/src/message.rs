//! A frozen message shared by every recipient, and the cursor with which one
//! recipient works its way through it.

use crate::buffer::VectoredData;
use crate::buffer::BUFFER_SIZE;
use crate::layout::lemma_slice_bounds;
use crate::layout::lemma_slices_rejoin;
use crate::layout::slice_count;
use crate::layout::slice_end;
use crate::layout::slice_start;
use crate::layout::slices;
use std::rc::Rc;
use vstd::prelude::*;
use vstd::seq_lib::lemma_flatten_concat;
use vstd::slice::slice_subrange;

verus! {

/// What a message is to one recipient: the sender's label, the payload, and
/// how many bytes of label and payload together have gone out.
pub struct MessageView {
    pub label: Seq<u8>,
    pub payload: Seq<u8>,
    pub written: nat,
}

impl MessageView {
    /// The bytes that go to a peer: the label, then the payload, with nothing
    /// between them.
    pub open spec fn wire(self) -> Seq<u8> {
        self.label + self.payload
    }

    /// The bytes that have not gone out yet.
    pub open spec fn remaining(self) -> Seq<u8> {
        self.wire().skip(self.written as int)
    }

    /// Whether every byte has gone out.
    pub open spec fn drained(self) -> bool {
        self.written >= self.wire().len()
    }

    /// The same message with the cursor back at the start.
    pub open spec fn fresh(self) -> MessageView {
        MessageView { label: self.label, payload: self.payload, written: 0 }
    }

    /// The same message after `n` more bytes have gone out.
    pub open spec fn advance(self, n: nat) -> MessageView {
        MessageView { label: self.label, payload: self.payload, written: self.written + n }
    }

    /// Where in the payload the cursor stands.
    pub open spec fn payload_offset(self) -> int {
        if self.written < self.label.len() {
            0
        } else {
            self.written - self.label.len()
        }
    }

    /// The pieces of one vectored write: what is left of the label, if
    /// anything, and then what is left of the payload, one piece per chunk.
    pub open spec fn segments(self) -> Seq<Seq<u8>> {
        let head = if self.written < self.label.len() {
            seq![self.label.skip(self.written as int)]
        } else {
            Seq::<Seq<u8>>::empty()
        };
        head + slices(self.payload, BUFFER_SIZE as int, self.payload_offset())
    }
}

/// The pieces offered to a vectored write, joined, are exactly the bytes
/// that have not gone out yet, wherever the chunk boundaries fall.
pub proof fn lemma_segments_rejoin(m: MessageView)
    requires
        m.written <= m.wire().len(),
    ensures
        m.segments().flatten() == m.remaining(),
{
    let tail = slices(m.payload, BUFFER_SIZE as int, m.payload_offset());
    lemma_slices_rejoin(m.payload, BUFFER_SIZE as int, m.payload_offset());
    if m.written < m.label.len() {
        let head = seq![m.label.skip(m.written as int)];
        lemma_flatten_concat(head, tail);
        head.lemma_flatten_one_element();
        assert(m.payload.skip(0) =~= m.payload);
        assert(m.label.skip(m.written as int) + m.payload =~= m.remaining());
    } else {
        assert(Seq::<Seq<u8>>::empty() + tail =~= tail);
        assert(m.payload.skip(m.payload_offset()) =~= m.remaining());
    }
}

/// Partial-write resumption: when a write takes `n` of the bytes offered,
/// the next attempt offers the rest from the exact offset reached. What was
/// taken and what is offered next make up what was offered before, with no
/// byte twice and none missing.
pub proof fn lemma_partial_write_resumes(m: MessageView, n: nat)
    requires
        m.written + n <= m.wire().len(),
    ensures
        m.advance(n).segments().flatten() == m.remaining().skip(n as int),
        m.remaining() == m.remaining().take(n as int) + m.advance(n).remaining(),
        m.advance(n).wire() == m.wire(),
{
    lemma_segments_rejoin(m.advance(n));
    assert(m.advance(n).remaining() =~= m.remaining().skip(n as int));
    assert(m.remaining() =~= m.remaining().take(n as int) + m.remaining().skip(n as int));
}

/// The bytes a peer has received after a run of vectored writes, each
/// offered the pieces of the message and taking as many bytes of them as
/// `takes` says.
pub open spec fn delivered(m: MessageView, takes: Seq<nat>) -> Seq<u8>
    decreases takes.len(),
{
    if takes.len() == 0 {
        Seq::<u8>::empty()
    } else {
        m.segments().flatten().take(takes[0] as int) + delivered(
            m.advance(takes[0]),
            takes.drop_first(),
        )
    }
}

/// How many bytes a run of writes took in all.
pub open spec fn total(takes: Seq<nat>) -> nat
    decreases takes.len(),
{
    if takes.len() == 0 {
        0
    } else {
        takes[0] + total(takes.drop_first())
    }
}

/// Delivery is exact: however the transport splits the writes, the peer
/// receives the unsent bytes in order, as far as the writes went. A message
/// written out from the start to the end arrives as the label followed by
/// the payload, byte for byte.
pub proof fn lemma_delivery_is_exact(m: MessageView, takes: Seq<nat>)
    requires
        m.written + total(takes) <= m.wire().len(),
    ensures
        delivered(m, takes) == m.remaining().take(total(takes) as int),
        m.written == 0 && total(takes) == m.wire().len() ==> delivered(m, takes) == m.label
            + m.payload,
    decreases takes.len(),
{
    if takes.len() == 0 {
        assert(m.remaining().take(0) =~= Seq::<u8>::empty());
    } else {
        let n = takes[0];
        let rest = takes.drop_first();
        lemma_segments_rejoin(m);
        lemma_partial_write_resumes(m, n);
        lemma_delivery_is_exact(m.advance(n), rest);
        assert(m.remaining().take(n as int) + m.remaining().skip(n as int).take(
            total(rest) as int,
        ) =~= m.remaining().take(total(takes) as int));
    }
    if m.written == 0 && total(takes) == m.wire().len() {
        assert(m.remaining().take(total(takes) as int) =~= m.label + m.payload);
    }
}

/// Another handle on the same shared value.
///
/// Calls `Rc::clone`, which makes a new pointer to the same allocation: the
/// value seen through the result is the value seen through the argument.
#[verifier::external_body]
fn share<T>(rc: &Rc<T>) -> (r: Rc<T>)
    ensures
        r == *rc,
{
    Rc::clone(rc)
}

/// The sender's label and the frozen payload, shared among all recipients,
/// with this recipient's own cursor.
pub struct Message {
    user: Rc<Vec<u8>>,
    message: Rc<VectoredData>,
    written: usize,
}

impl View for Message {
    type V = MessageView;

    closed spec fn view(&self) -> MessageView {
        MessageView { label: self.user@, payload: self.message@, written: self.written as nat }
    }
}

impl Clone for Message {
    /// A second entry for the same shared label and payload, with this
    /// entry's cursor.
    fn clone(&self) -> (r: Message)
        ensures
            r@ == self@,
            r.wf() == self.wf(),
    {
        Message { user: share(&self.user), message: share(&self.message), written: self.written }
    }
}

impl Message {
    /// The cursor never passes the end, and the total length fits the machine.
    pub closed spec fn wf(&self) -> bool {
        &&& self.message.wf()
        &&& self.written <= self.user@.len() + self.message@.len()
        &&& self.user@.len() + self.message@.len() <= usize::MAX
    }

    /// What `wf` means for the view.
    pub proof fn lemma_wf(&self)
        requires
            self.wf(),
        ensures
            self@.written <= self@.wire().len() <= usize::MAX,
    {
    }

    /// Freezes a label and a payload into a message with the cursor at the
    /// start.
    pub fn new(user: Vec<u8>, message: VectoredData) -> (r: Message)
        requires
            message.wf(),
            user@.len() + message@.len() <= usize::MAX,
        ensures
            r.wf(),
            r@ == (MessageView { label: user@, payload: message@, written: 0 }),
    {
        Message { user: Rc::new(user), message: Rc::new(message), written: 0 }
    }

    /// A second entry for the same shared label and payload, with the cursor
    /// at the start.
    pub fn restart(&self) -> (r: Message)
        requires
            self.wf(),
        ensures
            r.wf(),
            r@ == self@.fresh(),
    {
        Message { user: share(&self.user), message: share(&self.message), written: 0 }
    }

    /// How many bytes have gone out.
    pub fn written(&self) -> (n: usize)
        ensures
            n == self@.written,
    {
        self.written
    }

    /// How many bytes have not gone out yet.
    pub fn pending(&self) -> (n: usize)
        requires
            self.wf(),
        ensures
            n == self@.remaining().len(),
    {
        self.user.len() + self.message.len() - self.written
    }

    /// The pieces to hand to one vectored write, borrowed from the shared
    /// label and payload without copying: what is left of the label, then
    /// what is left of the payload chunk by chunk. Joined, they are the bytes
    /// that have not gone out yet.
    pub fn unsent<'a>(&'a self) -> (bufs: Vec<&'a [u8]>)
        requires
            self.wf(),
        ensures
            bufs@.len() == self@.segments().len(),
            forall|i: int| 0 <= i < bufs@.len() ==> (#[trigger] bufs@[i])@ == self@.segments()[i],
            bufs@.map_values(|s: &[u8]| s@).flatten() == self@.remaining(),
    {
        let label_len: usize = self.user.len();
        let total: usize = self.message.len();
        let mut bufs: Vec<&'a [u8]> = Vec::new();
        let mut pos: usize = 0;
        if self.written < label_len {
            bufs.push(slice_subrange(self.user.as_slice(), self.written, label_len));
        } else {
            pos = self.written - label_len;
        }
        let ghost from: int = pos as int;
        let ghost heads: int = bufs@.len() as int;
        let ghost j: int = 0;
        let ghost c: int = BUFFER_SIZE as int;
        assert(from == self@.payload_offset());
        while pos < total
            invariant
                pos <= total,
                total == self.message@.len(),
                self.message.wf(),
                c == BUFFER_SIZE,
                0 <= from <= total,
                from == self@.payload_offset(),
                heads == self@.segments().len() - slice_count(total as int, c, from),
                0 <= heads <= 1,
                0 <= j <= slice_count(total as int, c, from),
                bufs@.len() == heads + j,
                j == 0 ==> pos == from,
                j > 0 ==> pos == slice_end(total as int, c, from, j - 1),
                forall|i: int|
                    0 <= i < bufs@.len() ==> (#[trigger] bufs@[i])@ == self@.segments()[i],
            decreases total - pos,
        {
            proof {
                if j > 0 {
                    lemma_slice_bounds(total as int, c, from, j - 1);
                }
                assert(j < slice_count(total as int, c, from));
                lemma_slice_bounds(total as int, c, from, j);
                assert(pos == slice_start(c, from, j));
                assert(slice_end(total as int, c, pos as int, 0) == slice_end(
                    total as int,
                    c,
                    from,
                    j,
                ));
            }
            let piece: &'a [u8] = self.message.slice_from(pos);
            bufs.push(piece);
            pos = pos + piece.len();
            proof {
                j = j + 1;
            }
        }
        proof {
            if from < total {
                if j > 0 {
                    lemma_slice_bounds(total as int, c, from, j - 1);
                }
                if j < slice_count(total as int, c, from) {
                    lemma_slice_bounds(total as int, c, from, j);
                }
            }
            assert(bufs@.map_values(|s: &[u8]| s@) =~= self@.segments());
            lemma_segments_rejoin(self@);
        }
        bufs
    }

    /// Records that the last vectored write took `nb_write` bytes, which may
    /// be fewer than were offered, and says whether the message has now gone
    /// out in full.
    pub fn write(&mut self, nb_write: usize) -> (done: bool)
        requires
            old(self).wf(),
            nb_write <= old(self)@.remaining().len(),
        ensures
            final(self).wf(),
            final(self)@ == old(self)@.advance(nb_write as nat),
            final(self)@.remaining() == old(self)@.remaining().skip(nb_write as int),
            done <==> final(self)@.drained(),
    {
        self.written = self.written + nb_write;
        assert(self@.remaining() =~= old(self)@.remaining().skip(nb_write as int));
        self.written == self.message.len() + self.user.len()
    }
}

} // verus!
