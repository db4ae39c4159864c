//! One connection: what it has received and not yet framed, what is queued
//! for it to send, and the readiness it has asked to be told about.

use crate::buffer::taken;
use crate::buffer::VectoredData;
use crate::buffer::BUFFER_SIZE;
use crate::buffer::LINE_FEED;
use crate::epoll::Events;
use crate::epoll::EPOLLIN;
use crate::epoll::EPOLLOUT;
use crate::message::lemma_segments_rejoin;
use crate::message::total;
use crate::message::Message;
use crate::message::MessageView;
use vstd::prelude::*;

verus! {

/// Interest in readability alone: the state of a connection with nothing to
/// send.
pub open spec fn read_only() -> Events {
    Events::of(EPOLLIN)
}

/// Interest in readability and writability: the state of a connection with
/// something to send.
pub open spec fn read_write() -> Events {
    Events::of(EPOLLIN | EPOLLOUT)
}

/// The interest that goes with a queue of `queued` messages.
pub open spec fn interest_for(queued: nat) -> Events {
    if queued == 0 {
        read_only()
    } else {
        read_write()
    }
}

/// The label every connection gets: the bytes of `Test:`.
pub open spec fn default_label() -> Seq<u8> {
    seq![84u8, 101u8, 115u8, 116u8, 58u8]
}

/// A connection as the contracts see it.
pub struct ClientView {
    /// The transport handle, which is also the key in the table.
    pub fd: i32,
    /// The label put in front of every message this connection sends.
    pub label: Seq<u8>,
    /// The bytes received and not yet framed.
    pub inbound: Seq<u8>,
    /// The messages to send, oldest first, each with this connection's cursor.
    pub queue: Seq<MessageView>,
    /// The readiness conditions this connection is registered for.
    pub interest: Events,
}

impl ClientView {
    /// A connection that has just been accepted.
    pub open spec fn fresh(fd: i32) -> ClientView {
        ClientView {
            fd,
            label: default_label(),
            inbound: Seq::<u8>::empty(),
            queue: Seq::<MessageView>::empty(),
            interest: read_only(),
        }
    }

    /// The cursors are within their messages, and writability is watched if
    /// and only if there is something to send.
    pub open spec fn valid(self) -> bool {
        &&& self.interest == interest_for(self.queue.len())
        &&& forall|i: int|
            0 <= i < self.queue.len() ==> (#[trigger] self.queue[i]).written
                <= self.queue[i].wire().len()
    }

    /// Every byte still owed to the peer, in the order it will go out.
    pub open spec fn backlog(self) -> Seq<u8> {
        self.queue.map_values(|m: MessageView| m.remaining()).flatten()
    }

    /// Whether the inbound bytes hold a terminator.
    pub open spec fn has_message(self) -> bool {
        self.inbound.contains(LINE_FEED)
    }

    /// Whether one more read fits the machine's limits.
    pub open spec fn can_read(self) -> bool {
        self.label.len() + self.inbound.len() + BUFFER_SIZE <= usize::MAX
    }

    /// After one read attempt that delivered `bytes`.
    pub open spec fn receive(self, bytes: Seq<u8>) -> ClientView {
        ClientView {
            inbound: self.inbound + bytes.take(taken(self.inbound.len(), bytes.len()) as int),
            ..self
        }
    }

    /// The message that freezing the inbound bytes gives.
    pub open spec fn frozen(self) -> MessageView {
        MessageView { label: self.label, payload: self.inbound, written: 0 }
    }

    /// After the inbound bytes have been handed over.
    pub open spec fn flushed(self) -> ClientView {
        ClientView { inbound: Seq::<u8>::empty(), ..self }
    }

    /// After `m` has been queued for this connection, with a cursor of its
    /// own at the start.
    pub open spec fn enqueue(self, m: MessageView) -> ClientView {
        ClientView { queue: self.queue.push(m.fresh()), interest: read_write(), ..self }
    }

    /// After a vectored write on the head of the queue took `n` bytes: the
    /// head's cursor moves, and a head that has gone out in full leaves the
    /// queue.
    pub open spec fn drain(self, n: nat) -> ClientView {
        let head = self.queue[0].advance(n);
        if head.drained() {
            ClientView {
                queue: self.queue.drop_first(),
                interest: interest_for((self.queue.len() - 1) as nat),
                ..self
            }
        } else {
            ClientView { queue: self.queue.update(0, head), ..self }
        }
    }
}

/// Interest bookkeeping: a valid connection watches for writability if and
/// only if its queue is not empty, and it always watches for readability.
pub proof fn lemma_interest_tracks_queue(c: ClientView)
    requires
        c.valid(),
    ensures
        c.interest.includes(Events::of(EPOLLOUT)) <==> c.queue.len() > 0,
        c.interest.includes(Events::of(EPOLLIN)),
{
    assert(0x001u32 & 0x004u32 == 0) by (bit_vector);
    assert(0x001u32 & 0x001u32 == 0x001u32) by (bit_vector);
    assert((0x001u32 | 0x004u32) & 0x004u32 == 0x004u32) by (bit_vector);
    assert((0x001u32 | 0x004u32) & 0x001u32 == 0x001u32) by (bit_vector);
}

/// Every step of a connection keeps it valid, so the interest follows the
/// queue through any sequence of reads, broadcasts and writes.
pub proof fn lemma_steps_keep_valid(c: ClientView, m: MessageView, bytes: Seq<u8>, n: nat)
    requires
        c.valid(),
    ensures
        ClientView::fresh(c.fd).valid(),
        c.receive(bytes).valid(),
        c.flushed().valid(),
        c.enqueue(m).valid(),
        c.queue.len() > 0 && c.queue[0].written + n <= c.queue[0].wire().len() ==> c.drain(
            n,
        ).valid(),
{
    let e = c.enqueue(m);
    assert forall|i: int| 0 <= i < e.queue.len() implies (#[trigger] e.queue[i]).written
        <= e.queue[i].wire().len() by {
        if i < c.queue.len() {
            assert(e.queue[i] == c.queue[i]);
        }
    }
    if c.queue.len() > 0 && c.queue[0].written + n <= c.queue[0].wire().len() {
        let d = c.drain(n);
        assert forall|i: int| 0 <= i < d.queue.len() implies (#[trigger] d.queue[i]).written
            <= d.queue[i].wire().len() by {
            if c.queue[0].advance(n).drained() {
                assert(d.queue[i] == c.queue[i + 1]);
            } else if i > 0 {
                assert(d.queue[i] == c.queue[i]);
            }
        }
    }
}

/// Queuing a message puts its wire bytes at the very end of what is owed:
/// nothing already queued is touched, and the new message goes out after it.
pub proof fn lemma_enqueue_appends(c: ClientView, m: MessageView)
    ensures
        c.enqueue(m).backlog() == c.backlog() + m.wire(),
{
    let f = |m: MessageView| m.remaining();
    let before = c.queue.map_values(f);
    assert(c.queue.push(m.fresh()).map_values(f) =~= before.push(m.fresh().remaining()));
    before.lemma_flatten_push(m.fresh().remaining());
    assert(m.fresh().remaining() =~= m.wire());
}

/// A write that took `n` bytes took the first `n` bytes owed, all of them
/// from the head of the queue, and leaves the rest owed in the same order.
pub proof fn lemma_drain_consumes(c: ClientView, n: nat)
    requires
        c.queue.len() > 0,
        c.queue[0].written + n <= c.queue[0].wire().len(),
    ensures
        c.drain(n).backlog() == c.backlog().skip(n as int),
        c.backlog().take(n as int) == c.queue[0].remaining().take(n as int),
{
    let f = |m: MessageView| m.remaining();
    let before = c.queue.map_values(f);
    let after = c.drain(n).queue.map_values(f);
    let rest = before.drop_first();
    let head = c.queue[0];
    assert(before.flatten() == before[0] + rest.flatten());
    assert(before[0] == head.remaining());
    assert(head.advance(n).remaining() =~= head.remaining().skip(n as int));
    if head.advance(n).drained() {
        assert(after =~= rest);
        assert(n == head.remaining().len());
    } else {
        assert(after.len() > 0);
        assert(after.drop_first() =~= rest);
        assert(after.flatten() == after[0] + after.drop_first().flatten());
        assert(after[0] == head.advance(n).remaining());
    }
    assert(c.drain(n).backlog() =~= c.backlog().skip(n as int));
    assert(c.backlog().take(n as int) =~= head.remaining().take(n as int));
}

/// FIFO per recipient: two messages queued one after the other are owed in
/// that order, each whole, behind everything queued before them. Together
/// with `lemma_drain_consumes` this means the peer sees the messages one
/// after the other, never interleaved and never out of order.
pub proof fn lemma_fifo(c: ClientView, first: MessageView, second: MessageView)
    ensures
        c.enqueue(first).enqueue(second).backlog() == c.backlog() + first.wire() + second.wire(),
{
    lemma_enqueue_appends(c, first);
    lemma_enqueue_appends(c.enqueue(first), second);
}

/// Whether a run of vectored writes can happen on this connection: each one
/// finds a message at the head of the queue and takes no more than is left
/// of it.
pub open spec fn fits(c: ClientView, takes: Seq<nat>) -> bool
    decreases takes.len(),
{
    takes.len() == 0 || (c.queue.len() > 0 && c.queue[0].written + takes[0]
        <= c.queue[0].wire().len() && fits(c.drain(takes[0]), takes.drop_first()))
}

/// The bytes the peer has received after a run of vectored writes, each
/// offered the pieces of the head of the queue and taking as many bytes of
/// them as `takes` says.
pub open spec fn observed(c: ClientView, takes: Seq<nat>) -> Seq<u8>
    decreases takes.len(),
{
    if takes.len() == 0 {
        Seq::<u8>::empty()
    } else {
        c.queue[0].segments().flatten().take(takes[0] as int) + observed(
            c.drain(takes[0]),
            takes.drop_first(),
        )
    }
}

/// What the peer receives over any run of writes is the beginning of what
/// it is owed: the queued messages in the order they were queued, each from
/// where its cursor stood, with nothing between them, nothing repeated and
/// nothing left out.
pub proof fn lemma_peer_receives_in_order(c: ClientView, takes: Seq<nat>)
    requires
        c.valid(),
        fits(c, takes),
    ensures
        total(takes) <= c.backlog().len(),
        observed(c, takes) == c.backlog().take(total(takes) as int),
    decreases takes.len(),
{
    if takes.len() == 0 {
        assert(c.backlog().take(0) =~= Seq::<u8>::empty());
    } else {
        let n = takes[0];
        let rest = takes.drop_first();
        let m = MessageView { label: c.label, payload: c.inbound, written: 0 };
        lemma_steps_keep_valid(c, m, Seq::<u8>::empty(), n);
        lemma_segments_rejoin(c.queue[0]);
        lemma_drain_consumes(c, n);
        lemma_peer_receives_in_order(c.drain(n), rest);
        let owed = c.backlog();
        assert(owed.skip(n as int).len() == owed.len() - n) by {
            let f = |m: MessageView| m.remaining();
            let all = c.queue.map_values(f);
            assert(all.flatten() == all[0] + all.drop_first().flatten());
        }
        assert(owed.take(n as int) + owed.skip(n as int).take(total(rest) as int) =~= owed.take(
            total(takes) as int,
        ));
        assert(c.queue[0].remaining().take(n as int) == owed.take(n as int));
    }
}

/// The state of one peer.
pub struct Client {
    fd: i32,
    input: VectoredData,
    output: Vec<Message>,
    user: Vec<u8>,
    interest: Events,
}

impl View for Client {
    type V = ClientView;

    closed spec fn view(&self) -> ClientView {
        ClientView {
            fd: self.fd,
            label: self.user@,
            inbound: self.input@,
            queue: self.output@.map_values(|m: Message| m@),
            interest: self.interest,
        }
    }
}

impl Client {
    /// The buffers are sound, the view is valid, and the label and the
    /// inbound bytes together fit the machine.
    pub closed spec fn wf(&self) -> bool {
        &&& self.input.wf()
        &&& forall|i: int| 0 <= i < self.output@.len() ==> (#[trigger] self.output@[i]).wf()
        &&& self.user@.len() + self.input@.len() <= usize::MAX
        &&& self.interest == interest_for(self.output@.len())
    }

    /// A sound connection has a valid view.
    pub proof fn lemma_wf(&self)
        requires
            self.wf(),
        ensures
            self@.valid(),
            self@.label.len() + self@.inbound.len() <= usize::MAX,
    {
        assert forall|i: int| 0 <= i < self@.queue.len() implies (#[trigger] self@.queue[i]).written
            <= self@.queue[i].wire().len() by {
            self.output@[i].lemma_wf();
        }
    }

    /// The state of a connection that has just been accepted: nothing
    /// received, nothing to send, interest in readability only.
    pub fn new(fd: i32) -> (r: Client)
        ensures
            r.wf(),
            r@ == ClientView::fresh(fd),
    {
        let mut user: Vec<u8> = Vec::new();
        user.push(84u8);
        user.push(101u8);
        user.push(115u8);
        user.push(116u8);
        user.push(58u8);
        let r = Client {
            fd,
            input: VectoredData::new(),
            output: Vec::new(),
            user,
            interest: Events::from_bits_truncate(EPOLLIN),
        };
        proof {
            assert(0x001u32 & 0x8000_201fu32 == 0x001u32) by (bit_vector);
            assert(r.user@ =~= default_label());
            assert(r@.queue =~= Seq::<MessageView>::empty());
        }
        r
    }

    /// The transport handle.
    pub fn fd(&self) -> (r: i32)
        ensures
            r == self@.fd,
    {
        self.fd
    }

    /// The readiness conditions this connection should be registered for.
    pub fn interest(&self) -> (r: Events)
        ensures
            r == self@.interest,
    {
        self.interest
    }

    /// How many messages wait to be sent.
    pub fn queued(&self) -> (n: usize)
        ensures
            n == self@.queue.len(),
    {
        self.output.len()
    }

    /// How many bytes the next `read` can take.
    pub fn room(&self) -> (n: usize)
        ensures
            n == crate::buffer::room_after(self@.inbound.len()),
            1 <= n <= BUFFER_SIZE,
    {
        self.input.room()
    }

    /// Whether one more read fits the machine's limits.
    pub fn can_read(&self) -> (r: bool)
        requires
            self.wf(),
        ensures
            r == self@.can_read(),
    {
        self.user.len() + self.input.len() <= usize::MAX - BUFFER_SIZE
    }

    /// Takes in what one read attempt on the transport delivered, and returns
    /// how many bytes were appended: 0 means that the peer closed the stream.
    pub fn read(&mut self, bytes: &[u8]) -> (nb_read: usize)
        requires
            old(self).wf(),
            old(self)@.can_read(),
        ensures
            final(self).wf(),
            final(self)@ == old(self)@.receive(bytes@),
            nb_read == taken(old(self)@.inbound.len(), bytes@.len()),
    {
        self.input.read(bytes)
    }

    /// Whether the bytes received so far hold a terminator.
    pub fn have_message(&self) -> (r: bool)
        requires
            self.wf(),
        ensures
            r == self@.has_message(),
    {
        self.input.contain(LINE_FEED)
    }

    /// Freezes everything received so far into a message under this
    /// connection's label, and starts over with an empty buffer. Bytes that
    /// follow the terminator are part of the message.
    pub fn flush_input(&mut self) -> (msg: Message)
        requires
            old(self).wf(),
        ensures
            final(self).wf(),
            final(self)@ == old(self)@.flushed(),
            msg.wf(),
            msg@ == old(self)@.frozen(),
    {
        let res = self.input.take();
        let user = self.user.clone();
        assert(user@ =~= self.user@);
        Message::new(user, res)
    }

    /// Queues `message` for this connection, with a cursor of its own at the
    /// start, and adds writability to the interest.
    pub fn send_message(&mut self, message: &Message)
        requires
            old(self).wf(),
            message.wf(),
        ensures
            final(self).wf(),
            final(self)@ == old(self)@.enqueue(message@),
            final(self)@.backlog() == old(self)@.backlog() + message@.wire(),
    {
        self.output.push(message.restart());
        self.interest = Events::from_bits_truncate(EPOLLIN | EPOLLOUT);
        proof {
            assert((0x001u32 | 0x004u32) & 0x8000_201fu32 == 0x001u32 | 0x004u32) by (bit_vector);
            assert(self@.queue =~= old(self)@.queue.push(message@.fresh()));
            lemma_enqueue_appends(old(self)@, message@);
        }
    }

    /// The pieces to hand to one vectored write: those of the head of the
    /// queue, and none when the queue is empty.
    pub fn unsent<'a>(&'a self) -> (bufs: Vec<&'a [u8]>)
        requires
            self.wf(),
        ensures
            self@.queue.len() == 0 ==> bufs@.len() == 0,
            self@.queue.len() > 0 ==> {
                &&& bufs@.len() == self@.queue[0].segments().len()
                &&& forall|i: int|
                    0 <= i < bufs@.len() ==> (#[trigger] bufs@[i])@ == self@.queue[0].segments()[i]
                &&& bufs@.map_values(|s: &[u8]| s@).flatten() == self@.queue[0].remaining()
            },
    {
        if self.output.len() == 0 {
            Vec::new()
        } else {
            self.output[0].unsent()
        }
    }

    /// How many bytes of the head of the queue have not gone out yet; 0 when
    /// the queue is empty.
    pub fn pending(&self) -> (n: usize)
        requires
            self.wf(),
        ensures
            self@.queue.len() == 0 ==> n == 0,
            self@.queue.len() > 0 ==> n == self@.queue[0].remaining().len(),
    {
        if self.output.len() == 0 {
            0
        } else {
            self.output[0].pending()
        }
    }

    /// Records that a vectored write on the head of the queue took
    /// `nb_write` bytes. A head that has gone out in full leaves the queue,
    /// and the result says whether it did. When the queue becomes empty the
    /// interest goes back to readability only.
    pub fn write(&mut self, nb_write: usize) -> (done: bool)
        requires
            old(self).wf(),
            old(self)@.queue.len() > 0,
            nb_write <= old(self)@.queue[0].remaining().len(),
        ensures
            final(self).wf(),
            final(self)@ == old(self)@.drain(nb_write as nat),
            done == old(self)@.queue[0].advance(nb_write as nat).drained(),
            final(self)@.backlog() == old(self)@.backlog().skip(nb_write as int),
    {
        proof {
            old(self).output@[0].lemma_wf();
            lemma_drain_consumes(old(self)@, nb_write as nat);
        }
        let done = self.output[0].write(nb_write);
        if done {
            let _ = self.output.remove(0);
            if self.output.len() == 0 {
                self.interest = Events::from_bits_truncate(EPOLLIN);
            }
            proof {
                assert(0x001u32 & 0x8000_201fu32 == 0x001u32) by (bit_vector);
                assert(self@.queue =~= old(self)@.queue.drop_first());
            }
        } else {
            proof {
                assert(self@.queue =~= old(self)@.queue.update(
                    0,
                    old(self)@.queue[0].advance(nb_write as nat),
                ));
            }
        }
        done
    }
}

} // verus!
