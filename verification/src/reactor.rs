//! The decisions of the reactor: what each readiness event does to the table
//! of connections, and which registrations have to change afterwards.
//!
//! The loop that waits for events, reads from and writes to the transport and
//! talks to the kernel belongs to the caller. It hands every outcome to one of
//! the functions here and carries out what the report tells it.

use crate::buffer::room_after;
use crate::buffer::LINE_FEED;
use crate::client::lemma_enqueue_appends;
use crate::client::lemma_interest_tracks_queue;
use crate::client::lemma_steps_keep_valid;
use crate::client::read_only;
use crate::client::read_write;
use crate::client::Client;
use crate::client::ClientView;
use crate::epoll::Events;
use crate::epoll::EPOLLIN;
use crate::epoll::EPOLLOUT;
use crate::message::Message;
use crate::message::MessageView;
use std::collections::HashMap;
use vstd::prelude::*;
use vstd::std_specs::hash::group_hash_axioms;
use vstd::std_specs::iter::IteratorSpec;

verus! {

/// The table as the contracts see it: each handle with its connection.
pub type Table = Map<i32, ClientView>;

/// Every connection is valid and filed under its own handle.
pub open spec fn table_valid(m: Table) -> bool {
    forall|fd: i32| m.contains_key(fd) ==> (#[trigger] m[fd]).valid() && m[fd].fd == fd
}

/// The table after a connection on `fd` has been accepted.
pub open spec fn accepted(m: Table, fd: i32) -> Table {
    m.insert(fd, ClientView::fresh(fd))
}

/// The table after `msg` has been queued for every connection in it.
pub open spec fn broadcast(m: Table, msg: MessageView) -> Table {
    m.map_values(|c: ClientView| c.enqueue(msg))
}

/// Whether `fd` is a connection that one more read may be handed to: it is
/// in the table, and its buffer can still grow within the machine's limits.
pub open spec fn readable(m: Table, fd: i32) -> bool {
    m.contains_key(fd) && m[fd].can_read()
}

/// The table after a read on `fd` delivered `bytes`. An unknown handle
/// changes nothing; no bytes means the peer is gone, and so is the
/// connection; bytes without a terminator are kept; and once a terminator is
/// in, everything received becomes one message for every connection, the
/// sender included.
pub open spec fn after_read(m: Table, fd: i32, bytes: Seq<u8>) -> Table {
    if !m.contains_key(fd) {
        m
    } else if bytes.len() == 0 {
        m.remove(fd)
    } else {
        let c = m[fd].receive(bytes);
        if c.has_message() {
            broadcast(m.insert(fd, c.flushed()), c.frozen())
        } else {
            m.insert(fd, c)
        }
    }
}

/// Whether `fd` is a connection with something to send.
pub open spec fn sending(m: Table, fd: i32) -> bool {
    m.contains_key(fd) && m[fd].queue.len() > 0
}

/// The table after a vectored write on `fd` took `n` bytes. Only a
/// connection with something to send is affected.
pub open spec fn after_write(m: Table, fd: i32, n: nat) -> Table {
    if sending(m, fd) {
        m.insert(fd, m[fd].drain(n))
    } else {
        m
    }
}

/// Whether a broadcast has to add writability to the registration of `fd`:
/// it is a connection that had nothing to send.
pub open spec fn needs_upgrade(m: Table, fd: i32) -> bool {
    m.contains_key(fd) && m[fd].queue.len() == 0
}

/// Why a read or a write on the transport did not go through.
#[derive(Clone, Copy, Debug, PartialEq, Eq, Structural)]
pub enum IoFailure {
    /// Nothing could be transferred right now.
    WouldBlock,
    /// A signal cut the call short.
    Interrupted,
    /// Anything else: the connection is beyond repair.
    Fatal,
}

impl IoFailure {
    /// Whether trying again at the next readiness event is the right answer.
    pub open spec fn transient(self) -> bool {
        self != IoFailure::Fatal
    }

    /// Whether trying again at the next readiness event is the right answer.
    pub fn is_transient(&self) -> (r: bool)
        ensures
            r == self.transient(),
    {
        match self {
            IoFailure::WouldBlock => true,
            IoFailure::Interrupted => true,
            IoFailure::Fatal => false,
        }
    }
}

/// The table after a read or write on `fd` failed.
pub open spec fn after_failure(m: Table, fd: i32, failure: IoFailure) -> Table {
    if failure.transient() {
        m
    } else {
        m.remove(fd)
    }
}

/// What an event asks of the reactor.
#[derive(Clone, Copy, Debug, PartialEq, Eq, Structural)]
pub enum Dispatch {
    /// The listener is readable: accept one connection.
    Accept,
    /// The connection is readable: make one read attempt.
    Read(i32),
    /// The connection is writable: make one vectored write.
    Write(i32),
    /// The event calls for nothing.
    Nothing,
}

/// What `dispatch` decides. The listener's tag means a new connection. Any
/// other tag names a connection: readability is served before writability,
/// and a tag that no handle can have is passed over.
pub open spec fn route(event: Events, data: usize, listener: usize) -> Dispatch {
    if data == listener {
        Dispatch::Accept
    } else if data > i32::MAX {
        Dispatch::Nothing
    } else if event.includes(Events::of(EPOLLIN)) {
        Dispatch::Read(data as i32)
    } else if event.includes(Events::of(EPOLLOUT)) {
        Dispatch::Write(data as i32)
    } else {
        Dispatch::Nothing
    }
}

/// Decides what one ready event calls for.
pub fn dispatch(event: Events, data: usize, listener: usize) -> (r: Dispatch)
    ensures
        r == route(event, data, listener),
{
    if data == listener {
        Dispatch::Accept
    } else if data > i32::MAX as usize {
        Dispatch::Nothing
    } else if event.contains(Events { bits: EPOLLIN }) {
        Dispatch::Read(data as i32)
    } else if event.contains(Events { bits: EPOLLOUT }) {
        Dispatch::Write(data as i32)
    } else {
        Dispatch::Nothing
    }
}

/// What a read event did.
#[derive(Debug)]
pub enum ReadReport {
    /// The handle is not in the table; nothing happened.
    Unknown,
    /// The peer closed the stream; the connection has left the table.
    Closed,
    /// The bytes were kept; no terminator has come yet.
    Buffered,
    /// A message went to every connection. The handles listed had nothing to
    /// send before and must now be registered for writability too.
    Broadcast(Vec<i32>),
}

/// What a write event did.
#[derive(Clone, Copy, Debug, PartialEq, Eq, Structural)]
pub enum WriteReport {
    /// The handle is not in the table; nothing happened.
    Unknown,
    /// The connection has nothing to send; nothing happened.
    Idle,
    /// The head of the queue has bytes left; it stays for the next event.
    Partial,
    /// The head of the queue has gone out in full, and more is queued.
    FullyDrained,
    /// The head of the queue has gone out in full and the queue is empty:
    /// the connection must be registered for readability only.
    QueueEmptied,
}

/// What `write_event` reports.
pub open spec fn write_report(m: Table, fd: i32, n: nat) -> WriteReport {
    if !m.contains_key(fd) {
        WriteReport::Unknown
    } else if m[fd].queue.len() == 0 {
        WriteReport::Idle
    } else if !m[fd].queue[0].advance(n).drained() {
        WriteReport::Partial
    } else if m[fd].queue.len() > 1 {
        WriteReport::FullyDrained
    } else {
        WriteReport::QueueEmptied
    }
}

/// The message that a read on `fd` delivering `bytes` completes: the
/// sender's label, and everything the sender has received up to and
/// including these bytes.
pub open spec fn completed(m: Table, fd: i32, bytes: Seq<u8>) -> MessageView {
    MessageView { label: m[fd].label, payload: m[fd].inbound + bytes, written: 0 }
}

/// Broadcast fan-out: when a read completes a message, every connection in
/// the table, the sender included, gets that message exactly once, at the end
/// of its queue and with its cursor at the start. The bytes owed to each
/// grow by the sender's label followed by the bytes the sender sent, nothing
/// else changes, and no connection joins or leaves.
pub proof fn lemma_broadcast_reaches_all(m: Table, fd: i32, bytes: Seq<u8>, peer: i32)
    requires
        m.contains_key(fd),
        m.contains_key(peer),
        0 < bytes.len() <= room_after(m[fd].inbound.len()),
        (m[fd].inbound + bytes).contains(LINE_FEED),
    ensures
        after_read(m, fd, bytes).dom() == m.dom(),
        after_read(m, fd, bytes)[peer].queue == m[peer].queue.push(completed(m, fd, bytes)),
        after_read(m, fd, bytes)[peer].backlog() == m[peer].backlog() + (m[fd].label
            + m[fd].inbound + bytes),
        after_read(m, fd, bytes)[peer].label == m[peer].label,
        after_read(m, fd, bytes)[fd].inbound == Seq::<u8>::empty(),
        peer != fd ==> after_read(m, fd, bytes)[peer].inbound == m[peer].inbound,
{
    let c = m[fd].receive(bytes);
    assert(bytes.take(bytes.len() as int) =~= bytes);
    assert(c.inbound == m[fd].inbound + bytes);
    let msg = c.frozen();
    assert(msg == completed(m, fd, bytes));
    let staged = m.insert(fd, c.flushed());
    assert(after_read(m, fd, bytes) == broadcast(staged, msg));
    assert(broadcast(staged, msg).dom() =~= m.dom());
    assert(staged[peer].queue == m[peer].queue);
    assert(msg.fresh() == msg);
    lemma_enqueue_appends(staged[peer], msg);
    assert(staged[peer].backlog() == m[peer].backlog());
    assert(msg.wire() =~= m[fd].label + m[fd].inbound + bytes);
}

/// Interest bookkeeping: every step of the reactor takes a valid table to a
/// valid table, and in a valid table a connection is registered for
/// writability if and only if it has something to send.
pub proof fn lemma_interest_follows_queue(
    m: Table,
    fd: i32,
    bytes: Seq<u8>,
    n: nat,
    failure: IoFailure,
    peer: i32,
)
    requires
        table_valid(m),
    ensures
        table_valid(accepted(m, fd)),
        table_valid(after_read(m, fd, bytes)),
        table_valid(after_failure(m, fd, failure)),
        sending(m, fd) && m[fd].queue[0].written + n <= m[fd].queue[0].wire().len()
            ==> table_valid(after_write(m, fd, n)),
        !sending(m, fd) ==> table_valid(after_write(m, fd, n)),
        m.contains_key(peer) ==> (m[peer].interest.includes(Events::of(EPOLLOUT))
            <==> m[peer].queue.len() > 0),
{
    if m.contains_key(peer) {
        lemma_interest_tracks_queue(m[peer]);
    }
    let fresh = ClientView::fresh(fd);
    assert(fresh.valid());
    assert forall|k: i32| accepted(m, fd).contains_key(k) implies (#[trigger] accepted(
        m,
        fd,
    )[k]).valid() && accepted(m, fd)[k].fd == k by {}
    if m.contains_key(fd) {
        let c = m[fd].receive(bytes);
        let msg = c.frozen();
        lemma_steps_keep_valid(m[fd], msg, bytes, n);
        let staged = m.insert(fd, c.flushed());
        let r = after_read(m, fd, bytes);
        assert forall|k: i32| r.contains_key(k) implies (#[trigger] r[k]).valid() && r[k].fd
            == k by {
            if bytes.len() > 0 && c.has_message() {
                assert(staged.contains_key(k));
                lemma_steps_keep_valid(staged[k], msg, bytes, n);
            }
        }
        if m[fd].queue.len() > 0 && m[fd].queue[0].written + n <= m[fd].queue[0].wire().len() {
            let w = after_write(m, fd, n);
            assert forall|k: i32| w.contains_key(k) implies (#[trigger] w[k]).valid() && w[k].fd
                == k by {}
        }
    }
}

/// The reports name every registration that has to change, and no other:
/// a read changes the interest of exactly the connections its broadcast
/// lists, and a write changes the interest of its own connection exactly
/// when it reports that the queue has been emptied.
pub proof fn lemma_reports_name_every_change(
    m: Table,
    fd: i32,
    bytes: Seq<u8>,
    n: nat,
    peer: i32,
)
    requires
        table_valid(m),
        m.contains_key(peer),
        after_read(m, fd, bytes).contains_key(peer),
    ensures
        after_read(m, fd, bytes)[peer].interest != m[peer].interest <==> m.contains_key(fd)
            && bytes.len() > 0 && m[fd].receive(bytes).has_message() && needs_upgrade(m, peer),
        after_write(m, fd, n).contains_key(peer),
        after_write(m, fd, n)[peer].interest != m[peer].interest <==> peer == fd && write_report(
            m,
            fd,
            n,
        ) == WriteReport::QueueEmptied,
{
    assert(0x001u32 | 0x004u32 != 0x001u32) by (bit_vector);
    assert(read_only() != read_write());
    assert(m[peer].valid());
}

/// Termination detection: a read that delivers no bytes removes the
/// connection, and only that one. From then on no read, write or failure on
/// its handle changes anything: the removal happens once, and nothing more is
/// ever done for that handle.
pub proof fn lemma_closed_stays_closed(
    m: Table,
    fd: i32,
    bytes: Seq<u8>,
    n: nat,
    failure: IoFailure,
)
    requires
        m.contains_key(fd),
    ensures
        after_read(m, fd, Seq::<u8>::empty()) == m.remove(fd),
        !m.remove(fd).contains_key(fd),
        forall|other: i32|
            other != fd ==> m.remove(fd).contains_key(other) == m.contains_key(other) && (
            m.contains_key(other) ==> #[trigger] m.remove(fd)[other] == m[other]),
        after_read(m.remove(fd), fd, bytes) == m.remove(fd),
        after_write(m.remove(fd), fd, n) == m.remove(fd),
        after_failure(m.remove(fd), fd, failure) == m.remove(fd),
        write_report(m.remove(fd), fd, n) == WriteReport::Unknown,
{
    assert(m.remove(fd).remove(fd) =~= m.remove(fd));
}

/// A sequence with one more element at the end holds what it held before,
/// and that element.
proof fn lemma_push_contains(s: Seq<i32>, last: i32, x: i32)
    ensures
        s.push(last).contains(x) <==> s.contains(x) || x == last,
{
    let longer = s.push(last);
    if s.contains(x) {
        let t = s.index_of(x);
        assert(longer[t] == x);
    }
    if x == last {
        assert(longer[s.len() as int] == x);
    }
    if longer.contains(x) && x != last {
        let t = longer.index_of(x);
        assert(s[t] == x);
    }
}

/// The connections of the reactor, each under its transport handle.
pub struct ClientStorage {
    streams: HashMap<i32, Client>,
}

impl View for ClientStorage {
    type V = Table;

    closed spec fn view(&self) -> Table {
        self.streams@.map_values(|c: Client| c@)
    }
}

impl ClientStorage {
    /// Every connection is sound and filed under its own handle.
    pub closed spec fn wf(&self) -> bool {
        forall|fd: i32|
            self.streams@.contains_key(fd) ==> (#[trigger] self.streams@[fd]).wf()
                && self.streams@[fd]@.fd == fd
    }

    /// A sound table has a valid view.
    pub proof fn lemma_wf(&self)
        requires
            self.wf(),
        ensures
            table_valid(self@),
            self@.dom().finite(),
    {
        broadcast use group_hash_axioms;

        assert forall|fd: i32| self@.contains_key(fd) implies (#[trigger] self@[fd]).valid()
            && self@[fd].fd == fd by {
            self.streams@[fd].lemma_wf();
        }
        assert(self@.dom() =~= self.streams@.dom());
    }

    /// A table with no connection.
    pub fn new() -> (r: ClientStorage)
        ensures
            r.wf(),
            r@ == Map::<i32, ClientView>::empty(),
    {
        let r = ClientStorage { streams: HashMap::new() };
        assert(r@ =~= Map::<i32, ClientView>::empty());
        r
    }

    /// The number of connections.
    pub fn len(&self) -> (n: usize)
        ensures
            n == self@.dom().len(),
    {
        broadcast use group_hash_axioms;

        assert(self@.dom() =~= self.streams@.dom());
        self.streams.len()
    }

    /// Whether `data` is the handle of a connection.
    pub fn contains(&self, data: i32) -> (r: bool)
        ensures
            r == self@.contains_key(data),
    {
        broadcast use group_hash_axioms;

        self.streams.contains_key(&data)
    }

    /// How many bytes the next read on `data` may deliver, or `None` where
    /// no read can be taken: the handle is unknown, or the buffer has
    /// reached the machine's limits.
    pub fn room(&self, data: i32) -> (r: Option<usize>)
        requires
            self.wf(),
        ensures
            r is Some <==> readable(self@, data),
            r matches Some(n) ==> n == room_after(self@[data].inbound.len()) && n >= 1,
    {
        broadcast use group_hash_axioms;

        match self.streams.get(&data) {
            None => None,
            Some(client) => {
                if client.can_read() {
                    Some(client.room())
                } else {
                    None
                }
            },
        }
    }

    /// The readiness conditions `data` should be registered for, if it is a
    /// connection.
    pub fn interest(&self, data: i32) -> (r: Option<Events>)
        ensures
            r is Some <==> self@.contains_key(data),
            r matches Some(e) ==> e == self@[data].interest,
    {
        broadcast use group_hash_axioms;

        match self.streams.get(&data) {
            None => None,
            Some(client) => Some(client.interest()),
        }
    }

    /// The pieces to hand to one vectored write on `data`: those of the head
    /// of its queue, and none for an unknown handle or an empty queue.
    pub fn unsent<'a>(&'a self, data: i32) -> (bufs: Vec<&'a [u8]>)
        requires
            self.wf(),
        ensures
            !sending(self@, data) ==> bufs@.len() == 0,
            sending(self@, data) ==> {
                &&& bufs@.len() == self@[data].queue[0].segments().len()
                &&& forall|i: int|
                    0 <= i < bufs@.len() ==> (#[trigger] bufs@[i])@
                        == self@[data].queue[0].segments()[i]
                &&& bufs@.map_values(|s: &[u8]| s@).flatten() == self@[data].queue[0].remaining()
            },
    {
        broadcast use group_hash_axioms;

        match self.streams.get(&data) {
            None => Vec::new(),
            Some(client) => client.unsent(),
        }
    }

    /// How many bytes the next vectored write on `data` offers: 0 for an
    /// unknown handle or an empty queue.
    pub fn pending(&self, data: i32) -> (n: usize)
        requires
            self.wf(),
        ensures
            !sending(self@, data) ==> n == 0,
            sending(self@, data) ==> n == self@[data].queue[0].remaining().len(),
    {
        broadcast use group_hash_axioms;

        match self.streams.get(&data) {
            None => 0,
            Some(client) => client.pending(),
        }
    }

    /// The handles of all connections, each once, in no particular order.
    pub fn handles(&self) -> (v: Vec<i32>)
        ensures
            v@.no_duplicates(),
            v@.to_set() == self@.dom(),
    {
        broadcast use group_hash_axioms;

        let mut v: Vec<i32> = Vec::new();
        let keys = self.streams.keys();
        let ghost all: Seq<i32> = keys.remaining().unref();
        for k in it: keys
            invariant
                all == it.seq().unref(),
                v@ == all.take(it.index() as int),
        {
            v.push(*k);
        }
        assert(v@ =~= all);
        assert(self@.dom() =~= self.streams@.dom());
        v
    }

    /// Queues `message` for every connection, each with a cursor of its own,
    /// and returns the handles whose registration has to gain writability:
    /// those that had nothing to send, each once.
    pub fn broadcast(&mut self, message: &Message) -> (upgrades: Vec<i32>)
        requires
            old(self).wf(),
            message.wf(),
        ensures
            final(self).wf(),
            final(self)@ == broadcast(old(self)@, message@),
            upgrades@.no_duplicates(),
            forall|fd: i32| upgrades@.contains(fd) <==> needs_upgrade(old(self)@, fd),
    {
        broadcast use group_hash_axioms;

        let handles = self.handles();
        let ghost base: Table = self@;
        let mut upgrades: Vec<i32> = Vec::new();
        let mut i: usize = 0;
        assert(self@.dom() =~= self.streams@.dom());
        while i < handles.len()
            invariant
                i <= handles@.len(),
                handles@.no_duplicates(),
                handles@.to_set() == base.dom(),
                base == old(self)@,
                message.wf(),
                self.wf(),
                self.streams@.dom() == base.dom(),
                forall|k: int|
                    0 <= k < handles@.len() ==> #[trigger] self.streams@[handles@[k]]@ == if k < i {
                        base[handles@[k]].enqueue(message@)
                    } else {
                        base[handles@[k]]
                    },
                upgrades@.no_duplicates(),
                forall|fd: i32|
                    #[trigger] upgrades@.contains(fd) <==> needs_upgrade(base, fd)
                        && handles@.take(i as int).contains(fd),
            decreases handles@.len() - i,
        {
            let fd: i32 = handles[i];
            assert(handles@.to_set().contains(fd));
            let ghost before = self.streams@;
            let ghost listed = upgrades@;
            let mut idle: bool = false;
            match self.streams.remove(&fd) {
                None => {
                    assert(false);
                },
                Some(mut client) => {
                    idle = client.queued() == 0;
                    client.send_message(message);
                    self.streams.insert(fd, client);
                    if idle {
                        upgrades.push(fd);
                    }
                },
            }
            proof {
                assert(self.streams@.dom() =~= base.dom());
                assert forall|k: int| 0 <= k < handles@.len() implies #[trigger] self.streams@[handles@[k]]@
                    == if k < i + 1 {
                    base[handles@[k]].enqueue(message@)
                } else {
                    base[handles@[k]]
                } by {
                    if k != i {
                        assert(handles@[k] != fd);
                        assert(self.streams@[handles@[k]] == before[handles@[k]]);
                    }
                }
                assert(handles@.take(i + 1) =~= handles@.take(i as int).push(fd));
                assert(!handles@.take(i as int).contains(fd));
                assert(before[handles@[i as int]]@ == base[fd]);
                assert(idle <==> needs_upgrade(base, fd));
                assert(!listed.contains(fd));
                if idle {
                    assert(upgrades@ =~= listed.push(fd));
                    assert forall|a: int, b: int|
                        0 <= a < upgrades@.len() && 0 <= b < upgrades@.len() && a
                            != b implies upgrades@[a] != upgrades@[b] by {
                        if a < listed.len() {
                            assert(listed.contains(upgrades@[a]));
                        }
                        if b < listed.len() {
                            assert(listed.contains(upgrades@[b]));
                        }
                    }
                } else {
                    assert(upgrades@ == listed);
                }
                assert forall|x: i32| #[trigger]
                    upgrades@.contains(x) <==> needs_upgrade(base, x) && handles@.take(
                        i + 1,
                    ).contains(x) by {
                    lemma_push_contains(handles@.take(i as int), fd, x);
                    assert(listed.contains(x) <==> needs_upgrade(base, x) && handles@.take(
                        i as int,
                    ).contains(x));
                    if idle {
                        lemma_push_contains(listed, fd, x);
                    }
                }
            }
            i += 1;
        }
        proof {
            assert(handles@.take(i as int) =~= handles@);
            assert forall|fd: i32| base.contains_key(fd) implies #[trigger] self@[fd]
                == base[fd].enqueue(message@) by {
                assert(handles@.to_set().contains(fd));
                let k = choose|k: int| 0 <= k < handles@.len() && handles@[k] == fd;
                assert(self.streams@[handles@[k]]@ == base[handles@[k]].enqueue(message@));
            }
            assert(self@ =~= broadcast(base, message@));
            assert forall|fd: i32| upgrades@.contains(fd) <==> needs_upgrade(base, fd) by {
                if needs_upgrade(base, fd) {
                    assert(handles@.to_set().contains(fd));
                }
            }
        }
        upgrades
    }
}

/// Files a newly accepted connection under its handle `fd`, and returns the
/// interest and the tag to register it with: readability only, and the
/// handle itself.
pub fn accept(fd: i32, streams: &mut ClientStorage) -> (registration: (Events, usize))
    requires
        old(streams).wf(),
        fd >= 0,
    ensures
        final(streams).wf(),
        final(streams)@ == accepted(old(streams)@, fd),
        registration == (read_only(), fd as usize),
{
    broadcast use group_hash_axioms;

    let client = Client::new(fd);
    let interest = client.interest();
    streams.streams.insert(fd, client);
    assert(streams@ =~= accepted(old(streams)@, fd));
    (interest, fd as usize)
}

/// Handles what one read attempt on `data` delivered.
///
/// No bytes means the peer closed the stream: the connection leaves the
/// table. Otherwise the bytes are appended, and if a terminator is now in,
/// everything received is frozen into one message and queued for every
/// connection, the sender included.
pub fn read_event(data: i32, bytes: &[u8], streams: &mut ClientStorage) -> (report: ReadReport)
    requires
        old(streams).wf(),
        old(streams)@.contains_key(data) ==> readable(old(streams)@, data) && bytes@.len()
            <= room_after(old(streams)@[data].inbound.len()),
    ensures
        final(streams).wf(),
        final(streams)@ == after_read(old(streams)@, data, bytes@),
        match report {
            ReadReport::Unknown => !old(streams)@.contains_key(data),
            ReadReport::Closed => old(streams)@.contains_key(data) && bytes@.len() == 0,
            ReadReport::Buffered => old(streams)@.contains_key(data) && bytes@.len() > 0
                && !old(streams)@[data].receive(bytes@).has_message(),
            ReadReport::Broadcast(upgrades) => {
                &&& old(streams)@.contains_key(data)
                &&& bytes@.len() > 0
                &&& old(streams)@[data].receive(bytes@).has_message()
                &&& upgrades@.no_duplicates()
                &&& forall|fd: i32| upgrades@.contains(fd) <==> needs_upgrade(old(streams)@, fd)
            },
        },
{
    broadcast use group_hash_axioms;

    let ghost before: Table = streams@;
    let mut client = match streams.streams.remove(&data) {
        None => {
            assert(streams@ =~= before);
            return ReadReport::Unknown;
        },
        Some(client) => client,
    };
    let nb_read = client.read(bytes);
    if nb_read == 0 {
        assert(streams@ =~= before.remove(data));
        return ReadReport::Closed;
    }
    if !client.have_message() {
        streams.streams.insert(data, client);
        assert(streams@ =~= before.insert(data, before[data].receive(bytes@)));
        return ReadReport::Buffered;
    }
    let msg = client.flush_input();
    streams.streams.insert(data, client);
    assert(streams@ =~= before.insert(data, before[data].receive(bytes@).flushed()));
    let upgrades = streams.broadcast(&msg);
    ReadReport::Broadcast(upgrades)
}

/// Handles the outcome of one vectored write on `data` that took `nb_write`
/// bytes; a write that would have blocked took none.
///
/// The head of the queue advances by that much. Once it has gone out in full
/// it leaves the queue, and when the queue is empty the connection goes back
/// to readability only.
pub fn write_event(data: i32, nb_write: usize, streams: &mut ClientStorage) -> (report:
    WriteReport)
    requires
        old(streams).wf(),
        sending(old(streams)@, data) ==> nb_write <= old(streams)@[data].queue[0].remaining().len(),
    ensures
        final(streams).wf(),
        final(streams)@ == after_write(old(streams)@, data, nb_write as nat),
        report == write_report(old(streams)@, data, nb_write as nat),
{
    broadcast use group_hash_axioms;

    let ghost before: Table = streams@;
    let mut client = match streams.streams.remove(&data) {
        None => {
            assert(streams@ =~= before);
            return WriteReport::Unknown;
        },
        Some(client) => client,
    };
    let report = if client.queued() == 0 {
        WriteReport::Idle
    } else if !client.write(nb_write) {
        WriteReport::Partial
    } else if client.queued() > 0 {
        WriteReport::FullyDrained
    } else {
        WriteReport::QueueEmptied
    };
    streams.streams.insert(data, client);
    assert(streams@ =~= after_write(before, data, nb_write as nat));
    report
}

/// Handles a failed read or write on `data`. A transient failure changes
/// nothing: the next readiness event tries again. Any other failure costs
/// this one connection its place in the table, and no other. The result says
/// whether a connection was removed.
pub fn fail_event(data: i32, failure: IoFailure, streams: &mut ClientStorage) -> (removed: bool)
    requires
        old(streams).wf(),
    ensures
        final(streams).wf(),
        final(streams)@ == after_failure(old(streams)@, data, failure),
        removed <==> !failure.transient() && old(streams)@.contains_key(data),
{
    broadcast use group_hash_axioms;

    if failure.is_transient() {
        false
    } else {
        let gone = streams.streams.remove(&data);
        assert(streams@ =~= old(streams)@.remove(data));
        gone.is_some()
    }
}

} // verus!
