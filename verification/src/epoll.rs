//! Readiness flags and the batch of events one wait hands back.
//!
//! The kernel interface itself lives with the caller; this module holds the
//! plain values that cross it and the decoding of what comes back.

use vstd::prelude::*;

verus! {

/// The handle is readable.
pub const EPOLLIN: u32 = 0x001;

/// Urgent data is available.
pub const EPOLLPRI: u32 = 0x002;

/// The handle is writable.
pub const EPOLLOUT: u32 = 0x004;

/// An error condition is pending.
pub const EPOLLERR: u32 = 0x008;

/// The peer hung up.
pub const EPOLLHUP: u32 = 0x010;

/// The peer closed its writing half.
pub const EPOLLRDHUP: u32 = 0x2000;

/// Edge-triggered delivery.
pub const EPOLLET: u32 = 0x8000_0000;

/// Every flag this module knows.
pub const KNOWN: u32 = 0x8000_201f;

/// A set of readiness conditions, held as the bit mask the kernel uses.
#[derive(Clone, Copy, Debug, PartialEq, Eq, Structural)]
pub struct Events {
    pub bits: u32,
}

impl Events {
    /// The set whose mask is `bits` with every unknown bit cleared.
    pub open spec fn truncated(bits: u32) -> Events {
        Events { bits: bits & KNOWN }
    }

    /// The set whose mask is exactly `bits`.
    pub open spec fn of(bits: u32) -> Events {
        Events { bits }
    }

    /// Whether every flag of `other` is in `self`.
    pub open spec fn includes(self, other: Events) -> bool {
        self.bits & other.bits == other.bits
    }

    /// The set with no flag.
    pub fn empty() -> (r: Events)
        ensures
            r.bits == 0,
    {
        Events { bits: 0 }
    }

    /// The set with every known flag.
    pub fn all() -> (r: Events)
        ensures
            r.bits == KNOWN,
    {
        Events { bits: KNOWN }
    }

    /// The raw mask.
    pub fn bits(&self) -> (r: u32)
        ensures
            r == self.bits,
    {
        self.bits
    }

    /// Builds a set from a raw mask, dropping the bits that name no known flag.
    pub fn from_bits_truncate(bits: u32) -> (r: Events)
        ensures
            r == Events::truncated(bits),
    {
        Events { bits: bits & KNOWN }
    }

    /// Whether the set has no flag.
    pub fn is_empty(&self) -> (r: bool)
        ensures
            r <==> self.bits == 0,
    {
        self.bits == 0
    }

    /// Whether every flag of `other` is in `self`.
    pub fn contains(&self, other: Events) -> (r: bool)
        ensures
            r <==> self.includes(other),
    {
        self.bits & other.bits == other.bits
    }

    /// The flags that are in either set.
    pub fn union(self, other: Events) -> (r: Events)
        ensures
            r.bits == self.bits | other.bits,
    {
        Events { bits: self.bits | other.bits }
    }
}

/// One record as the kernel reports it: the ready mask and the caller's tag.
#[derive(Clone, Copy, Debug, PartialEq, Eq, Structural)]
pub struct EpollEvent {
    pub events: u32,
    pub data: u64,
}

impl EpollEvent {
    /// The record that registers interest in `event` under the tag `data`.
    pub fn new(event: Events, data: usize) -> (r: EpollEvent)
        ensures
            r.events == event.bits,
            r.data == data,
            decoded(r) == (Events::truncated(event.bits), data),
    {
        EpollEvent { events: event.bits, data: data as u64 }
    }
}

/// What a decoded record says: which conditions are ready, and for which tag.
pub open spec fn decoded(ev: EpollEvent) -> (Events, usize) {
    (Events::truncated(ev.events), ev.data as usize)
}

/// A buffer for one batch of ready events. It has a fixed capacity, and the
/// first `nfds` records are the ones the last wait reported.
pub struct EpollResult {
    events: Vec<EpollEvent>,
    nfds: usize,
}

impl View for EpollResult {
    type V = Seq<EpollEvent>;

    /// The records of the last batch, in the order they were reported.
    closed spec fn view(&self) -> Seq<EpollEvent> {
        self.events@.take(self.nfds as int)
    }
}

impl EpollResult {
    /// The number of ready records never exceeds the capacity.
    pub closed spec fn wf(&self) -> bool {
        self.nfds <= self.events@.len()
    }

    /// How many records one batch can hold.
    pub closed spec fn capacity(&self) -> nat {
        self.events@.len()
    }

    /// An empty batch with room for `max_events` records.
    pub fn create(max_events: usize) -> (r: EpollResult)
        ensures
            r.wf(),
            r.capacity() == max_events,
            r@ == Seq::<EpollEvent>::empty(),
    {
        let mut events: Vec<EpollEvent> = Vec::new();
        let mut i: usize = 0;
        while i < max_events
            invariant
                i <= max_events,
                events@.len() == i,
            decreases max_events - i,
        {
            events.push(EpollEvent { events: 0, data: 0 });
            i += 1;
        }
        EpollResult { events, nfds: 0 }
    }

    /// How many records one batch can hold.
    pub fn max_events(&self) -> (r: usize)
        ensures
            r == self.capacity(),
    {
        self.events.len()
    }

    /// Replaces the batch by the records of `ready`, as many as fit, and
    /// returns how many were taken.
    pub fn load(&mut self, ready: &[EpollEvent]) -> (n: usize)
        requires
            old(self).wf(),
        ensures
            final(self).wf(),
            final(self).capacity() == old(self).capacity(),
            n == if ready@.len() <= old(self).capacity() {
                ready@.len()
            } else {
                old(self).capacity()
            },
            final(self)@ == ready@.take(n as int),
    {
        let n: usize = if ready.len() <= self.events.len() {
            ready.len()
        } else {
            self.events.len()
        };
        let mut i: usize = 0;
        while i < n
            invariant
                i <= n,
                n <= ready@.len(),
                n <= self.events@.len(),
                self.events@.len() == old(self).events@.len(),
                self.nfds == old(self).nfds,
                forall|k: int| 0 <= k < i ==> self.events@[k] == ready@[k],
            decreases n - i,
        {
            self.events.set(i, ready[i]);
            i += 1;
        }
        self.nfds = n;
        assert(self.events@.take(n as int) =~= ready@.take(n as int));
        n
    }

    /// The last batch, decoded: for each record the ready conditions, with
    /// unknown bits dropped, and the tag it was registered with.
    pub fn iter(&self) -> (out: Vec<(Events, usize)>)
        requires
            self.wf(),
        ensures
            out@.len() == self@.len(),
            forall|i: int| 0 <= i < out@.len() ==> out@[i] == decoded(#[trigger] self@[i]),
    {
        let mut out: Vec<(Events, usize)> = Vec::new();
        let mut i: usize = 0;
        while i < self.nfds
            invariant
                i <= self.nfds,
                self.nfds <= self.events@.len(),
                out@.len() == i,
                forall|k: int| 0 <= k < i ==> out@[k] == decoded(#[trigger] self.events@[k]),
            decreases self.nfds - i,
        {
            let ev = self.events[i];
            let tag: usize = #[verifier::truncate]
            (ev.data as usize);
            out.push((Events::from_bits_truncate(ev.events), tag));
            i += 1;
        }
        out
    }
}

} // verus!
