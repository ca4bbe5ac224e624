//! The event bus: a single shared stream of accepted tag-read events,
//! broadcast to independent subscribers.
//!
//! Publication never blocks on a slow subscriber.  The bus retains a
//! bounded window of recent events; each subscriber holds its own cursor
//! into the stream and, when it falls behind the window, is told how many
//! events it missed instead of stalling the publisher.  Within the stream
//! a subscriber sees events in publication order, without duplicates.

use vstd::prelude::*;

use crate::tally_id::TallyID;

verus! {

/// What one poll of a subscriber yields.
#[derive(Debug)]
pub enum RecvResult {
    /// The next event, in publication order.
    Message(TallyID),
    /// The subscriber fell behind the retained window; this many events
    /// were skipped.
    Lagged(u64),
    /// No event is pending.
    Empty,
}

/// A bounded broadcast channel of tag-read events.
pub struct EventBus {
    cap: usize,
    total: u64,
    buf: Vec<TallyID>,
}

/// An independent cursor into the bus's stream.
pub struct Subscriber {
    cursor: u64,
}

impl Subscriber {
    /// The position of the next event this subscriber will see.
    pub closed spec fn cursor_spec(&self) -> int {
        self.cursor as int
    }
}

impl EventBus {
    /// The per-subscriber capacity: how many events the bus retains.
    pub closed spec fn cap_spec(&self) -> int {
        self.cap as int
    }

    /// How many events were ever published.
    pub closed spec fn total_spec(&self) -> int {
        self.total as int
    }

    /// The retained window: the most recent events, oldest first.
    pub closed spec fn window(&self) -> Seq<Seq<char>> {
        self.buf@.map_values(|id: TallyID| id@)
    }

    /// The stream position of the oldest retained event.
    pub open spec fn start(&self) -> int {
        self.total_spec() - self.window().len()
    }

    /// The window never exceeds the capacity nor the published count.
    pub open spec fn wf(&self) -> bool {
        &&& 1 <= self.cap_spec()
        &&& self.window().len() <= self.cap_spec()
        &&& self.window().len() <= self.total_spec()
    }

    /// An empty bus retaining up to `capacity` events per subscriber.
    pub fn new(capacity: usize) -> (r: Self)
        requires
            capacity >= 1,
        ensures
            r.wf(),
            r.cap_spec() == capacity,
            r.total_spec() == 0,
            r.window() == Seq::<Seq<char>>::empty(),
    {
        let r = EventBus { cap: capacity, total: 0, buf: Vec::new() };
        proof {
            assert(r.window() =~= Seq::<Seq<char>>::empty());
        }
        r
    }

    /// A new subscriber, starting at the current end of the stream.
    pub fn subscribe(&self) -> (r: Subscriber)
        ensures
            r.cursor_spec() == self.total_spec(),
    {
        Subscriber { cursor: self.total }
    }

    /// Publishes one event.  Publication never blocks: when the window is
    /// full the oldest retained event is dropped.
    pub fn publish(&mut self, id: TallyID)
        requires
            old(self).wf(),
            old(self).total_spec() < u64::MAX,
        ensures
            final(self).wf(),
            final(self).cap_spec() == old(self).cap_spec(),
            final(self).total_spec() == old(self).total_spec() + 1,
            final(self).window() == (if old(self).window().len() == old(self).cap_spec() {
                old(self).window().drop_first().push(id@)
            } else {
                old(self).window().push(id@)
            }),
    {
        let ghost w0 = old(self).window();
        if self.buf.len() == self.cap {
            self.buf.remove(0);
            proof {
                assert(self.window() =~= w0.drop_first());
            }
        }
        self.buf.push(id);
        self.total = self.total + 1;
        proof {
            if w0.len() == old(self).cap_spec() {
                assert(self.window() =~= w0.drop_first().push(id@));
            } else {
                assert(self.window() =~= w0.push(id@));
            }
        }
    }

    /// One poll: the subscriber's next event in publication order, a lag
    /// notice carrying the number of skipped events when it fell behind
    /// the window, or nothing when it is caught up.
    pub fn poll(&self, sub: &mut Subscriber) -> (r: RecvResult)
        requires
            self.wf(),
            old(sub).cursor_spec() <= self.total_spec(),
        ensures
            final(sub).cursor_spec() <= self.total_spec(),
            old(sub).cursor_spec() < self.start() ==> (r matches RecvResult::Lagged(k) && k
                == self.start() - old(sub).cursor_spec() && final(sub).cursor_spec()
                == self.start()),
            self.start() <= old(sub).cursor_spec() < self.total_spec() ==> (r
                matches RecvResult::Message(id) && id@ == self.window()[old(sub).cursor_spec()
                - self.start()] && final(sub).cursor_spec() == old(sub).cursor_spec() + 1),
            old(sub).cursor_spec() == self.total_spec() ==> r is Empty && final(sub).cursor_spec()
                == old(sub).cursor_spec(),
    {
        let start: u64 = self.total - self.buf.len() as u64;
        if sub.cursor < start {
            let skipped: u64 = start - sub.cursor;
            sub.cursor = start;
            RecvResult::Lagged(skipped)
        } else if sub.cursor < self.total {
            let idx: usize = (sub.cursor - start) as usize;
            let id: TallyID = self.buf[idx].clone();
            sub.cursor = sub.cursor + 1;
            RecvResult::Message(id)
        } else {
            RecvResult::Empty
        }
    }
}

} // verus!
