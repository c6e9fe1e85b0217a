use vstd::prelude::*;

use crate::store::copy_bytes;

verus! {

/// What happened to the subject of an event.
#[derive(Debug, Clone, Copy, PartialEq, Eq, Structural)]
pub enum EventAction {
    Created,
    Patched,
    Deleted,
    Started,
    Stopped,
}

/// One lifecycle notification.
pub struct Event {
    /// Position in the process-wide publish order.
    pub seq: usize,
    pub action: EventAction,
    /// Key of the subject.
    pub key: String,
    /// Kind of the subject, used by kind controllers to filter.
    pub kind: String,
    /// The relevant snapshot payload.
    pub payload: Vec<u8>,
    pub timestamp: i64,
}

pub struct EventView {
    pub seq: nat,
    pub action: EventAction,
    pub key: Seq<char>,
    pub kind: Seq<char>,
    pub payload: Seq<u8>,
    pub timestamp: int,
}

impl View for Event {
    type V = EventView;

    open spec fn view(&self) -> EventView {
        EventView {
            seq: self.seq as nat,
            action: self.action,
            key: self.key@,
            kind: self.kind@,
            payload: self.payload@,
            timestamp: self.timestamp as int,
        }
    }
}

impl Event {
    pub fn duplicate(&self) -> (r: Event)
        ensures
            r@ == self@,
    {
        Event {
            seq: self.seq,
            action: self.action,
            key: self.key.clone(),
            kind: self.kind.clone(),
            payload: copy_bytes(&self.payload),
            timestamp: self.timestamp,
        }
    }
}

/// A subscriber's position in the bus; it sees only events published after it subscribed.
pub struct Subscription {
    pub cursor: usize,
}

/// Process-wide broadcaster: an ordered log that every subscriber reads at its own pace.
pub struct EventBus {
    log: Vec<Event>,
}

impl View for EventBus {
    type V = Seq<EventView>;

    closed spec fn view(&self) -> Seq<EventView> {
        self.log@.map_values(|e: Event| e@)
    }
}

impl EventBus {
    pub closed spec fn wf(&self) -> bool {
        forall|i: int| 0 <= i < self@.len() ==> (#[trigger] self@[i]).seq == i
    }

    pub fn new() -> (r: EventBus)
        ensures
            r.wf(),
            r@.len() == 0,
    {
        let r = EventBus { log: Vec::new() };
        assert(r@ =~= Seq::<EventView>::empty());
        r
    }

    /// Appends an event; never waits on any subscriber.
    pub fn publish(&mut self, action: EventAction, key: String, kind: String, payload: Vec<u8>, now: i64) -> (seq: usize)
        requires
            old(self).wf(),
        ensures
            final(self).wf(),
            seq == old(self)@.len(),
            final(self)@ == old(self)@.push(
                EventView { seq: seq as nat, action, key: key@, kind: kind@, payload: payload@, timestamp: now as int },
            ),
    {
        let seq = self.log.len();
        let e = Event { seq, action, key, kind, payload, timestamp: now };
        let ghost prev = self@;
        self.log.push(e);
        assert(self@ =~= prev.push(e@));
        seq
    }

    /// Registers a subscriber that will see the events published from now on.
    pub fn subscribe(&self) -> (r: Subscription)
        ensures
            r.cursor == self@.len(),
    {
        Subscription { cursor: self.log.len() }
    }

    /// The next event for `sub`, if one has been published since it last read.
    pub fn next_event(&self, sub: &mut Subscription) -> (r: Option<Event>)
        ensures
            old(sub).cursor < self@.len() ==> r is Some && r->Some_0@ == self@[old(sub).cursor as int]
                && final(sub).cursor == old(sub).cursor + 1,
            old(sub).cursor >= self@.len() ==> r is None && final(sub).cursor == old(sub).cursor,
    {
        if sub.cursor < self.log.len() {
            let e = self.log[sub.cursor].duplicate();
            sub.cursor = sub.cursor + 1;
            Some(e)
        } else {
            None
        }
    }

    /// Number of events published so far.
    pub fn len(&self) -> (r: usize)
        ensures
            r == self@.len(),
    {
        self.log.len()
    }
    /// The next event for `sub` whose subject has kind `kind`; events of other kinds
    /// are passed over. With none left, the subscriber is moved to the end of the log.
    pub fn next_event_of_kind(&self, sub: &mut Subscription, kind: &String) -> (r: Option<Event>)
        requires
            self.wf(),
        ensures
            match r {
                Some(e) => {
                    &&& old(sub).cursor <= e@.seq < self@.len()
                    &&& e@ == self@[e@.seq as int]
                    &&& e@.kind == kind@
                    &&& final(sub).cursor == e@.seq + 1
                    &&& forall|i: int| old(sub).cursor <= i < e@.seq ==> (#[trigger] self@[i]).kind != kind@
                },
                None => {
                    &&& final(sub).cursor == if old(sub).cursor < self@.len() { self@.len() as int } else { old(sub).cursor as int }
                    &&& forall|i: int| old(sub).cursor <= i < self@.len() ==> (#[trigger] self@[i]).kind != kind@
                },
            },
    {
        let mut i: usize = sub.cursor;
        while i < self.log.len()
            invariant
                self.wf(),
                sub.cursor == old(sub).cursor,
                old(sub).cursor <= i,
                i <= self@.len() || i == old(sub).cursor,
                forall|j: int| old(sub).cursor <= j < i && j < self@.len() ==> (#[trigger] self@[j]).kind != kind@,
            decreases self@.len() - i,
        {
            assert(self@[i as int] == self.log@[i as int]@);
            if self.log[i].kind == *kind {
                sub.cursor = i + 1;
                return Some(self.log[i].duplicate());
            }
            i = i + 1;
        }
        if sub.cursor < self.log.len() {
            sub.cursor = self.log.len();
        }
        None
    }
}

} // verus!
