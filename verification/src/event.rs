//! Discrete events and the event queue: a priority queue keyed by
//! `(time, -priority)`, so that at equal times job requests fire before
//! scheduling rounds.

use vstd::prelude::*;

use crate::job::JobID;

verus! {

#[derive(Debug, Clone, Copy, PartialEq, Eq, Structural)]
pub enum EventType {
    RequestJob { job_id: JobID },
    StartScheduling,
}

impl EventType {
    /// The priority between events occurring at the same time; a smaller
    /// ordering key wins, and the key negates this value.
    pub fn priority(&self) -> (r: i32)
        ensures
            *self is StartScheduling ==> r == -1,
            *self is RequestJob ==> r == 1,
    {
        match &self {
            EventType::StartScheduling => -1,
            EventType::RequestJob { .. } => 1,
        }
    }
}

#[derive(Debug, Clone, Copy, PartialEq, Eq, Structural)]
pub struct Event {
    event_type: EventType,
    time: u64,
}

/// The tie-breaking part of the ordering key: the negated priority.
pub open spec fn prio_key(e: Event) -> int {
    match e.event_type_spec() {
        EventType::RequestJob { .. } => -1,
        EventType::StartScheduling => 1,
    }
}

/// `a` comes no later than `b` in the queue order `(time, -priority)`.
pub open spec fn event_le(a: Event, b: Event) -> bool {
    ||| a.time_spec() < b.time_spec()
    ||| (a.time_spec() == b.time_spec() && prio_key(a) <= prio_key(b))
}

impl Event {
    pub closed spec fn event_type_spec(&self) -> EventType {
        self.event_type
    }

    pub closed spec fn time_spec(&self) -> u64 {
        self.time
    }

    pub fn request_job(request_time: u64, job_id: JobID) -> (r: Self)
        ensures
            r.event_type_spec() == (EventType::RequestJob { job_id }),
            r.time_spec() == request_time,
    {
        Self { event_type: EventType::RequestJob { job_id }, time: request_time }
    }

    pub fn start_scheduling(time: u64) -> (r: Self)
        ensures
            r.event_type_spec() == EventType::StartScheduling,
            r.time_spec() == time,
    {
        Self { event_type: EventType::StartScheduling, time }
    }

    pub fn event_type(&self) -> (r: &EventType)
        ensures
            r == self.event_type_spec(),
    {
        &self.event_type
    }

    pub fn event_time(&self) -> (r: u64)
        ensures
            r == self.time_spec(),
    {
        self.time
    }
}

/// A priority queue of events, keyed by `(time, -priority)`.
#[derive(Debug)]
pub struct EventQueue {
    que: Vec<Event>,
}

impl View for EventQueue {
    type V = Seq<Event>;

    closed spec fn view(&self) -> Seq<Event> {
        self.que@
    }
}

impl Clone for EventQueue {
    fn clone(&self) -> (r: Self)
        ensures
            r@ == self@,
    {
        let mut que: Vec<Event> = Vec::new();
        let mut i: usize = 0;
        while i < self.que.len()
            invariant
                0 <= i <= self.que@.len(),
                que@ == self.que@.take(i as int),
            decreases self.que@.len() - i,
        {
            que.push(self.que[i]);
            proof {
                assert(que@ =~= self.que@.take(i as int + 1));
            }
            i = i + 1;
        }
        proof {
            assert(que@ =~= self.que@);
        }
        EventQueue { que }
    }
}

impl EventQueue {
    pub fn new() -> (r: Self)
        ensures
            r@ == Seq::<Event>::empty(),
    {
        let que: Vec<Event> = Vec::new();
        proof {
            assert(que@ =~= Seq::<Event>::empty());
        }
        Self { que }
    }

    pub fn add_event(&mut self, event: Event)
        ensures
            final(self)@ == old(self)@.push(event),
    {
        self.que.push(event);
    }

    pub fn is_empty(&self) -> (r: bool)
        ensures
            r == (self@.len() == 0),
    {
        self.que.len() == 0
    }

    /// The index of an earliest event in queue order.
    fn min_index(&self) -> (r: usize)
        requires
            self@.len() > 0,
        ensures
            0 <= r < self@.len(),
            forall|j: int| 0 <= j < self@.len() ==> event_le(self@[r as int], #[trigger] self@[j]),
    {
        let mut best: usize = 0;
        let mut i: usize = 1;
        while i < self.que.len()
            invariant
                0 <= best < i <= self.que@.len(),
                forall|j: int| 0 <= j < i ==> event_le(self.que@[best as int], #[trigger] self.que@[j]),
            decreases self.que@.len() - i,
        {
            let e = &self.que[i];
            let b = &self.que[best];
            let e_key: i32 = match e.event_type {
                EventType::RequestJob { .. } => -1,
                EventType::StartScheduling => 1,
            };
            let b_key: i32 = match b.event_type {
                EventType::RequestJob { .. } => -1,
                EventType::StartScheduling => 1,
            };
            if e.time < b.time || (e.time == b.time && e_key < b_key) {
                best = i;
            }
            i = i + 1;
        }
        best
    }

    pub fn peek(&self) -> (r: Option<&Event>)
        ensures
            self@.len() == 0 ==> r is None,
            self@.len() > 0 ==> (r matches Some(e) && exists|i: int|
                0 <= i < self@.len() && self@[i] == *e) && forall|j: int|
                0 <= j < self@.len() ==> event_le(*r->Some_0, #[trigger] self@[j]),
    {
        if self.que.len() == 0 {
            None
        } else {
            let i = self.min_index();
            proof {
                assert(self@[i as int] == self@[i as int]);
            }
            Some(&self.que[i])
        }
    }

    /// Remove and return an earliest event in queue order.
    pub fn pop(&mut self) -> (r: Option<Event>)
        ensures
            old(self)@.len() == 0 ==> r is None && final(self)@ == old(self)@,
            old(self)@.len() > 0 ==> (r matches Some(e) && exists|i: int|
                {
                    &&& 0 <= i < old(self)@.len()
                    &&& old(self)@[i] == e
                    &&& final(self)@ == old(self)@.remove(i)
                }) && forall|j: int| 0 <= j < old(self)@.len() ==> event_le(r->Some_0, #[trigger] old(self)@[j]),
    {
        if self.que.len() == 0 {
            return None;
        }
        let i = self.min_index();
        let e = self.que.remove(i);
        Some(e)
    }

    /// The time of the earliest event, if any.
    pub fn next_event_time(&self) -> (r: Option<u64>)
        ensures
            self@.len() == 0 ==> r is None,
            self@.len() > 0 ==> (r matches Some(t) && exists|i: int|
                0 <= i < self@.len() && (#[trigger] self@[i]).time_spec() == t) && forall|j: int|
                0 <= j < self@.len() ==> r->Some_0 <= (#[trigger] self@[j]).time_spec(),
    {
        if self.que.len() == 0 {
            None
        } else {
            let i = self.min_index();
            Some(self.que[i].time)
        }
    }
}

impl Default for EventQueue {
    fn default() -> (r: Self)
        ensures
            r@ == Seq::<Event>::empty(),
    {
        Self::new()
    }
}

} // verus!
