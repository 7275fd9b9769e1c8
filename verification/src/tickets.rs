//! The ticket manager: which dispatcher gets each ticket, which tickets wait
//! for a dispatcher, and which days each car has been ticketed for.
//!
//! A ticket covers every day from the day of its first observation to the
//! day of its second. For each of those days on which the car has not been
//! ticketed yet, the ticket goes to the first-joined dispatcher still
//! connected that is responsible for its road, or waits in that road's
//! queue until such a dispatcher joins; the day then counts as ticketed.
use crate::network::Ticket;
use std::collections::HashMap;
use vstd::prelude::*;
use vstd::std_specs::hash::group_hash_axioms;

verus! {

broadcast use group_hash_axioms;

/// Seconds in a day.
pub const DAY_SECONDS: u32 = 86400;

/// The day that a timestamp falls on.
pub open spec fn day_of(timestamp: u32) -> u32 {
    timestamp / DAY_SECONDS
}

/// A connected dispatcher and the roads it is responsible for.
pub struct DispatcherEntry {
    pub id: u16,
    pub roads: Vec<u16>,
}

/// A ticket issued for one day: handed to the connected dispatcher
/// `dispatcher`, or, when that is `None`, queued for its road.
pub struct Delivery {
    pub dispatcher: Option<u16>,
    pub ticket: Ticket,
}

/// The ticket manager's state.
pub struct TicketManager {
    next_id: u16,
    dispatchers: Vec<DispatcherEntry>,
    history: Vec<(String, u32)>,
    queue: HashMap<u16, Vec<Ticket>>,
}

/// The ticket manager's state as values: the next dispatcher id, the
/// connected dispatchers with their roads in joining order, the
/// (plate, day) pairs already ticketed, and the tickets waiting per road.
pub struct TicketState {
    pub next_id: u16,
    pub dispatchers: Seq<(u16, Seq<u16>)>,
    pub history: Seq<(Seq<char>, u32)>,
    pub queue: Map<u16, Seq<Ticket>>,
}

/// The first dispatcher in `ds` responsible for `road`.
pub open spec fn route(ds: Seq<(u16, Seq<u16>)>, road: u16) -> Option<u16>
    decreases ds.len(),
{
    if ds.len() == 0 {
        None
    } else if ds[0].1.contains(road) {
        Some(ds[0].0)
    } else {
        route(ds.drop_first(), road)
    }
}

/// The tickets waiting for `road`, none when there are none.
pub open spec fn waiting(queue: Map<u16, Seq<Ticket>>, road: u16) -> Seq<Ticket> {
    if queue.contains_key(road) {
        queue[road]
    } else {
        seq![]
    }
}

/// Handling one day of a ticket: nothing if the car was already ticketed for
/// that day; otherwise the ticket is issued once, to a dispatcher or to its
/// road's queue, and the day is recorded.
pub open spec fn submit_day(s: TicketState, t: Ticket, day: u32) -> (TicketState, Seq<(Option<u16>, Ticket)>) {
    if s.history.contains((t.plate@, day)) {
        (s, seq![])
    } else {
        let history = s.history.push((t.plate@, day));
        match route(s.dispatchers, t.road) {
            Some(id) => (TicketState { history, ..s }, seq![(Some(id), t)]),
            None => (
                TicketState {
                    history,
                    queue: s.queue.insert(t.road, waiting(s.queue, t.road).push(t)),
                    ..s
                },
                seq![(None, t)],
            ),
        }
    }
}

/// Handling the `n` days of a ticket starting at `first`, in order.
pub open spec fn submit_days(s: TicketState, t: Ticket, first: u32, n: nat) -> (
    TicketState,
    Seq<(Option<u16>, Ticket)>,
)
    decreases n,
{
    if n == 0 {
        (s, seq![])
    } else {
        let (s1, d1) = submit_days(s, t, first, (n - 1) as nat);
        let (s2, d2) = submit_day(s1, t, (first + n - 1) as u32);
        (s2, d1 + d2)
    }
}

/// The number of days a ticket covers (none when its timestamps are out of
/// order).
pub open spec fn days_covered(t: Ticket) -> nat {
    if day_of(t.timestamp1) <= day_of(t.timestamp2) {
        (day_of(t.timestamp2) - day_of(t.timestamp1) + 1) as nat
    } else {
        0
    }
}

/// Handling a ticket: each of the days it covers in turn.
pub open spec fn spec_submit(s: TicketState, t: Ticket) -> (TicketState, Seq<(Option<u16>, Ticket)>) {
    submit_days(s, t, day_of(t.timestamp1), days_covered(t))
}

/// Handing a new dispatcher the queues of its roads, road by road: the
/// queues left and the tickets handed over.
pub open spec fn drain(queue: Map<u16, Seq<Ticket>>, roads: Seq<u16>) -> (Map<u16, Seq<Ticket>>, Seq<Ticket>)
    decreases roads.len(),
{
    if roads.len() == 0 {
        (queue, seq![])
    } else {
        let (q, d) = drain(queue, roads.drop_last());
        let r = roads.last();
        if q.contains_key(r) {
            (q.remove(r), d + q[r])
        } else {
            (q, d)
        }
    }
}

/// A dispatcher joining: it gets the next id, and the tickets waiting for
/// its roads.
pub open spec fn spec_join(s: TicketState, roads: Seq<u16>) -> (TicketState, u16, Seq<Ticket>) {
    let (q, d) = drain(s.queue, roads);
    (
        TicketState {
            next_id: (s.next_id + 1) as u16,
            dispatchers: s.dispatchers.push((s.next_id, roads)),
            queue: q,
            ..s
        },
        s.next_id,
        d,
    )
}

/// The position of dispatcher `id` in `ds`, where it is there.
pub open spec fn position_of(ds: Seq<(u16, Seq<u16>)>, id: u16) -> int {
    choose|i: int| 0 <= i < ds.len() && ds[i].0 == id
}

/// The dispatchers other than `id`.
pub open spec fn without(ds: Seq<(u16, Seq<u16>)>, id: u16) -> Seq<(u16, Seq<u16>)> {
    if exists|i: int| 0 <= i < ds.len() && ds[i].0 == id {
        ds.remove(position_of(ds, id))
    } else {
        ds
    }
}

/// A dispatcher leaving.
pub open spec fn spec_leave(s: TicketState, id: u16) -> TicketState {
    TicketState { dispatchers: without(s.dispatchers, id), ..s }
}

/// What holds of every state: ids are below the next id and distinct, and
/// no (plate, day) pair is recorded twice.
pub open spec fn ticket_state_wf(s: TicketState) -> bool {
    &&& forall|i: int| 0 <= i < s.dispatchers.len() ==> #[trigger] s.dispatchers[i].0 < s.next_id
    &&& forall|i: int, j: int|
        0 <= i < j < s.dispatchers.len() ==> #[trigger] s.dispatchers[i].0
            != #[trigger] s.dispatchers[j].0
    &&& s.history.no_duplicates()
}

pub open spec fn entries_view(ds: Seq<DispatcherEntry>) -> Seq<(u16, Seq<u16>)> {
    ds.map_values(|d: DispatcherEntry| (d.id, d.roads@))
}

pub open spec fn history_view(h: Seq<(String, u32)>) -> Seq<(Seq<char>, u32)> {
    h.map_values(|x: (String, u32)| (x.0@, x.1))
}

pub open spec fn queue_view(q: Map<u16, Vec<Ticket>>) -> Map<u16, Seq<Ticket>> {
    q.map_values(|v: Vec<Ticket>| v@)
}

pub open spec fn deliveries_view(d: Seq<Delivery>) -> Seq<(Option<u16>, Ticket)> {
    d.map_values(|x: Delivery| (x.dispatcher, x.ticket))
}

impl View for TicketManager {
    type V = TicketState;

    closed spec fn view(&self) -> TicketState {
        TicketState {
            next_id: self.next_id,
            dispatchers: entries_view(self.dispatchers@),
            history: history_view(self.history@),
            queue: queue_view(self.queue@),
        }
    }
}


/// Whether `road` is among `roads`.
fn has_road(roads: &Vec<u16>, road: u16) -> (r: bool)
    ensures
        r == roads@.contains(road),
{
    let mut i: usize = 0;
    while i < roads.len()
        invariant
            i <= roads@.len(),
            forall|j: int| 0 <= j < i ==> roads@[j] != road,
        decreases roads@.len() - i,
    {
        if roads[i] == road {
            return true;
        }
        i = i + 1;
    }
    false
}

impl TicketManager {
    /// Every ticket manager is well formed (see `ticket_state_wf`).
    #[verifier::type_invariant]
    pub open spec fn well_formed(self) -> bool {
        ticket_state_wf(self@)
    }

    /// No dispatchers, no tickets; the first dispatcher gets id 0.
    pub fn new() -> (m: Self)
        ensures
            m@.next_id == 0,
            m@.dispatchers == Seq::<(u16, Seq<u16>)>::empty(),
            m@.history == Seq::<(Seq<char>, u32)>::empty(),
            m@.queue == Map::<u16, Seq<Ticket>>::empty(),
    {
        let m = TicketManager {
            next_id: 0,
            dispatchers: Vec::new(),
            history: Vec::new(),
            queue: HashMap::new(),
        };
        proof {
            assert(m@.dispatchers =~= Seq::<(u16, Seq<u16>)>::empty());
            assert(m@.history =~= Seq::<(Seq<char>, u32)>::empty());
            assert(m@.queue =~= Map::<u16, Seq<Ticket>>::empty());
        }
        m
    }

    /// The id that the next dispatcher to join will get.
    pub fn next_id(&self) -> (r: u16)
        ensures
            r == self@.next_id,
    {
        self.next_id
    }

    /// The first-joined connected dispatcher responsible for `road`.
    fn find_dispatcher(&self, road: u16) -> (r: Option<u16>)
        ensures
            r == route(self@.dispatchers, road),
    {
        let ghost ds = self@.dispatchers;
        let mut i: usize = 0;
        proof {
            assert(ds.skip(0) =~= ds);
        }
        while i < self.dispatchers.len()
            invariant
                i <= self.dispatchers@.len(),
                ds == entries_view(self.dispatchers@),
                route(ds, road) == route(ds.skip(i as int), road),
            decreases self.dispatchers@.len() - i,
        {
            proof {
                assert(ds.skip(i as int)[0] == ds[i as int]);
                assert(ds.skip(i as int).drop_first() =~= ds.skip(i + 1));
            }
            if has_road(&self.dispatchers[i].roads, road) {
                return Some(self.dispatchers[i].id);
            }
            i = i + 1;
        }
        None
    }

    /// Whether the car `plate` has been ticketed for `day`.
    fn already_ticketed(&self, plate: &String, day: u32) -> (r: bool)
        ensures
            r == self@.history.contains((plate@, day)),
    {
        let ghost h = self@.history;
        let mut i: usize = 0;
        while i < self.history.len()
            invariant
                i <= self.history@.len(),
                h == history_view(self.history@),
                forall|j: int| 0 <= j < i ==> h[j] != (plate@, day),
            decreases self.history@.len() - i,
        {
            if self.history[i].1 == day && self.history[i].0 == *plate {
                assert(h[i as int] == (plate@, day));
                return true;
            }
            i = i + 1;
        }
        false
    }

    /// Handles one day of `ticket` (see `submit_day`).
    fn submit_one_day(&mut self, ticket: &Ticket, day: u32, deliveries: &mut Vec<Delivery>)
        ensures
            final(self)@ == submit_day(old(self)@, *ticket, day).0,
            deliveries_view(final(deliveries)@) == deliveries_view(old(deliveries)@) + submit_day(
                old(self)@,
                *ticket,
                day,
            ).1,
    {
        proof {
            use_type_invariant(&*self);
        }
        if self.already_ticketed(&ticket.plate, day) {
            proof {
                assert(deliveries_view(deliveries@) =~= deliveries_view(old(deliveries)@) + seq![]);
            }
            return;
        }
        let ghost before = self@;
        let plate = ticket.plate.clone();
        match self.find_dispatcher(ticket.road) {
            Some(id) => {
                deliveries.push(Delivery { dispatcher: Some(id), ticket: ticket.clone() });
                proof {
                    assert(deliveries_view(deliveries@) =~= deliveries_view(old(deliveries)@)
                        + seq![(Some(id), *ticket)]);
                }
            },
            None => {
                let mut queue: HashMap<u16, Vec<Ticket>> = HashMap::new();
                std::mem::swap(&mut queue, &mut self.queue);
                let mut q = match queue.remove(&ticket.road) {
                    Some(q) => q,
                    None => Vec::new(),
                };
                q.push(ticket.clone());
                queue.insert(ticket.road, q);
                self.queue = queue;
                deliveries.push(Delivery { dispatcher: None, ticket: ticket.clone() });
                proof {
                    assert(queue_view(self.queue@) =~= before.queue.insert(
                        ticket.road,
                        waiting(before.queue, ticket.road).push(*ticket),
                    ));
                    assert(deliveries_view(deliveries@) =~= deliveries_view(old(deliveries)@)
                        + seq![(None, *ticket)]);
                }
            },
        }
        let mut history: Vec<(String, u32)> = Vec::new();
        std::mem::swap(&mut history, &mut self.history);
        history.push((plate, day));
        proof {
            assert(history_view(history@) =~= before.history.push((ticket.plate@, day)));
            let h = history_view(history@);
            assert(h.no_duplicates()) by {
                assert forall|i: int, j: int|
                    0 <= i < h.len() && 0 <= j < h.len() && i != j implies h[i] != h[j] by {
                    if i < before.history.len() && j < before.history.len() {
                    } else if i == before.history.len() {
                        assert(before.history[j] == h[j]);
                    } else {
                        assert(before.history[i] == h[i]);
                    }
                }
            }
        }
        self.history = history;
    }

    /// Handles a ticket: for each day it covers on which the car has not been
    /// ticketed, hands it to a dispatcher or queues it, and records the day.
    /// Returns one entry per such day, in order of the days.
    pub fn submit(&mut self, ticket: Ticket) -> (deliveries: Vec<Delivery>)
        ensures
            final(self)@ == spec_submit(old(self)@, ticket).0,
            deliveries_view(deliveries@) == spec_submit(old(self)@, ticket).1,
    {
        let mut deliveries: Vec<Delivery> = Vec::new();
        let day1 = ticket.timestamp1 / DAY_SECONDS;
        let day2 = ticket.timestamp2 / DAY_SECONDS;
        let mut day = day1;
        proof {
            assert(deliveries_view(deliveries@) =~= seq![]);
        }
        while day < day2 + 1
            invariant
                day1 == day_of(ticket.timestamp1),
                day2 == day_of(ticket.timestamp2),
                day2 < 0xffff_ffff,
                day1 <= day,
                day1 <= day2 ==> day <= day2 + 1,
                day1 > day2 ==> day == day1,
                (self@, deliveries_view(deliveries@)) == submit_days(
                    old(self)@,
                    ticket,
                    day1,
                    (day - day1) as nat,
                ),
            decreases day2 + 1 - day,
        {
            let ghost before = self@;
            let ghost before_d = deliveries_view(deliveries@);
            self.submit_one_day(&ticket, day, &mut deliveries);
            proof {
                assert((day1 + ((day + 1 - day1) as nat) - 1) as u32 == day);
            }
            day = day + 1;
        }
        deliveries
    }

    /// A dispatcher for `roads` joins: it gets the next id and the tickets
    /// waiting for its roads, road by road.
    pub fn join(&mut self, roads: Vec<u16>) -> (r: (u16, Vec<Ticket>))
        requires
            old(self)@.next_id < u16::MAX,
        ensures
            final(self)@ == spec_join(old(self)@, roads@).0,
            r.0 == spec_join(old(self)@, roads@).1,
            r.1@ == spec_join(old(self)@, roads@).2,
    {
        proof {
            use_type_invariant(&*self);
        }
        let ghost before = self@;
        let id = self.next_id;
        let mut delivered: Vec<Ticket> = Vec::new();
        let mut queue: HashMap<u16, Vec<Ticket>> = HashMap::new();
        proof {
            assert forall|q: Map<u16, Seq<Ticket>>| #[trigger] ticket_state_wf(
                TicketState { queue: q, ..before },
            ) by {
                let s2 = TicketState { queue: q, ..before };
                assert(s2.dispatchers == before.dispatchers);
            }
        }
        std::mem::swap(&mut queue, &mut self.queue);
        let mut i: usize = 0;
        while i < roads.len()
            invariant
                i <= roads@.len(),
                forall|q: Map<u16, Seq<Ticket>>| #[trigger] ticket_state_wf(
                    TicketState { queue: q, ..before },
                ),
                (queue_view(queue@), delivered@) == drain(
                    before.queue,
                    roads@.take(i as int),
                ),
            decreases roads@.len() - i,
        {
            proof {
                assert(roads@.take(i + 1).drop_last() =~= roads@.take(i as int));
            }
            let road = roads[i];
            let ghost qv = queue_view(queue@);
            match queue.remove(&road) {
                Some(mut q) => {
                    delivered.append(&mut q);
                    proof {
                        assert(queue_view(queue@) =~= qv.remove(road));
                    }
                },
                None => {
                    proof {
                        assert(queue_view(queue@) =~= qv);
                    }
                },
            }
            i = i + 1;
        }
        proof {
            assert(roads@.take(roads@.len() as int) =~= roads@);
        }
        self.queue = queue;
        self.next_id = id + 1;
        let mut dispatchers: Vec<DispatcherEntry> = Vec::new();
        std::mem::swap(&mut dispatchers, &mut self.dispatchers);
        dispatchers.push(DispatcherEntry { id, roads });
        proof {
            let n = entries_view(dispatchers@);
            assert(n =~= before.dispatchers.push((id, roads@)));
            assert forall|a: int| 0 <= a < n.len() implies #[trigger] n[a].0 < id + 1 by {
                if a < before.dispatchers.len() {
                    assert(n[a] == before.dispatchers[a]);
                }
            }
            assert forall|a: int, b: int| 0 <= a < b < n.len() implies #[trigger] n[a].0
                != #[trigger] n[b].0 by {
                assert(n[a] == before.dispatchers[a]);
                if b < before.dispatchers.len() {
                    assert(n[b] == before.dispatchers[b]);
                }
            }
        }
        self.dispatchers = dispatchers;
        (id, delivered)
    }

    /// The dispatcher `id` leaves.
    pub fn leave(&mut self, id: u16)
        ensures
            final(self)@ == spec_leave(old(self)@, id),
    {
        proof {
            use_type_invariant(&*self);
        }
        let ghost ds = self@.dispatchers;
        let mut i: usize = 0;
        while i < self.dispatchers.len()
            invariant
                i <= self.dispatchers@.len(),
                ds == entries_view(self.dispatchers@),
                self@ == old(self)@,
                ticket_state_wf(old(self)@),
                forall|j: int| 0 <= j < i ==> ds[j].0 != id,
            decreases self.dispatchers@.len() - i,
        {
            if self.dispatchers[i].id == id {
                proof {
                    assert(ds[i as int].0 == id);
                    let k = position_of(ds, id);
                    let w = old(self)@.dispatchers;
                    assert(w == ds);
                    if k < i {
                        assert(w[k].0 != w[i as int].0);
                    } else if k > i {
                        assert(w[i as int].0 != w[k].0);
                    }
                    assert(k == i);
                }
                let mut dispatchers: Vec<DispatcherEntry> = Vec::new();
                std::mem::swap(&mut dispatchers, &mut self.dispatchers);
                dispatchers.remove(i);
                proof {
                    let n = entries_view(dispatchers@);
                    assert(n =~= ds.remove(i as int));
                    assert forall|a: int| 0 <= a < n.len() implies #[trigger] n[a].0 < old(
                        self,
                    )@.next_id by {
                        let a2 = if a < i { a } else { a + 1 };
                        assert(n[a] == ds[a2]);
                        assert(old(self)@.dispatchers[a2].0 < old(self)@.next_id);
                    }
                    assert forall|a: int, b: int| 0 <= a < b < n.len() implies #[trigger] n[a].0
                        != #[trigger] n[b].0 by {
                        let a2 = if a < i { a } else { a + 1 };
                        let b2 = if b < i { b } else { b + 1 };
                        assert(n[a] == ds[a2]);
                        assert(n[b] == ds[b2]);
                    }
                }
                self.dispatchers = dispatchers;
                return;
            }
            i = i + 1;
        }
    }
}


/// Handling a ticket's days leaves the dispatchers and the id counter alone,
/// keeps every recorded (plate, day), records each of the days handled, and
/// records nothing else.
proof fn lemma_submit_days_frame(s: TicketState, t: Ticket, first: u32, n: nat)
    requires
        first + n <= 0x1_0000_0000,
    ensures
        submit_days(s, t, first, n).0.dispatchers == s.dispatchers,
        submit_days(s, t, first, n).0.next_id == s.next_id,
        forall|x: (Seq<char>, u32)|
            s.history.contains(x) ==> #[trigger] submit_days(s, t, first, n).0.history.contains(x),
        forall|j: int|
            0 <= j < n ==> #[trigger] submit_days(s, t, first, n).0.history.contains(
                (t.plate@, (first + j) as u32),
            ),
        forall|x: (Seq<char>, u32)|
            #[trigger] submit_days(s, t, first, n).0.history.contains(x) ==> s.history.contains(x)
                || (x.0 == t.plate@ && first <= x.1 < first + n),
    decreases n,
{
    if n > 0 {
        lemma_submit_days_frame(s, t, first, (n - 1) as nat);
        let s1 = submit_days(s, t, first, (n - 1) as nat).0;
        let day = (first + n - 1) as u32;
        let s2 = submit_day(s1, t, day).0;
        assert(s2.history == s1.history || s2.history == s1.history.push((t.plate@, day)));
        assert forall|x: (Seq<char>, u32)| s1.history.contains(x) implies #[trigger] s2.history.contains(x) by {
            if s2.history != s1.history {
                let i = choose|i: int| 0 <= i < s1.history.len() && s1.history[i] == x;
                assert(s2.history[i] == x);
            }
        }
        assert(s2.history.contains((t.plate@, day))) by {
            if s2.history != s1.history {
                assert(s2.history[s1.history.len() as int] == (t.plate@, day));
            }
        }
        assert forall|j: int| 0 <= j < n implies #[trigger] s2.history.contains(
            (t.plate@, (first + j) as u32),
        ) by {
            if j < n - 1 {
                assert(s1.history.contains((t.plate@, (first + j) as u32)));
            }
        }
        assert forall|x: (Seq<char>, u32)| #[trigger] s2.history.contains(x) implies s.history.contains(x)
            || (x.0 == t.plate@ && first <= x.1 < first + n) by {
            if s2.history != s1.history && !s1.history.contains(x) {
                let i = choose|i: int| 0 <= i < s2.history.len() && s2.history[i] == x;
                if i < s1.history.len() {
                    assert(s1.history[i] == x);
                }
            }
        }
    }
}

/// Handling days on which the car has already been ticketed changes nothing.
proof fn lemma_submit_days_noop(s: TicketState, t: Ticket, first: u32, n: nat)
    requires
        forall|j: int| 0 <= j < n ==> #[trigger] s.history.contains((t.plate@, (first + j) as u32)),
    ensures
        submit_days(s, t, first, n) == (s, Seq::<(Option<u16>, Ticket)>::empty()),
    decreases n,
{
    if n > 0 {
        lemma_submit_days_noop(s, t, first, (n - 1) as nat);
        assert(s.history.contains((t.plate@, (first + (n - 1)) as u32)));
        assert(Seq::<(Option<u16>, Ticket)>::empty() + Seq::<(Option<u16>, Ticket)>::empty() =~= Seq::<
            (Option<u16>, Ticket),
        >::empty());
    }
}

/// Handing in the same ticket a second time hands out and queues nothing,
/// and changes nothing: its days are all ticketed by then.
pub proof fn law_resubmit_is_silent(s: TicketState, t: Ticket)
    ensures
        spec_submit(spec_submit(s, t).0, t) == (spec_submit(s, t).0, Seq::<(Option<u16>, Ticket)>::empty()),
{
    let first = day_of(t.timestamp1);
    let n = days_covered(t);
    lemma_submit_days_frame(s, t, first, n);
    let s1 = spec_submit(s, t).0;
    lemma_submit_days_noop(s1, t, first, n);
}

/// Once a car has been ticketed for a day, no ticket for that car is handed
/// out or queued for that day again.
pub proof fn law_car_day_ticketed_once(s: TicketState, t1: Ticket, t2: Ticket, day: u32)
    requires
        t1.plate@ == t2.plate@,
    ensures
        submit_day(submit_day(s, t1, day).0, t2, day) == (
            submit_day(s, t1, day).0,
            Seq::<(Option<u16>, Ticket)>::empty(),
        ),
{
    let s1 = submit_day(s, t1, day).0;
    if !s.history.contains((t1.plate@, day)) {
        assert(s1.history[s.history.len() as int] == (t1.plate@, day));
    }
}

proof fn lemma_submit_days_count(s: TicketState, t: Ticket, first: u32, n: nat)
    ensures
        submit_days(s, t, first, n).1.len() + s.history.len() == submit_days(
            s,
            t,
            first,
            n,
        ).0.history.len(),
        forall|i: int|
            0 <= i < submit_days(s, t, first, n).1.len() ==> (#[trigger] submit_days(
                s,
                t,
                first,
                n,
            ).1[i]).1 == t,
    decreases n,
{
    if n > 0 {
        lemma_submit_days_count(s, t, first, (n - 1) as nat);
        let (s1, d1) = submit_days(s, t, first, (n - 1) as nat);
        let (s2, d2) = submit_day(s1, t, (first + n - 1) as u32);
        let d = d1 + d2;
        assert forall|i: int| 0 <= i < d.len() implies (#[trigger] d[i]).1 == t by {
            if i < d1.len() {
                assert(d[i] == d1[i]);
            }
        }
    }
}

/// Each ticket handed in is issued once for each day it covers on which its
/// car had not been ticketed, and for no other day: the entries returned are
/// as many as the (plate, day) pairs newly recorded, and each is the ticket.
pub proof fn law_one_ticket_per_new_day(s: TicketState, t: Ticket)
    ensures
        spec_submit(s, t).1.len() == spec_submit(s, t).0.history.len() - s.history.len(),
        forall|i: int| 0 <= i < spec_submit(s, t).1.len() ==> (#[trigger] spec_submit(s, t).1[i]).1 == t,
{
    lemma_submit_days_count(s, t, day_of(t.timestamp1), days_covered(t));
}

/// While no dispatcher has the ticket's road, handling its days leaves the
/// ticket in the road's queue, as soon as one of those days was new.
proof fn lemma_submit_days_queues(s: TicketState, t: Ticket, first: u32, n: nat, k: int)
    requires
        first + n <= 0x1_0000_0000,
        route(s.dispatchers, t.road) is None,
        0 <= k < n,
        !s.history.contains((t.plate@, (first + k) as u32)),
    ensures
        waiting(submit_days(s, t, first, n).0.queue, t.road).contains(t),
    decreases n,
{
    lemma_submit_days_frame(s, t, first, (n - 1) as nat);
    let s1 = submit_days(s, t, first, (n - 1) as nat).0;
    let day = (first + n - 1) as u32;
    let s2 = submit_day(s1, t, day).0;
    if k < n - 1 {
        lemma_submit_days_queues(s, t, first, (n - 1) as nat, k);
        if !s1.history.contains((t.plate@, day)) {
            let w = waiting(s1.queue, t.road);
            let j = choose|j: int| 0 <= j < w.len() && w[j] == t;
            assert(waiting(s2.queue, t.road)[j] == t);
        }
    } else {
        assert(!s1.history.contains((t.plate@, day)));
        assert(waiting(s2.queue, t.road)[waiting(s1.queue, t.road).len() as int] == t);
    }
}

/// Draining the queues of roads other than `r` leaves `r`'s queue alone.
proof fn lemma_drain_keeps(queue: Map<u16, Seq<Ticket>>, roads: Seq<u16>, r: u16)
    requires
        !roads.contains(r),
    ensures
        waiting(drain(queue, roads).0, r) == waiting(queue, r),
    decreases roads.len(),
{
    if roads.len() > 0 {
        assert(!roads.drop_last().contains(r)) by {
            if roads.drop_last().contains(r) {
                let i = choose|i: int| 0 <= i < roads.drop_last().len() && roads.drop_last()[i] == r;
                assert(roads[i] == r);
            }
        }
        lemma_drain_keeps(queue, roads.drop_last(), r);
        assert(roads[roads.len() - 1] != r);
    }
}

/// A ticket waiting for road `r` is handed over by a join for roads that
/// include `r`.
proof fn lemma_drain_delivers(queue: Map<u16, Seq<Ticket>>, roads: Seq<u16>, r: u16, t: Ticket)
    requires
        waiting(queue, r).contains(t),
        roads.contains(r),
    ensures
        drain(queue, roads).1.contains(t),
    decreases roads.len(),
{
    let (q, d) = drain(queue, roads.drop_last());
    let last = roads.last();
    if roads.drop_last().contains(r) {
        lemma_drain_delivers(queue, roads.drop_last(), r, t);
        let j = choose|j: int| 0 <= j < d.len() && d[j] == t;
        if q.contains_key(last) {
            assert((d + q[last])[j] == t);
        }
    } else {
        assert(last == r) by {
            let i = choose|i: int| 0 <= i < roads.len() && roads[i] == r;
            if i < roads.len() - 1 {
                assert(roads.drop_last()[i] == r);
            }
        }
        lemma_drain_keeps(queue, roads.drop_last(), r);
        assert(q.contains_key(r));
        let j = choose|j: int| 0 <= j < q[r].len() && q[r][j] == t;
        assert((d + q[r])[d.len() + j] == t);
    }
}

/// A ticket that finds no dispatcher for its road on a day its car was not
/// yet ticketed for waits, and the next dispatcher that joins for that road
/// receives it.
pub proof fn law_waiting_ticket_reaches_next_dispatcher(
    s: TicketState,
    t: Ticket,
    k: int,
    roads: Seq<u16>,
)
    requires
        route(s.dispatchers, t.road) is None,
        0 <= k < days_covered(t),
        !s.history.contains((t.plate@, (day_of(t.timestamp1) + k) as u32)),
        roads.contains(t.road),
    ensures
        spec_join(spec_submit(s, t).0, roads).2.contains(t),
{
    lemma_submit_days_queues(s, t, day_of(t.timestamp1), days_covered(t), k);
    lemma_drain_delivers(spec_submit(s, t).0.queue, roads, t.road, t);
}

/// The dispatcher that `route` picks is one of the dispatchers.
proof fn lemma_route_member(ds: Seq<(u16, Seq<u16>)>, road: u16)
    ensures
        route(ds, road) matches Some(id) ==> exists|i: int| 0 <= i < ds.len() && ds[i].0 == id,
    decreases ds.len(),
{
    if ds.len() > 0 && !ds[0].1.contains(road) {
        lemma_route_member(ds.drop_first(), road);
        if let Some(id) = route(ds, road) {
            let i = choose|i: int| 0 <= i < ds.drop_first().len() && ds.drop_first()[i].0 == id;
            assert(ds[i + 1].0 == id);
        }
    }
}

/// A dispatcher that has left is handed no more tickets.
pub proof fn law_departed_dispatcher_gets_nothing(s: TicketState, id: u16, road: u16)
    requires
        ticket_state_wf(s),
    ensures
        route(spec_leave(s, id).dispatchers, road) != Some(id),
{
    let ds = s.dispatchers;
    let n = spec_leave(s, id).dispatchers;
    lemma_route_member(n, road);
    if route(n, road) == Some(id) {
        let i = choose|i: int| 0 <= i < n.len() && n[i].0 == id;
        let k = choose|k: int| 0 <= k < ds.len() && ds[k].0 == id;
        let i2 = if i < k { i } else { i + 1 };
        assert(n[i] == ds[i2]);
        if i2 < k {
            assert(ds[i2].0 != ds[k].0);
        } else {
            assert(ds[k].0 != ds[i2].0);
        }
    }
}


/// The first dispatcher in `ds` responsible for `road` is one that is; no
/// dispatcher is responsible for it when `route` finds none.
proof fn lemma_route(ds: Seq<(u16, Seq<u16>)>, road: u16)
    ensures
        route(ds, road) matches Some(id) ==> exists|j: int|
            0 <= j < ds.len() && ds[j].0 == id && #[trigger] ds[j].1.contains(road),
        route(ds, road) is None ==> forall|j: int| 0 <= j < ds.len() ==> !(#[trigger] ds[j].1.contains(road)),
    decreases ds.len(),
{
    if ds.len() > 0 && !ds[0].1.contains(road) {
        lemma_route(ds.drop_first(), road);
        if let Some(id) = route(ds, road) {
            let j = choose|j: int|
                0 <= j < ds.drop_first().len() && ds.drop_first()[j].0 == id
                    && #[trigger] ds.drop_first()[j].1.contains(road);
            assert(ds[j + 1] == ds.drop_first()[j]);
        } else {
            assert forall|j: int| 0 <= j < ds.len() implies !(#[trigger] ds[j].1.contains(road)) by {
                if j > 0 {
                    assert(ds[j] == ds.drop_first()[j - 1]);
                }
            }
        }
    }
}

/// Handling a ticket's days: every entry is the ticket, for the dispatcher
/// that `route` picks (or the queue); the dispatchers and the id counter stay;
/// a routed ticket leaves the queues alone, and an unrouted one is appended
/// to its road's queue once per entry.
proof fn lemma_submit_days_route(s: TicketState, t: Ticket, first: u32, n: nat)
    ensures
        ({
            let (s2, d) = submit_days(s, t, first, n);
            &&& s2.dispatchers == s.dispatchers
            &&& s2.next_id == s.next_id
            &&& forall|i: int| 0 <= i < d.len() ==> #[trigger] d[i] == (route(s.dispatchers, t.road), t)
            &&& forall|r: u16| r != t.road ==> #[trigger] waiting(s2.queue, r) == waiting(s.queue, r)
            &&& route(s.dispatchers, t.road) is Some ==> s2.queue == s.queue
            &&& route(s.dispatchers, t.road) is None ==> waiting(s2.queue, t.road) == waiting(
                s.queue,
                t.road,
            ) + Seq::new(d.len(), |i: int| t)
        }),
    decreases n,
{
    let (s2, d) = submit_days(s, t, first, n);
    if n == 0 {
        assert(waiting(s2.queue, t.road) =~= waiting(s.queue, t.road) + Seq::new(
            d.len(),
            |i: int| t,
        ));
    } else {
        lemma_submit_days_route(s, t, first, (n - 1) as nat);
        let (s1, d1) = submit_days(s, t, first, (n - 1) as nat);
        let day = (first + n - 1) as u32;
        let d2 = submit_day(s1, t, day).1;
        assert(s2 == submit_day(s1, t, day).0);
        assert(d == d1 + d2);
        assert forall|i: int| 0 <= i < d.len() implies #[trigger] d[i] == (
            route(s.dispatchers, t.road),
            t,
        ) by {
            if i < d1.len() {
                assert(d[i] == d1[i]);
            }
        }
        assert forall|r: u16| r != t.road implies #[trigger] waiting(s2.queue, r) == waiting(
            s.queue,
            r,
        ) by {
            assert(waiting(s1.queue, r) == waiting(s.queue, r));
        }
        if route(s.dispatchers, t.road) is None {
            assert(waiting(s2.queue, t.road) =~= waiting(s.queue, t.road) + Seq::new(
                d.len(),
                |i: int| t,
            ));
        }
    }
}

/// All the entries from handling one ticket go the same way: to the
/// first-joined dispatcher responsible for its road (so every entry goes to
/// one dispatcher listing that road), or, when no dispatcher lists the road,
/// to the road's queue, which then grows by exactly those entries. Other
/// roads' queues, the dispatchers and the id counter are left alone.
pub proof fn law_submit_routes_to_one(s: TicketState, t: Ticket)
    ensures
        ({
            let (s2, d) = spec_submit(s, t);
            &&& forall|i: int| 0 <= i < d.len() ==> #[trigger] d[i] == (route(s.dispatchers, t.road), t)
            &&& route(s.dispatchers, t.road) matches Some(id) ==> {
                &&& exists|j: int|
                    0 <= j < s.dispatchers.len() && s.dispatchers[j].0 == id
                        && #[trigger] s.dispatchers[j].1.contains(t.road)
                &&& s2.queue == s.queue
            }
            &&& route(s.dispatchers, t.road) is None ==> {
                &&& forall|j: int|
                    0 <= j < s.dispatchers.len() ==> !(#[trigger] s.dispatchers[j].1.contains(
                        t.road,
                    ))
                &&& waiting(s2.queue, t.road) == waiting(s.queue, t.road) + Seq::new(
                    d.len(),
                    |i: int| t,
                )
            }
            &&& forall|r: u16| r != t.road ==> #[trigger] waiting(s2.queue, r) == waiting(s.queue, r)
            &&& s2.dispatchers == s.dispatchers
            &&& s2.next_id == s.next_id
        }),
{
    lemma_route(s.dispatchers, t.road);
    lemma_submit_days_route(s, t, day_of(t.timestamp1), days_covered(t));
}

proof fn lemma_contains_push(s: Seq<u16>, r: u16)
    requires
        s.len() > 0,
    ensures
        s.contains(r) <==> (s.drop_last().contains(r) || s.last() == r),
{
    if s.contains(r) && s.last() != r {
        let i = choose|i: int| 0 <= i < s.len() && s[i] == r;
        assert(s.drop_last()[i] == r);
    }
    if s.drop_last().contains(r) {
        let i = choose|i: int| 0 <= i < s.drop_last().len() && s.drop_last()[i] == r;
        assert(s[i] == r);
    }
    if s.last() == r {
        assert(s[s.len() - 1] == r);
    }
}

/// The queues left after a join: those of the roads it did not list,
/// unchanged.
proof fn lemma_drain_queues(queue: Map<u16, Seq<Ticket>>, roads: Seq<u16>)
    ensures
        forall|r: u16|
            #[trigger] drain(queue, roads).0.contains_key(r) <==> queue.contains_key(r)
                && !roads.contains(r),
        forall|r: u16|
            #[trigger] drain(queue, roads).0.contains_key(r) ==> drain(queue, roads).0[r]
                == queue[r],
    decreases roads.len(),
{
    if roads.len() > 0 {
        lemma_drain_queues(queue, roads.drop_last());
        let (q, d) = drain(queue, roads.drop_last());
        let q2 = drain(queue, roads).0;
        assert forall|r: u16| #[trigger] q2.contains_key(r) <==> queue.contains_key(r)
            && !roads.contains(r) by {
            lemma_contains_push(roads, r);
        }
        assert forall|r: u16| #[trigger] q2.contains_key(r) implies q2[r] == queue[r] by {
            lemma_contains_push(roads, r);
        }
    }
}

/// A join hands over each listed road's queue as one block, in queue order.
proof fn lemma_drain_blocks(queue: Map<u16, Seq<Ticket>>, roads: Seq<u16>, r: u16)
    requires
        roads.contains(r),
    ensures
        exists|k: int|
            0 <= k && k + waiting(queue, r).len() <= drain(queue, roads).1.len() && #[trigger] drain(
                queue,
                roads,
            ).1.subrange(k, k + waiting(queue, r).len()) == waiting(queue, r),
    decreases roads.len(),
{
    let w = waiting(queue, r);
    let (q, d) = drain(queue, roads.drop_last());
    let all = drain(queue, roads).1;
    lemma_contains_push(roads, r);
    if roads.drop_last().contains(r) {
        lemma_drain_blocks(queue, roads.drop_last(), r);
        let k = choose|k: int|
            0 <= k && k + w.len() <= d.len() && #[trigger] d.subrange(k, k + w.len()) == w;
        assert(all == d || all == d + q[roads.last()]);
        assert(all.subrange(k, k + w.len()) =~= d.subrange(k, k + w.len()));
        assert(0 <= k && k + w.len() <= all.len() && all.subrange(k, k + w.len()) == w);
    } else {
        lemma_drain_keeps(queue, roads.drop_last(), r);
        if q.contains_key(r) {
            let k = d.len() as int;
            assert(all == d + q[r]);
            assert(all.subrange(k, k + w.len()) =~= w);
            assert(0 <= k && k + w.len() <= all.len() && all.subrange(k, k + w.len()) == w);
        } else {
            assert(w.len() == 0);
            assert(all.subrange(0, 0) =~= w);
            let k: int = 0;
            assert(0 <= k && k + w.len() <= all.len() && all.subrange(k, k + w.len()) == w);
        }
    }
}

/// A join hands over the queue of each road it lists, in queue order as one
/// block, and leaves those queues empty, so no later join receives those
/// tickets again; the other roads' queues stay as they were.
pub proof fn law_join_hands_over_queues(s: TicketState, roads: Seq<u16>)
    ensures
        ({
            let (s2, id, d) = spec_join(s, roads);
            &&& forall|r: u16| #[trigger] roads.contains(r) ==> {
                &&& !s2.queue.contains_key(r)
                &&& exists|k: int|
                    0 <= k && k + waiting(s.queue, r).len() <= d.len() && #[trigger] d.subrange(
                        k,
                        k + waiting(s.queue, r).len(),
                    ) == waiting(s.queue, r)
            }
            &&& forall|r: u16| !roads.contains(r) ==> #[trigger] waiting(s2.queue, r) == waiting(
                s.queue,
                r,
            )
            &&& forall|r: u16, later: Seq<u16>| #[trigger] roads.contains(r) ==> #[trigger] waiting(
                drain(s2.queue, later).0,
                r,
            ).len() == 0
        }),
{
    let s2 = spec_join(s, roads).0;
    lemma_drain_queues(s.queue, roads);
    let d = spec_join(s, roads).2;
    assert(d == drain(s.queue, roads).1);
    assert forall|r: u16| #[trigger] roads.contains(r) implies exists|k: int|
        0 <= k && k + waiting(s.queue, r).len() <= d.len() && #[trigger] d.subrange(
            k,
            k + waiting(s.queue, r).len(),
        ) == waiting(s.queue, r) by {
        lemma_drain_blocks(s.queue, roads, r);
        let w = waiting(s.queue, r);
        let k = choose|k: int|
            0 <= k && k + w.len() <= d.len() && #[trigger] d.subrange(k, k + w.len()) == w;
        assert(d.subrange(k, k + w.len()) == w);
    }
    assert forall|r: u16, later: Seq<u16>| #[trigger] roads.contains(r) implies #[trigger] waiting(
        drain(s2.queue, later).0,
        r,
    ).len() == 0 by {
        lemma_drain_queues(s2.queue, later);
    }
}


/// A command to the ticket manager.
pub enum TicketCommand {
    /// A dispatcher for these roads joins.
    Join(Seq<u16>),
    /// A ticket is handed in.
    Submit(Ticket),
    /// The dispatcher with this id leaves.
    Leave(u16),
}

/// What a command does: the next state, the id it gives (to a join), and
/// the tickets it issues with where each goes (`None`: a road's queue).
pub open spec fn apply_command(s: TicketState, c: TicketCommand) -> (
    TicketState,
    Option<u16>,
    Seq<(Option<u16>, Ticket)>,
) {
    match c {
        TicketCommand::Join(roads) => {
            let (s2, id, d) = spec_join(s, roads);
            (s2, Some(id), d.map_values(|t: Ticket| (Some(id), t)))
        },
        TicketCommand::Submit(t) => {
            let (s2, d) = spec_submit(s, t);
            (s2, None, d)
        },
        TicketCommand::Leave(id) => (spec_leave(s, id), None, seq![]),
    }
}

/// The state after a sequence of commands.
pub open spec fn run_commands(s: TicketState, cmds: Seq<TicketCommand>) -> TicketState
    decreases cmds.len(),
{
    if cmds.len() == 0 {
        s
    } else {
        apply_command(run_commands(s, cmds.drop_last()), cmds.last()).0
    }
}

/// The `i`-th command of a sequence, applied where the earlier ones left
/// the state.
pub open spec fn command_at(s: TicketState, cmds: Seq<TicketCommand>, i: int) -> (
    TicketState,
    Option<u16>,
    Seq<(Option<u16>, Ticket)>,
) {
    apply_command(run_commands(s, cmds.take(i)), cmds[i])
}

/// How many joins a sequence of commands holds.
pub open spec fn joins_in(cmds: Seq<TicketCommand>) -> nat
    decreases cmds.len(),
{
    if cmds.len() == 0 {
        0
    } else {
        joins_in(cmds.drop_last()) + if cmds.last() is Join {
            1nat
        } else {
            0nat
        }
    }
}

proof fn lemma_next_id_counts_joins(s: TicketState, cmds: Seq<TicketCommand>)
    requires
        s.next_id + joins_in(cmds) <= u16::MAX,
    ensures
        run_commands(s, cmds).next_id == s.next_id + joins_in(cmds),
    decreases cmds.len(),
{
    if cmds.len() > 0 {
        lemma_next_id_counts_joins(s, cmds.drop_last());
        let x = run_commands(s, cmds.drop_last());
        if let TicketCommand::Submit(t) = cmds.last() {
            lemma_submit_days_route(x, t, day_of(t.timestamp1), days_covered(t));
        }
    }
}

/// Dispatcher ids count up by one per join: over any sequence of commands
/// (with fewer joins than ids left), the `k`-th join gets the starting id
/// plus `k`, hand-ins and departures keep the counter, and the counter ends
/// at the starting id plus the number of joins. From a new manager (id 0),
/// the `k`-th join gets `k`.
pub proof fn law_ids_count_up(s: TicketState, cmds: Seq<TicketCommand>)
    requires
        s.next_id + joins_in(cmds) <= u16::MAX,
    ensures
        run_commands(s, cmds).next_id == s.next_id + joins_in(cmds),
        forall|i: int|
            0 <= i < cmds.len() ==> (#[trigger] command_at(s, cmds, i).1 matches Some(id) ==> id
                == s.next_id + joins_in(cmds.take(i))),
        forall|i: int|
            0 <= i < cmds.len() && cmds[i] is Join ==> (#[trigger] command_at(s, cmds, i).1) is Some,
    decreases cmds.len(),
{
    lemma_next_id_counts_joins(s, cmds);
    if cmds.len() > 0 {
        let init = cmds.drop_last();
        law_ids_count_up(s, init);
        assert forall|i: int|
            0 <= i < cmds.len() implies (#[trigger] command_at(s, cmds, i).1 matches Some(id) ==> id
                == s.next_id + joins_in(cmds.take(i))) && (cmds[i] is Join ==> command_at(
                s,
                cmds,
                i,
            ).1 is Some) by {
            if i < cmds.len() - 1 {
                assert(cmds.take(i) =~= init.take(i));
                assert(cmds[i] == init[i]);
                assert(command_at(s, cmds, i) == command_at(s, init, i));
            } else {
                assert(cmds.take(i) =~= init);
                lemma_next_id_counts_joins(s, init);
            }
        }
    }
}

/// `id` is issued and belongs to no connected dispatcher.
pub open spec fn departed(s: TicketState, id: u16) -> bool {
    &&& id < s.next_id
    &&& forall|j: int| 0 <= j < s.dispatchers.len() ==> #[trigger] s.dispatchers[j].0 != id
}

proof fn lemma_without_subset(ds: Seq<(u16, Seq<u16>)>, id: u16)
    ensures
        forall|a: int|
            0 <= a < without(ds, id).len() ==> ds.contains(#[trigger] without(ds, id)[a]),
{
    assert forall|a: int| 0 <= a < without(ds, id).len() implies ds.contains(
        #[trigger] without(ds, id)[a],
    ) by {
        if exists|i: int| 0 <= i < ds.len() && ds[i].0 == id {
            let k = position_of(ds, id);
            ds.remove_ensures(k);
            let a2 = if a < k { a } else { a + 1 };
            assert(without(ds, id)[a] == ds[a2]);
        } else {
            assert(without(ds, id)[a] == ds[a]);
        }
    }
}

/// One command after a departure: the departed id gets nothing and stays
/// departed.
proof fn lemma_departed_step(x: TicketState, c: TicketCommand, id: u16)
    requires
        departed(x, id),
        c is Join ==> x.next_id < u16::MAX,
    ensures
        departed(apply_command(x, c).0, id),
        forall|i: int|
            0 <= i < apply_command(x, c).2.len() ==> (#[trigger] apply_command(x, c).2[i]).0 != Some(
                id,
            ),
{
    let (y, _, d) = apply_command(x, c);
    match c {
        TicketCommand::Join(roads) => {
            assert forall|j: int| 0 <= j < y.dispatchers.len() implies #[trigger] y.dispatchers[j].0
                != id by {
                if j < x.dispatchers.len() {
                    assert(y.dispatchers[j] == x.dispatchers[j]);
                }
            }
        },
        TicketCommand::Submit(t) => {
            law_submit_routes_to_one(x, t);
            lemma_route_member(x.dispatchers, t.road);
            assert forall|i: int| 0 <= i < d.len() implies (#[trigger] d[i]).0 != Some(id) by {
                if let Some(k) = route(x.dispatchers, t.road) {
                    let j = choose|j: int| 0 <= j < x.dispatchers.len() && x.dispatchers[j].0 == k;
                    assert(x.dispatchers[j].0 != id);
                }
            }
        },
        TicketCommand::Leave(k) => {
            lemma_without_subset(x.dispatchers, k);
            assert forall|j: int| 0 <= j < y.dispatchers.len() implies #[trigger] y.dispatchers[j].0
                != id by {
                assert(x.dispatchers.contains(without(x.dispatchers, k)[j]));
                let b = choose|b: int|
                    0 <= b < x.dispatchers.len() && x.dispatchers[b] == without(
                        x.dispatchers,
                        k,
                    )[j];
                assert(x.dispatchers[b].0 != id);
            }
        },
    }
}

proof fn lemma_departed_run(s: TicketState, cmds: Seq<TicketCommand>, id: u16)
    requires
        departed(s, id),
        s.next_id + joins_in(cmds) <= u16::MAX,
    ensures
        departed(run_commands(s, cmds), id),
        forall|i: int, j: int|
            0 <= i < cmds.len() && 0 <= j < command_at(s, cmds, i).2.len() ==> (#[trigger] command_at(
                s,
                cmds,
                i,
            ).2[j]).0 != Some(id),
    decreases cmds.len(),
{
    if cmds.len() > 0 {
        let init = cmds.drop_last();
        lemma_departed_run(s, init, id);
        lemma_next_id_counts_joins(s, init);
        lemma_departed_step(run_commands(s, init), cmds.last(), id);
        assert forall|i: int, j: int|
            0 <= i < cmds.len() && 0 <= j < command_at(s, cmds, i).2.len() implies (
            #[trigger] command_at(s, cmds, i).2[j]).0 != Some(id) by {
            if i < cmds.len() - 1 {
                assert(cmds.take(i) =~= init.take(i));
                assert(cmds[i] == init[i]);
                assert(command_at(s, cmds, i) == command_at(s, init, i));
            } else {
                assert(cmds.take(i) =~= init);
            }
        }
    }
}

/// After a dispatcher leaves, it is handed no ticket by any later sequence
/// of commands (hand-ins, joins and other departures, with fewer joins than
/// ids left): later joins get new ids, and tickets for its roads go to
/// another dispatcher or to a queue.
pub proof fn law_departed_gets_nothing_later(s: TicketState, id: u16, cmds: Seq<TicketCommand>)
    requires
        ticket_state_wf(s),
        id < s.next_id,
        s.next_id + joins_in(cmds) <= u16::MAX,
    ensures
        forall|i: int, j: int|
            0 <= i < cmds.len() && 0 <= j < command_at(spec_leave(s, id), cmds, i).2.len() ==> (
            #[trigger] command_at(spec_leave(s, id), cmds, i).2[j]).0 != Some(id),
{
    let s1 = spec_leave(s, id);
    let ds = s.dispatchers;
    assert forall|j: int| 0 <= j < s1.dispatchers.len() implies #[trigger] s1.dispatchers[j].0
        != id by {
        if exists|i: int| 0 <= i < ds.len() && ds[i].0 == id {
            let k = choose|i: int| 0 <= i < ds.len() && ds[i].0 == id;
            let j2 = if j < k { j } else { j + 1 };
            assert(s1.dispatchers[j] == ds[j2]);
            if j2 < k {
                assert(ds[j2].0 != ds[k].0);
            } else {
                assert(ds[k].0 != ds[j2].0);
            }
        } else {
            assert(s1.dispatchers[j] == ds[j]);
        }
    }
    lemma_departed_run(s1, cmds, id);
}

/// A departure of an id that was never issued changes nothing.
pub proof fn law_leave_unknown_id_is_noop(s: TicketState, id: u16)
    requires
        ticket_state_wf(s),
        id >= s.next_id,
    ensures
        spec_leave(s, id) == s,
{
    assert(!exists|i: int| 0 <= i < s.dispatchers.len() && s.dispatchers[i].0 == id) by {
        if exists|i: int| 0 <= i < s.dispatchers.len() && s.dispatchers[i].0 == id {
            let i = choose|i: int| 0 <= i < s.dispatchers.len() && s.dispatchers[i].0 == id;
            assert(s.dispatchers[i].0 < s.next_id);
        }
    }
}


/// Routing after one more dispatcher joins at the end: roads that already
/// had a dispatcher keep it; the others go to the new one where it lists
/// them.
proof fn lemma_route_push(ds: Seq<(u16, Seq<u16>)>, x: (u16, Seq<u16>), road: u16)
    ensures
        route(ds.push(x), road) == (match route(ds, road) {
            Some(id) => Some(id),
            None => if x.1.contains(road) {
                Some(x.0)
            } else {
                None
            },
        }),
    decreases ds.len(),
{
    if ds.len() > 0 {
        assert(ds.push(x)[0] == ds[0]);
        assert(ds.push(x).drop_first() =~= ds.drop_first().push(x));
        lemma_route_push(ds.drop_first(), x, road);
    } else {
        assert(ds.push(x)[0] == x);
        assert(ds.push(x).drop_first() =~= Seq::<(u16, Seq<u16>)>::empty());
        assert(route(Seq::<(u16, Seq<u16>)>::empty(), road) is None);
    }
}

/// Taking out a dispatcher that a road is not routed to leaves that road's
/// routing as it was.
proof fn lemma_route_remove(ds: Seq<(u16, Seq<u16>)>, k: int, road: u16)
    requires
        0 <= k < ds.len(),
        route(ds, road) != Some(ds[k].0),
    ensures
        route(ds.remove(k), road) == route(ds, road),
    decreases ds.len(),
{
    ds.remove_ensures(k);
    if k == 0 {
        assert(ds.remove(0) =~= ds.drop_first());
    } else if !ds[0].1.contains(road) {
        assert(ds.remove(k).drop_first() =~= ds.drop_first().remove(k - 1));
        lemma_route_remove(ds.drop_first(), k - 1, road);
    }
}

/// A join registers the new dispatcher, under the next id, for exactly the
/// roads it lists, whatever tickets were waiting: each of those roads is
/// then routed to a dispatcher (to the new one where no dispatcher had it
/// before), every other road is routed as before, and the record of
/// ticketed days is kept.
pub proof fn law_join_registers_its_roads(s: TicketState, roads: Seq<u16>)
    requires
        s.next_id < u16::MAX,
    ensures
        ({
            let (s2, id, d) = spec_join(s, roads);
            &&& id == s.next_id
            &&& s2.next_id == s.next_id + 1
            &&& s2.dispatchers == s.dispatchers.push((s.next_id, roads))
            &&& s2.history == s.history
            &&& forall|r: u16| #[trigger] roads.contains(r) ==> route(s2.dispatchers, r) is Some
            &&& forall|r: u16|
                #[trigger] roads.contains(r) && route(s.dispatchers, r) is None ==> route(
                    s2.dispatchers,
                    r,
                ) == Some(s.next_id)
            &&& forall|r: u16|
                route(s.dispatchers, r) is Some || !roads.contains(r) ==> #[trigger] route(
                    s2.dispatchers,
                    r,
                ) == route(s.dispatchers, r)
        }),
{
    let x = (s.next_id, roads);
    assert forall|r: u16| true implies #[trigger] route(s.dispatchers.push(x), r) == (match route(
        s.dispatchers,
        r,
    ) {
        Some(id) => Some(id),
        None => if roads.contains(r) {
            Some(s.next_id)
        } else {
            None
        },
    }) by {
        lemma_route_push(s.dispatchers, x, r);
    }
}

/// After a dispatcher joins for a road, a new ticket on that road is handed
/// to a connected dispatcher, never queued.
pub proof fn law_joined_road_is_served(s: TicketState, roads: Seq<u16>, t: Ticket)
    requires
        s.next_id < u16::MAX,
        roads.contains(t.road),
    ensures
        ({
            let d = spec_submit(spec_join(s, roads).0, t).1;
            forall|i: int| 0 <= i < d.len() ==> (#[trigger] d[i]).0 is Some
        }),
{
    law_join_registers_its_roads(s, roads);
    law_submit_routes_to_one(spec_join(s, roads).0, t);
}

/// A departure changes nothing but the list of dispatchers: the record of
/// ticketed days, the waiting tickets and the id counter stay, every other
/// dispatcher stays connected with its roads, and every road not routed to
/// the departing dispatcher keeps its routing.
pub proof fn law_leave_changes_only_dispatchers(s: TicketState, id: u16)
    ensures
        spec_leave(s, id).history == s.history,
        spec_leave(s, id).queue == s.queue,
        spec_leave(s, id).next_id == s.next_id,
        forall|j: int|
            0 <= j < s.dispatchers.len() && s.dispatchers[j].0 != id ==> spec_leave(
                s,
                id,
            ).dispatchers.contains(#[trigger] s.dispatchers[j]),
        forall|r: u16|
            route(s.dispatchers, r) != Some(id) ==> #[trigger] route(spec_leave(s, id).dispatchers, r)
                == route(s.dispatchers, r),
{
    let ds = s.dispatchers;
    if exists|i: int| 0 <= i < ds.len() && ds[i].0 == id {
        let k = position_of(ds, id);
        ds.remove_ensures(k);
        let n = ds.remove(k);
        assert forall|j: int| 0 <= j < ds.len() && ds[j].0 != id implies n.contains(
            #[trigger] ds[j],
        ) by {
            if j < k {
                assert(n[j] == ds[j]);
            } else {
                assert(j != k);
                assert(n[j - 1] == ds[j]);
            }
        }
        assert forall|r: u16| route(ds, r) != Some(id) implies #[trigger] route(n, r) == route(
            ds,
            r,
        ) by {
            lemma_route_remove(ds, k, r);
        }
    } else {
        assert forall|j: int| 0 <= j < ds.len() && ds[j].0 != id implies ds.contains(
            #[trigger] ds[j],
        ) by {
            assert(ds[j] == ds[j]);
        }
    }
}


/// A day is 86400 seconds long and day 0 starts at time 0: every timestamp
/// falls on the day whose seconds contain it.
pub proof fn law_days_are_86400_seconds(timestamp: u32)
    ensures
        day_of(timestamp) * 86400 <= timestamp < (day_of(timestamp) + 1) * 86400,
{
    let d = day_of(timestamp);
    assert(d == timestamp / 86400u32);
    assert(d * 86400 <= timestamp < (d + 1) * 86400) by (nonlinear_arith)
        requires
            d == timestamp / 86400u32,
    ;
}

/// Handing in a ticket records its car as ticketed for every day from the
/// day of its first time to the day of its second, keeps every earlier
/// record, and records nothing else; a ticket whose times are out of order
/// covers no day and changes nothing.
pub proof fn law_submit_records_the_days_it_covers(s: TicketState, t: Ticket)
    ensures
        ({
            let s2 = spec_submit(s, t).0;
            &&& forall|x: (Seq<char>, u32)| s.history.contains(x) ==> #[trigger] s2.history.contains(x)
            &&& forall|d: u32|
                day_of(t.timestamp1) <= d <= day_of(t.timestamp2) ==> #[trigger] s2.history.contains(
                    (t.plate@, d),
                )
            &&& forall|x: (Seq<char>, u32)|
                #[trigger] s2.history.contains(x) ==> s.history.contains(x) || (x.0 == t.plate@
                    && day_of(t.timestamp1) <= x.1 <= day_of(t.timestamp2))
            &&& day_of(t.timestamp1) > day_of(t.timestamp2) ==> spec_submit(s, t) == (
                s,
                Seq::<(Option<u16>, Ticket)>::empty(),
            )
        }),
{
    let first = day_of(t.timestamp1);
    let n = days_covered(t);
    lemma_submit_days_frame(s, t, first, n);
    let s2 = spec_submit(s, t).0;
    assert forall|d: u32|
        day_of(t.timestamp1) <= d <= day_of(t.timestamp2) implies #[trigger] s2.history.contains(
        (t.plate@, d),
    ) by {
        let j = d - first;
        assert(0 <= j < n);
        assert((first + j) as u32 == d);
        assert(s2.history.contains((t.plate@, (first + j) as u32)));
    }
}


/// `t` waits in the queue of one of `roads`.
pub open spec fn waits_for_one_of(queue: Map<u16, Seq<Ticket>>, roads: Seq<u16>, t: Ticket) -> bool {
    exists|r: u16| roads.contains(r) && #[trigger] waiting(queue, r).contains(t)
}

proof fn lemma_drain_only_listed(queue: Map<u16, Seq<Ticket>>, roads: Seq<u16>)
    ensures
        forall|i: int|
            0 <= i < drain(queue, roads).1.len() ==> waits_for_one_of(
                queue,
                roads,
                #[trigger] drain(queue, roads).1[i],
            ),
    decreases roads.len(),
{
    if roads.len() > 0 {
        let init = roads.drop_last();
        lemma_drain_only_listed(queue, init);
        lemma_drain_queues(queue, init);
        let (q, d0) = drain(queue, init);
        let last = roads.last();
        let d = drain(queue, roads).1;
        assert forall|i: int| 0 <= i < d.len() implies waits_for_one_of(queue, roads, #[trigger] d[i]) by {
            if i < d0.len() {
                assert(d[i] == d0[i]);
                assert(waits_for_one_of(queue, init, d0[i]));
                let r = choose|r: u16| init.contains(r) && #[trigger] waiting(queue, r).contains(d0[i]);
                let j = choose|j: int| 0 <= j < init.len() && init[j] == r;
                assert(roads[j] == r);
                assert(roads.contains(r));
            } else {
                assert(q.contains_key(last));
                assert(d[i] == q[last][i - d0.len()]);
                assert(q[last] == queue[last]);
                assert(waiting(queue, last).contains(d[i]));
                assert(roads[roads.len() - 1] == last);
                assert(roads.contains(last));
            }
        }
    }
}

/// The tickets a joining dispatcher is handed all come from the queues of
/// the roads it lists: none from another road's queue.
pub proof fn law_join_hands_over_only_listed_roads(s: TicketState, roads: Seq<u16>)
    ensures
        forall|i: int|
            0 <= i < spec_join(s, roads).2.len() ==> waits_for_one_of(
                s.queue,
                roads,
                #[trigger] spec_join(s, roads).2[i],
            ),
{
    lemma_drain_only_listed(s.queue, roads);
}

} // verus!
