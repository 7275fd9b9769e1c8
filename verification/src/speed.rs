//! The record of cameras and plate sightings that speeding tickets are
//! made from.
//!
//! Each sighting of a car is compared with every earlier sighting of the
//! same car on the same road; the average speed between the two is judged
//! against the road's limit outside this module (it is measured in floating
//! point), and the verdicts come back here to be made into tickets.
use crate::network::Ticket;
use std::collections::HashMap;
use vstd::prelude::*;
use vstd::std_specs::hash::group_hash_axioms;

verus! {

broadcast use group_hash_axioms;

/// Where and when a camera saw a car.
#[derive(Debug, PartialEq, Eq, Clone, Copy)]
pub struct Observation {
    pub road: u16,
    pub mile: u16,
    pub timestamp: u32,
}

/// A car's plate with one observation of it.
pub struct Sighting {
    pub plate: String,
    pub observation: Observation,
}

/// The speed limits of the roads that have cameras, and every sighting so
/// far in the order of arrival.
pub struct SpeedRecords {
    roads: HashMap<u16, u16>,
    cars: Vec<Sighting>,
}

/// The sightings as (plate, observation) pairs.
pub open spec fn sightings_view(s: Seq<Sighting>) -> Seq<(Seq<char>, Observation)> {
    s.map_values(|x: Sighting| (x.plate@, x.observation))
}

/// The observations in `log` of the car `plate` on `road`, oldest first.
pub open spec fn earlier_on_road(log: Seq<(Seq<char>, Observation)>, plate: Seq<char>, road: u16) -> Seq<
    Observation,
>
    decreases log.len(),
{
    if log.len() == 0 {
        seq![]
    } else {
        let rest = earlier_on_road(log.drop_last(), plate, road);
        let x = log.last();
        if x.0 == plate && x.1.road == road {
            rest.push(x.1)
        } else {
            rest
        }
    }
}

/// The ticket for two observations of a car on a road, the earlier of the
/// two first (the earlier-recorded one when the times are equal).
pub open spec fn ticket_between(
    plate: String,
    road: u16,
    earlier: Observation,
    mile: u16,
    timestamp: u32,
    speed: u16,
) -> Ticket {
    if earlier.timestamp > timestamp {
        Ticket {
            plate,
            road,
            mile1: mile,
            timestamp1: timestamp,
            mile2: earlier.mile,
            timestamp2: earlier.timestamp,
            speed,
        }
    } else {
        Ticket {
            plate,
            road,
            mile1: earlier.mile,
            timestamp1: earlier.timestamp,
            mile2: mile,
            timestamp2: timestamp,
            speed,
        }
    }
}

/// The tickets for a new sighting: one for each earlier observation whose
/// verdict is a speed, in the order of the earlier observations.
pub open spec fn tickets_for(
    plate: String,
    road: u16,
    mile: u16,
    timestamp: u32,
    earlier: Seq<Observation>,
    verdicts: Seq<Option<u16>>,
) -> Seq<Ticket>
    decreases earlier.len(),
{
    if earlier.len() == 0 || verdicts.len() == 0 {
        seq![]
    } else {
        let rest = tickets_for(
            plate,
            road,
            mile,
            timestamp,
            earlier.drop_last(),
            verdicts.drop_last(),
        );
        match verdicts.last() {
            Some(speed) => rest.push(
                ticket_between(plate, road, earlier.last(), mile, timestamp, speed),
            ),
            None => rest,
        }
    }
}

/// Builds the ticket for two observations of a car on a road, putting the
/// earlier one first.
pub fn ticket_between_exec(
    plate: String,
    road: u16,
    earlier: Observation,
    mile: u16,
    timestamp: u32,
    speed: u16,
) -> (t: Ticket)
    ensures
        t == ticket_between(plate, road, earlier, mile, timestamp, speed),
{
    let mut mile1 = earlier.mile;
    let mut timestamp1 = earlier.timestamp;
    let mut mile2 = mile;
    let mut timestamp2 = timestamp;
    if timestamp1 > timestamp2 {
        std::mem::swap(&mut timestamp1, &mut timestamp2);
        std::mem::swap(&mut mile1, &mut mile2);
    }
    Ticket { plate, road, mile1, timestamp1, mile2, timestamp2, speed }
}

impl SpeedRecords {
    /// The speed limit of each road that has a camera.
    pub closed spec fn limits(&self) -> Map<u16, u16> {
        self.roads@
    }

    /// Every sighting so far, oldest first.
    pub closed spec fn log(&self) -> Seq<(Seq<char>, Observation)> {
        sightings_view(self.cars@)
    }

    /// No roads and no sightings.
    pub fn new() -> (r: Self)
        ensures
            r.limits() == Map::<u16, u16>::empty(),
            r.log() == Seq::<(Seq<char>, Observation)>::empty(),
    {
        let r = SpeedRecords { roads: HashMap::new(), cars: Vec::new() };
        proof {
            assert(r.log() =~= Seq::<(Seq<char>, Observation)>::empty());
        }
        r
    }

    /// A camera on `road` sets the road's speed limit (the last camera to
    /// register decides).
    pub fn add_camera(&mut self, road: u16, limit: u16)
        ensures
            final(self).limits() == old(self).limits().insert(road, limit),
            final(self).log() == old(self).log(),
    {
        self.roads.insert(road, limit);
    }

    /// The speed limit of `road`, if a camera on it has registered.
    pub fn speed_limit(&self, road: u16) -> (r: Option<u16>)
        ensures
            r == self.limits().get(road),
    {
        match self.roads.get(&road) {
            Some(l) => Some(*l),
            None => None,
        }
    }

    /// The earlier observations of the car `plate` on `road`, oldest first:
    /// the ones that a new sighting there is compared with.
    pub fn earlier_sightings(&self, plate: &String, road: u16) -> (r: Vec<Observation>)
        ensures
            r@ == earlier_on_road(self.log(), plate@, road),
    {
        let mut r: Vec<Observation> = Vec::new();
        let mut i: usize = 0;
        while i < self.cars.len()
            invariant
                i <= self.cars@.len(),
                r@ == earlier_on_road(sightings_view(self.cars@.take(i as int)), plate@, road),
            decreases self.cars@.len() - i,
        {
            let s = &self.cars[i];
            proof {
                assert(sightings_view(self.cars@.take(i + 1)).drop_last() =~= sightings_view(
                    self.cars@.take(i as int),
                ));
            }
            if s.observation.road == road && s.plate == *plate {
                r.push(s.observation);
            }
            i = i + 1;
        }
        proof {
            assert(self.cars@.take(self.cars@.len() as int) =~= self.cars@);
        }
        r
    }

    /// Records that the car `plate` was seen on `road` at `mile` at
    /// `timestamp`, and makes its tickets: `verdicts` holds, for each earlier
    /// observation of the car on that road in turn, the speed (in hundredths
    /// of a mile per hour) at which it was over the limit, or nothing.
    pub fn record_plate(
        &mut self,
        plate: String,
        road: u16,
        mile: u16,
        timestamp: u32,
        verdicts: &Vec<Option<u16>>,
    ) -> (tickets: Vec<Ticket>)
        requires
            verdicts@.len() == earlier_on_road(old(self).log(), plate@, road).len(),
        ensures
            tickets@ == tickets_for(
                plate,
                road,
                mile,
                timestamp,
                earlier_on_road(old(self).log(), plate@, road),
                verdicts@,
            ),
            final(self).log() == old(self).log().push(
                (plate@, Observation { road, mile, timestamp }),
            ),
            final(self).limits() == old(self).limits(),
    {
        let earlier = self.earlier_sightings(&plate, road);
        let mut tickets: Vec<Ticket> = Vec::new();
        let mut i: usize = 0;
        while i < earlier.len()
            invariant
                i <= earlier@.len(),
                earlier@.len() == verdicts@.len(),
                tickets@ == tickets_for(
                    plate,
                    road,
                    mile,
                    timestamp,
                    earlier@.take(i as int),
                    verdicts@.take(i as int),
                ),
            decreases earlier@.len() - i,
        {
            proof {
                assert(earlier@.take(i + 1).drop_last() =~= earlier@.take(i as int));
                assert(verdicts@.take(i + 1).drop_last() =~= verdicts@.take(i as int));
            }
            match verdicts[i] {
                Some(speed) => {
                    let t = ticket_between_exec(
                        plate.clone(),
                        road,
                        earlier[i],
                        mile,
                        timestamp,
                        speed,
                    );
                    tickets.push(t);
                },
                None => {},
            }
            i = i + 1;
        }
        proof {
            assert(earlier@.take(earlier@.len() as int) =~= earlier@);
            assert(verdicts@.take(verdicts@.len() as int) =~= verdicts@);
        }
        let ghost before = self.cars@;
        self.cars.push(Sighting { plate, observation: Observation { road, mile, timestamp } });
        proof {
            assert(sightings_view(self.cars@) =~= sightings_view(before).push(
                (plate@, Observation { road, mile, timestamp }),
            ));
        }
        tickets
    }
}


/// Every ticket made for a sighting is for that car on that road, and lists
/// its two observations in time order.
pub proof fn law_tickets_in_time_order(
    plate: String,
    road: u16,
    mile: u16,
    timestamp: u32,
    earlier: Seq<Observation>,
    verdicts: Seq<Option<u16>>,
)
    ensures
        forall|i: int|
            0 <= i < tickets_for(plate, road, mile, timestamp, earlier, verdicts).len() ==> {
                let t = #[trigger] tickets_for(plate, road, mile, timestamp, earlier, verdicts)[i];
                &&& t.plate == plate
                &&& t.road == road
                &&& t.timestamp1 <= t.timestamp2
            },
    decreases earlier.len(),
{
    if earlier.len() > 0 && verdicts.len() > 0 {
        law_tickets_in_time_order(
            plate,
            road,
            mile,
            timestamp,
            earlier.drop_last(),
            verdicts.drop_last(),
        );
        let rest = tickets_for(
            plate,
            road,
            mile,
            timestamp,
            earlier.drop_last(),
            verdicts.drop_last(),
        );
        let all = tickets_for(plate, road, mile, timestamp, earlier, verdicts);
        assert forall|i: int| 0 <= i < all.len() implies {
            let t = #[trigger] all[i];
            &&& t.plate == plate
            &&& t.road == road
            &&& t.timestamp1 <= t.timestamp2
        } by {
            if i < rest.len() {
                assert(all[i] == rest[i]);
            }
        }
    }
}

/// A sighting that has been recorded is among the earlier sightings that
/// every later sighting of the same car on the same road is compared with,
/// after those recorded before it; other cars and roads are unaffected.
pub proof fn law_sighting_is_remembered(
    log: Seq<(Seq<char>, Observation)>,
    plate: Seq<char>,
    obs: Observation,
    other_plate: Seq<char>,
    other_road: u16,
)
    ensures
        earlier_on_road(log.push((plate, obs)), plate, obs.road) == earlier_on_road(
            log,
            plate,
            obs.road,
        ).push(obs),
        (other_plate != plate || other_road != obs.road) ==> earlier_on_road(
            log.push((plate, obs)),
            other_plate,
            other_road,
        ) == earlier_on_road(log, other_plate, other_road),
{
    assert(log.push((plate, obs)).drop_last() =~= log);
}


/// The observations a sighting is compared with are recorded sightings of
/// that car on that road.
proof fn lemma_earlier_recorded(log: Seq<(Seq<char>, Observation)>, plate: Seq<char>, road: u16)
    ensures
        forall|i: int|
            0 <= i < earlier_on_road(log, plate, road).len() ==> {
                let o = #[trigger] earlier_on_road(log, plate, road)[i];
                &&& o.road == road
                &&& log.contains((plate, o))
            },
    decreases log.len(),
{
    if log.len() > 0 {
        let init = log.drop_last();
        lemma_earlier_recorded(init, plate, road);
        let rest = earlier_on_road(init, plate, road);
        let all = earlier_on_road(log, plate, road);
        assert forall|i: int| 0 <= i < all.len() implies {
            let o = #[trigger] all[i];
            &&& o.road == road
            &&& log.contains((plate, o))
        } by {
            if i < rest.len() {
                assert(all[i] == rest[i]);
                let k = choose|k: int| 0 <= k < init.len() && init[k] == (plate, rest[i]);
                assert(log[k] == init[k]);
            } else {
                assert(log[log.len() - 1] == (plate, all[i]));
            }
        }
    }
}

/// `t` is the ticket between a sighting and one of the observations in
/// `earlier`.
pub open spec fn pairs_with_one_of(
    t: Ticket,
    plate: String,
    road: u16,
    mile: u16,
    timestamp: u32,
    earlier: Seq<Observation>,
) -> bool {
    exists|j: int, speed: u16|
        0 <= j < earlier.len() && t == ticket_between(plate, road, earlier[j], mile, timestamp, speed)
}

/// Each ticket made for a sighting is the ticket between that sighting and
/// one of the earlier observations it was compared with.
proof fn lemma_tickets_pair(
    plate: String,
    road: u16,
    mile: u16,
    timestamp: u32,
    earlier: Seq<Observation>,
    verdicts: Seq<Option<u16>>,
)
    ensures
        forall|i: int|
            0 <= i < tickets_for(plate, road, mile, timestamp, earlier, verdicts).len()
                ==> pairs_with_one_of(
                #[trigger] tickets_for(plate, road, mile, timestamp, earlier, verdicts)[i],
                plate,
                road,
                mile,
                timestamp,
                earlier,
            ),
    decreases earlier.len(),
{
    if earlier.len() > 0 && verdicts.len() > 0 {
        let e2 = earlier.drop_last();
        let v2 = verdicts.drop_last();
        lemma_tickets_pair(plate, road, mile, timestamp, e2, v2);
        let rest = tickets_for(plate, road, mile, timestamp, e2, v2);
        let all = tickets_for(plate, road, mile, timestamp, earlier, verdicts);
        assert forall|i: int| 0 <= i < all.len() implies pairs_with_one_of(
            #[trigger] all[i],
            plate,
            road,
            mile,
            timestamp,
            earlier,
        ) by {
            if i < rest.len() {
                assert(all[i] == rest[i]);
                assert(pairs_with_one_of(rest[i], plate, road, mile, timestamp, e2));
                let (j, speed) = choose|j: int, speed: u16|
                    0 <= j < e2.len() && rest[i] == ticket_between(
                        plate,
                        road,
                        e2[j],
                        mile,
                        timestamp,
                        speed,
                    );
                assert(earlier[j] == e2[j]);
            } else {
                let j = earlier.len() - 1;
                let speed = verdicts.last()->0;
                assert(all[i] == ticket_between(plate, road, earlier[j], mile, timestamp, speed));
            }
        }
    }
}

/// Both observations of every ticket made for a sighting are recorded
/// sightings of its car on its road: the new sighting and one of the
/// earlier ones.
pub proof fn law_ticket_observations_recorded(
    log: Seq<(Seq<char>, Observation)>,
    plate: String,
    road: u16,
    mile: u16,
    timestamp: u32,
    verdicts: Seq<Option<u16>>,
)
    ensures
        ({
            let new_log = log.push((plate@, Observation { road, mile, timestamp }));
            let tickets = tickets_for(
                plate,
                road,
                mile,
                timestamp,
                earlier_on_road(log, plate@, road),
                verdicts,
            );
            forall|i: int|
                0 <= i < tickets.len() ==> {
                    let t = #[trigger] tickets[i];
                    &&& new_log.contains(
                        (t.plate@, Observation { road: t.road, mile: t.mile1, timestamp: t.timestamp1 }),
                    )
                    &&& new_log.contains(
                        (t.plate@, Observation { road: t.road, mile: t.mile2, timestamp: t.timestamp2 }),
                    )
                }
        }),
{
    let new_log = log.push((plate@, Observation { road, mile, timestamp }));
    let earlier = earlier_on_road(log, plate@, road);
    let tickets = tickets_for(plate, road, mile, timestamp, earlier, verdicts);
    lemma_earlier_recorded(log, plate@, road);
    lemma_tickets_pair(plate, road, mile, timestamp, earlier, verdicts);
    assert forall|i: int| 0 <= i < tickets.len() implies {
        let t = #[trigger] tickets[i];
        &&& new_log.contains(
            (t.plate@, Observation { road: t.road, mile: t.mile1, timestamp: t.timestamp1 }),
        )
        &&& new_log.contains(
            (t.plate@, Observation { road: t.road, mile: t.mile2, timestamp: t.timestamp2 }),
        )
    } by {
        assert(pairs_with_one_of(tickets[i], plate, road, mile, timestamp, earlier));
        let (j, speed) = choose|j: int, speed: u16|
            0 <= j < earlier.len() && tickets[i] == ticket_between(
                plate,
                road,
                earlier[j],
                mile,
                timestamp,
                speed,
            );
        let o = earlier[j];
        assert(o.road == road && log.contains((plate@, o)));
        let k = choose|k: int| 0 <= k < log.len() && log[k] == (plate@, o);
        assert(new_log[k] == (plate@, o));
        assert(new_log[log.len() as int] == (plate@, Observation { road, mile, timestamp }));
    }
}

/// Two observations of a car on a road at different times make the same
/// ticket whichever of them arrived first.
pub proof fn law_ticket_independent_of_arrival_order(
    plate: String,
    road: u16,
    a: Observation,
    b: Observation,
    speed: u16,
)
    requires
        a.timestamp != b.timestamp,
    ensures
        ticket_between(plate, road, a, b.mile, b.timestamp, speed) == ticket_between(
            plate,
            road,
            b,
            a.mile,
            a.timestamp,
            speed,
        ),
{
}


/// `tickets` holds one ticket for each earlier observation whose verdict is
/// a speed, and no other: the `k`-th ticket pairs the new sighting with the
/// earlier observation at `positions[k]`, at that verdict's speed, the
/// positions rise, and every position with a speed is among them.
pub open spec fn one_per_speeding(
    tickets: Seq<Ticket>,
    positions: Seq<int>,
    plate: String,
    road: u16,
    mile: u16,
    timestamp: u32,
    earlier: Seq<Observation>,
    verdicts: Seq<Option<u16>>,
) -> bool {
    &&& positions.len() == tickets.len()
    &&& forall|k: int|
        0 <= k < positions.len() ==> {
            let i = #[trigger] positions[k];
            &&& 0 <= i < verdicts.len()
            &&& verdicts[i] is Some
            &&& tickets[k] == ticket_between(plate, road, earlier[i], mile, timestamp, verdicts[i]->0)
        }
    &&& forall|k1: int, k2: int|
        0 <= k1 < k2 < positions.len() ==> #[trigger] positions[k1] < #[trigger] positions[k2]
    &&& forall|i: int| 0 <= i < verdicts.len() && (#[trigger] verdicts[i]) is Some ==> positions.contains(i)
}

proof fn lemma_speeding_positions(
    plate: String,
    road: u16,
    mile: u16,
    timestamp: u32,
    earlier: Seq<Observation>,
    verdicts: Seq<Option<u16>>,
) -> (positions: Seq<int>)
    requires
        earlier.len() == verdicts.len(),
    ensures
        one_per_speeding(
            tickets_for(plate, road, mile, timestamp, earlier, verdicts),
            positions,
            plate,
            road,
            mile,
            timestamp,
            earlier,
            verdicts,
        ),
        forall|k: int| 0 <= k < positions.len() ==> #[trigger] positions[k] < verdicts.len(),
    decreases earlier.len(),
{
    if earlier.len() == 0 {
        Seq::<int>::empty()
    } else {
        let n = earlier.len() - 1;
        let e0 = earlier.drop_last();
        let v0 = verdicts.drop_last();
        let p0 = lemma_speeding_positions(plate, road, mile, timestamp, e0, v0);
        let tickets = tickets_for(plate, road, mile, timestamp, earlier, verdicts);
        let positions = if verdicts.last() is Some {
            p0.push(n)
        } else {
            p0
        };
        assert forall|k: int| 0 <= k < positions.len() implies {
            let i = #[trigger] positions[k];
            &&& 0 <= i < verdicts.len()
            &&& verdicts[i] is Some
            &&& tickets[k] == ticket_between(plate, road, earlier[i], mile, timestamp, verdicts[i]->0)
        } by {
            if k < p0.len() {
                let i = p0[k];
                assert(positions[k] == i);
                assert(e0[i] == earlier[i]);
                assert(v0[i] == verdicts[i]);
            }
        }
        assert forall|i: int| 0 <= i < verdicts.len() && (#[trigger] verdicts[i]) is Some implies positions.contains(i) by {
            if i < n {
                assert(v0[i] == verdicts[i]);
                let j = choose|j: int| 0 <= j < p0.len() && p0[j] == i;
                assert(positions[j] == i);
            } else {
                assert(positions[positions.len() - 1] == i);
            }
        }
        assert forall|k1: int, k2: int| 0 <= k1 < k2 < positions.len() implies #[trigger] positions[k1]
            < #[trigger] positions[k2] by {
            assert(positions[k1] == p0[k1]);
            if k2 < p0.len() {
                assert(positions[k2] == p0[k2]);
            }
        }
        positions
    }
}

/// The tickets made for a sighting are exactly one for each earlier
/// observation whose verdict is a speed, in the order of those
/// observations, each pairing that observation with the new sighting at
/// the verdict's speed; an observation without a speed makes no ticket.
pub proof fn law_one_ticket_per_speeding_comparison(
    plate: String,
    road: u16,
    mile: u16,
    timestamp: u32,
    earlier: Seq<Observation>,
    verdicts: Seq<Option<u16>>,
)
    requires
        earlier.len() == verdicts.len(),
    ensures
        exists|positions: Seq<int>|
            #[trigger] one_per_speeding(
                tickets_for(plate, road, mile, timestamp, earlier, verdicts),
                positions,
                plate,
                road,
                mile,
                timestamp,
                earlier,
                verdicts,
            ),
{
    let positions = lemma_speeding_positions(plate, road, mile, timestamp, earlier, verdicts);
}


/// A ticket between an earlier observation and a new sighting is for that
/// car and road at the given speed, and lists the two observations (mile and
/// time together) in time order, the earlier-recorded one first when the
/// times are equal.
pub proof fn law_ticket_pairs_the_two_observations(
    plate: String,
    road: u16,
    earlier: Observation,
    mile: u16,
    timestamp: u32,
    speed: u16,
)
    ensures
        ({
            let t = ticket_between(plate, road, earlier, mile, timestamp, speed);
            &&& t.plate == plate
            &&& t.road == road
            &&& t.speed == speed
            &&& t.timestamp1 <= t.timestamp2
            &&& ((t.mile1, t.timestamp1, t.mile2, t.timestamp2) == (
                earlier.mile,
                earlier.timestamp,
                mile,
                timestamp,
            ) || (t.mile1, t.timestamp1, t.mile2, t.timestamp2) == (
                mile,
                timestamp,
                earlier.mile,
                earlier.timestamp,
            ))
            &&& earlier.timestamp == timestamp ==> t.mile1 == earlier.mile && t.mile2 == mile
        }),
{
}

/// The observations a new sighting is compared with are exactly those
/// recorded for that car on that road, oldest first: none before anything
/// is recorded, and each recorded sighting adds itself at the end for its
/// own car and road only.
pub proof fn law_comparisons_are_same_car_same_road(
    log: Seq<(Seq<char>, Observation)>,
    plate: Seq<char>,
    road: u16,
)
    ensures
        earlier_on_road(Seq::<(Seq<char>, Observation)>::empty(), plate, road) == Seq::<
            Observation,
        >::empty(),
        forall|i: int|
            0 <= i < earlier_on_road(log, plate, road).len() ==> {
                let o = #[trigger] earlier_on_road(log, plate, road)[i];
                o.road == road && log.contains((plate, o))
            },
{
    lemma_earlier_recorded(log, plate, road);
}

} // verus!
