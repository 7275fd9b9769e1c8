//! The plain values that the messages carry: tickets and camera positions.
use vstd::prelude::*;

verus! {

/// A speeding ticket: the car, the road, two observations and the average
/// speed between them in hundredths of a mile per hour.
#[derive(Debug, PartialEq, Eq)]
pub struct Ticket {
    pub plate: String,
    pub road: u16,
    pub mile1: u16,
    pub timestamp1: u32,
    pub mile2: u16,
    pub timestamp2: u32,
    pub speed: u16,
}

impl Clone for Ticket {
    fn clone(&self) -> (res: Self)
        ensures
            res == *self,
    {
        Ticket {
            plate: self.plate.clone(),
            road: self.road,
            mile1: self.mile1,
            timestamp1: self.timestamp1,
            mile2: self.mile2,
            timestamp2: self.timestamp2,
            speed: self.speed,
        }
    }
}

/// A ticket with its plate as text.
pub struct TicketView {
    pub plate: Seq<char>,
    pub road: u16,
    pub mile1: u16,
    pub timestamp1: u32,
    pub mile2: u16,
    pub timestamp2: u32,
    pub speed: u16,
}

impl View for Ticket {
    type V = TicketView;

    open spec fn view(&self) -> TicketView {
        TicketView {
            plate: self.plate@,
            road: self.road,
            mile1: self.mile1,
            timestamp1: self.timestamp1,
            mile2: self.mile2,
            timestamp2: self.timestamp2,
            speed: self.speed,
        }
    }
}

/// A camera's position: the road, its mile marker and the road's limit.
#[derive(Debug, PartialEq, Eq, Clone, Copy)]
pub struct Camera {
    pub road: u16,
    pub mile: u16,
    pub limit: u16,
}

} // verus!
