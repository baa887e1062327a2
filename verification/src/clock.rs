use vstd::prelude::*;

use crate::request::Request;

verus! {

/// The system clock of a simulation, with the requests in transfer between
/// the nodes and the counts of data read back from each.
pub struct Clock {
    time: u64,
    pub transfer_queue_to_node_1: Option<Request>,
    pub transfer_queue_to_node_2: Option<Request>,
    pub read_back_from_node_1: u64,
    pub read_back_from_node_2: u64,
}

/// A clock as values: the current cycle, the requests in transfer to each
/// node, and the counts read back from each node.
pub struct ClockModel {
    pub time: u64,
    pub transfer_queue_to_node_1: Option<Request>,
    pub transfer_queue_to_node_2: Option<Request>,
    pub read_back_from_node_1: u64,
    pub read_back_from_node_2: u64,
}

impl View for Clock {
    type V = ClockModel;

    closed spec fn view(&self) -> ClockModel {
        ClockModel {
            time: self.time,
            transfer_queue_to_node_1: self.transfer_queue_to_node_1,
            transfer_queue_to_node_2: self.transfer_queue_to_node_2,
            read_back_from_node_1: self.read_back_from_node_1,
            read_back_from_node_2: self.read_back_from_node_2,
        }
    }
}

impl ClockModel {
    /// The clock `ticks` cycles later.
    pub open spec fn ticked(self, ticks: u64) -> ClockModel {
        ClockModel { time: (self.time + ticks) as u64, ..self }
    }
}

impl Clock {
    /// A clock at cycle 1, with nothing in transfer and nothing read back.
    pub fn new() -> (c: Self)
        ensures
            c@ == (ClockModel {
                time: 1,
                transfer_queue_to_node_1: None,
                transfer_queue_to_node_2: None,
                read_back_from_node_1: 0,
                read_back_from_node_2: 0,
            }),
    {
        Clock {
            time: 1,
            transfer_queue_to_node_1: None,
            transfer_queue_to_node_2: None,
            read_back_from_node_1: 0,
            read_back_from_node_2: 0,
        }
    }

    /// Advances the clock by `ticks` cycles.
    pub fn tick_by(&mut self, ticks: u64)
        requires
            old(self)@.time + ticks <= u64::MAX,
        ensures
            final(self)@ == old(self)@.ticked(ticks),
    {
        self.time = self.time + ticks;
    }

    /// The current cycle.
    pub fn time(&self) -> (t: u64)
        ensures
            t == self@.time,
    {
        self.time
    }
}

/// The parameters of a simulation: how many domains take turns, and how many
/// cycles pass between two turns.
pub struct Constraints {
    pub num_domains: u16,
    pub dead_time: u64,
}

impl Constraints {
    /// The constraints with the given values.
    pub fn new(num_domains: u16, dead_time: u64) -> (c: Self)
        ensures
            c.num_domains == num_domains,
            c.dead_time == dead_time,
    {
        Constraints { num_domains, dead_time }
    }
}

} // verus!
