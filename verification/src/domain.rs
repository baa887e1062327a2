use vstd::prelude::*;

use crate::queue::ScanRule;
use crate::request::Request;
use crate::schedule::{Slot, slot, reads_after, writes_after, write_served, serve_slot};

verus! {

/// The requests of one security domain, on two NUMA nodes: node 1 holds
/// `read_queue` and `write_queue`, node 2 `read_queue_node2` and
/// `write_queue_node2`; `numa1_to_numa2` and `numa2_to_numa1` hold the writes
/// in transfer between them. `fake_requests` counts the slots in which nothing
/// could be served; `tick_finished` is the cycle at which the domain ran out
/// of requests (0 while it has not).
#[derive(Clone)]
pub struct Domain {
    pub id: u16,
    pub write_queue: Vec<Request>,
    pub read_queue: Vec<Request>,
    pub read_queue_node2: Vec<Request>,
    pub write_queue_node2: Vec<Request>,
    pub numa1_to_numa2: Vec<Request>,
    pub numa2_to_numa1: Vec<Request>,
    pub fake_requests: u64,
    pub tick_finished: u64,
}

/// A domain as mathematical values: its queues as sequences, its counters as
/// natural numbers.
pub struct DomainModel {
    pub id: u16,
    pub write_queue: Seq<Request>,
    pub read_queue: Seq<Request>,
    pub read_queue_node2: Seq<Request>,
    pub write_queue_node2: Seq<Request>,
    pub numa1_to_numa2: Seq<Request>,
    pub numa2_to_numa1: Seq<Request>,
    pub fake_requests: nat,
    pub tick_finished: nat,
}

impl View for Domain {
    type V = DomainModel;

    open spec fn view(&self) -> DomainModel {
        DomainModel {
            id: self.id,
            write_queue: self.write_queue@,
            read_queue: self.read_queue@,
            read_queue_node2: self.read_queue_node2@,
            write_queue_node2: self.write_queue_node2@,
            numa1_to_numa2: self.numa1_to_numa2@,
            numa2_to_numa1: self.numa2_to_numa1@,
            fake_requests: self.fake_requests as nat,
            tick_finished: self.tick_finished as nat,
        }
    }
}

/// `s`, with `o` appended where it is a request.
pub open spec fn push_opt(s: Seq<Request>, o: Option<Request>) -> Seq<Request> {
    match o {
        Some(r) => s.push(r),
        None => s,
    }
}

/// What an idle slot adds to the count of fake requests: two.
pub open spec fn idle_cost(s: Slot) -> nat {
    if s is Idle {
        2
    } else {
        0
    }
}

/// The rule of the bank-partitioned schedulers: the first arrived request
/// whose bank, modulo 3, is `bank`.
pub open spec fn bank_rule(bank: u16) -> ScanRule {
    ScanRule { strict: false, channel: None, bank: Some(bank) }
}

/// The rule of the NUMA bank scheduler on the node of `channel`: only
/// requests that arrived strictly before `time`, on that channel.
pub open spec fn numa_rule(channel: u16, bank: u16) -> ScanRule {
    ScanRule { strict: true, channel: Some(channel), bank: Some(bank) }
}

impl DomainModel {
    /// The domain after one slot of node 1 under `rule`; a served write is
    /// dropped.
    pub open spec fn serve_node1(self, rule: ScanRule, time: u64) -> DomainModel {
        let s = slot(rule, self.read_queue, self.write_queue, time);
        DomainModel {
            read_queue: reads_after(s, self.read_queue),
            write_queue: writes_after(s, self.write_queue),
            fake_requests: self.fake_requests + idle_cost(s),
            ..self
        }
    }

    /// The domain after one slot of node 2 under `rule`; a served write is
    /// dropped.
    pub open spec fn serve_node2(self, rule: ScanRule, time: u64) -> DomainModel {
        let s = slot(rule, self.read_queue_node2, self.write_queue_node2, time);
        DomainModel {
            read_queue_node2: reads_after(s, self.read_queue_node2),
            write_queue_node2: writes_after(s, self.write_queue_node2),
            fake_requests: self.fake_requests + idle_cost(s),
            ..self
        }
    }

    /// The domain after one slot of node 1 under `rule`; a served write is
    /// mirrored to the end of node 2's read queue.
    pub open spec fn mirror_node1(self, rule: ScanRule, time: u64) -> DomainModel {
        let s = slot(rule, self.read_queue, self.write_queue, time);
        DomainModel {
            read_queue: reads_after(s, self.read_queue),
            write_queue: writes_after(s, self.write_queue),
            read_queue_node2: push_opt(self.read_queue_node2, write_served(s, self.write_queue)),
            fake_requests: self.fake_requests + idle_cost(s),
            ..self
        }
    }

    /// The domain after one slot of node 2 under `rule`; a served write is
    /// mirrored to the end of node 1's read queue.
    pub open spec fn mirror_node2(self, rule: ScanRule, time: u64) -> DomainModel {
        let s = slot(rule, self.read_queue_node2, self.write_queue_node2, time);
        DomainModel {
            read_queue_node2: reads_after(s, self.read_queue_node2),
            write_queue_node2: writes_after(s, self.write_queue_node2),
            read_queue: push_opt(self.read_queue, write_served(s, self.write_queue_node2)),
            fake_requests: self.fake_requests + idle_cost(s),
            ..self
        }
    }

    /// One bank-partitioned slot of node 1.
    pub open spec fn after_bank(self, time: u64, bank: u16) -> DomainModel {
        self.serve_node1(bank_rule(bank), time)
    }

    /// One bank-partitioned slot of node 1, then one of node 2.
    pub open spec fn after_two_nodes(self, time: u64, bank: u16) -> DomainModel {
        self.serve_node1(bank_rule(bank), time).serve_node2(bank_rule(bank), time)
    }

    /// One NUMA slot of node 1 (channel 0), then one of node 2 (channel 1).
    pub open spec fn after_bank_numa(self, time: u64, bank: u16) -> DomainModel {
        self.serve_node1(numa_rule(0, bank), time).serve_node2(numa_rule(1, bank), time)
    }

    /// One mirrored slot of node 1, then one of node 2.
    pub open spec fn after_bank_mirror(self, time: u64, bank: u16) -> DomainModel {
        self.mirror_node1(bank_rule(bank), time).mirror_node2(bank_rule(bank), time)
    }
}

impl Domain {
    /// An empty domain with the given id.
    pub fn new(id: u16) -> (d: Domain)
        ensures
            d@ == (DomainModel {
                id,
                write_queue: Seq::empty(),
                read_queue: Seq::empty(),
                read_queue_node2: Seq::empty(),
                write_queue_node2: Seq::empty(),
                numa1_to_numa2: Seq::empty(),
                numa2_to_numa1: Seq::empty(),
                fake_requests: 0,
                tick_finished: 0,
            }),
    {
        Domain {
            id,
            write_queue: Vec::new(),
            read_queue: Vec::new(),
            fake_requests: 0,
            tick_finished: 0,
            read_queue_node2: Vec::new(),
            write_queue_node2: Vec::new(),
            numa1_to_numa2: Vec::new(),
            numa2_to_numa1: Vec::new(),
        }
    }

    /// Appends a write request to node 1.
    pub fn add_write_request(&mut self, request: Request)
        ensures
            final(self)@ == (DomainModel { write_queue: old(self)@.write_queue.push(request), ..old(self)@ }),
    {
        self.write_queue.push(request);
    }

    /// Appends a read request to node 1.
    pub fn add_read_request(&mut self, request: Request)
        ensures
            final(self)@ == (DomainModel { read_queue: old(self)@.read_queue.push(request), ..old(self)@ }),
    {
        self.read_queue.push(request);
    }

    fn serve_node1(&mut self, rule: ScanRule, time: u64)
        requires
            old(self)@.serve_node1(rule, time).fake_requests <= u64::MAX,
        ensures
            final(self)@ == old(self)@.serve_node1(rule, time),
    {
        let (_, idle) = serve_slot(rule, &mut self.read_queue, &mut self.write_queue, time);
        if idle {
            self.fake_requests = self.fake_requests + 2;
        }
    }

    fn serve_node2(&mut self, rule: ScanRule, time: u64)
        requires
            old(self)@.serve_node2(rule, time).fake_requests <= u64::MAX,
        ensures
            final(self)@ == old(self)@.serve_node2(rule, time),
    {
        let (_, idle) = serve_slot(rule, &mut self.read_queue_node2, &mut self.write_queue_node2, time);
        if idle {
            self.fake_requests = self.fake_requests + 2;
        }
    }

    /// Serves, on node 1, the first arrived request whose bank, modulo 3, is
    /// `bank_id_allowed` (the older of the read and the write so found, a read
    /// on a tie), or counts a fake request.
    pub fn send_next_request_bank(&mut self, time: u64, bank_id_allowed: u16)
        requires
            old(self)@.after_bank(time, bank_id_allowed).fake_requests <= u64::MAX,
        ensures
            final(self)@ == old(self)@.after_bank(time, bank_id_allowed),
    {
        let rule = ScanRule { strict: false, channel: None, bank: Some(bank_id_allowed) };
        self.serve_node1(rule, time);
    }

    /// `send_next_request_bank` on node 1, then the same on node 2.
    pub fn send_next_request_channel(&mut self, time: u64, bank_id_allowed: u16)
        requires
            old(self)@.after_two_nodes(time, bank_id_allowed).fake_requests <= u64::MAX,
        ensures
            final(self)@ == old(self)@.after_two_nodes(time, bank_id_allowed),
    {
        let rule = ScanRule { strict: false, channel: None, bank: Some(bank_id_allowed) };
        self.serve_node1(rule, time);
        self.serve_node2(rule, time);
    }

    /// `send_next_request_bank` on node 1, then the same on node 2.
    pub fn send_next_request_bank_dve(&mut self, time: u64, bank_id_allowed: u16)
        requires
            old(self)@.after_two_nodes(time, bank_id_allowed).fake_requests <= u64::MAX,
        ensures
            final(self)@ == old(self)@.after_two_nodes(time, bank_id_allowed),
    {
        let rule = ScanRule { strict: false, channel: None, bank: Some(bank_id_allowed) };
        self.serve_node1(rule, time);
        self.serve_node2(rule, time);
    }

    /// Serves one bank-partitioned slot on each node, counting only requests
    /// that arrived strictly before `time`, and on node 1 only those of
    /// channel 0, on node 2 only those of channel 1.
    pub fn send_next_request_bank_numa(&mut self, time: u64, bank_id_allowed: u16)
        requires
            old(self)@.after_bank_numa(time, bank_id_allowed).fake_requests <= u64::MAX,
        ensures
            final(self)@ == old(self)@.after_bank_numa(time, bank_id_allowed),
    {
        self.serve_node1(ScanRule { strict: true, channel: Some(0), bank: Some(bank_id_allowed) }, time);
        self.serve_node2(ScanRule { strict: true, channel: Some(1), bank: Some(bank_id_allowed) }, time);
    }

    /// Serves one bank-partitioned slot on each node; a write served on one
    /// node is appended to the read queue of the other.
    pub fn send_next_request_bank_mirror(&mut self, time: u64, bank_id_allowed: u16)
        requires
            old(self)@.after_bank_mirror(time, bank_id_allowed).fake_requests <= u64::MAX,
        ensures
            final(self)@ == old(self)@.after_bank_mirror(time, bank_id_allowed),
    {
        let rule = ScanRule { strict: false, channel: None, bank: Some(bank_id_allowed) };
        let (moved, idle) = serve_slot(rule, &mut self.read_queue, &mut self.write_queue, time);
        if idle {
            self.fake_requests = self.fake_requests + 2;
        }
        if let Some(w) = moved {
            self.read_queue_node2.push(w);
        }
        let (moved, idle) = serve_slot(rule, &mut self.read_queue_node2, &mut self.write_queue_node2, time);
        if idle {
            self.fake_requests = self.fake_requests + 2;
        }
        if let Some(w) = moved {
            self.read_queue.push(w);
        }
    }
}


impl DomainModel {
    /// First come, first served on node 1: of the heads of the two queues
    /// that have arrived by `time`, the older is served, a read on a tie;
    /// where neither has arrived, a fake request is counted.
    pub open spec fn after_send_next(self, time: u64) -> DomainModel {
        let r = self.read_queue;
        let w = self.write_queue;
        let read_ready = r.len() > 0 && r[0].cylce_in <= time;
        let write_ready = w.len() > 0 && w[0].cylce_in <= time;
        if read_ready && (w.len() == 0 || r[0].cylce_in <= w[0].cylce_in) {
            DomainModel { read_queue: r.drop_first(), ..self }
        } else if write_ready {
            DomainModel { write_queue: w.drop_first(), ..self }
        } else {
            DomainModel { fake_requests: self.fake_requests + 1, ..self }
        }
    }

    /// The head of `numa1_to_numa2`, where it has arrived by `time`.
    pub open spec fn numa1_ready(self, time: u64) -> Option<Request> {
        if self.numa1_to_numa2.len() > 0 && self.numa1_to_numa2[0].cylce_in <= time {
            Some(self.numa1_to_numa2[0])
        } else {
            None
        }
    }

    /// The head of `numa2_to_numa1`, where it has arrived by `time`.
    pub open spec fn numa2_ready(self, time: u64) -> Option<Request> {
        if self.numa2_to_numa1.len() > 0 && self.numa2_to_numa1[0].cylce_in <= time {
            Some(self.numa2_to_numa1[0])
        } else {
            None
        }
    }

    /// Where a transfer to node `node` at `time` takes its request from: the
    /// read queue (`true`) or the write queue (`false`) of the other node, and
    /// the index. Towards node 2 it takes, from node 1, the first arrived
    /// request of channel 1, reads before writes; towards node 1, from node 2,
    /// the first arrived request of channel 0. Any other `node` takes none.
    pub open spec fn transfer_source(self, time: u64, node: u16) -> Option<(bool, int)> {
        let (reads, writes, channel) = if node == 2 {
            (self.read_queue, self.write_queue, 1u16)
        } else {
            (self.read_queue_node2, self.write_queue_node2, 0u16)
        };
        if node != 1 && node != 2 {
            None
        } else {
            match transfer_rule(channel).pick(reads, time) {
                Some(i) => Some((true, i)),
                None => match transfer_rule(channel).pick(writes, time) {
                    Some(j) => Some((false, j)),
                    None => None,
                },
            }
        }
    }

    /// The domain after a transfer to node `node` at `time`, and the request
    /// transferred, its arrival cycle set to `time` plus the transfer delay.
    pub open spec fn after_transfer(self, time: u64, node: u16) -> (DomainModel, Option<Request>) {
        match self.transfer_source(time, node) {
            None => (self, None),
            Some((from_reads, i)) => {
                let d = transfer_delay(from_reads);
                if node == 2 {
                    if from_reads {
                        (DomainModel { read_queue: self.read_queue.remove(i), ..self },
                            Some(retimed(self.read_queue[i], time + d)))
                    } else {
                        (DomainModel { write_queue: self.write_queue.remove(i), ..self },
                            Some(retimed(self.write_queue[i], time + d)))
                    }
                } else {
                    if from_reads {
                        (DomainModel { read_queue_node2: self.read_queue_node2.remove(i), ..self },
                            Some(retimed(self.read_queue_node2[i], time + d)))
                    } else {
                        (DomainModel { write_queue_node2: self.write_queue_node2.remove(i), ..self },
                            Some(retimed(self.write_queue_node2[i], time + d)))
                    }
                }
            },
        }
    }
}

/// The rule of a transfer: the first arrived request of `channel`.
pub open spec fn transfer_rule(channel: u16) -> ScanRule {
    ScanRule { strict: false, channel: Some(channel), bank: None }
}

/// The delay of a transfer: 128 cycles for a read, 64 for a write.
pub open spec fn transfer_delay(from_reads: bool) -> nat {
    if from_reads {
        128
    } else {
        64
    }
}

/// `r` with its arrival cycle set to `cycle`.
pub open spec fn retimed(r: Request, cycle: int) -> Request {
    Request { cylce_in: cycle as u64, ..r }
}

impl Domain {
    /// First come, first served on node 1 (see `DomainModel::after_send_next`).
    pub fn send_next_request(&mut self, time: u64)
        requires
            old(self)@.after_send_next(time).fake_requests <= u64::MAX,
        ensures
            final(self)@ == old(self)@.after_send_next(time),
    {
        if self.read_queue.len() > 0 && self.write_queue.len() > 0 {
            if self.read_queue[0].cylce_in <= self.write_queue[0].cylce_in && self.read_queue[0].cylce_in <= time {
                self.read_queue.remove(0);
                return;
            } else if self.write_queue[0].cylce_in <= time {
                self.write_queue.remove(0);
                return;
            }
        } else if self.read_queue.len() > 0 && self.read_queue[0].cylce_in <= time {
            self.read_queue.remove(0);
            return;
        } else if self.write_queue.len() > 0 && self.write_queue[0].cylce_in <= time {
            self.write_queue.remove(0);
            return;
        }
        self.fake_requests = self.fake_requests + 1;
    }

    /// Takes the head of `numa1_to_numa2` where it has arrived by `time`.
    pub fn get_next_t_from_numa1(&mut self, time: u64) -> (res: Option<Request>)
        ensures
            res == old(self)@.numa1_ready(time),
            final(self)@ == (if res is Some {
                DomainModel { numa1_to_numa2: old(self)@.numa1_to_numa2.drop_first(), ..old(self)@ }
            } else {
                old(self)@
            }),
    {
        if self.numa1_to_numa2.len() > 0 && self.numa1_to_numa2[0].cylce_in <= time {
            let r = self.numa1_to_numa2.remove(0);
            return Some(r);
        }
        None
    }

    /// Takes the head of `numa2_to_numa1` where it has arrived by `time`.
    pub fn get_next_t_from_numa2(&mut self, time: u64) -> (res: Option<Request>)
        ensures
            res == old(self)@.numa2_ready(time),
            final(self)@ == (if res is Some {
                DomainModel { numa2_to_numa1: old(self)@.numa2_to_numa1.drop_first(), ..old(self)@ }
            } else {
                old(self)@
            }),
    {
        if self.numa2_to_numa1.len() > 0 && self.numa2_to_numa1[0].cylce_in <= time {
            let r = self.numa2_to_numa1.remove(0);
            return Some(r);
        }
        None
    }

    /// Takes a request bound for node `transfer_to_node` out of the other
    /// node's queues (see `DomainModel::after_transfer`).
    pub fn get_next_transfer_request_numa(&mut self, time: u64, transfer_to_node: u16) -> (res: Option<Request>)
        requires
            old(self)@.transfer_source(time, transfer_to_node) matches Some((from_reads, _))
                ==> time + transfer_delay(from_reads) <= u64::MAX,
        ensures
            (final(self)@, res) == old(self)@.after_transfer(time, transfer_to_node),
    {
        if transfer_to_node == 2 {
            let rule = ScanRule { strict: false, channel: Some(1), bank: None };
            if let Some(i) = rule.scan(&self.read_queue, time) {
                proof { crate::schedule::lemma_pick_in_range(rule, self.read_queue@, time); }
                let mut request = self.read_queue.remove(i);
                request.cylce_in = time + 128;
                return Some(request);
            }
            if let Some(j) = rule.scan(&self.write_queue, time) {
                proof { crate::schedule::lemma_pick_in_range(rule, self.write_queue@, time); }
                let mut request = self.write_queue.remove(j);
                request.cylce_in = time + 64;
                return Some(request);
            }
            return None;
        }
        if transfer_to_node == 1 {
            let rule = ScanRule { strict: false, channel: Some(0), bank: None };
            if let Some(i) = rule.scan(&self.read_queue_node2, time) {
                proof { crate::schedule::lemma_pick_in_range(rule, self.read_queue_node2@, time); }
                let mut request = self.read_queue_node2.remove(i);
                request.cylce_in = time + 128;
                return Some(request);
            }
            if let Some(j) = rule.scan(&self.write_queue_node2, time) {
                proof { crate::schedule::lemma_pick_in_range(rule, self.write_queue_node2@, time); }
                let mut request = self.write_queue_node2.remove(j);
                request.cylce_in = time + 64;
                return Some(request);
            }
            return None;
        }
        None
    }
}

} // verus!
