use vstd::prelude::*;

use crate::queue::{ScanRule, index_of};
use crate::request::Request;

verus! {

/// What a node does in one scheduling slot: nothing, or the request at an
/// index of its read queue, or of its write queue.
pub enum Slot {
    Idle,
    Read(int),
    Write(int),
}

/// The slot of a node with queues `reads` and `writes` at `time`: each queue
/// is scanned by `rule`; where both offer a request, the one that arrived
/// first is served, a read on a tie.
pub open spec fn slot(rule: ScanRule, reads: Seq<Request>, writes: Seq<Request>, time: u64) -> Slot {
    match (rule.pick(reads, time), rule.pick(writes, time)) {
        (Some(i), Some(j)) => if reads[i].cylce_in <= writes[j].cylce_in {
            Slot::Read(i)
        } else {
            Slot::Write(j)
        },
        (Some(i), None) => Slot::Read(i),
        (None, Some(j)) => Slot::Write(j),
        (None, None) => Slot::Idle,
    }
}

/// The read queue after the slot.
pub open spec fn reads_after(s: Slot, reads: Seq<Request>) -> Seq<Request> {
    match s {
        Slot::Read(i) => reads.remove(i),
        _ => reads,
    }
}

/// The write queue after the slot.
pub open spec fn writes_after(s: Slot, writes: Seq<Request>) -> Seq<Request> {
    match s {
        Slot::Write(j) => writes.remove(j),
        _ => writes,
    }
}

/// The write request that the slot serves, if it serves one.
pub open spec fn write_served(s: Slot, writes: Seq<Request>) -> Option<Request> {
    match s {
        Slot::Write(j) => Some(writes[j]),
        _ => None,
    }
}

/// The picks of a scan lie inside the queue.
pub proof fn lemma_pick_in_range(rule: ScanRule, q: Seq<Request>, time: u64)
    ensures
        rule.pick(q, time) matches Some(i) ==> rule.picks_at(q, time, i),
{
    if exists|i: int| rule.picks_at(q, time, i) {
        let i = choose|i: int| rule.picks_at(q, time, i);
        rule.lemma_pick_is(q, time, i);
    }
}

/// Serves one slot of a node: removes the request that `slot` names from
/// `reads` or `writes`. Returns the write request served, if any, and whether
/// the slot was idle.
pub fn serve_slot(rule: ScanRule, reads: &mut Vec<Request>, writes: &mut Vec<Request>, time: u64) -> (res: (
    Option<Request>,
    bool,
))
    ensures
        final(reads)@ == reads_after(slot(rule, old(reads)@, old(writes)@, time), old(reads)@),
        final(writes)@ == writes_after(slot(rule, old(reads)@, old(writes)@, time), old(writes)@),
        res.0 == write_served(slot(rule, old(reads)@, old(writes)@, time), old(writes)@),
        res.1 == (slot(rule, old(reads)@, old(writes)@, time) is Idle),
{
    let ri = rule.scan(reads, time);
    let wi = rule.scan(writes, time);
    proof {
        lemma_pick_in_range(rule, reads@, time);
        lemma_pick_in_range(rule, writes@, time);
    }
    match (ri, wi) {
        (Some(i), Some(j)) => {
            if reads[i].cylce_in <= writes[j].cylce_in {
                reads.remove(i);
                (None, false)
            } else {
                let w = writes.remove(j);
                (Some(w), false)
            }
        },
        (Some(i), None) => {
            reads.remove(i);
            (None, false)
        },
        (None, Some(j)) => {
            let w = writes.remove(j);
            (Some(w), false)
        },
        (None, None) => (None, true),
    }
}

} // verus!
