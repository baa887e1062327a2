use vstd::prelude::*;

use crate::domain::{Domain, DomainModel};
use crate::request::Request;
use crate::split::contains_request;

verus! {

/// A write that moves into a transfer queue holding `transfer` at `time`: it
/// has arrived and is not in the transfer queue already.
pub open spec fn moving(time: u64, transfer: Seq<Request>) -> spec_fn(Request) -> bool {
    |r: Request| r.cylce_in <= time && !transfer.contains(r)
}

/// A write that stays in its queue.
pub open spec fn staying(time: u64, transfer: Seq<Request>) -> spec_fn(Request) -> bool {
    |r: Request| !(r.cylce_in <= time && !transfer.contains(r))
}

/// A request as it enters a transfer queue: 64 cycles later.
pub open spec fn delayed() -> spec_fn(Request) -> Request {
    |r: Request| Request { cylce_in: (r.cylce_in + 64) as u64, ..r }
}

/// The writes of `writes` that move keep their arrival cycle plus 64 within
/// the range of `u64`.
pub open spec fn transfer_fits(writes: Seq<Request>, time: u64, transfer: Seq<Request>) -> bool {
    forall|i: int| 0 <= i < writes.len() && #[trigger] (moving(time, transfer))(writes[i])
        ==> writes[i].cylce_in + 64 <= u64::MAX
}

impl DomainModel {
    /// The domain after the writes that have arrived by `time` move from each
    /// node's write queue to the end of that node's transfer queue, 64 cycles
    /// later, except those already in the transfer queue.
    pub open spec fn after_copy_write(self, time: u64) -> DomainModel {
        let m1 = moving(time, self.numa1_to_numa2);
        let m2 = moving(time, self.numa2_to_numa1);
        DomainModel {
            write_queue: self.write_queue.filter(staying(time, self.numa1_to_numa2)),
            numa1_to_numa2: self.numa1_to_numa2 + self.write_queue.filter(m1).map_values(delayed()),
            write_queue_node2: self.write_queue_node2.filter(staying(time, self.numa2_to_numa1)),
            numa2_to_numa1: self.numa2_to_numa1 + self.write_queue_node2.filter(m2).map_values(delayed()),
            ..self
        }
    }
}

/// One more element of `s`, filtered and mapped.
proof fn lemma_filter_map_step(
    s: Seq<Request>,
    p: spec_fn(Request) -> bool,
    f: spec_fn(Request) -> Request,
    i: int,
)
    requires
        0 <= i < s.len(),
    ensures
        s.take(i + 1).filter(p).map_values(f) == (if p(s[i]) {
            s.take(i).filter(p).map_values(f).push(f(s[i]))
        } else {
            s.take(i).filter(p).map_values(f)
        }),
        s.take(i + 1).filter(p) == (if p(s[i]) {
            s.take(i).filter(p).push(s[i])
        } else {
            s.take(i).filter(p)
        }),
{
    reveal_with_fuel(Seq::<_>::filter, 1);
    assert(s.take(i + 1).drop_last() =~= s.take(i));
    if p(s[i]) {
        assert(s.take(i).filter(p).push(s[i]).map_values(f) =~= s.take(i).filter(p).map_values(f).push(f(s[i])));
    }
}

/// Moves the writes of `writes` that have arrived by `time`, and are not in
/// `transfer`, to the end of `transfer`, 64 cycles later.
fn move_ready_writes(writes: &mut Vec<Request>, transfer: &mut Vec<Request>, time: u64)
    requires
        transfer_fits(old(writes)@, time, old(transfer)@),
    ensures
        final(writes)@ == old(writes)@.filter(staying(time, old(transfer)@)),
        final(transfer)@ == old(transfer)@ + old(writes)@.filter(moving(time, old(transfer)@)).map_values(delayed()),
{
    let mut keep: Vec<Request> = Vec::new();
    let mut moved: Vec<Request> = Vec::new();
    let mut i: usize = 0;
    while i < writes.len()
        invariant
            i <= writes.len(),
            transfer_fits(writes@, time, transfer@),
            keep@ == writes@.take(i as int).filter(staying(time, transfer@)),
            moved@ == writes@.take(i as int).filter(moving(time, transfer@)).map_values(delayed()),
        decreases writes.len() - i,
    {
        proof {
            lemma_filter_map_step(writes@, moving(time, transfer@), delayed(), i as int);
            lemma_filter_map_step(writes@, staying(time, transfer@), delayed(), i as int);
        }
        let r = writes[i];
        if r.cylce_in <= time && !contains_request(transfer, &r) {
            assert((moving(time, transfer@))(writes@[i as int]));
            let mut m = r;
            m.cylce_in = r.cylce_in + 64;
            assert(m == (delayed())(r));
            moved.push(m);
        } else {
            keep.push(r);
        }
        i = i + 1;
    }
    assert(writes@.take(writes.len() as int) =~= writes@);
    *writes = keep;
    transfer.append(&mut moved);
}

impl Domain {
    /// Moves each node's arrived writes into its transfer queue (see
    /// `DomainModel::after_copy_write`).
    pub fn copy_write_to_transfer(&mut self, time: u64)
        requires
            transfer_fits(old(self).write_queue@, time, old(self).numa1_to_numa2@),
            transfer_fits(old(self).write_queue_node2@, time, old(self).numa2_to_numa1@),
        ensures
            final(self)@ == old(self)@.after_copy_write(time),
    {
        move_ready_writes(&mut self.write_queue, &mut self.numa1_to_numa2, time);
        move_ready_writes(&mut self.write_queue_node2, &mut self.numa2_to_numa1, time);
    }
}

} // verus!
