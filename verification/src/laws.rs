//! Properties of the scheduler that hold across its operations.

use vstd::multiset::Multiset;
use vstd::prelude::*;

use crate::clock::ClockModel;
use crate::domain::DomainModel;
use crate::queue::ScanRule;
use crate::request::Request;
use crate::schedule::{Slot, slot, reads_after, writes_after, lemma_pick_in_range};
use crate::sim::{Schedule, SimState, run};
use crate::split::{evens, marked, not_in, odds, on_node, thread_above, thread_at_most};
use crate::transfer::{moving, staying};

verus! {

broadcast use {vstd::seq_lib::group_to_multiset_ensures, vstd::multiset::group_multiset_axioms};

/// A slot serves only a request that has arrived and fits the rule, and every
/// request in front of it in its queue has arrived but does not fit; a slot is
/// idle only when neither queue offers such a request.
pub proof fn law_slot_serves_first_fitting(rule: ScanRule, reads: Seq<Request>, writes: Seq<Request>, time: u64)
    ensures
        match slot(rule, reads, writes, time) {
            Slot::Read(i) => rule.picks_at(reads, time, i),
            Slot::Write(j) => rule.picks_at(writes, time, j),
            Slot::Idle => rule.pick(reads, time) is None && rule.pick(writes, time) is None,
        },
{
    lemma_pick_in_range(rule, reads, time);
    lemma_pick_in_range(rule, writes, time);
}

/// Of a read and a write that both fit, a slot serves the one that arrived
/// first, the read on a tie.
pub proof fn law_slot_serves_older(rule: ScanRule, reads: Seq<Request>, writes: Seq<Request>, time: u64)
    requires
        rule.pick(reads, time) is Some,
        rule.pick(writes, time) is Some,
    ensures
        ({
            let i = rule.pick(reads, time)->0;
            let j = rule.pick(writes, time)->0;
            match slot(rule, reads, writes, time) {
                Slot::Read(k) => k == i && reads[i].cylce_in <= writes[j].cylce_in,
                Slot::Write(k) => k == j && writes[j].cylce_in < reads[i].cylce_in,
                Slot::Idle => false,
            }
        }),
{
}

/// A slot serves one request or none: the requests left in the two queues
/// are those before the slot, less the one served.
pub proof fn law_slot_removes_one(rule: ScanRule, reads: Seq<Request>, writes: Seq<Request>, time: u64)
    ensures
        match slot(rule, reads, writes, time) {
            Slot::Idle => reads_after(Slot::Idle, reads) == reads && writes_after(Slot::Idle, writes) == writes,
            Slot::Read(i) => reads_after(Slot::Read(i), reads).to_multiset().insert(reads[i]) == reads.to_multiset()
                && writes_after(Slot::Read(i), writes) == writes,
            Slot::Write(j) => writes_after(Slot::Write(j), writes).to_multiset().insert(writes[j]) == writes.to_multiset()
                && reads_after(Slot::Write(j), reads) == reads,
        },
{
    lemma_pick_in_range(rule, reads, time);
    lemma_pick_in_range(rule, writes, time);
    match slot(rule, reads, writes, time) {
        Slot::Read(i) => {
            assert(reads.remove(i).to_multiset() == reads.to_multiset().remove(reads[i]));
            assert(reads.to_multiset().count(reads[i]) > 0);
            assert(reads.remove(i).to_multiset().insert(reads[i]) =~= reads.to_multiset());
        },
        Slot::Write(j) => {
            assert(writes.remove(j).to_multiset() == writes.to_multiset().remove(writes[j]));
            assert(writes.to_multiset().count(writes[j]) > 0);
            assert(writes.remove(j).to_multiset().insert(writes[j]) =~= writes.to_multiset());
        },
        Slot::Idle => {},
    }
}

/// First come, first served either serves the head of one of node 1's queues,
/// one that has arrived by `time` and is not younger than the other head
/// where that has arrived too, or serves nothing and counts one fake request.
pub proof fn law_send_next_serves_arrived_head(d: DomainModel, time: u64)
    ensures
        ({
            let a = d.after_send_next(time);
            let r = d.read_queue;
            let w = d.write_queue;
            ||| a == DomainModel { fake_requests: d.fake_requests + 1, ..d }
                && !(r.len() > 0 && r[0].cylce_in <= time)
                && !(w.len() > 0 && w[0].cylce_in <= time)
            ||| a == DomainModel { read_queue: r.drop_first(), ..d }
                && r.len() > 0 && r[0].cylce_in <= time
                && (w.len() > 0 ==> r[0].cylce_in <= w[0].cylce_in)
            ||| a == DomainModel { write_queue: w.drop_first(), ..d }
                && w.len() > 0 && w[0].cylce_in <= time
                && (r.len() > 0 && r[0].cylce_in <= time ==> w[0].cylce_in < r[0].cylce_in)
        }),
{
}

/// Filtering a sequence by a condition and by its opposite divides it: the
/// two parts together hold every element exactly as often as the sequence.
proof fn lemma_filter_divides(s: Seq<Request>, p: spec_fn(Request) -> bool, q: spec_fn(Request) -> bool)
    requires
        forall|i: int| 0 <= i < s.len() ==> p(#[trigger] s[i]) == !q(s[i]),
    ensures
        s.filter(p).to_multiset().add(s.filter(q).to_multiset()) =~= s.to_multiset(),
    decreases s.len(),
{
    reveal_with_fuel(Seq::<_>::filter, 1);
    if s.len() == 0 {
        assert(s.filter(p) =~= Seq::<Request>::empty());
        assert(s.filter(q) =~= Seq::<Request>::empty());
    } else {
        let t = s.drop_last();
        assert forall|i: int| 0 <= i < t.len() implies p(#[trigger] t[i]) == !q(t[i]) by {
            assert(t[i] == s[i]);
        }
        lemma_filter_divides(t, p, q);
        assert(s =~= t.push(s.last()));
    }
}

/// Splitting by thread id hands every request of node 1 to exactly one node:
/// the reads of both nodes after the split are, counted with repetition, the
/// reads of node 1 before it, and likewise the writes.
pub proof fn law_split_threads_divides(d: DomainModel)
    ensures
        ({
            let a = d.after_split_threads();
            &&& a.read_queue.to_multiset().add(a.read_queue_node2.to_multiset()) == d.read_queue.to_multiset()
            &&& a.write_queue.to_multiset().add(a.write_queue_node2.to_multiset()) == d.write_queue.to_multiset()
        }),
{
    let b = d.thread_split_bound();
    lemma_filter_divides(d.read_queue, thread_at_most(b), thread_above(b));
    lemma_filter_divides(d.write_queue, thread_at_most(b), thread_above(b));
}

/// Where every request of node 1 is on NUMA node 0 or 1, splitting by node
/// hands each to exactly one node. (A request on any other NUMA node is
/// dropped by the split.)
pub proof fn law_split_node_based_divides(d: DomainModel)
    requires
        forall|i: int| 0 <= i < d.read_queue.len() ==> (#[trigger] d.read_queue[i]).node == 0 || d.read_queue[i].node == 1,
        forall|i: int| 0 <= i < d.write_queue.len() ==> (#[trigger] d.write_queue[i]).node == 0 || d.write_queue[i].node == 1,
    ensures
        ({
            let a = d.after_split_node_based();
            &&& a.read_queue.to_multiset().add(a.read_queue_node2.to_multiset()) == d.read_queue.to_multiset()
            &&& a.write_queue.to_multiset().add(a.write_queue_node2.to_multiset()) == d.write_queue.to_multiset()
        }),
{
    lemma_filter_divides(d.read_queue, on_node(1), on_node(0));
    lemma_filter_divides(d.write_queue, on_node(1), on_node(0));
}

/// The even and the odd positions of a sequence together hold its elements.
proof fn lemma_evens_odds_divide(s: Seq<Request>)
    ensures
        odds(s).to_multiset().add(evens(s).to_multiset()) =~= s.to_multiset(),
    decreases s.len(),
{
    if s.len() == 0 {
        assert(evens(s) =~= Seq::<Request>::empty());
        assert(odds(s) =~= Seq::<Request>::empty());
    } else {
        let t = s.drop_last();
        lemma_evens_odds_divide(t);
        if t.len() % 2 == 0 {
            assert(evens(s) =~= evens(t).push(s.last()));
            assert(odds(s) =~= odds(t));
        } else {
            assert(evens(s) =~= evens(t));
            assert(odds(s) =~= odds(t).push(s.last()));
        }
        assert(s =~= t.push(s.last()));
    }
}

/// Splitting evenly hands every request of node 1 to exactly one node.
pub proof fn law_split_evenly_divides(d: DomainModel)
    ensures
        ({
            let a = d.after_split_evenly();
            &&& a.read_queue.to_multiset().add(a.read_queue_node2.to_multiset()) == d.read_queue.to_multiset()
            &&& a.write_queue.to_multiset().add(a.write_queue_node2.to_multiset()) == d.write_queue.to_multiset()
        }),
{
    lemma_evens_odds_divide(d.read_queue);
    lemma_evens_odds_divide(d.write_queue);
}

/// A filter that keeps every element is the identity.
proof fn lemma_filter_keeps_all(s: Seq<Request>, p: spec_fn(Request) -> bool)
    requires
        forall|i: int| 0 <= i < s.len() ==> p(#[trigger] s[i]),
    ensures
        s.filter(p) == s,
    decreases s.len(),
{
    reveal_with_fuel(Seq::<_>::filter, 1);
    if s.len() > 0 {
        let t = s.drop_last();
        assert forall|i: int| 0 <= i < t.len() implies p(#[trigger] t[i]) by {
            assert(t[i] == s[i]);
        }
        lemma_filter_keeps_all(t, p);
        assert(s =~= t.push(s.last()));
    } else {
        assert(s =~= Seq::<Request>::empty());
    }
}

/// A filter that keeps no element is empty.
proof fn lemma_filter_keeps_none(s: Seq<Request>, p: spec_fn(Request) -> bool)
    requires
        forall|i: int| 0 <= i < s.len() ==> !p(#[trigger] s[i]),
    ensures
        s.filter(p) == Seq::<Request>::empty(),
    decreases s.len(),
{
    reveal_with_fuel(Seq::<_>::filter, 1);
    if s.len() > 0 {
        let t = s.drop_last();
        assert forall|i: int| 0 <= i < t.len() implies !p(#[trigger] t[i]) by {
            assert(t[i] == s[i]);
        }
        lemma_filter_keeps_none(t, p);
    } else {
        assert(s.filter(p) =~= Seq::<Request>::empty());
    }
}

/// After the writes that have arrived moved into a transfer queue, none is
/// left to move at the same cycle.
proof fn lemma_nothing_left_to_move(w: Seq<Request>, n: Seq<Request>, extra: Seq<Request>, time: u64)
    ensures
        ({
            let w1 = w.filter(staying(time, n));
            &&& w1.filter(staying(time, n + extra)) == w1
            &&& w1.filter(moving(time, n + extra)) == Seq::<Request>::empty()
        }),
{
    broadcast use vstd::seq_lib::group_filter_ensures;
    let w1 = w.filter(staying(time, n));
    assert forall|i: int| 0 <= i < w1.len() implies (staying(time, n + extra))(#[trigger] w1[i]) by {
        assert((staying(time, n))(w1[i]));
        if n.contains(w1[i]) {
            let k = choose|k: int| 0 <= k < n.len() && n[k] == w1[i];
            assert((n + extra)[k] == w1[i]);
        }
    }
    lemma_filter_keeps_all(w1, staying(time, n + extra));
    lemma_filter_keeps_none(w1, moving(time, n + extra));
}

/// Moving the arrived writes into the transfer queues twice at the same cycle
/// is the same as moving them once.
pub proof fn law_copy_write_idempotent(d: DomainModel, time: u64)
    ensures
        d.after_copy_write(time).after_copy_write(time) == d.after_copy_write(time),
{
    let a = d.after_copy_write(time);
    let e1 = d.write_queue.filter(moving(time, d.numa1_to_numa2)).map_values(crate::transfer::delayed());
    let e2 = d.write_queue_node2.filter(moving(time, d.numa2_to_numa1)).map_values(crate::transfer::delayed());
    lemma_nothing_left_to_move(d.write_queue, d.numa1_to_numa2, e1, time);
    lemma_nothing_left_to_move(d.write_queue_node2, d.numa2_to_numa1, e2, time);
    let b = a.after_copy_write(time);
    assert(b.numa1_to_numa2 =~= a.numa1_to_numa2);
    assert(b.numa2_to_numa1 =~= a.numa2_to_numa1);
}

/// Moving writes into a transfer queue loses none and copies none: each
/// write of node 1 either stays or is appended to `numa1_to_numa2`, which
/// keeps what it held; likewise on node 2.
pub proof fn law_copy_write_moves(d: DomainModel, time: u64)
    ensures
        ({
            let a = d.after_copy_write(time);
            &&& a.write_queue.len() + a.numa1_to_numa2.len() == d.write_queue.len() + d.numa1_to_numa2.len()
            &&& a.numa1_to_numa2.take(d.numa1_to_numa2.len() as int) == d.numa1_to_numa2
            &&& a.write_queue_node2.len() + a.numa2_to_numa1.len() == d.write_queue_node2.len() + d.numa2_to_numa1.len()
            &&& a.numa2_to_numa1.take(d.numa2_to_numa1.len() as int) == d.numa2_to_numa1
        }),
{
    let m1 = moving(time, d.numa1_to_numa2);
    let s1 = staying(time, d.numa1_to_numa2);
    let m2 = moving(time, d.numa2_to_numa1);
    let s2 = staying(time, d.numa2_to_numa1);
    lemma_filter_divides(d.write_queue, s1, m1);
    lemma_filter_divides(d.write_queue_node2, s2, m2);
    let a = d.after_copy_write(time);
    assert(d.write_queue.filter(s1).to_multiset().len() == d.write_queue.filter(s1).len());
    assert(d.write_queue.filter(m1).to_multiset().len() == d.write_queue.filter(m1).len());
    assert(d.write_queue_node2.filter(s2).to_multiset().len() == d.write_queue_node2.filter(s2).len());
    assert(d.write_queue_node2.filter(m2).to_multiset().len() == d.write_queue_node2.filter(m2).len());
    assert(d.write_queue.to_multiset().len() == d.write_queue.len());
    assert(d.write_queue_node2.to_multiset().len() == d.write_queue_node2.len());
    assert(a.numa1_to_numa2.take(d.numa1_to_numa2.len() as int) =~= d.numa1_to_numa2);
    assert(a.numa2_to_numa1.take(d.numa2_to_numa1.len() as int) =~= d.numa2_to_numa1);
}

/// Advancing a clock by `a` and then by `b` cycles is advancing it by `a + b`.
pub proof fn law_ticks_add(c: ClockModel, a: u64, b: u64)
    requires
        c.time + a + b <= u64::MAX,
    ensures
        c.ticked(a).ticked(b) == c.ticked((a + b) as u64),
{
}

/// After `k` turns the clock of a simulation stands `k` dead times later.
pub proof fn law_run_time(sch: Schedule, n: u16, s: SimState, k: nat)
    ensures
        run(sch, n, s, k).time == s.time + k * sch.dead_time,
    decreases k,
{
    if k > 0 {
        let k1 = (k - 1) as nat;
        law_run_time(sch, n, s, k1);
        assert(run(sch, n, s, k).time == run(sch, n, s, k1).time + sch.dead_time);
        let dt = sch.dead_time as int;
        assert(k1 * dt + dt == k * dt) by (nonlinear_arith)
            requires
                k1 + 1 == k,
        ;
        assert(run(sch, n, s, k1).time == s.time + k1 * dt);
        assert(run(sch, n, s, k).time == s.time + k * dt);
    } else {
        assert(k * sch.dead_time == 0) by (nonlinear_arith)
            requires
                k == 0,
        ;
    }
}


/// Where the marks of a sequence are exactly the values of a condition on its
/// elements, the marked elements are the elements filtered by the condition.
proof fn lemma_marked_is_filter(s: Seq<Request>, marks: Seq<bool>, p: spec_fn(Request) -> bool)
    requires
        marks.len() == s.len(),
        forall|j: int| 0 <= j < s.len() ==> p(#[trigger] s[j]) == marks[j],
    ensures
        s.filter(p) == marked(s, marks),
    decreases s.len(),
{
    reveal_with_fuel(Seq::<_>::filter, 1);
    if s.len() > 0 {
        let t = s.drop_last();
        let mt = marks.take(s.len() - 1);
        assert forall|j: int| 0 <= j < t.len() implies p(#[trigger] t[j]) == mt[j] by {
            assert(t[j] == s[j]);
        }
        lemma_marked_is_filter(t, mt, p);
    } else {
        assert(s.filter(p) =~= Seq::<Request>::empty());
    }
}

/// Every marked element of a sequence is among the marked ones, and every
/// one among them is a marked element.
proof fn lemma_marked_contains(s: Seq<Request>, marks: Seq<bool>, x: Request)
    requires
        marks.len() == s.len(),
    ensures
        marked(s, marks).contains(x) <==> exists|j: int| 0 <= j < s.len() && marks[j] && s[j] == x,
    decreases s.len(),
{
    if s.len() > 0 {
        let t = s.drop_last();
        let mt = marks.take(s.len() - 1);
        lemma_marked_contains(t, mt, x);
        let rest = marked(t, mt);
        if marked(s, marks).contains(x) {
            if rest.contains(x) {
                let j = choose|j: int| 0 <= j < t.len() && mt[j] && t[j] == x;
                assert(marks[j] && s[j] == x);
            } else {
                assert(x == s.last() && marks[s.len() - 1]);
            }
        }
        if exists|j: int| 0 <= j < s.len() && marks[j] && s[j] == x {
            let j = choose|j: int| 0 <= j < s.len() && marks[j] && s[j] == x;
            if j < s.len() - 1 {
                assert(mt[j] && t[j] == x);
                assert(rest.contains(x));
                if marks[s.len() - 1] {
                    let k = choose|k: int| 0 <= k < rest.len() && rest[k] == x;
                    assert(rest.push(s.last())[k] == x);
                }
            } else {
                assert(rest.push(s.last())[rest.len() as int] == x);
            }
        }
    }
}

/// Where node 1 holds no request twice, splitting by draws hands every
/// request of node 1 to exactly one node. (Where a request occurs twice and
/// only one copy is drawn, the split drops the other copy.)
pub proof fn law_split_by_draws_divides(d: DomainModel, read_marks: Seq<bool>, write_marks: Seq<bool>)
    requires
        read_marks.len() == d.read_queue.len(),
        write_marks.len() == d.write_queue.len(),
        d.read_queue.no_duplicates(),
        d.write_queue.no_duplicates(),
    ensures
        ({
            let a = d.after_split_marked(read_marks, write_marks);
            &&& a.read_queue.to_multiset().add(a.read_queue_node2.to_multiset()) == d.read_queue.to_multiset()
            &&& a.write_queue.to_multiset().add(a.write_queue_node2.to_multiset()) == d.write_queue.to_multiset()
        }),
{
    lemma_marks_divide(d.read_queue, read_marks);
    lemma_marks_divide(d.write_queue, write_marks);
}

/// A sequence without repetitions is divided by its marks.
proof fn lemma_marks_divide(s: Seq<Request>, marks: Seq<bool>)
    requires
        marks.len() == s.len(),
        s.no_duplicates(),
    ensures
        s.filter(not_in(marked(s, marks))).to_multiset().add(marked(s, marks).to_multiset()) =~= s.to_multiset(),
{
    let m = marked(s, marks);
    let p = |r: Request| m.contains(r);
    assert forall|j: int| 0 <= j < s.len() implies p(#[trigger] s[j]) == marks[j] by {
        lemma_marked_contains(s, marks, s[j]);
        if m.contains(s[j]) {
            let k = choose|k: int| 0 <= k < s.len() && marks[k] && s[k] == s[j];
            assert(k == j);
        }
    }
    lemma_marked_is_filter(s, marks, p);
    lemma_filter_divides(s, not_in(m), p);
}


/// All the requests on both nodes of a domain, counted with repetition.
pub open spec fn held(d: DomainModel) -> Multiset<Request> {
    d.read_queue.to_multiset().add(d.write_queue.to_multiset()).add(d.read_queue_node2.to_multiset()).add(
        d.write_queue_node2.to_multiset(),
    )
}

/// A mirrored slot of node 1 loses no write: a write it serves moves to node
/// 2's read queue, a read it serves leaves the domain, and nothing else
/// changes.
pub proof fn law_mirror_node1_keeps_writes(d: DomainModel, rule: ScanRule, time: u64)
    ensures
        match slot(rule, d.read_queue, d.write_queue, time) {
            Slot::Read(i) => held(d.mirror_node1(rule, time)).insert(d.read_queue[i]) == held(d),
            _ => held(d.mirror_node1(rule, time)) == held(d),
        },
{
    law_slot_removes_one(rule, d.read_queue, d.write_queue, time);
    let a = d.mirror_node1(rule, time);
    match slot(rule, d.read_queue, d.write_queue, time) {
        Slot::Read(i) => {
            assert(held(a).insert(d.read_queue[i]) =~= held(d));
        },
        Slot::Write(j) => {
            assert(a.read_queue_node2.to_multiset() == d.read_queue_node2.to_multiset().insert(d.write_queue[j]));
            assert(held(a) =~= held(d));
        },
        Slot::Idle => {},
    }
}

/// A mirrored slot of node 2 loses no write: a write it serves moves to node
/// 1's read queue, a read it serves leaves the domain, and nothing else
/// changes.
pub proof fn law_mirror_node2_keeps_writes(d: DomainModel, rule: ScanRule, time: u64)
    ensures
        match slot(rule, d.read_queue_node2, d.write_queue_node2, time) {
            Slot::Read(i) => held(d.mirror_node2(rule, time)).insert(d.read_queue_node2[i]) == held(d),
            _ => held(d.mirror_node2(rule, time)) == held(d),
        },
{
    law_slot_removes_one(rule, d.read_queue_node2, d.write_queue_node2, time);
    let a = d.mirror_node2(rule, time);
    match slot(rule, d.read_queue_node2, d.write_queue_node2, time) {
        Slot::Read(i) => {
            assert(held(a).insert(d.read_queue_node2[i]) =~= held(d));
        },
        Slot::Write(j) => {
            assert(a.read_queue.to_multiset() == d.read_queue.to_multiset().insert(d.write_queue_node2[j]));
            assert(held(a) =~= held(d));
        },
        Slot::Idle => {},
    }
}


/// A transfer towards node 2 takes a request of channel 1 that has arrived,
/// from node 1, and one towards node 1 a request of channel 0 from node 2; it
/// hands the request on with its arrival set 128 cycles (a read) or 64 cycles
/// (a write) after `time`, and removes it from its queue; a transfer towards
/// any other node takes nothing.
pub proof fn law_transfer_takes_arrived_request(d: DomainModel, time: u64, node: u16)
    ensures
        ({
            let (a, r) = d.after_transfer(time, node);
            match d.transfer_source(time, node) {
                Some((from_reads, i)) => {
                    let q = if node == 2 {
                        if from_reads { d.read_queue } else { d.write_queue }
                    } else {
                        if from_reads { d.read_queue_node2 } else { d.write_queue_node2 }
                    };
                    &&& node == 1 || node == 2
                    &&& 0 <= i < q.len()
                    &&& q[i].cylce_in <= time
                    &&& q[i].channel == (if node == 2 { 1u16 } else { 0u16 })
                    &&& r == Some(Request { cylce_in: (time + crate::domain::transfer_delay(from_reads)) as u64, ..q[i] })
                },
                None => a == d && r is None,
            }
        }),
{
    let (reads, writes, channel) = if node == 2 {
        (d.read_queue, d.write_queue, 1u16)
    } else {
        (d.read_queue_node2, d.write_queue_node2, 0u16)
    };
    lemma_pick_in_range(crate::domain::transfer_rule(channel), reads, time);
    lemma_pick_in_range(crate::domain::transfer_rule(channel), writes, time);
}

} // verus!
