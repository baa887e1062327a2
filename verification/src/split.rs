use vstd::prelude::*;

use crate::domain::{Domain, DomainModel};
use crate::request::Request;

verus! {

/// Requests on NUMA node `n`.
pub open spec fn on_node(n: u16) -> spec_fn(Request) -> bool {
    |r: Request| r.node == n
}

/// Requests of a thread whose id is at most `bound`.
pub open spec fn thread_at_most(bound: u16) -> spec_fn(Request) -> bool {
    |r: Request| r.thread_id <= bound
}

/// Requests of a thread whose id is above `bound`.
pub open spec fn thread_above(bound: u16) -> spec_fn(Request) -> bool {
    |r: Request| r.thread_id > bound
}

/// Requests that are not in `s`.
pub open spec fn not_in(s: Seq<Request>) -> spec_fn(Request) -> bool {
    |r: Request| !s.contains(r)
}

/// The largest thread id in `s` (0 for an empty sequence).
pub open spec fn max_thread_id(s: Seq<Request>) -> u16
    decreases s.len(),
{
    if s.len() == 0 {
        0
    } else {
        let m = max_thread_id(s.drop_last());
        if s.last().thread_id > m {
            s.last().thread_id
        } else {
            m
        }
    }
}

/// The elements of `s` at even indices, in order.
pub open spec fn evens(s: Seq<Request>) -> Seq<Request> {
    Seq::new(((s.len() + 1) / 2) as nat, |k: int| s[2 * k])
}

/// The elements of `s` at odd indices, in order.
pub open spec fn odds(s: Seq<Request>) -> Seq<Request> {
    Seq::new((s.len() / 2) as nat, |k: int| s[2 * k + 1])
}

/// The elements of `s` whose mark in `marks` is set, in order.
pub open spec fn marked(s: Seq<Request>, marks: Seq<bool>) -> Seq<Request>
    decreases s.len(),
{
    if s.len() == 0 {
        Seq::empty()
    } else {
        let rest = marked(s.drop_last(), marks.take(s.len() - 1));
        if marks[s.len() - 1] {
            rest.push(s.last())
        } else {
            rest
        }
    }
}

/// A condition on requests that a queue can be filtered by.
#[derive(Clone, Copy)]
enum Keep {
    Node(u16),
    ThreadAtMost(u16),
    ThreadAbove(u16),
}

impl Keep {
    spec fn pred(self) -> spec_fn(Request) -> bool {
        match self {
            Keep::Node(n) => on_node(n),
            Keep::ThreadAtMost(b) => thread_at_most(b),
            Keep::ThreadAbove(b) => thread_above(b),
        }
    }

    fn test(&self, r: &Request) -> (b: bool)
        ensures
            b == (self.pred())(*r),
    {
        match self {
            Keep::Node(n) => r.node == *n,
            Keep::ThreadAtMost(b) => r.thread_id <= *b,
            Keep::ThreadAbove(b) => r.thread_id > *b,
        }
    }
}

/// One more element of `s`, filtered.
proof fn lemma_filter_step(s: Seq<Request>, p: spec_fn(Request) -> bool, i: int)
    requires
        0 <= i < s.len(),
    ensures
        s.take(i + 1).filter(p) == (if p(s[i]) {
            s.take(i).filter(p).push(s[i])
        } else {
            s.take(i).filter(p)
        }),
{
    reveal_with_fuel(Seq::<_>::filter, 1);
    assert(s.take(i + 1).drop_last() =~= s.take(i));
}

/// The copy of `q` that keeps the requests meeting `k`, in order.
fn keep_where(q: &Vec<Request>, k: Keep) -> (res: Vec<Request>)
    ensures
        res@ == q@.filter(k.pred()),
{
    let mut res: Vec<Request> = Vec::new();
    let mut i: usize = 0;
    while i < q.len()
        invariant
            i <= q.len(),
            res@ == q@.take(i as int).filter(k.pred()),
        decreases q.len() - i,
    {
        proof {
            lemma_filter_step(q@, k.pred(), i as int);
        }
        if k.test(&q[i]) {
            res.push(q[i]);
        }
        i = i + 1;
    }
    assert(q@.take(q.len() as int) =~= q@);
    res
}

/// Whether `r` occurs in `v`.
pub fn contains_request(v: &Vec<Request>, r: &Request) -> (b: bool)
    ensures
        b == v@.contains(*r),
{
    let mut i: usize = 0;
    while i < v.len()
        invariant
            i <= v.len(),
            forall|j: int| 0 <= j < i ==> v@[j] != *r,
        decreases v.len() - i,
    {
        if v[i] == *r {
            assert(v@[i as int] == *r);
            return true;
        }
        i = i + 1;
    }
    false
}

/// The copy of `q` without the requests that occur in `s`, in order.
fn keep_not_in(q: &Vec<Request>, s: &Vec<Request>) -> (res: Vec<Request>)
    ensures
        res@ == q@.filter(not_in(s@)),
{
    let mut res: Vec<Request> = Vec::new();
    let mut i: usize = 0;
    while i < q.len()
        invariant
            i <= q.len(),
            res@ == q@.take(i as int).filter(not_in(s@)),
        decreases q.len() - i,
    {
        proof {
            lemma_filter_step(q@, not_in(s@), i as int);
        }
        if !contains_request(s, &q[i]) {
            res.push(q[i]);
        }
        i = i + 1;
    }
    assert(q@.take(q.len() as int) =~= q@);
    res
}

/// The requests of `q` whose mark is set, in order.
fn keep_marked(q: &Vec<Request>, marks: &Vec<bool>) -> (res: Vec<Request>)
    requires
        marks.len() == q.len(),
    ensures
        res@ == marked(q@, marks@),
{
    let mut res: Vec<Request> = Vec::new();
    let mut i: usize = 0;
    while i < q.len()
        invariant
            i <= q.len(),
            marks.len() == q.len(),
            res@ == marked(q@.take(i as int), marks@.take(i as int)),
        decreases q.len() - i,
    {
        proof {
            assert(q@.take(i + 1).drop_last() =~= q@.take(i as int));
            assert(marks@.take(i + 1).take(i as int) =~= marks@.take(i as int));
        }
        if marks[i] {
            res.push(q[i]);
        }
        i = i + 1;
    }
    assert(q@.take(q.len() as int) =~= q@);
    assert(marks@.take(q.len() as int) =~= marks@);
    res
}

/// The elements of `q` at even indices (`odd == false`) or odd indices
/// (`odd == true`), in order.
fn every_other(q: &Vec<Request>, odd: bool) -> (res: Vec<Request>)
    ensures
        res@ == (if odd {
            odds(q@)
        } else {
            evens(q@)
        }),
{
    let mut res: Vec<Request> = Vec::new();
    let mut i: usize = 0;
    while i < q.len()
        invariant
            i <= q.len(),
            res.len() == (if odd { i as int / 2 } else { (i as int + 1) / 2 }),
            forall|k: int| 0 <= k < res.len() ==> res@[k] == q@[if odd { 2 * k + 1 } else { 2 * k }],
        decreases q.len() - i,
    {
        if (i % 2 == 1) == odd {
            res.push(q[i]);
        }
        i = i + 1;
    }
    assert(res@ =~= (if odd { odds(q@) } else { evens(q@) }));
    res
}

impl DomainModel {
    /// Node 2 gets the requests of NUMA node 0, node 1 keeps those of NUMA
    /// node 1 (requests of any other node are dropped).
    pub open spec fn after_split_node_based(self) -> DomainModel {
        DomainModel {
            read_queue_node2: self.read_queue.filter(on_node(0)),
            write_queue_node2: self.write_queue.filter(on_node(0)),
            read_queue: self.read_queue.filter(on_node(1)),
            write_queue: self.write_queue.filter(on_node(1)),
            ..self
        }
    }

    /// The thread id at which node 1's requests are split: half the largest
    /// thread id among them.
    pub open spec fn thread_split_bound(self) -> u16 {
        (max_thread_id(self.write_queue + self.read_queue) / 2) as u16
    }

    /// Node 2 gets the requests of the threads above the bound, node 1 keeps
    /// the others.
    pub open spec fn after_split_threads(self) -> DomainModel {
        let b = self.thread_split_bound();
        DomainModel {
            read_queue_node2: self.read_queue.filter(thread_above(b)),
            write_queue_node2: self.write_queue.filter(thread_above(b)),
            read_queue: self.read_queue.filter(thread_at_most(b)),
            write_queue: self.write_queue.filter(thread_at_most(b)),
            ..self
        }
    }

    /// Node 2 gets the requests at even positions of node 1's queues, node 1
    /// keeps those at odd positions.
    pub open spec fn after_split_evenly(self) -> DomainModel {
        DomainModel {
            read_queue_node2: evens(self.read_queue),
            write_queue_node2: evens(self.write_queue),
            read_queue: odds(self.read_queue),
            write_queue: odds(self.write_queue),
            ..self
        }
    }

    /// Node 2 gets the marked requests of node 1's queues; node 1 keeps those
    /// that equal none of them.
    pub open spec fn after_split_marked(self, read_marks: Seq<bool>, write_marks: Seq<bool>) -> DomainModel {
        let reads2 = marked(self.read_queue, read_marks);
        let writes2 = marked(self.write_queue, write_marks);
        DomainModel {
            read_queue: self.read_queue.filter(not_in(reads2)),
            write_queue: self.write_queue.filter(not_in(writes2)),
            read_queue_node2: reads2,
            write_queue_node2: writes2,
            ..self
        }
    }
}

impl Domain {
    /// Splits node 1's requests between the nodes by their NUMA node (see
    /// `DomainModel::after_split_node_based`).
    pub fn split_requests_node_based(&mut self)
        ensures
            final(self)@ == old(self)@.after_split_node_based(),
    {
        self.read_queue_node2 = keep_where(&self.read_queue, Keep::Node(0));
        self.write_queue_node2 = keep_where(&self.write_queue, Keep::Node(0));
        self.read_queue = keep_where(&self.read_queue, Keep::Node(1));
        self.write_queue = keep_where(&self.write_queue, Keep::Node(1));
    }

    /// Splits node 1's requests between the nodes by thread id (see
    /// `DomainModel::after_split_threads`). Node 1 must hold a request.
    pub fn split_threads_evenly(&mut self)
        requires
            old(self).write_queue.len() + old(self).read_queue.len() > 0,
        ensures
            final(self)@ == old(self)@.after_split_threads(),
    {
        let ghost all = self.write_queue@ + self.read_queue@;
        let mut largest: u16 = 0;
        let mut i: usize = 0;
        while i < self.write_queue.len()
            invariant
                all == self.write_queue@ + self.read_queue@,
                i <= self.write_queue.len(),
                largest == max_thread_id(all.take(i as int)),
            decreases self.write_queue.len() - i,
        {
            let t = self.write_queue[i].thread_id;
            assert(all.take(i + 1).drop_last() =~= all.take(i as int));
            if t > largest {
                largest = t;
            }
            i = i + 1;
        }
        let mut j: usize = 0;
        while j < self.read_queue.len()
            invariant
                all == self.write_queue@ + self.read_queue@,
                j <= self.read_queue.len(),
                largest == max_thread_id(all.take(self.write_queue.len() + j)),
            decreases self.read_queue.len() - j,
        {
            let t = self.read_queue[j].thread_id;
            assert(all.take(self.write_queue.len() + j + 1).drop_last() =~= all.take(self.write_queue.len() + j));
            if t > largest {
                largest = t;
            }
            j = j + 1;
        }
        assert(all.take(all.len() as int) =~= all);
        let lower_bound = largest / 2;
        self.read_queue_node2 = keep_where(&self.read_queue, Keep::ThreadAbove(lower_bound));
        self.write_queue_node2 = keep_where(&self.write_queue, Keep::ThreadAbove(lower_bound));
        self.read_queue = keep_where(&self.read_queue, Keep::ThreadAtMost(lower_bound));
        self.write_queue = keep_where(&self.write_queue, Keep::ThreadAtMost(lower_bound));
    }

    /// Splits node 1's queues by position: node 2 gets the even positions,
    /// node 1 keeps the odd ones.
    pub fn split_evenly(&mut self)
        ensures
            final(self)@ == old(self)@.after_split_evenly(),
    {
        self.read_queue_node2 = every_other(&self.read_queue, false);
        self.write_queue_node2 = every_other(&self.write_queue, false);
        self.read_queue = every_other(&self.read_queue, true);
        self.write_queue = every_other(&self.write_queue, true);
    }

    /// Splits node 1's queues by one draw per request: the requests whose
    /// draw is set go to node 2 (see `DomainModel::after_split_marked`).
    pub fn split_by_draws(&mut self, read_draws: &Vec<bool>, write_draws: &Vec<bool>)
        requires
            read_draws.len() == old(self).read_queue.len(),
            write_draws.len() == old(self).write_queue.len(),
        ensures
            final(self)@ == old(self)@.after_split_marked(read_draws@, write_draws@),
    {
        let read_queue_node2 = keep_marked(&self.read_queue, read_draws);
        let write_queue_node2 = keep_marked(&self.write_queue, write_draws);
        self.read_queue = keep_not_in(&self.read_queue, &read_queue_node2);
        self.write_queue = keep_not_in(&self.write_queue, &write_queue_node2);
        self.read_queue_node2 = read_queue_node2;
        self.write_queue_node2 = write_queue_node2;
    }
}

} // verus!
