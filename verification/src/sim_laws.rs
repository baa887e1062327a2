//! Why a first-come-first-served simulation ends.

use vstd::prelude::*;

use crate::domain::DomainModel;
use crate::laws::law_run_time;
use crate::sim::{Schedule, SimState, all_idle, idle, run, start, step};

verus! {

/// The number of requests on node 1 of a domain.
pub open spec fn queued(d: DomainModel) -> nat {
    d.read_queue.len() + d.write_queue.len()
}

/// The number of requests on node 1 of all the domains.
pub open spec fn total_queued(ds: Seq<DomainModel>) -> nat
    decreases ds.len(),
{
    if ds.len() == 0 {
        0
    } else {
        total_queued(ds.drop_last()) + queued(ds.last())
    }
}

/// Every request on node 1 of every domain arrives by cycle `m`.
pub open spec fn arrive_by(ds: Seq<DomainModel>, m: u64) -> bool {
    &&& forall|i: int, j: int| 0 <= i < ds.len() && 0 <= j < ds[i].read_queue.len()
        ==> (#[trigger] ds[i].read_queue[j]).cylce_in <= m
    &&& forall|i: int, j: int| 0 <= i < ds.len() && 0 <= j < ds[i].write_queue.len()
        ==> (#[trigger] ds[i].write_queue[j]).cylce_in <= m
}

/// What holds of a first-come-first-served run between two turns: the turns
/// go round all `n` domains, and every request arrives by `m`.
pub open spec fn fcfs_inv(sch: Schedule, n: u16, s: SimState, m: u64) -> bool {
    &&& !sch.by_bank
    &&& s.domains.len() == n as nat
    &&& n > 0
    &&& s.current_domain < n
    &&& arrive_by(s.domains, m)
}

/// Two sequences of domains with the same requests on node 1.
pub open spec fn same_queues(a: Seq<DomainModel>, b: Seq<DomainModel>) -> bool {
    &&& a.len() == b.len()
    &&& forall|i: int| 0 <= i < a.len() ==> (#[trigger] a[i]).read_queue == b[i].read_queue
        && a[i].write_queue == b[i].write_queue
}

proof fn lemma_total_update(ds: Seq<DomainModel>, i: int, d: DomainModel)
    requires
        0 <= i < ds.len(),
    ensures
        total_queued(ds.update(i, d)) + queued(ds[i]) == total_queued(ds) + queued(d),
    decreases ds.len(),
{
    let u = ds.update(i, d);
    if i == ds.len() - 1 {
        assert(u.drop_last() =~= ds.drop_last());
    } else {
        lemma_total_update(ds.drop_last(), i, d);
        assert(u.drop_last() =~= ds.drop_last().update(i, d));
    }
}

proof fn lemma_total_same(a: Seq<DomainModel>, b: Seq<DomainModel>)
    requires
        same_queues(a, b),
    ensures
        total_queued(a) == total_queued(b),
    decreases a.len(),
{
    if a.len() > 0 {
        assert(a.last().read_queue == b.last().read_queue);
        lemma_total_same(a.drop_last(), b.drop_last());
    }
}

proof fn lemma_busy_has_requests(ds: Seq<DomainModel>, b: int)
    requires
        0 <= b < ds.len(),
        !idle(ds[b]),
    ensures
        total_queued(ds) >= 1,
    decreases ds.len(),
{
    if b < ds.len() - 1 {
        lemma_busy_has_requests(ds.drop_last(), b);
    }
}

/// `run` is `step` applied one turn after another.
proof fn lemma_run_add(sch: Schedule, n: u16, s: SimState, a: nat, b: nat)
    ensures
        run(sch, n, s, a + b) == run(sch, n, run(sch, n, s, a), b),
    decreases b,
{
    if b > 0 {
        lemma_run_add(sch, n, s, a, (b - 1) as nat);
        assert((a + b - 1) as nat == a + (b - 1) as nat);
    }
}

/// One first-come-first-served turn keeps the invariant, adds no request,
/// changes no queue where the current domain is idle, and serves one request
/// where it is busy and everything has arrived.
proof fn lemma_step_fcfs(sch: Schedule, n: u16, s: SimState, m: u64)
    requires
        fcfs_inv(sch, n, s, m),
    ensures
        fcfs_inv(sch, n, step(sch, n, s), m),
        step(sch, n, s).time == s.time + sch.dead_time,
        total_queued(step(sch, n, s).domains) <= total_queued(s.domains),
        idle(s.domains[s.current_domain as int]) ==> same_queues(step(sch, n, s).domains, s.domains),
        !idle(s.domains[s.current_domain as int]) && m <= s.time <= u64::MAX
            ==> total_queued(step(sch, n, s).domains) + 1 == total_queued(s.domains),
{
    let ds = s.domains;
    let c = s.current_domain as int;
    let d = ds[c];
    let served = d.after_send_next(s.time as u64);
    let s1 = step(sch, n, s);
    let r = s1.domains[c];
    assert(r.read_queue == served.read_queue && r.write_queue == served.write_queue);
    lemma_total_update(ds, c, r);
    assert forall|i: int, j: int| 0 <= i < s1.domains.len() && 0 <= j < s1.domains[i].read_queue.len()
        implies (#[trigger] s1.domains[i].read_queue[j]).cylce_in <= m by {
        if i == c && r.read_queue != d.read_queue {
            assert(r.read_queue[j] == d.read_queue[j + 1]);
        }
    }
    assert forall|i: int, j: int| 0 <= i < s1.domains.len() && 0 <= j < s1.domains[i].write_queue.len()
        implies (#[trigger] s1.domains[i].write_queue[j]).cylce_in <= m by {
        if i == c && r.write_queue != d.write_queue {
            assert(r.write_queue[j] == d.write_queue[j + 1]);
        }
    }
    if !idle(d) && m <= s.time <= u64::MAX {
        if d.read_queue.len() > 0 {
            assert(d.read_queue[0].cylce_in <= m);
        }
        if d.write_queue.len() > 0 {
            assert(d.write_queue[0].cylce_in <= m);
        }
    }
}

/// How many turns pass before domain `b` has its turn, the turn being at
/// domain `c` of `n`.
pub open spec fn turns_to(n: u16, c: int, b: int) -> int {
    if b >= c {
        b - c
    } else {
        b - c + n
    }
}

/// From a state where everything has arrived, the turns reach the busy domain
/// `b` within `turns_to` more turns, and the turn at a busy domain serves a
/// request.
proof fn lemma_progress(sch: Schedule, n: u16, s: SimState, m: u64, b: int)
    requires
        fcfs_inv(sch, n, s, m),
        0 <= b < n,
        !idle(s.domains[b]),
        m <= s.time,
        s.time + turns_to(n, s.current_domain as int, b) * sch.dead_time <= u64::MAX,
    ensures
        exists|k: nat|
            1 <= k <= turns_to(n, s.current_domain as int, b) + 1 && fcfs_inv(sch, n, #[trigger] run(sch, n, s, k), m)
                && total_queued(run(sch, n, s, k).domains) < total_queued(s.domains)
                && run(sch, n, s, k).time == s.time + k * sch.dead_time,
    decreases turns_to(n, s.current_domain as int, b),
{
    let c = s.current_domain as int;
    let dist = turns_to(n, c, b);
    let dt = sch.dead_time as int;
    assert(0 <= dist * dt) by (nonlinear_arith)
        requires
            0 <= dist,
            0 <= dt,
    ;
    lemma_step_fcfs(sch, n, s, m);
    let s1 = step(sch, n, s);
    reveal_with_fuel(run, 2);
    assert(run(sch, n, s, 1) == s1);
    law_run_time(sch, n, s, 1);
    if !idle(s.domains[c]) {
        assert(fcfs_inv(sch, n, run(sch, n, s, 1), m));
    } else {
        assert(c != b);
        assert(same_queues(s1.domains, s.domains));
        assert(s1.domains[b].read_queue == s.domains[b].read_queue);
        assert(!idle(s1.domains[b]));
        let c1 = s1.current_domain as int;
        let nn = n as int;
        assert((c + 1) % nn == if c + 1 < nn { c + 1 } else { 0 }) by (nonlinear_arith)
            requires
                0 <= c < nn,
        ;
        let dist1 = turns_to(n, c1, b);
        assert(dist1 == dist - 1);
        assert(s1.time + dist1 * dt == s.time + dist * dt) by (nonlinear_arith)
            requires
                s1.time == s.time + dt,
                dist1 == dist - 1,
        ;
        lemma_progress(sch, n, s1, m, b);
        let k1 = choose|k: nat|
            1 <= k <= turns_to(n, c1, b) + 1 && fcfs_inv(sch, n, #[trigger] run(sch, n, s1, k), m)
                && total_queued(run(sch, n, s1, k).domains) < total_queued(s1.domains)
                && run(sch, n, s1, k).time == s1.time + k * sch.dead_time;
        lemma_run_add(sch, n, s, 1, k1);
        lemma_total_same(s1.domains, s.domains);
        law_run_time(sch, n, s, 1 + k1);
        assert(fcfs_inv(sch, n, run(sch, n, s, 1 + k1), m));
    }
}


/// Turns only serve requests: the invariant holds and no request is added.
proof fn lemma_early_turns(sch: Schedule, n: u16, s: SimState, m: u64, k: nat)
    requires
        fcfs_inv(sch, n, s, m),
    ensures
        fcfs_inv(sch, n, run(sch, n, s, k), m),
        total_queued(run(sch, n, s, k).domains) <= total_queued(s.domains),
    decreases k,
{
    if k > 0 {
        lemma_early_turns(sch, n, s, m, (k - 1) as nat);
        lemma_step_fcfs(sch, n, run(sch, n, s, (k - 1) as nat), m);
    }
}

/// Once every request has arrived, each round of `n` turns serves a request,
/// so the run ends within `n` turns per request.
proof fn lemma_ends(sch: Schedule, n: u16, s: SimState, m: u64)
    requires
        fcfs_inv(sch, n, s, m),
        m <= s.time,
        s.time + total_queued(s.domains) * n * sch.dead_time <= u64::MAX,
    ensures
        exists|k: nat| k <= total_queued(s.domains) * n && all_idle(#[trigger] run(sch, n, s, k).domains),
    decreases total_queued(s.domains),
{
    let t = total_queued(s.domains) as int;
    let nn = n as int;
    let dt = sch.dead_time as int;
    assert(0 <= t * nn) by (nonlinear_arith)
        requires
            0 <= t,
            0 <= nn,
    ;
    if all_idle(s.domains) {
        assert(run(sch, n, s, 0) == s);
        assert(all_idle(run(sch, n, s, 0).domains));
    } else {
        let b = choose|b: int| 0 <= b < s.domains.len() && !idle(#[trigger] s.domains[b]);
        lemma_busy_has_requests(s.domains, b);
        let c = s.current_domain as int;
        let dist = turns_to(n, c, b);
        assert(s.time + dist * dt <= u64::MAX) by (nonlinear_arith)
            requires
                0 <= dist < nn,
                1 <= t,
                0 <= dt,
                s.time + t * nn * dt <= u64::MAX,
        ;
        lemma_progress(sch, n, s, m, b);
        let k1 = choose|k: nat|
            1 <= k <= turns_to(n, c, b) + 1 && fcfs_inv(sch, n, #[trigger] run(sch, n, s, k), m)
                && total_queued(run(sch, n, s, k).domains) < total_queued(s.domains)
                && run(sch, n, s, k).time == s.time + k * sch.dead_time;
        let s1 = run(sch, n, s, k1);
        let t1 = total_queued(s1.domains) as int;
        assert(s1.time + t1 * nn * dt <= u64::MAX && m <= s1.time) by (nonlinear_arith)
            requires
                1 <= k1 <= nn,
                0 <= t1 < t,
                0 <= dt,
                m <= s.time,
                s1.time == s.time + k1 * dt,
                s.time + t * nn * dt <= u64::MAX,
        ;
        lemma_ends(sch, n, s1, m);
        let k2 = choose|k: nat| k <= total_queued(s1.domains) * n && all_idle(#[trigger] run(sch, n, s1, k).domains);
        lemma_run_add(sch, n, s, k1, k2);
        assert(k1 + k2 <= t * nn) by (nonlinear_arith)
            requires
                1 <= k1 <= nn,
                0 <= t1 < t,
                k2 <= t1 * nn,
        ;
        assert(all_idle(run(sch, n, s, k1 + k2).domains));
    }
}

/// A first-come-first-served simulation in which the turns go round all the
/// domains and the dead time is positive ends: where every request arrives by
/// cycle `m`, no domain has a request left after `m / dead_time + 1` turns
/// plus one round of turns per request, provided the clock stays within
/// `u64` that long.
pub proof fn law_first_come_first_served_ends(sch: Schedule, ds: Seq<DomainModel>, m: u64)
    requires
        !sch.by_bank,
        sch.dead_time > 0,
        0 < ds.len() <= u16::MAX,
        arrive_by(ds, m),
        1 + (m / sch.dead_time + 1 + total_queued(ds) * ds.len()) * sch.dead_time <= u64::MAX,
    ensures
        exists|k: nat|
            k <= m / sch.dead_time + 1 + total_queued(ds) * ds.len()
                && all_idle(#[trigger] run(sch, ds.len() as u16, start(ds), k).domains),
{
    let n = ds.len() as u16;
    assert(n as nat == ds.len());
    let s0 = start(ds);
    let dt = sch.dead_time as int;
    let nn = n as int;
    let t0 = total_queued(ds) as int;
    let k1: nat = (m / sch.dead_time + 1) as nat;
    lemma_early_turns(sch, n, s0, m, k1);
    law_run_time(sch, n, s0, k1);
    let s1 = run(sch, n, s0, k1);
    let t1 = total_queued(s1.domains) as int;
    vstd::arithmetic::div_mod::lemma_fundamental_div_mod(m as int, dt);
    assert(m <= s1.time) by (nonlinear_arith)
        requires
            dt > 0,
            m as int == dt * (m as int / dt) + (m as int % dt),
            m as int % dt < dt,
            k1 == m as int / dt + 1,
            s1.time == 1 + k1 * dt,
    ;
    assert(s1.time + t1 * nn * dt <= u64::MAX) by (nonlinear_arith)
        requires
            0 <= t1 <= t0,
            0 <= nn,
            0 <= dt,
            s1.time == 1 + k1 * dt,
            1 + (k1 + t0 * nn) * dt <= u64::MAX,
    ;
    lemma_ends(sch, n, s1, m);
    let k2 = choose|k: nat| k <= total_queued(s1.domains) * n && all_idle(#[trigger] run(sch, n, s1, k).domains);
    lemma_run_add(sch, n, s0, k1, k2);
    assert(k2 <= t0 * nn) by (nonlinear_arith)
        requires
            0 <= t1 <= t0,
            0 <= nn,
            k2 <= t1 * nn,
    ;
    assert(all_idle(run(sch, n, s0, k1 + k2).domains));
}


/// A turn never undoes what earlier turns did: a domain that has no request
/// left on node 1 gets none back, and a finish once recorded stays.
pub proof fn law_turn_keeps_finished(sch: Schedule, n: u16, s: SimState, i: int)
    requires
        s.current_domain < s.domains.len(),
        0 <= i < s.domains.len(),
    ensures
        idle(s.domains[i]) ==> idle(step(sch, n, s).domains[i]),
        s.domains[i].tick_finished != 0 ==> step(sch, n, s).domains[i].tick_finished == s.domains[i].tick_finished,
{
    let d = s.domains[i];
    if i == s.current_domain && idle(d) {
        let rule = crate::domain::bank_rule(s.current_bank as u16);
        assert(rule.pick(d.read_queue, s.time as u64) is None);
        assert(rule.pick(d.write_queue, s.time as u64) is None);
    }
}

} // verus!
