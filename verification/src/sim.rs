use vstd::prelude::*;

use crate::clock::{Clock, Constraints};
use crate::domain::{Domain, DomainModel};

verus! {

/// How a simulation serves the domains, which take turns one after the
/// other: every turn costs `dead_time` cycles. With `by_bank`, a turn serves
/// node 1 of its domain restricted to one bank group, the groups 0, 1, 2 taking
/// turns too (`send_next_request_bank`); otherwise first come, first served
/// (`send_next_request`). With `record_finish`, a domain that has no request
/// left after its turn records the cycle, once.
#[derive(Clone, Copy)]
pub struct Schedule {
    pub dead_time: u64,
    pub by_bank: bool,
    pub record_finish: bool,
}

/// The state of a simulation between two turns.
pub struct SimState {
    pub domains: Seq<DomainModel>,
    pub current_domain: nat,
    pub current_bank: nat,
    pub time: nat,
}

/// The models of a sequence of domains.
pub open spec fn models(ds: Seq<Domain>) -> Seq<DomainModel> {
    ds.map_values(|d: Domain| d@)
}

/// Node 1 of `d` holds no request.
pub open spec fn idle(d: DomainModel) -> bool {
    d.read_queue.len() == 0 && d.write_queue.len() == 0
}

/// No domain has a request left on node 1.
pub open spec fn all_idle(ds: Seq<DomainModel>) -> bool {
    forall|i: int| 0 <= i < ds.len() ==> idle(#[trigger] ds[i])
}

/// The state at the start of a simulation of `ds`: domain 0 and bank group 0
/// have the first turn, at cycle 1.
pub open spec fn start(ds: Seq<DomainModel>) -> SimState {
    SimState { domains: ds, current_domain: 0, current_bank: 0, time: 1 }
}

/// One turn: the current domain is served at the current cycle, the clock
/// advances by the dead time, the domain records its finish where it is due,
/// and the turn passes to the next domain (modulo `n`) and bank group.
pub open spec fn step(sch: Schedule, n: u16, s: SimState) -> SimState {
    let d = s.domains[s.current_domain as int];
    let served = if sch.by_bank {
        d.after_bank(s.time as u64, s.current_bank as u16)
    } else {
        d.after_send_next(s.time as u64)
    };
    let t: nat = (s.time + sch.dead_time) as nat;
    let recorded = if sch.record_finish && idle(served) && served.tick_finished == 0 {
        DomainModel { tick_finished: t, ..served }
    } else {
        served
    };
    SimState {
        domains: s.domains.update(s.current_domain as int, recorded),
        current_domain: ((s.current_domain + 1) % (n as nat)) as nat,
        current_bank: ((s.current_bank + 1) % 3) as nat,
        time: t,
    }
}

/// The state after `k` turns.
pub open spec fn run(sch: Schedule, n: u16, s: SimState, k: nat) -> SimState
    decreases k,
{
    if k == 0 {
        s
    } else {
        step(sch, n, run(sch, n, s, (k - 1) as nat))
    }
}

/// The counters of the state fit in `u64`.
pub open spec fn in_range(s: SimState) -> bool {
    &&& s.time <= u64::MAX
    &&& forall|i: int| 0 <= i < s.domains.len() ==> (#[trigger] s.domains[i]).fake_requests <= u64::MAX
}

/// After `k` turns no domain has a request left, and all counters fit in
/// `u64` up to then.
pub open spec fn finishes_within(sch: Schedule, n: u16, s: SimState, k: nat) -> bool {
    &&& all_idle(run(sch, n, s, k).domains)
    &&& forall|j: nat| j <= k ==> in_range(#[trigger] run(sch, n, s, j))
}

/// `k` is the first turn count after which no domain has a request left.
pub open spec fn first_idle(sch: Schedule, n: u16, s: SimState, k: nat) -> bool {
    &&& all_idle(run(sch, n, s, k).domains)
    &&& forall|j: nat| j < k ==> !all_idle(#[trigger] run(sch, n, s, j).domains)
}

/// The number of domains that take turns: the length of `ds`, as a `u16`.
pub open spec fn turn_count(ds: Seq<Domain>) -> u16 {
    ds.len() as u16
}

/// Whether some domain has a request left on node 1.
fn any_busy(domains: &Vec<Domain>) -> (b: bool)
    ensures
        b == !all_idle(models(domains@)),
{
    let mut i: usize = 0;
    while i < domains.len()
        invariant
            i <= domains.len(),
            forall|j: int| 0 <= j < i ==> idle(#[trigger] models(domains@)[j]),
        decreases domains.len() - i,
    {
        if domains[i].read_queue.len() > 0 || domains[i].write_queue.len() > 0 {
            assert(!idle(models(domains@)[i as int]));
            return true;
        }
        i = i + 1;
    }
    false
}

/// Runs the domains in turns under `sch` until none has a request left on
/// node 1, and returns the cycle reached.
fn simulate(domains: &mut Vec<Domain>, sch: Schedule) -> (t: u64)
    requires
        turn_count(old(domains)@) > 0 || all_idle(models(old(domains)@)),
        exists|k: nat| finishes_within(sch, turn_count(old(domains)@), start(models(old(domains)@)), k),
    ensures
        exists|k: nat|
            first_idle(sch, turn_count(old(domains)@), start(models(old(domains)@)), k) && {
                let s = run(sch, turn_count(old(domains)@), start(models(old(domains)@)), k);
                &&& t == s.time
                &&& models(final(domains)@) == s.domains
            },
{
    let ghost n = turn_count(domains@);
    let ghost s0 = start(models(domains@));
    let ghost k = choose|k: nat| finishes_within(sch, n, s0, k);
    let mut clock = Clock::new();
    let constraints = Constraints::new(#[verifier::truncate] (domains.len() as u16), sch.dead_time);
    let mut current_domain: u16 = 0;
    let mut current_bank_id: u16 = 0;
    let ghost mut j: nat = 0;
    assert(models(domains@) == run(sch, n, s0, 0).domains);
    while any_busy(domains)
        invariant
            n == turn_count(domains@),
            constraints.num_domains == n,
            constraints.dead_time == sch.dead_time,
            n > 0 || all_idle(s0.domains),
            n == 0 ==> j == 0,
            finishes_within(sch, n, s0, k),
            j <= k,
            forall|i: nat| i < j ==> !all_idle(#[trigger] run(sch, n, s0, i).domains),
            models(domains@) == run(sch, n, s0, j).domains,
            clock@.time == run(sch, n, s0, j).time,
            current_domain == run(sch, n, s0, j).current_domain,
            current_bank_id == run(sch, n, s0, j).current_bank,
            current_domain < n || n == 0,
            current_bank_id < 3,
        decreases k - j,
    {
        let ghost sj = run(sch, n, s0, j);
        assert(j < k);
        assert(in_range(run(sch, n, s0, j + 1)));
        assert(run(sch, n, s0, j + 1) == step(sch, n, sj));
        assert(n > 0);
        let cd = current_domain as usize;
        assert(cd < domains.len());
        assert(models(domains@)[cd as int] == domains@[cd as int]@);
        assert(run(sch, n, s0, j + 1).domains[cd as int].fake_requests <= u64::MAX);
        let now = clock.time();
        if sch.by_bank {
            domains[cd].send_next_request_bank(now, current_bank_id);
        } else {
            domains[cd].send_next_request(now);
        }
        clock.tick_by(constraints.dead_time);
        if sch.record_finish && domains[cd].read_queue.len() == 0 && domains[cd].write_queue.len() == 0
            && domains[cd].tick_finished == 0 {
            domains[cd].tick_finished = clock.time();
        }
        current_domain = (current_domain + 1) % constraints.num_domains;
        current_bank_id = (current_bank_id + 1) % 3;
        proof {
            assert(models(domains@) =~= step(sch, n, sj).domains);
            j = j + 1;
        }
    }
    assert(first_idle(sch, n, s0, j));
    clock.time()
}

/// The schedule in which each domain keeps all banks and is served first
/// come, first served, a turn costing 7 cycles.
pub open spec fn rank_schedule() -> Schedule {
    Schedule { dead_time: 7, by_bank: false, record_finish: false }
}

/// The schedule without partitioning: first come, first served, a turn
/// costing 43 cycles, finishes recorded.
pub open spec fn no_partition_schedule() -> Schedule {
    Schedule { dead_time: 43, by_bank: false, record_finish: true }
}

/// The bank-partitioned schedule: first come, first served, a turn costing
/// 15 cycles, finishes recorded.
pub open spec fn bank_schedule() -> Schedule {
    Schedule { dead_time: 15, by_bank: false, record_finish: true }
}

/// The bank-triple-alternation schedule: each turn serves one bank group, a
/// turn costing 15 cycles, finishes recorded.
pub open spec fn bta_schedule() -> Schedule {
    Schedule { dead_time: 15, by_bank: true, record_finish: true }
}


/// Simulates rank partitioning (see `rank_schedule`) and returns the cycle at which
/// every domain has been served.
pub fn simulate_fs_rankp(domains: &mut Vec<Domain>) -> (t: u64)
    requires
        turn_count(old(domains)@) > 0 || all_idle(models(old(domains)@)),
        exists|k: nat| finishes_within(rank_schedule(), turn_count(old(domains)@), start(models(old(domains)@)), k),
    ensures
        exists|k: nat|
            first_idle(rank_schedule(), turn_count(old(domains)@), start(models(old(domains)@)), k) && {
                let s = run(rank_schedule(), turn_count(old(domains)@), start(models(old(domains)@)), k);
                &&& t == s.time
                &&& models(final(domains)@) == s.domains
            },
{
    let sch = Schedule { dead_time: 7, by_bank: false, record_finish: false };
    assert(sch == rank_schedule());
    simulate(domains, sch)
}

/// Simulates the system without partitioning (see `no_partition_schedule`) and
/// returns the cycle at which every domain has been served.
pub fn simulate_fs_nop(domains: &mut Vec<Domain>) -> (t: u64)
    requires
        turn_count(old(domains)@) > 0 || all_idle(models(old(domains)@)),
        exists|k: nat| finishes_within(no_partition_schedule(), turn_count(old(domains)@), start(models(old(domains)@)), k),
    ensures
        exists|k: nat|
            first_idle(no_partition_schedule(), turn_count(old(domains)@), start(models(old(domains)@)), k) && {
                let s = run(no_partition_schedule(), turn_count(old(domains)@), start(models(old(domains)@)), k);
                &&& t == s.time
                &&& models(final(domains)@) == s.domains
            },
{
    let sch = Schedule { dead_time: 43, by_bank: false, record_finish: true };
    assert(sch == no_partition_schedule());
    simulate(domains, sch)
}

/// Simulates bank partitioning (see `bank_schedule`) and returns the cycle at
/// which every domain has been served.
pub fn simulate_fs_bankp(domains: &mut Vec<Domain>) -> (t: u64)
    requires
        turn_count(old(domains)@) > 0 || all_idle(models(old(domains)@)),
        exists|k: nat| finishes_within(bank_schedule(), turn_count(old(domains)@), start(models(old(domains)@)), k),
    ensures
        exists|k: nat|
            first_idle(bank_schedule(), turn_count(old(domains)@), start(models(old(domains)@)), k) && {
                let s = run(bank_schedule(), turn_count(old(domains)@), start(models(old(domains)@)), k);
                &&& t == s.time
                &&& models(final(domains)@) == s.domains
            },
{
    let sch = Schedule { dead_time: 15, by_bank: false, record_finish: true };
    assert(sch == bank_schedule());
    simulate(domains, sch)
}

/// Simulates bank triple alternation (see `bta_schedule`) and returns the cycle
/// at which every domain has been served.
pub fn simulate_fs_bta(domains: &mut Vec<Domain>) -> (t: u64)
    requires
        turn_count(old(domains)@) > 0 || all_idle(models(old(domains)@)),
        exists|k: nat| finishes_within(bta_schedule(), turn_count(old(domains)@), start(models(old(domains)@)), k),
    ensures
        exists|k: nat|
            first_idle(bta_schedule(), turn_count(old(domains)@), start(models(old(domains)@)), k) && {
                let s = run(bta_schedule(), turn_count(old(domains)@), start(models(old(domains)@)), k);
                &&& t == s.time
                &&& models(final(domains)@) == s.domains
            },
{
    let sch = Schedule { dead_time: 15, by_bank: true, record_finish: true };
    assert(sch == bta_schedule());
    simulate(domains, sch)
}

} // verus!
