use memsched::{simulate_fs_bankp, simulate_fs_bta, simulate_fs_nop, simulate_fs_rankp, Domain, Request, RequestType};

fn read(cycle: u64, bank: u16) -> Request {
    Request::new(RequestType::ReadRequest, cycle, bank, 0, 0, 0, 0)
}

fn write(cycle: u64, bank: u16) -> Request {
    Request::new(RequestType::WriteRequest, cycle, bank, 0, 0, 0, 0)
}

#[test]
fn rankp_runs_until_every_request_is_served() {
    let mut d = Domain::new(0);
    d.add_read_request(read(1, 0));
    d.add_write_request(write(1, 0));
    let mut domains = vec![d];
    // turn 1 at cycle 1 serves the read, turn 2 at cycle 8 the write
    assert_eq!(simulate_fs_rankp(&mut domains), 15);
    assert!(domains[0].read_queue.is_empty() && domains[0].write_queue.is_empty());
    assert_eq!(domains[0].tick_finished, 0);
}

#[test]
fn rankp_with_nothing_to_do_returns_start_cycle() {
    let mut domains: Vec<Domain> = vec![Domain::new(0), Domain::new(1)];
    assert_eq!(simulate_fs_rankp(&mut domains), 1);
    let mut none: Vec<Domain> = Vec::new();
    assert_eq!(simulate_fs_rankp(&mut none), 1);
}

#[test]
fn nop_and_bankp_record_finishes() {
    let mut a = Domain::new(0);
    a.add_read_request(read(1, 0));
    let mut b = Domain::new(1);
    b.add_read_request(read(50, 0));
    let mut domains = vec![a.clone(), b.clone()];
    // nop: turn at 1 serves a; at 44 b is not due; at 87 a idle (fake); at 130 b served
    assert_eq!(simulate_fs_nop(&mut domains), 173);
    assert_eq!(domains[0].tick_finished, 44);
    assert_eq!(domains[1].tick_finished, 173);
    assert_eq!(domains[1].fake_requests, 1);
    assert_eq!(domains[0].fake_requests, 1);

    let mut domains = vec![a, b];
    // bankp: turns at 1 (a), 16 (b), 31 (a), 46 (b), 61 (a), 76 (b, arrived at 50)
    assert_eq!(simulate_fs_bankp(&mut domains), 91);
    assert_eq!(domains[0].tick_finished, 16);
    assert_eq!(domains[1].tick_finished, 91);
}

#[test]
fn bta_rotates_bank_groups() {
    let mut d = Domain::new(0);
    d.add_read_request(read(1, 4));
    let mut domains = vec![d];
    // turn 1 serves group 0: idle (two fakes); turn 2 serves group 1: bank 4
    assert_eq!(simulate_fs_bta(&mut domains), 31);
    assert_eq!(domains[0].fake_requests, 2);
    assert_eq!(domains[0].tick_finished, 31);
}

#[test]
fn simulation_time_is_start_plus_turns_times_dead_time() {
    let mut d = Domain::new(0);
    for i in 0..4 {
        d.add_write_request(write(i, 0));
    }
    let mut domains = vec![d];
    let t = simulate_fs_rankp(&mut domains);
    assert_eq!((t - 1) % 7, 0);
    assert_eq!(t, 1 + 4 * 7);
}
