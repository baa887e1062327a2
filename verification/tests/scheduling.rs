use memsched::{Clock, Constraints, Domain, Request, RequestType};

fn read(cycle: u64, bank: u16, channel: u16) -> Request {
    Request::new(RequestType::ReadRequest, cycle, bank, 0, 0, channel, 0)
}

fn write(cycle: u64, bank: u16, channel: u16) -> Request {
    Request::new(RequestType::WriteRequest, cycle, bank, 0, 0, channel, 0)
}

#[test]
fn request_new_sets_every_field() {
    let r = Request::new(RequestType::WriteRequest, 17, 4, 9, 1, 2, 3);
    assert_eq!(r.request_type, RequestType::WriteRequest);
    assert_eq!(r.cylce_in, 17);
    assert_eq!(r.bank_id, 4);
    assert_eq!(r.thread_id, 9);
    assert_eq!(r.node, 1);
    assert_eq!(r.channel, 2);
    assert_eq!(r.domain, 3);
}

#[test]
fn new_domain_is_empty() {
    let d = Domain::new(5);
    assert_eq!(d.id, 5);
    assert!(d.read_queue.is_empty() && d.write_queue.is_empty());
    assert!(d.read_queue_node2.is_empty() && d.write_queue_node2.is_empty());
    assert!(d.numa1_to_numa2.is_empty() && d.numa2_to_numa1.is_empty());
    assert_eq!(d.fake_requests, 0);
    assert_eq!(d.tick_finished, 0);
}

#[test]
fn add_requests_append_to_node_one() {
    let mut d = Domain::new(0);
    d.add_read_request(read(1, 0, 0));
    d.add_read_request(read(2, 0, 0));
    d.add_write_request(write(3, 0, 0));
    assert_eq!(d.read_queue, vec![read(1, 0, 0), read(2, 0, 0)]);
    assert_eq!(d.write_queue, vec![write(3, 0, 0)]);
}

#[test]
fn send_next_request_serves_older_head() {
    let mut d = Domain::new(0);
    d.add_read_request(read(5, 0, 0));
    d.add_write_request(write(4, 0, 0));
    d.send_next_request(10);
    assert_eq!(d.read_queue.len(), 1);
    assert!(d.write_queue.is_empty());
    assert_eq!(d.fake_requests, 0);
}

#[test]
fn send_next_request_prefers_read_on_tie() {
    let mut d = Domain::new(0);
    d.add_read_request(read(4, 0, 0));
    d.add_write_request(write(4, 0, 0));
    d.send_next_request(4);
    assert!(d.read_queue.is_empty());
    assert_eq!(d.write_queue.len(), 1);
}

#[test]
fn send_next_request_counts_fake_when_nothing_arrived() {
    let mut d = Domain::new(0);
    d.add_read_request(read(9, 0, 0));
    d.add_write_request(write(8, 0, 0));
    d.send_next_request(7);
    assert_eq!(d.read_queue.len(), 1);
    assert_eq!(d.write_queue.len(), 1);
    assert_eq!(d.fake_requests, 1);
    let mut e = Domain::new(1);
    e.send_next_request(100);
    assert_eq!(e.fake_requests, 1);
}

#[test]
fn send_next_request_serves_arrived_write_before_unarrived_read() {
    let mut d = Domain::new(0);
    d.add_read_request(read(3, 0, 0));
    d.add_write_request(write(2, 0, 0));
    d.send_next_request(2);
    assert_eq!(d.read_queue.len(), 1);
    assert!(d.write_queue.is_empty());
}

#[test]
fn bank_serves_first_request_of_its_group() {
    let mut d = Domain::new(0);
    d.add_read_request(read(1, 1, 0));
    d.add_read_request(read(2, 5, 0));
    d.add_read_request(read(3, 2, 0));
    d.send_next_request_bank(10, 2);
    assert_eq!(d.read_queue, vec![read(1, 1, 0), read(3, 2, 0)]);
    assert_eq!(d.fake_requests, 0);
}

#[test]
fn bank_stops_at_request_not_arrived() {
    let mut d = Domain::new(0);
    d.add_read_request(read(20, 1, 0));
    d.add_read_request(read(2, 2, 0));
    d.send_next_request_bank(10, 2);
    assert_eq!(d.read_queue.len(), 2);
    assert_eq!(d.fake_requests, 2);
}

#[test]
fn bank_serves_older_of_read_and_write() {
    let mut d = Domain::new(0);
    d.add_read_request(read(6, 0, 0));
    d.add_write_request(write(5, 3, 0));
    d.send_next_request_bank(10, 0);
    assert_eq!(d.read_queue.len(), 1);
    assert!(d.write_queue.is_empty());
}

#[test]
fn channel_and_dve_serve_both_nodes_alike() {
    let mut d = Domain::new(0);
    d.add_read_request(read(1, 0, 0));
    d.read_queue_node2.push(read(2, 3, 0));
    d.write_queue_node2.push(write(1, 1, 0));
    let mut e = d.clone();
    d.send_next_request_channel(5, 0);
    e.send_next_request_bank_dve(5, 0);
    assert!(d.read_queue.is_empty());
    assert!(d.read_queue_node2.is_empty());
    assert_eq!(d.write_queue_node2.len(), 1);
    assert_eq!(d.fake_requests, 0);
    assert_eq!(d.read_queue, e.read_queue);
    assert_eq!(d.read_queue_node2, e.read_queue_node2);
    assert_eq!(d.write_queue_node2, e.write_queue_node2);
    assert_eq!(d.fake_requests, e.fake_requests);
}

#[test]
fn two_idle_nodes_count_four_fakes() {
    let mut d = Domain::new(0);
    d.send_next_request_channel(5, 0);
    assert_eq!(d.fake_requests, 4);
}

#[test]
fn bank_numa_needs_strict_arrival_and_channel() {
    let mut d = Domain::new(0);
    d.add_read_request(read(5, 0, 0));
    d.add_read_request(read(1, 0, 1));
    d.add_read_request(read(2, 0, 0));
    d.read_queue_node2.push(read(1, 0, 1));
    d.send_next_request_bank_numa(5, 0);
    // node 1: the head arrived at 5, not before 5: the scan stops there
    assert_eq!(d.read_queue.len(), 3);
    // node 2: channel 1 request served
    assert!(d.read_queue_node2.is_empty());
    assert_eq!(d.fake_requests, 2);
    d.send_next_request_bank_numa(6, 0);
    // node 1 now passes over the channel 1 request and serves the one at 2
    assert_eq!(d.read_queue, vec![read(1, 0, 1), read(2, 0, 0)]);
}

#[test]
fn mirror_moves_served_write_to_other_node() {
    let mut d = Domain::new(0);
    d.add_write_request(write(1, 0, 0));
    d.send_next_request_bank_mirror(5, 0);
    // node 1 serves the write and hands it to node 2's reads,
    // where node 2 then serves it as a read
    assert!(d.write_queue.is_empty());
    assert!(d.read_queue_node2.is_empty());
    assert_eq!(d.fake_requests, 0);

    let mut e = Domain::new(0);
    e.add_write_request(write(1, 0, 0));
    e.read_queue_node2.push(read(0, 0, 0));
    e.send_next_request_bank_mirror(5, 0);
    assert_eq!(e.read_queue_node2, vec![write(1, 0, 0)]);
}

#[test]
fn transfer_queues_release_arrived_heads() {
    let mut d = Domain::new(0);
    d.numa1_to_numa2.push(write(10, 0, 0));
    assert_eq!(d.get_next_t_from_numa1(9), None);
    assert_eq!(d.numa1_to_numa2.len(), 1);
    assert_eq!(d.get_next_t_from_numa1(10), Some(write(10, 0, 0)));
    assert!(d.numa1_to_numa2.is_empty());
    d.numa2_to_numa1.push(write(3, 0, 0));
    assert_eq!(d.get_next_t_from_numa2(3), Some(write(3, 0, 0)));
    assert_eq!(d.get_next_t_from_numa2(3), None);
}

#[test]
fn transfer_request_to_node_two_takes_channel_one() {
    let mut d = Domain::new(0);
    d.add_read_request(read(1, 0, 0));
    d.add_read_request(read(2, 0, 1));
    d.add_write_request(write(1, 0, 1));
    let r = d.get_next_transfer_request_numa(10, 2);
    assert_eq!(r, Some(read(138, 0, 1)));
    assert_eq!(d.read_queue, vec![read(1, 0, 0)]);
    let w = d.get_next_transfer_request_numa(10, 2);
    assert_eq!(w, Some(write(74, 0, 1)));
    assert!(d.write_queue.is_empty());
    assert_eq!(d.get_next_transfer_request_numa(10, 2), None);
}

#[test]
fn transfer_request_to_node_one_takes_channel_zero() {
    let mut d = Domain::new(0);
    d.write_queue_node2.push(write(4, 0, 0));
    assert_eq!(d.get_next_transfer_request_numa(3, 1), None);
    assert_eq!(d.get_next_transfer_request_numa(4, 1), Some(write(68, 0, 0)));
    assert_eq!(d.get_next_transfer_request_numa(4, 3), None);
}

#[test]
fn copy_write_moves_arrived_writes_with_delay() {
    let mut d = Domain::new(0);
    d.add_write_request(write(1, 0, 0));
    d.add_write_request(write(9, 0, 0));
    d.add_write_request(write(2, 0, 0));
    d.numa1_to_numa2.push(write(2, 0, 0));
    d.write_queue_node2.push(write(3, 1, 0));
    d.copy_write_to_transfer(5);
    assert_eq!(d.write_queue, vec![write(9, 0, 0), write(2, 0, 0)]);
    assert_eq!(d.numa1_to_numa2, vec![write(2, 0, 0), write(65, 0, 0)]);
    assert!(d.write_queue_node2.is_empty());
    assert_eq!(d.numa2_to_numa1, vec![write(67, 1, 0)]);
}

#[test]
fn copy_write_twice_is_copy_write_once() {
    let mut d = Domain::new(0);
    d.add_write_request(write(1, 0, 0));
    d.add_write_request(write(7, 2, 0));
    d.add_write_request(write(3, 1, 0));
    d.numa1_to_numa2.push(write(3, 1, 0));
    d.copy_write_to_transfer(5);
    let once = d.clone();
    d.copy_write_to_transfer(5);
    assert_eq!(d.write_queue, once.write_queue);
    assert_eq!(d.numa1_to_numa2, once.numa1_to_numa2);
    assert_eq!(d.write_queue.len() + d.numa1_to_numa2.len(), 4);
}

#[test]
fn clock_starts_at_one_and_ticks() {
    let mut c = Clock::new();
    assert_eq!(c.time(), 1);
    assert!(c.transfer_queue_to_node_1.is_none() && c.transfer_queue_to_node_2.is_none());
    assert_eq!(c.read_back_from_node_1, 0);
    assert_eq!(c.read_back_from_node_2, 0);
    c.tick_by(7);
    c.tick_by(5);
    let mut c2 = Clock::new();
    c2.tick_by(12);
    assert_eq!(c.time(), 13);
    assert_eq!(c.time(), c2.time());
}

#[test]
fn constraints_keep_their_values() {
    let c = Constraints::new(4, 15);
    assert_eq!(c.num_domains, 4);
    assert_eq!(c.dead_time, 15);
}
