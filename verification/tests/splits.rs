use memsched::{Domain, Request, RequestType};

fn req(cycle: u64, thread: u16, node: u16) -> Request {
    Request::new(RequestType::ReadRequest, cycle, 0, thread, node, 0, 0)
}

fn sorted(mut v: Vec<Request>) -> Vec<u64> {
    let mut c: Vec<u64> = v.drain(..).map(|r| r.cylce_in * 1000 + r.thread_id as u64 * 10 + r.node as u64).collect();
    c.sort();
    c
}

#[test]
fn split_node_based_divides_and_drops_other_nodes() {
    let mut d = Domain::new(0);
    d.add_read_request(req(1, 0, 0));
    d.add_read_request(req(2, 0, 1));
    d.add_read_request(req(3, 0, 2));
    d.add_write_request(req(4, 0, 1));
    d.read_queue_node2.push(req(9, 9, 9));
    d.split_requests_node_based();
    assert_eq!(d.read_queue_node2, vec![req(1, 0, 0)]);
    assert_eq!(d.read_queue, vec![req(2, 0, 1)]);
    assert!(d.write_queue_node2.is_empty());
    assert_eq!(d.write_queue, vec![req(4, 0, 1)]);
}

#[test]
fn split_threads_evenly_uses_half_the_largest_thread() {
    let mut d = Domain::new(0);
    d.add_read_request(req(1, 1, 0));
    d.add_read_request(req(2, 3, 0));
    d.add_write_request(req(3, 7, 0));
    d.add_write_request(req(4, 2, 0));
    let before = d.clone();
    d.split_threads_evenly();
    // largest thread 7, bound 3
    assert_eq!(d.read_queue, vec![req(1, 1, 0), req(2, 3, 0)]);
    assert!(d.read_queue_node2.is_empty());
    assert_eq!(d.write_queue, vec![req(4, 2, 0)]);
    assert_eq!(d.write_queue_node2, vec![req(3, 7, 0)]);
    let mut all = d.write_queue.clone();
    all.extend(d.write_queue_node2.clone());
    assert_eq!(sorted(all), sorted(before.write_queue.clone()));
}

#[test]
fn split_evenly_sends_even_positions_to_node_two() {
    let mut d = Domain::new(0);
    for i in 0..5 {
        d.add_read_request(req(i, 0, 0));
    }
    d.add_write_request(req(10, 0, 0));
    d.split_evenly();
    assert_eq!(d.read_queue_node2, vec![req(0, 0, 0), req(2, 0, 0), req(4, 0, 0)]);
    assert_eq!(d.read_queue, vec![req(1, 0, 0), req(3, 0, 0)]);
    assert_eq!(d.write_queue_node2, vec![req(10, 0, 0)]);
    assert!(d.write_queue.is_empty());
}

#[test]
fn split_by_draws_moves_drawn_requests() {
    let mut d = Domain::new(0);
    d.add_read_request(req(1, 0, 0));
    d.add_read_request(req(2, 0, 0));
    d.add_read_request(req(3, 0, 0));
    d.add_write_request(req(4, 0, 0));
    d.split_by_draws(&vec![false, true, true], &vec![false]);
    assert_eq!(d.read_queue, vec![req(1, 0, 0)]);
    assert_eq!(d.read_queue_node2, vec![req(2, 0, 0), req(3, 0, 0)]);
    assert_eq!(d.write_queue, vec![req(4, 0, 0)]);
    assert!(d.write_queue_node2.is_empty());
}

#[test]
fn split_by_draws_drops_copies_of_drawn_requests() {
    let mut d = Domain::new(0);
    d.add_read_request(req(1, 0, 0));
    d.add_read_request(req(1, 0, 0));
    d.split_by_draws(&vec![true, false], &vec![]);
    assert!(d.read_queue.is_empty());
    assert_eq!(d.read_queue_node2, vec![req(1, 0, 0)]);
}
