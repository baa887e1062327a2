# memsched

A verified model of a memory controller that serves the read and write
requests of several security domains on two NUMA nodes.

- `src/request.rs`: requests.
- `src/queue.rs`, `src/schedule.rs`: how a scheduler scans a queue and fills a slot.
- `src/domain.rs`: a domain's queues and its scheduling policies.
- `src/split.rs`, `src/transfer.rs`: splitting requests between the nodes, and the transfer queues.
- `src/clock.rs`, `src/sim.rs`: the clock and the round-robin simulations.
- `src/laws.rs`, `src/sim_laws.rs`: properties proved across the operations.
- `app/main.rs`: reads `trace.txt`, runs two simulations, and splits at random.
