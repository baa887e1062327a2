//! A model of a memory controller that serves the read and write requests of
//! several security domains: the scheduling policies (first come first
//! served, bank partitioning, NUMA and mirrored variants), the ways of
//! splitting a domain's requests between two NUMA nodes, the transfer queues
//! between the nodes, and the simulations that run the domains in turns.

pub mod clock;
pub mod domain;
pub mod laws;
pub mod queue;
pub mod request;
pub mod schedule;
pub mod sim;
pub mod sim_laws;
pub mod split;
pub mod transfer;

pub use clock::{Clock, Constraints};
pub use domain::Domain;
pub use queue::ScanRule;
pub use request::{Request, RequestType};
pub use sim::{simulate_fs_bankp, simulate_fs_bta, simulate_fs_nop, simulate_fs_rankp};
