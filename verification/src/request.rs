use vstd::prelude::*;

verus! {

/// Whether a memory request reads or writes.
#[derive(Clone, Copy, Debug, PartialEq, Eq, Structural)]
pub enum RequestType {
    WriteRequest,
    ReadRequest,
}

/// One memory request of a trace: its kind, the cycle at which it arrives,
/// and where it goes (bank, thread, NUMA node, channel, domain).
#[derive(Clone, Copy, Debug, PartialEq, Eq, Structural)]
pub struct Request {
    pub request_type: RequestType,
    pub cylce_in: u64,
    pub bank_id: u16,
    pub thread_id: u16,
    pub node: u16,
    pub channel: u16,
    pub domain: u16,
}

impl Request {
    /// Builds a request from its fields.
    pub fn new(
        request_type: RequestType,
        cylce_in: u64,
        bank_id: u16,
        thread_id: u16,
        node: u16,
        channel: u16,
        domain: u16,
    ) -> (r: Request)
        ensures
            r == (Request { request_type, cylce_in, bank_id, thread_id, node, channel, domain }),
    {
        Request { request_type, cylce_in, bank_id, thread_id, node, channel, domain }
    }
}

} // verus!
