use vstd::prelude::*;

use crate::request::Request;

verus! {

/// How a scheduler walks a queue from its head: it stops at the first request
/// that has not arrived yet (`strict`: whose arrival cycle is not before
/// `time`; otherwise: whose arrival cycle is after `time`), passes over the
/// requests that do not fit, and takes the first one that does. A request fits
/// when its channel is `channel` (where one is given) and its bank, modulo 3,
/// is `bank` (where one is given).
#[derive(Clone, Copy, Debug, PartialEq, Eq, Structural)]
pub struct ScanRule {
    pub strict: bool,
    pub channel: Option<u16>,
    pub bank: Option<u16>,
}

impl ScanRule {
    /// The scan stops at `r`: it has not arrived by `time`.
    pub open spec fn halts_at(self, r: Request, time: u64) -> bool {
        if self.strict {
            r.cylce_in >= time
        } else {
            r.cylce_in > time
        }
    }

    /// `r` fits the rule.
    pub open spec fn accepts(self, r: Request) -> bool {
        &&& (self.channel matches Some(c) ==> r.channel == c)
        &&& (self.bank matches Some(b) ==> r.bank_id % 3 == b)
    }

    /// The scan of `q` at `time` takes the request at index `i`.
    pub open spec fn picks_at(self, q: Seq<Request>, time: u64, i: int) -> bool {
        &&& 0 <= i < q.len()
        &&& !self.halts_at(q[i], time)
        &&& self.accepts(q[i])
        &&& forall|j: int| 0 <= j < i ==> !self.halts_at(#[trigger] q[j], time) && !self.accepts(q[j])
    }

    /// The index that the scan of `q` at `time` takes, if any.
    pub open spec fn pick(self, q: Seq<Request>, time: u64) -> Option<int> {
        if exists|i: int| self.picks_at(q, time, i) {
            Some(choose|i: int| self.picks_at(q, time, i))
        } else {
            None
        }
    }

    /// A scan takes at most one index.
    pub proof fn lemma_pick_unique(self, q: Seq<Request>, time: u64, i: int, k: int)
        requires
            self.picks_at(q, time, i),
            self.picks_at(q, time, k),
        ensures
            i == k,
    {
        if i < k {
            assert(!self.accepts(q[i]));
        } else if k < i {
            assert(!self.accepts(q[k]));
        }
    }

    /// `pick` names exactly the index that the scan takes.
    pub proof fn lemma_pick_is(self, q: Seq<Request>, time: u64, i: int)
        requires
            self.picks_at(q, time, i),
        ensures
            self.pick(q, time) == Some(i),
    {
        let k = choose|k: int| self.picks_at(q, time, k);
        self.lemma_pick_unique(q, time, i, k);
    }

    fn halts_exec(&self, r: &Request, time: u64) -> (b: bool)
        ensures
            b == self.halts_at(*r, time),
    {
        if self.strict {
            r.cylce_in >= time
        } else {
            r.cylce_in > time
        }
    }

    fn accepts_exec(&self, r: &Request) -> (b: bool)
        ensures
            b == self.accepts(*r),
    {
        let channel_ok = match self.channel {
            Some(c) => r.channel == c,
            None => true,
        };
        let bank_ok = match self.bank {
            Some(b) => r.bank_id % 3 == b,
            None => true,
        };
        channel_ok && bank_ok
    }

    /// Walks `q` from its head at `time` and returns the index it takes.
    pub fn scan(&self, q: &Vec<Request>, time: u64) -> (res: Option<usize>)
        ensures
            index_of(res) == self.pick(q@, time),
    {
        let mut i: usize = 0;
        while i < q.len()
            invariant
                i <= q.len(),
                forall|j: int| 0 <= j < i ==> !self.halts_at(#[trigger] q@[j], time) && !self.accepts(q@[j]),
            decreases q.len() - i,
        {
            let r = q[i];
            if self.halts_exec(&r, time) {
                proof {
                    assert forall|k: int| !self.picks_at(q@, time, k) by {
                        if self.picks_at(q@, time, k) && k > i {
                            assert(!self.halts_at(q@[i as int], time));
                        }
                    }
                }
                return None;
            }
            if self.accepts_exec(&r) {
                proof {
                    self.lemma_pick_is(q@, time, i as int);
                }
                return Some(i);
            }
            i = i + 1;
        }
        proof {
            assert forall|k: int| !self.picks_at(q@, time, k) by {}
        }
        None
    }
}

/// An index that an executable function returns, as an integer.
pub open spec fn index_of(o: Option<usize>) -> Option<int> {
    match o {
        Some(i) => Some(i as int),
        None => None,
    }
}

} // verus!
