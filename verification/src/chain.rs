use vstd::prelude::*;
use crate::message::{Body, Header};

verus! {

/// Summary of the local chain: accumulated weight, best block hash and
/// genesis hash, as announced in a `Status` message.
#[derive(Clone, Copy, PartialEq, Eq, Structural, Debug)]
pub struct ChainInfo {
    pub total_weight: u64,
    pub best_hash: u64,
    pub genesis_hash: u64,
}

/// The chain store: the durable, internally consistent sequence of blocks
/// the node has accepted, indexed by height. `totals[i]` is the accumulated
/// weight of the chain up to and including height `i`.
pub struct ChainStore {
    pub headers: Vec<Header>,
    pub bodies: Vec<Body>,
    pub totals: Vec<u64>,
}

impl ChainStore {
    /// Internal consistency: non-empty, heights are the indices, each block
    /// links to its predecessor, hashes are distinct, and the accumulated
    /// weights add up block by block.
    pub open spec fn wf(self) -> bool {
        &&& self.headers@.len() >= 1
        &&& self.bodies@.len() == self.headers@.len()
        &&& self.totals@.len() == self.headers@.len()
        &&& forall|i: int|
            0 <= i < self.headers@.len() ==> #[trigger] self.headers@[i].number == i
        &&& forall|i: int|
            1 <= i < self.headers@.len() ==> #[trigger] self.headers@[i].parent_hash
                == self.headers@[i - 1].hash
        &&& self.totals@[0] == self.headers@[0].score
        &&& forall|i: int|
            1 <= i < self.headers@.len() ==> #[trigger] self.totals@[i] == self.totals@[i - 1]
                + self.headers@[i].score
        &&& forall|i: int, j: int|
            0 <= i < j < self.headers@.len() ==> self.headers@[i].hash != self.headers@[j].hash
    }

    pub open spec fn height(self) -> int {
        self.headers@.len() - 1
    }

    pub open spec fn spec_best_hash(self) -> u64 {
        self.headers@.last().hash
    }

    pub open spec fn spec_genesis_hash(self) -> u64 {
        self.headers@[0].hash
    }

    pub open spec fn spec_total_weight(self) -> u64 {
        self.totals@.last()
    }

    pub open spec fn spec_contains_hash(self, h: u64) -> bool {
        exists|i: int| 0 <= i < self.headers@.len() && self.headers@[i].hash == h
    }

    /// The height at which `h` stands; meaningful only when the chain
    /// contains `h`, and then unique because hashes are distinct.
    pub open spec fn hash_height(self, h: u64) -> int {
        choose|i: int| 0 <= i < self.headers@.len() && self.headers@[i].hash == h
    }

    /// A store holding only the genesis block.
    pub fn new(genesis: Header, genesis_body: Body) -> (r: ChainStore)
        requires
            genesis.number == 0,
        ensures
            r.wf(),
            r.headers@ == seq![genesis],
            r.bodies@ == seq![genesis_body],
            r.spec_best_hash() == genesis.hash,
            r.spec_genesis_hash() == genesis.hash,
            r.spec_total_weight() == genesis.score,
    {
        let mut headers: Vec<Header> = Vec::new();
        headers.push(genesis);
        let mut bodies: Vec<Body> = Vec::new();
        bodies.push(genesis_body);
        let mut totals: Vec<u64> = Vec::new();
        totals.push(genesis.score);
        proof {
            assert(headers@ =~= seq![genesis]);
            assert(bodies@ =~= seq![genesis_body]);
        }
        ChainStore { headers, bodies, totals }
    }

    pub fn best_hash(&self) -> (r: u64)
        requires
            self.wf(),
        ensures
            r == self.spec_best_hash(),
    {
        self.headers[self.headers.len() - 1].hash
    }

    pub fn best_number(&self) -> (r: u64)
        requires
            self.wf(),
        ensures
            r == self.height(),
    {
        self.headers[self.headers.len() - 1].number
    }

    pub fn genesis_hash(&self) -> (r: u64)
        requires
            self.wf(),
        ensures
            r == self.spec_genesis_hash(),
    {
        self.headers[0].hash
    }

    /// The chain summary sent in `Status` announcements.
    pub fn chain_info(&self) -> (r: ChainInfo)
        requires
            self.wf(),
        ensures
            r.total_weight == self.spec_total_weight(),
            r.best_hash == self.spec_best_hash(),
            r.genesis_hash == self.spec_genesis_hash(),
    {
        ChainInfo {
            total_weight: self.totals[self.totals.len() - 1],
            best_hash: self.headers[self.headers.len() - 1].hash,
            genesis_hash: self.headers[0].hash,
        }
    }

    /// The height of the block with hash `h`, if the chain holds one.
    pub fn find_height(&self, h: u64) -> (r: Option<usize>)
        requires
            self.wf(),
        ensures
            match r {
                Some(i) => self.spec_contains_hash(h) && 0 <= i < self.headers@.len()
                    && self.headers@[i as int].hash == h && self.hash_height(h) == i,
                None => !self.spec_contains_hash(h),
            },
    {
        let mut i: usize = 0;
        while i < self.headers.len()
            invariant
                self.wf(),
                0 <= i <= self.headers@.len(),
                forall|j: int| 0 <= j < i ==> self.headers@[j].hash != h,
            decreases self.headers@.len() - i,
        {
            if self.headers[i].hash == h {
                return Some(i);
            }
            i = i + 1;
        }
        None
    }

    pub fn contains_hash(&self, h: u64) -> (r: bool)
        requires
            self.wf(),
        ensures
            r == self.spec_contains_hash(h),
    {
        self.find_height(h).is_some()
    }

    /// Header lookup by hash.
    pub fn header_by_hash(&self, h: u64) -> (r: Option<Header>)
        requires
            self.wf(),
        ensures
            match r {
                Some(hd) => self.spec_contains_hash(h) && hd == self.headers@[self.hash_height(h)],
                None => !self.spec_contains_hash(h),
            },
    {
        match self.find_height(h) {
            Some(i) => Some(self.headers[i]),
            None => None,
        }
    }

    /// Header lookup by height.
    pub fn header_by_number(&self, n: u64) -> (r: Option<Header>)
        requires
            self.wf(),
        ensures
            match r {
                Some(hd) => n < self.headers@.len() && hd == self.headers@[n as int],
                None => n >= self.headers@.len(),
            },
    {
        if n < self.headers.len() as u64 {
            Some(self.headers[n as usize])
        } else {
            None
        }
    }

    /// Body lookup by header hash.
    pub fn body_by_hash(&self, h: u64) -> (r: Option<Body>)
        requires
            self.wf(),
        ensures
            match r {
                Some(b) => self.spec_contains_hash(h) && b == self.bodies@[self.hash_height(h)],
                None => !self.spec_contains_hash(h),
            },
    {
        match self.find_height(h) {
            Some(i) => Some(self.bodies[i]),
            None => None,
        }
    }

    /// Accumulated chain weight at the block with hash `h`.
    pub fn score_at(&self, h: u64) -> (r: Option<u64>)
        requires
            self.wf(),
        ensures
            match r {
                Some(t) => self.spec_contains_hash(h) && t == self.totals@[self.hash_height(h)],
                None => !self.spec_contains_hash(h),
            },
    {
        match self.find_height(h) {
            Some(i) => Some(self.totals[i]),
            None => None,
        }
    }

    /// A block is admissible when it extends the current best block with the
    /// next height, a fresh hash, and an accumulated weight that still fits.
    pub open spec fn accepts(self, h: Header) -> bool {
        &&& h.parent_hash == self.spec_best_hash()
        &&& h.number == self.headers@.len()
        &&& !self.spec_contains_hash(h.hash)
        &&& self.spec_total_weight() + h.score <= u64::MAX
    }

    /// Hand a newly assembled block to the store. Returns whether it was
    /// accepted; a rejected block changes nothing.
    pub fn accept_block(&mut self, h: Header, b: Body) -> (r: bool)
        requires
            old(self).wf(),
        ensures
            final(self).wf(),
            r == old(self).accepts(h),
            r ==> final(self).headers@ == old(self).headers@.push(h),
            r ==> final(self).bodies@ == old(self).bodies@.push(b),
            r ==> final(self).spec_best_hash() == h.hash,
            r ==> final(self).spec_total_weight() == old(self).spec_total_weight() + h.score,
            !r ==> *final(self) == *old(self),
            final(self).spec_genesis_hash() == old(self).spec_genesis_hash(),
    {
        let n = self.headers.len();
        let total = self.totals[n - 1];
        if h.parent_hash != self.headers[n - 1].hash {
            return false;
        }
        if h.number != n as u64 {
            return false;
        }
        if self.contains_hash(h.hash) {
            return false;
        }
        if h.score > u64::MAX - total {
            return false;
        }
        self.headers.push(h);
        self.bodies.push(b);
        self.totals.push(total + h.score);
        true
    }
}

} // verus!
