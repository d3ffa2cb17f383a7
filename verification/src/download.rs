use vstd::prelude::*;
use crate::chain::ChainStore;
use crate::message::{Body, Header, Message};
use crate::{MAX_BODY_REQUEST_COUNT, MAX_HEADER_REQUEST_COUNT, MAX_PENDING_HEADERS};

verus! {

pub open spec fn sum_sizes(s: Seq<usize>) -> int
    decreases s.len(),
{
    if s.len() == 0 {
        0
    } else {
        s[0] + sum_sizes(s.drop_first())
    }
}

proof fn lemma_sum_sizes_nonneg(s: Seq<usize>)
    ensures
        sum_sizes(s) >= 0,
        s.len() > 0 ==> sum_sizes(s) >= s[0],
    decreases s.len(),
{
    if s.len() > 0 {
        lemma_sum_sizes_nonneg(s.drop_first());
    }
}

pub proof fn lemma_sum_sizes_push(s: Seq<usize>, v: usize)
    ensures
        sum_sizes(s.push(v)) == sum_sizes(s) + v,
    decreases s.len(),
{
    reveal_with_fuel(sum_sizes, 3);
    if s.len() == 0 {
        assert(s.push(v).drop_first() =~= Seq::<usize>::empty());
        assert(s.push(v)[0] == v);
    } else {
        assert(s.push(v).drop_first() =~= s.drop_first().push(v));
        assert(s.push(v)[0] == s[0]);
        lemma_sum_sizes_push(s.drop_first(), v);
    }
}

pub open spec fn sum_scores(s: Seq<Header>) -> int
    decreases s.len(),
{
    if s.len() == 0 {
        0
    } else {
        sum_scores(s.drop_last()) + s.last().score
    }
}

proof fn lemma_sum_scores_take_step(s: Seq<Header>, i: int)
    requires
        0 <= i < s.len(),
    ensures
        sum_scores(s.take(i + 1)) == sum_scores(s.take(i)) + s[i].score,
{
    assert(s.take(i + 1).drop_last() =~= s.take(i));
    assert(s.take(i + 1).last() == s[i]);
}

proof fn lemma_sum_scores_take_monotone(s: Seq<Header>, i: int, j: int)
    requires
        0 <= i <= j <= s.len(),
    ensures
        sum_scores(s.take(i)) <= sum_scores(s.take(j)),
    decreases j - i,
{
    if i < j {
        lemma_sum_scores_take_step(s, j - 1);
        lemma_sum_scores_take_monotone(s, i, j - 1);
    }
}

/// The download manager: tracks the sync frontier (the last block handed to
/// the chain store), the queue of headers known to chain from it but not yet
/// body-completed, and the outstanding body requests over that queue.
///
/// Body requests always cover a prefix of the pending queue, oldest first,
/// so the queue of outstanding requests is kept as the sizes of consecutive
/// prefix slices: `batch_sizes[0]` hashes starting at `pending[0]` form the
/// oldest outstanding request, and so on; `requested` is their total.
pub struct DownloadManager {
    pub frontier: u64,
    pub frontier_number: u64,
    pub pending: Vec<Header>,
    pub batch_sizes: Vec<usize>,
    pub requested: usize,
}

impl DownloadManager {
    /// The hash a new header batch must chain from: the tip of the pending
    /// queue, or the frontier itself when nothing is pending.
    pub open spec fn anchor_hash(self) -> u64 {
        if self.pending@.len() == 0 {
            self.frontier
        } else {
            self.pending@.last().hash
        }
    }

    pub open spec fn anchor_number(self) -> int {
        self.frontier_number + self.pending@.len()
    }

    /// The pending queue is contiguous and strictly increasing in height,
    /// chains link-by-link from the frontier, holds no duplicate hashes, and
    /// the outstanding body requests cover a prefix of it.
    pub open spec fn wf(self) -> bool {
        &&& forall|i: int|
            0 <= i < self.pending@.len() ==> #[trigger] self.pending@[i].number
                == self.frontier_number + 1 + i
        &&& self.pending@.len() > 0 ==> self.pending@[0].parent_hash == self.frontier
        &&& forall|i: int|
            1 <= i < self.pending@.len() ==> #[trigger] self.pending@[i].parent_hash
                == self.pending@[i - 1].hash
        &&& forall|i: int, j: int|
            0 <= i < j < self.pending@.len() ==> self.pending@[i].hash != self.pending@[j].hash
        &&& forall|i: int|
            0 <= i < self.pending@.len() ==> #[trigger] self.pending@[i].hash != self.frontier
        &&& self.requested == sum_sizes(self.batch_sizes@)
        &&& self.requested <= self.pending@.len()
        &&& forall|i: int| 0 <= i < self.batch_sizes@.len() ==> 1 <= #[trigger] self.batch_sizes@[i]
        &&& self.frontier_number + self.pending@.len() <= u64::MAX
    }

    /// A manager whose frontier is the given block and that knows of nothing
    /// beyond it.
    pub fn new(frontier: u64, frontier_number: u64) -> (r: DownloadManager)
        ensures
            r.wf(),
            r.frontier == frontier,
            r.frontier_number == frontier_number,
            r.pending@ == Seq::<Header>::empty(),
            r.batch_sizes@ == Seq::<usize>::empty(),
            r.requested == 0,
    {
        DownloadManager {
            frontier,
            frontier_number,
            pending: Vec::new(),
            batch_sizes: Vec::new(),
            requested: 0,
        }
    }

    /// The current chain-extension boundary, used to judge whether a peer is
    /// ahead of the local node.
    pub fn frontier_hash(&self) -> (r: u64)
        ensures
            r == self.frontier,
    {
        self.frontier
    }

    /// The hash a new header batch must chain from.
    pub fn anchor(&self) -> (r: u64)
        ensures
            r == self.anchor_hash(),
    {
        if self.pending.len() == 0 {
            self.frontier
        } else {
            self.pending[self.pending.len() - 1].hash
        }
    }

    /// Decide the single next unit of work.
    ///
    /// If pending headers lack both bodies and an outstanding body request,
    /// ask for their bodies, oldest first, at most `MAX_BODY_REQUEST_COUNT`
    /// at a time, and record the new outstanding request. Otherwise, if the
    /// pending queue is below `MAX_PENDING_HEADERS`, ask for more headers
    /// from the anchor. Otherwise there is nothing useful to ask.
    pub fn create_request(&mut self) -> (r: Option<Message>)
        requires
            old(self).wf(),
        ensures
            final(self).wf(),
            final(self).frontier == old(self).frontier,
            final(self).frontier_number == old(self).frontier_number,
            final(self).pending@ == old(self).pending@,
            old(self).requested < old(self).pending@.len() ==> {
                let n = if MAX_BODY_REQUEST_COUNT <= old(self).pending@.len() - old(self).requested {
                    MAX_BODY_REQUEST_COUNT as int
                } else {
                    old(self).pending@.len() - old(self).requested
                };
                &&& (r matches Some(m) && m matches Message::RequestBodies { hashes }
                    && hashes@ == Seq::new(n as nat, |k: int| old(self).pending@[old(self).requested + k].hash))
                &&& final(self).batch_sizes@ == old(self).batch_sizes@.push(n as usize)
                &&& final(self).requested == old(self).requested + n
            },
            old(self).requested == old(self).pending@.len() && old(self).pending@.len()
                < MAX_PENDING_HEADERS ==> ((r matches Some(m) && m matches Message::RequestHeaders {
                start_hash,
                max_count,
            } && start_hash == old(self).anchor_hash() && max_count == MAX_HEADER_REQUEST_COUNT)
                && *final(self) == *old(self)),
            old(self).requested == old(self).pending@.len() && old(self).pending@.len()
                >= MAX_PENDING_HEADERS ==> r is None && *final(self) == *old(self),
    {
        if self.requested < self.pending.len() {
            let avail = self.pending.len() - self.requested;
            let n = if MAX_BODY_REQUEST_COUNT <= avail {
                MAX_BODY_REQUEST_COUNT
            } else {
                avail
            };
            let mut hashes: Vec<u64> = Vec::new();
            let mut k: usize = 0;
            while k < n
                invariant
                    0 <= k <= n,
                    self.requested + n <= self.pending@.len(),
                    self.pending@.len() <= usize::MAX,
                    hashes@ == Seq::new(k as nat, |l: int| self.pending@[self.requested + l].hash),
                decreases n - k,
            {
                hashes.push(self.pending[self.requested + k].hash);
                proof {
                    assert(hashes@ =~= Seq::new(
                        (k + 1) as nat,
                        |l: int| self.pending@[self.requested + l].hash,
                    ));
                }
                k = k + 1;
            }
            proof {
                lemma_sum_sizes_push(self.batch_sizes@, n);
            }
            self.batch_sizes.push(n);
            self.requested = self.requested + n;
            Some(Message::RequestBodies { hashes })
        } else if self.pending.len() < MAX_PENDING_HEADERS {
            let start_hash = if self.pending.len() == 0 {
                self.frontier
            } else {
                self.pending[self.pending.len() - 1].hash
            };
            Some(Message::RequestHeaders { start_hash, max_count: MAX_HEADER_REQUEST_COUNT })
        } else {
            None
        }
    }

    /// A header batch extends the known chain exactly when it chains
    /// link-by-link from the anchor with contiguous heights and only fresh,
    /// distinct hashes.
    pub open spec fn extends(self, batch: Seq<Header>) -> bool {
        &&& batch.len() > 0 ==> batch[0].parent_hash == self.anchor_hash()
        &&& forall|i: int|
            1 <= i < batch.len() ==> #[trigger] batch[i].parent_hash == batch[i - 1].hash
        &&& forall|i: int|
            0 <= i < batch.len() ==> #[trigger] batch[i].number == self.anchor_number() + 1 + i
        &&& forall|i: int, j: int| 0 <= i < j < batch.len() ==> batch[i].hash != batch[j].hash
        &&& forall|i: int| 0 <= i < batch.len() ==> #[trigger] batch[i].hash != self.frontier
        &&& forall|i: int, j: int|
            0 <= i < batch.len() && 0 <= j < self.pending@.len() ==> batch[i].hash
                != self.pending@[j].hash
    }

    /// Validate and append a header batch. A batch that does not chain from
    /// the anchor with contiguous heights and fresh hashes is fully
    /// rejected: no partial append, no state change.
    pub fn import_headers(&mut self, batch: &Vec<Header>) -> (r: bool)
        requires
            old(self).wf(),
        ensures
            final(self).wf(),
            r == old(self).extends(batch@),
            r ==> final(self).pending@ == old(self).pending@ + batch@,
            r ==> final(self).frontier == old(self).frontier,
            r ==> final(self).frontier_number == old(self).frontier_number,
            r ==> final(self).batch_sizes@ == old(self).batch_sizes@,
            r ==> final(self).requested == old(self).requested,
            !r ==> *final(self) == *old(self),
    {
        let mut prev_hash: u64 = if self.pending.len() == 0 {
            self.frontier
        } else {
            self.pending[self.pending.len() - 1].hash
        };
        let mut prev_number: u64 = self.frontier_number + (self.pending.len() as u64);
        let ghost m0 = *self;
        let mut i: usize = 0;
        let mut ok = true;
        while i < batch.len() && ok
            invariant
                *self == m0,
                m0.wf(),
                0 <= i <= batch@.len(),
                ok ==> prev_number == m0.anchor_number() + i,
                ok ==> prev_number <= u64::MAX,
                ok ==> prev_hash == (if i == 0 {
                    m0.anchor_hash()
                } else {
                    batch@[i - 1].hash
                }),
                ok ==> batch@.take(i as int).len() > 0 ==> batch@[0].parent_hash
                    == m0.anchor_hash(),
                ok ==> forall|a: int|
                    1 <= a < i ==> #[trigger] batch@[a].parent_hash == batch@[a - 1].hash,
                ok ==> forall|a: int|
                    0 <= a < i ==> #[trigger] batch@[a].number == m0.anchor_number() + 1 + a,
                ok ==> forall|a: int, b: int| 0 <= a < b < i ==> batch@[a].hash != batch@[b].hash,
                ok ==> forall|a: int|
                    0 <= a < i ==> #[trigger] batch@[a].hash != m0.frontier,
                ok ==> forall|a: int, b: int|
                    0 <= a < i && 0 <= b < m0.pending@.len() ==> batch@[a].hash
                        != m0.pending@[b].hash,
                !ok ==> !m0.extends(batch@),
            decreases batch@.len() - i,
        {
            let h = batch[i];
            if prev_number == u64::MAX {
                // the chain cannot be extended past the largest height
                proof {
                    assert(m0.extends(batch@) ==> batch@[i as int].number == m0.anchor_number() + 1
                        + i && batch@[i as int].number <= u64::MAX);
                }
                ok = false;
            } else if h.parent_hash != prev_hash || h.number != prev_number + 1 {
                ok = false;
            } else if h.hash == self.frontier || self.hash_in_pending(h.hash)
                || hash_in_headers(batch, i, h.hash) {
                ok = false;
            } else {
                prev_hash = h.hash;
                prev_number = prev_number + 1;
            }
            i = i + 1;
        }
        if !ok {
            return false;
        }
        proof {
            assert(batch@.take(batch@.len() as int) =~= batch@);
            assert(m0.extends(batch@));
        }
        let ghost p0 = self.pending@;
        let mut j: usize = 0;
        while j < batch.len()
            invariant
                0 <= j <= batch@.len(),
                self.pending@ == p0 + batch@.take(j as int),
                self.frontier == m0.frontier,
                self.frontier_number == m0.frontier_number,
                self.batch_sizes@ == m0.batch_sizes@,
                self.requested == m0.requested,
            decreases batch@.len() - j,
        {
            self.pending.push(batch[j]);
            proof {
                assert(self.pending@ =~= p0 + batch@.take(j + 1));
            }
            j = j + 1;
        }
        proof {
            assert(batch@.take(batch@.len() as int) =~= batch@);
            assert(self.pending@ == p0 + batch@);
            assert forall|a: int|
                0 <= a < self.pending@.len() implies #[trigger] self.pending@[a].number
                == self.frontier_number + 1 + a by {
                if a < p0.len() {
                    assert(self.pending@[a] == p0[a]);
                } else {
                    assert(self.pending@[a] == batch@[a - p0.len()]);
                }
            }
            assert forall|a: int, b: int|
                0 <= a < b < self.pending@.len() implies self.pending@[a].hash
                != self.pending@[b].hash by {
                if b >= p0.len() && a < p0.len() {
                    assert(batch@[b - p0.len()].hash != p0[a].hash);
                }
            }
            if batch@.len() > 0 && p0.len() > 0 {
                assert(self.pending@[p0.len() as int].parent_hash == batch@[0].parent_hash);
                assert(batch@[0].parent_hash == p0.last().hash);
            }
            assert(self.wf());
        }
        true
    }

    fn hash_in_pending(&self, h: u64) -> (r: bool)
        ensures
            r == exists|j: int| 0 <= j < self.pending@.len() && self.pending@[j].hash == h,
    {
        hash_in_headers(&self.pending, self.pending.len(), h)
    }

    /// Whether the bodies of a `Bodies` response line up with the oldest
    /// outstanding body request and every implied block can be accepted by
    /// the chain store in sequence.
    pub open spec fn bodies_applicable(self, chain: ChainStore, bodies: Seq<Body>) -> bool {
        &&& self.batch_sizes@.len() > 0
        &&& 1 <= bodies.len() <= self.batch_sizes@[0]
        &&& self.frontier == chain.spec_best_hash()
        &&& self.frontier_number == chain.height()
        &&& forall|k: int|
            0 <= k < bodies.len() ==> !chain.spec_contains_hash(#[trigger] self.pending@[k].hash)
        &&& chain.spec_total_weight() + sum_scores(self.pending@.take(bodies.len() as int))
            <= u64::MAX
    }

    /// Match a `Bodies` response positionally against the oldest outstanding
    /// body request, assemble the completed blocks in order, hand them to
    /// the chain store, advance the frontier past them and evict them from
    /// the pending queue. A response that does not align with the oldest
    /// outstanding request, or whose blocks the store cannot accept, is
    /// dropped whole: no state change. Returns the number of blocks
    /// accepted.
    #[verifier::rlimit(60)]
    pub fn import_bodies(&mut self, chain: &mut ChainStore, bodies: &Vec<Body>) -> (r: usize)
        requires
            old(self).wf(),
            old(chain).wf(),
        ensures
            final(self).wf(),
            final(chain).wf(),
            final(chain).spec_genesis_hash() == old(chain).spec_genesis_hash(),
            old(self).bodies_applicable(*old(chain), bodies@) ==> {
                let j = bodies@.len() as int;
                &&& r == bodies@.len()
                &&& final(chain).headers@ == old(chain).headers@ + old(self).pending@.take(j)
                &&& final(chain).bodies@ == old(chain).bodies@ + bodies@
                &&& final(self).pending@ == old(self).pending@.subrange(
                    j,
                    old(self).pending@.len() as int,
                )
                &&& final(self).frontier == old(self).pending@[j - 1].hash
                &&& final(self).frontier_number == old(self).frontier_number + j
                &&& final(chain).spec_best_hash() == final(self).frontier
                &&& final(self).requested == old(self).requested - j
                &&& (j == old(self).batch_sizes@[0] ==> final(self).batch_sizes@ == old(
                    self
                ).batch_sizes@.drop_first())
                &&& (j < old(self).batch_sizes@[0] ==> final(self).batch_sizes@ == old(
                    self
                ).batch_sizes@.update(0, (old(self).batch_sizes@[0] - j) as usize))
            },
            !old(self).bodies_applicable(*old(chain), bodies@) ==> r == 0 && *final(self) == *old(
                self
            ) && *final(chain) == *old(chain),
    {
        proof {
            lemma_sum_sizes_nonneg(self.batch_sizes@);
        }
        if self.batch_sizes.len() == 0 {
            return 0;
        }
        let s0 = self.batch_sizes[0];
        if bodies.len() == 0 || bodies.len() > s0 {
            return 0;
        }
        let j = bodies.len();
        if self.frontier != chain.best_hash() || self.frontier_number != chain.best_number() {
            return 0;
        }
        let ghost m0 = *self;
        let ghost c0 = *chain;
        // precheck: freshness of the hashes and room for the weights, so that
        // acceptance cannot fail half-way through
        let mut acc: u64 = chain.chain_info().total_weight;
        let mut k: usize = 0;
        while k < j
            invariant
                *self == m0,
                *chain == c0,
                m0 == *old(self),
                c0 == *old(chain),
                m0.wf(),
                c0.wf(),
                0 <= k <= j,
                j == bodies@.len(),
                1 <= j <= m0.batch_sizes@[0],
                m0.batch_sizes@.len() > 0,
                j <= m0.pending@.len(),
                m0.frontier == c0.spec_best_hash(),
                m0.frontier_number == c0.height(),
                acc == c0.spec_total_weight() + sum_scores(m0.pending@.take(k as int)),
                forall|l: int|
                    0 <= l < k ==> !c0.spec_contains_hash(#[trigger] m0.pending@[l].hash),
            decreases j - k,
        {
            let h = self.pending[k];
            if chain.contains_hash(h.hash) {
                return 0;
            }
            if h.score > u64::MAX - acc {
                proof {
                    lemma_sum_scores_take_step(m0.pending@, k as int);
                    lemma_sum_scores_take_monotone(m0.pending@, k + 1, j as int);
                }
                return 0;
            }
            acc = acc + h.score;
            proof {
                lemma_sum_scores_take_step(m0.pending@, k as int);
            }
            k = k + 1;
        }
        proof {
            assert(m0.bodies_applicable(c0, bodies@));
        }
        self.accept_blocks(chain, bodies);
        self.evict_accepted(j);
        j
    }

    /// Assemble the completed blocks for the first `bodies.len()` pending
    /// headers and hand them to the chain store in order. The precondition
    /// guarantees every one of them is accepted.
    fn accept_blocks(&self, chain: &mut ChainStore, bodies: &Vec<Body>)
        requires
            self.wf(),
            old(chain).wf(),
            1 <= bodies@.len() <= self.pending@.len(),
            self.bodies_applicable(*old(chain), bodies@),
        ensures
            final(chain).wf(),
            final(chain).headers@ == old(chain).headers@ + self.pending@.take(bodies@.len() as int),
            final(chain).bodies@ == old(chain).bodies@ + bodies@,
            final(chain).spec_genesis_hash() == old(chain).spec_genesis_hash(),
            final(chain).spec_best_hash() == self.pending@[bodies@.len() - 1].hash,
            final(chain).height() == old(chain).height() + bodies@.len(),
    {
        let ghost m0 = *self;
        let ghost c0 = *chain;
        let j = bodies.len();
        let mut i: usize = 0;
        while i < j
            invariant
                *self == m0,
                c0 == *old(chain),
                m0.wf(),
                c0.wf(),
                0 <= i <= j,
                1 <= j <= m0.pending@.len(),
                m0.bodies_applicable(c0, bodies@),
                j == bodies@.len(),
                chain.wf(),
                chain.headers@ == c0.headers@ + m0.pending@.take(i as int),
                chain.bodies@ == c0.bodies@ + bodies@.take(i as int),
                chain.spec_genesis_hash() == c0.spec_genesis_hash(),
                chain.spec_total_weight() == c0.spec_total_weight() + sum_scores(
                    m0.pending@.take(i as int),
                ),
            decreases j - i,
        {
            let h = self.pending[i];
            let b = bodies[i];
            proof {
                assert(chain.headers@.len() == c0.headers@.len() + i);
                assert(chain.spec_best_hash() == (if i == 0 {
                    c0.spec_best_hash()
                } else {
                    m0.pending@[i - 1].hash
                })) by {
                    if i > 0 {
                        assert(chain.headers@.last() == m0.pending@.take(i as int)[i - 1]);
                    }
                }
                assert(!chain.spec_contains_hash(h.hash)) by {
                    if chain.spec_contains_hash(h.hash) {
                        let idx = choose|idx: int|
                            0 <= idx < chain.headers@.len() && chain.headers@[idx].hash == h.hash;
                        if idx < c0.headers@.len() {
                            assert(c0.spec_contains_hash(h.hash));
                            assert(!c0.spec_contains_hash(m0.pending@[i as int].hash));
                        } else {
                            assert(chain.headers@[idx] == m0.pending@[idx - c0.headers@.len()]);
                            assert(m0.pending@[idx - c0.headers@.len()].hash
                                != m0.pending@[i as int].hash);
                        }
                    }
                }
                lemma_sum_scores_take_step(m0.pending@, i as int);
                lemma_sum_scores_take_monotone(m0.pending@, i + 1, j as int);
                assert(chain.spec_total_weight() + h.score <= u64::MAX);
                assert(h.number == m0.frontier_number + 1 + i);
                assert(chain.accepts(h));
            }
            let accepted = chain.accept_block(h, b);
            proof {
                assert(accepted);
                assert(chain.headers@ =~= c0.headers@ + m0.pending@.take(i + 1));
                assert(chain.bodies@ =~= c0.bodies@ + bodies@.take(i + 1));
            }
            i = i + 1;
        }
        proof {
            assert(bodies@.take(j as int) =~= bodies@);
            assert(chain.spec_best_hash() == m0.pending@.take(j as int)[j - 1].hash);
        }
    }

    /// Advance the frontier past the first `j` pending headers, evict them,
    /// and shrink the oldest outstanding body request accordingly.
    fn evict_accepted(&mut self, j: usize)
        requires
            old(self).wf(),
            old(self).batch_sizes@.len() > 0,
            1 <= j <= old(self).batch_sizes@[0],
            j <= old(self).pending@.len(),
        ensures
            final(self).wf(),
            final(self).pending@ == old(self).pending@.subrange(
                j as int,
                old(self).pending@.len() as int,
            ),
            final(self).frontier == old(self).pending@[j - 1].hash,
            final(self).frontier_number == old(self).frontier_number + j,
            final(self).requested == old(self).requested - j,
            j == old(self).batch_sizes@[0] ==> final(self).batch_sizes@ == old(
                self
            ).batch_sizes@.drop_first(),
            j < old(self).batch_sizes@[0] ==> final(self).batch_sizes@ == old(
                self
            ).batch_sizes@.update(0, (old(self).batch_sizes@[0] - j) as usize),
    {
        proof {
            lemma_sum_sizes_nonneg(self.batch_sizes@);
            lemma_sum_sizes_nonneg(self.batch_sizes@.drop_first());
        }
        let ghost m0 = *self;
        let s0 = self.batch_sizes[0];
        let new_frontier = self.pending[j - 1].hash;
        self.frontier = new_frontier;
        self.frontier_number = self.frontier_number + (j as u64);
        let ghost p0 = self.pending@;
        let mut np: Vec<Header> = Vec::new();
        let mut t: usize = j;
        while t < self.pending.len()
            invariant
                j <= t <= self.pending@.len(),
                self.pending@ == p0,
                j <= p0.len(),
                np@ == p0.subrange(j as int, t as int),
            decreases self.pending@.len() - t,
        {
            np.push(self.pending[t]);
            proof {
                assert(np@ =~= p0.subrange(j as int, t + 1));
            }
            t = t + 1;
        }
        self.pending = np;
        if j == s0 {
            let ghost bs0 = self.batch_sizes@;
            self.batch_sizes.remove(0);
            proof {
                assert(self.batch_sizes@ =~= bs0.drop_first());
            }
        } else {
            let ghost bs0 = self.batch_sizes@;
            self.batch_sizes[0] = s0 - j;
            proof {
                assert(self.batch_sizes@.drop_first() =~= bs0.drop_first());
            }
        }
        self.requested = self.requested - j;
        proof {
            assert(self.pending@ == m0.pending@.subrange(j as int, m0.pending@.len() as int));
            assert forall|a: int|
                0 <= a < self.pending@.len() implies #[trigger] self.pending@[a].number
                == self.frontier_number + 1 + a by {
                assert(self.pending@[a] == m0.pending@[j + a]);
            }
            assert forall|a: int, b: int|
                0 <= a < b < self.pending@.len() implies self.pending@[a].hash
                != self.pending@[b].hash by {
                assert(self.pending@[a] == m0.pending@[j + a]);
                assert(self.pending@[b] == m0.pending@[j + b]);
            }
            assert forall|a: int|
                0 <= a < self.pending@.len() implies #[trigger] self.pending@[a].hash
                != self.frontier by {
                assert(self.pending@[a] == m0.pending@[j + a]);
                assert(m0.pending@[j - 1].hash != m0.pending@[j + a].hash);
            }
            if self.pending@.len() > 0 {
                assert(self.pending@[0] == m0.pending@[j as int]);
                assert(m0.pending@[j as int].parent_hash == m0.pending@[j - 1].hash);
            }
            assert forall|a: int|
                1 <= a < self.pending@.len() implies #[trigger] self.pending@[a].parent_hash
                == self.pending@[a - 1].hash by {
                assert(self.pending@[a] == m0.pending@[j + a]);
                assert(self.pending@[a - 1] == m0.pending@[j + a - 1]);
            }
            if j == s0 {
                assert(self.requested == sum_sizes(self.batch_sizes@));
            } else {
                assert(sum_sizes(self.batch_sizes@) == self.batch_sizes@[0] + sum_sizes(
                    self.batch_sizes@.drop_first(),
                ));
                assert(self.requested == sum_sizes(self.batch_sizes@));
            }
            assert(self.wf());
        }
    }
}

/// Whether one of the first `n` headers carries the hash `h`.
fn hash_in_headers(headers: &Vec<Header>, n: usize, h: u64) -> (r: bool)
    requires
        n <= headers@.len(),
    ensures
        r == exists|j: int| 0 <= j < n && headers@[j].hash == h,
{
    let mut i: usize = 0;
    while i < n
        invariant
            0 <= i <= n <= headers@.len(),
            forall|j: int| 0 <= j < i ==> headers@[j].hash != h,
        decreases n - i,
    {
        if headers[i].hash == h {
            return true;
        }
        i = i + 1;
    }
    false
}

} // verus!
