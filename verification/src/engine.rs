use vstd::prelude::*;
use vstd::seq_lib::group_to_multiset_ensures;
use crate::chain::ChainStore;
use crate::download::DownloadManager;
use crate::message::{Body, Header, Message, MessageV};
use crate::session::{PeerSession, RequestInfo, SessionTable};

verus! {

/// Identifier of the periodic timer that drives idle peers.
pub const SYNC_TIMER_ID: u64 = 0;

/// Interval of that timer, in milliseconds.
pub const SYNC_TIMER_INTERVAL_MS: u64 = 1000;

/// The block-synchronization engine: per-peer protocol state, the download
/// manager it owns, and whether a network handle is attached (between
/// initialization and close).
pub struct BlockSyncExtension {
    pub peers: SessionTable,
    pub manager: DownloadManager,
    pub active: bool,
}

/// The peer session table after a valid `Status{total_weight, best_hash, ..}`
/// from `id` is applied: weight and hash reflect only this most recent
/// announcement; an existing peer keeps its outstanding request, a new peer
/// starts idle; no other peer's entry changes.
pub open spec fn status_applied(
    pre: Map<u64, PeerSession>,
    id: u64,
    total_weight: u64,
    best_hash: u64,
) -> Map<u64, PeerSession> {
    let last_request = if pre.contains_key(id) {
        pre[id].last_request
    } else {
        None
    };
    pre.insert(id, PeerSession { total_weight, best_hash, last_request })
}

/// The validation policy for an inbound message from peer `id`:
/// a `Status` is valid exactly when its genesis hash matches the local one;
/// every other variant needs an existing session, and responses must match
/// the single outstanding request recorded for the peer.
pub open spec fn spec_valid_message(
    peers: Map<u64, PeerSession>,
    local_genesis: u64,
    id: u64,
    m: MessageV,
) -> bool {
    match m {
        MessageV::Status { genesis_hash, .. } => genesis_hash == local_genesis,
        MessageV::RequestHeaders { .. } => peers.contains_key(id),
        MessageV::RequestBodies { hashes } => peers.contains_key(id) && hashes.len() > 0,
        MessageV::Headers { headers } => peers.contains_key(id) && match peers[id].last_request {
            Some(RequestInfo::AwaitingHeaders { start_hash }) => headers.len() == 0
                || headers[0].hash == start_hash,
            _ => false,
        },
        MessageV::Bodies { .. } => peers.contains_key(id) && (peers[id].last_request matches Some(
            RequestInfo::AwaitingBodies { .. }
        )),
    }
}

/// A `Headers` response whose first entry is the anchor it was requested
/// from repeats a header the node already has: that entry is dropped before
/// the batch is imported.
pub open spec fn trimmed(man: DownloadManager, headers: Seq<Header>) -> Seq<Header> {
    if headers.len() > 0 && headers[0].hash == man.anchor_hash() {
        headers.drop_first()
    } else {
        headers
    }
}

/// Effect of `DownloadManager::import_headers` on the manager.
pub open spec fn import_headers_rel(
    pre: DownloadManager,
    post: DownloadManager,
    batch: Seq<Header>,
) -> bool {
    &&& pre.extends(batch) ==> post.pending@ == pre.pending@ + batch && post.frontier
        == pre.frontier && post.frontier_number == pre.frontier_number && post.batch_sizes@
        == pre.batch_sizes@ && post.requested == pre.requested
    &&& !pre.extends(batch) ==> post == pre
}

/// Effect of `DownloadManager::import_bodies` on the manager and the chain
/// store.
pub open spec fn import_bodies_rel(
    pre_m: DownloadManager,
    pre_c: ChainStore,
    bodies: Seq<Body>,
    post_m: DownloadManager,
    post_c: ChainStore,
) -> bool {
    &&& pre_m.bodies_applicable(pre_c, bodies) ==> {
        let j = bodies.len() as int;
        &&& post_c.headers@ == pre_c.headers@ + pre_m.pending@.take(j)
        &&& post_c.bodies@ == pre_c.bodies@ + bodies
        &&& post_m.pending@ == pre_m.pending@.subrange(j, pre_m.pending@.len() as int)
        &&& post_m.frontier == pre_m.pending@[j - 1].hash
        &&& post_m.frontier_number == pre_m.frontier_number + j
        &&& post_m.requested == pre_m.requested - j
        &&& (j == pre_m.batch_sizes@[0] ==> post_m.batch_sizes@
            == pre_m.batch_sizes@.drop_first())
        &&& (j < pre_m.batch_sizes@[0] ==> post_m.batch_sizes@ == pre_m.batch_sizes@.update(
            0,
            (pre_m.batch_sizes@[0] - j) as usize,
        ))
    }
    &&& !pre_m.bodies_applicable(pre_c, bodies) ==> post_m == pre_m && post_c == pre_c
}

/// Effect of applying a valid message: a `Status` updates the session table,
/// responses feed the download manager, requests change nothing.
pub open spec fn apply_rel(
    pre: BlockSyncExtension,
    pre_c: ChainStore,
    id: u64,
    m: MessageV,
    post: BlockSyncExtension,
    post_c: ChainStore,
) -> bool {
    &&& post.active == pre.active
    &&& match m {
        MessageV::Status { total_weight, best_hash, .. } => post.peers@ == status_applied(
            pre.peers@,
            id,
            total_weight,
            best_hash,
        ) && post.manager == pre.manager && post_c == pre_c,
        MessageV::RequestHeaders { .. } | MessageV::RequestBodies { .. } => post.peers@
            == pre.peers@ && post.manager == pre.manager && post_c == pre_c,
        MessageV::Headers { headers } => post.peers@ == pre.peers@ && post_c == pre_c
            && import_headers_rel(pre.manager, post.manager, trimmed(pre.manager, headers)),
        MessageV::Bodies { bodies } => post.peers@ == pre.peers@ && import_bodies_rel(
            pre.manager,
            pre_c,
            bodies,
            post.manager,
            post_c,
        ),
    }
}

/// Effect of recording the newly issued request (or lack of one) for a
/// peer: only that peer's `last_request` changes, and only if the peer has a
/// session; a reply that is not a request leaves the record untouched.
pub open spec fn record_rel(
    pre: Map<u64, PeerSession>,
    id: u64,
    next: Option<MessageV>,
    post: Map<u64, PeerSession>,
) -> bool {
    if !pre.contains_key(id) {
        post == pre
    } else {
        match next {
            Some(MessageV::RequestHeaders { start_hash, .. }) => post == pre.insert(
                id,
                PeerSession {
                    total_weight: pre[id].total_weight,
                    best_hash: pre[id].best_hash,
                    last_request: Some(RequestInfo::AwaitingHeaders { start_hash }),
                },
            ),
            Some(MessageV::RequestBodies { hashes }) => {
                &&& post.dom() == pre.dom()
                &&& post[id].total_weight == pre[id].total_weight
                &&& post[id].best_hash == pre[id].best_hash
                &&& (post[id].last_request matches Some(RequestInfo::AwaitingBodies { hashes: h })
                    && h@ == hashes)
                &&& forall|k: u64| k != id && pre.contains_key(k) ==> post[k] == pre[k]
            },
            Some(_) => post == pre,
            None => post == pre.insert(
                id,
                PeerSession {
                    total_weight: pre[id].total_weight,
                    best_hash: pre[id].best_hash,
                    last_request: None,
                },
            ),
        }
    }
}

pub open spec fn opt_view(m: Option<Message>) -> Option<MessageV> {
    match m {
        Some(mm) => Some(mm@),
        None => None,
    }
}

/// The accumulated chain weight at the block with hash `h`.
pub open spec fn weight_at(c: ChainStore, h: u64) -> u64 {
    c.totals@[c.hash_height(h)]
}

/// The `Headers` reply to `RequestHeaders{start_hash, max_count}`: walk
/// forward from `start_hash` (inclusive) for up to `max_count` headers,
/// stopping at the chain tip; an unknown start yields an empty reply.
pub open spec fn headers_reply(c: ChainStore, start_hash: u64, max_count: u64) -> Seq<Header> {
    if !c.spec_contains_hash(start_hash) {
        Seq::empty()
    } else {
        let h = c.hash_height(start_hash);
        let e = if h + max_count <= c.headers@.len() {
            h + max_count
        } else {
            c.headers@.len() as int
        };
        c.headers@.subrange(h, e)
    }
}

/// The `Bodies` reply to `RequestBodies{hashes}`: the stored body of each
/// requested hash in request order, silently omitting unknown hashes.
pub open spec fn bodies_reply(c: ChainStore, hashes: Seq<u64>) -> Seq<Body>
    decreases hashes.len(),
{
    if hashes.len() == 0 {
        Seq::empty()
    } else {
        let rest = bodies_reply(c, hashes.drop_last());
        if c.spec_contains_hash(hashes.last()) {
            rest.push(c.bodies@[c.hash_height(hashes.last())])
        } else {
            rest
        }
    }
}

/// Effect of `DownloadManager::create_request` (mirrors its contract).
pub open spec fn create_request_rel(
    pre: DownloadManager,
    post: DownloadManager,
    r: Option<Message>,
) -> bool {
    &&& post.frontier == pre.frontier
    &&& post.frontier_number == pre.frontier_number
    &&& post.pending@ == pre.pending@
    &&& pre.requested < pre.pending@.len() ==> {
        let n = if crate::MAX_BODY_REQUEST_COUNT <= pre.pending@.len() - pre.requested {
            crate::MAX_BODY_REQUEST_COUNT as int
        } else {
            pre.pending@.len() - pre.requested
        };
        &&& (r matches Some(m) && m matches Message::RequestBodies { hashes } && hashes@
            == Seq::new(n as nat, |k: int| pre.pending@[pre.requested + k].hash))
        &&& post.batch_sizes@ == pre.batch_sizes@.push(n as usize)
        &&& post.requested == pre.requested + n
    }
    &&& pre.requested == pre.pending@.len() && pre.pending@.len() < crate::MAX_PENDING_HEADERS
        ==> ((r matches Some(m) && m matches Message::RequestHeaders { start_hash, max_count }
        && start_hash == pre.anchor_hash() && max_count == crate::MAX_HEADER_REQUEST_COUNT) && post
        == pre)
    &&& pre.requested == pre.pending@.len() && pre.pending@.len() >= crate::MAX_PENDING_HEADERS
        ==> r is None && post == pre
}

/// Follow-up after applying a `Headers`/`Bodies` response from `id`: if the
/// peer's advertised weight is strictly ahead of the local weight at the
/// frontier, the download manager decides the next request; either way the
/// outcome is recorded as the peer's single outstanding request.
pub open spec fn followup_rel(
    mid: BlockSyncExtension,
    c: ChainStore,
    id: u64,
    next: Option<Message>,
    post: BlockSyncExtension,
) -> bool {
    let ahead = mid.peers@[id].total_weight > weight_at(c, mid.manager.frontier);
    &&& post.active == mid.active
    &&& (ahead ==> create_request_rel(mid.manager, post.manager, next))
    &&& (!ahead ==> post.manager == mid.manager && next is None)
    &&& record_rel(mid.peers@, id, opt_view(next), post.peers@)
}

/// The full effect of one validated inbound message: apply it, compute the
/// owed reply or follow-up request, record it, and emit it if the network
/// handle is attached.
pub open spec fn step_rel(
    pre: BlockSyncExtension,
    pre_c: ChainStore,
    id: u64,
    m: MessageV,
    post: BlockSyncExtension,
    post_c: ChainStore,
    r: Option<Message>,
) -> bool {
    match m {
        MessageV::Status { .. } => apply_rel(pre, pre_c, id, m, post, post_c) && r is None,
        MessageV::RequestHeaders { start_hash, max_count } => {
            &&& post.peers@ == pre.peers@
            &&& post.manager == pre.manager
            &&& post_c == pre_c
            &&& post.active == pre.active
            &&& pre.active ==> (r matches Some(mm) && mm matches Message::Headers { headers }
                && headers@ == headers_reply(pre_c, start_hash, max_count))
            &&& !pre.active ==> r is None
        },
        MessageV::RequestBodies { hashes } => {
            &&& post.peers@ == pre.peers@
            &&& post.manager == pre.manager
            &&& post_c == pre_c
            &&& post.active == pre.active
            &&& pre.active ==> (r matches Some(mm) && mm matches Message::Bodies { bodies }
                && bodies@ == bodies_reply(pre_c, hashes))
            &&& !pre.active ==> r is None
        },
        MessageV::Headers { .. } | MessageV::Bodies { .. } => exists|
            mid: BlockSyncExtension,
            next: Option<Message>,
        |
            {
                &&& #[trigger] apply_rel(pre, pre_c, id, m, mid, post_c)
                &&& #[trigger] followup_rel(mid, post_c, id, next, post)
                &&& r == (if pre.active {
                    next
                } else {
                    None
                })
            },
    }
}

/// One visit of the periodic timer to an idle peer: the download manager
/// decides the next unit of work, the outcome is recorded as that peer's
/// single outstanding request, and the request (if there is one) is emitted
/// while the network handle is attached.
pub open spec fn timeout_step(
    p0: Map<u64, PeerSession>,
    m0: DownloadManager,
    id: u64,
    active: bool,
    p1: Map<u64, PeerSession>,
    m1: DownloadManager,
    sent: Seq<(u64, Message)>,
) -> bool {
    exists|next: Option<Message>|
        {
            &&& #[trigger] create_request_rel(m0, m1, next)
            &&& record_rel(p0, id, opt_view(next), p1)
            &&& sent == (match next {
                Some(msg) => if active {
                    seq![(id, msg)]
                } else {
                    Seq::<(u64, Message)>::empty()
                },
                None => Seq::<(u64, Message)>::empty(),
            })
        }
}

/// The full effect of one timer event on a sequence of peers, witnessed by
/// the chain of intermediate states: `ps[k]` and `ms[k]` are the session
/// table and download manager before the `k`-th visited peer, each visit is
/// one `timeout_step`, and `sents[k]` is what that visit emitted.
pub open spec fn timeout_trace(
    p0: Map<u64, PeerSession>,
    m0: DownloadManager,
    ids: Seq<u64>,
    active: bool,
    ps: Seq<Map<u64, PeerSession>>,
    ms: Seq<DownloadManager>,
    sents: Seq<Seq<(u64, Message)>>,
) -> bool {
    &&& ps.len() == ids.len() + 1
    &&& ms.len() == ids.len() + 1
    &&& sents.len() == ids.len()
    &&& ps[0] == p0
    &&& ms[0] == m0
    &&& forall|k: int|
        0 <= k < ids.len() ==> #[trigger] timeout_step(
            ps[k],
            ms[k],
            ids[k],
            active,
            ps[k + 1],
            ms[k + 1],
            sents[k],
        )
}

impl BlockSyncExtension {
    pub open spec fn wf(self) -> bool {
        &&& self.peers.wf()
        &&& self.manager.wf()
    }

    /// A fresh engine for the given chain store: no peers, no network
    /// handle, the frontier at the store's best block.
    pub fn new(chain: &ChainStore) -> (r: BlockSyncExtension)
        requires
            chain.wf(),
        ensures
            r.wf(),
            !r.active,
            r.peers@ == Map::<u64, PeerSession>::empty(),
            r.manager.frontier == chain.spec_best_hash(),
            r.manager.frontier_number == chain.height(),
            r.manager.pending@ == Seq::<Header>::empty(),
            r.manager.batch_sizes@ == Seq::<usize>::empty(),
            r.manager.requested == 0,
    {
        BlockSyncExtension {
            peers: SessionTable::new(),
            manager: DownloadManager::new(chain.best_hash(), chain.best_number()),
            active: false,
        }
    }

    /// The extension's protocol name.
    pub fn name(&self) -> (r: &'static str)
        ensures
            r@ == "block-propagation"@,
    {
        "block-propagation"
    }

    pub fn need_encryption(&self) -> (r: bool)
        ensures
            !r,
    {
        false
    }

    /// Attach to the network: all peer sessions are cleared; the caller arms
    /// the periodic timer `SYNC_TIMER_ID`.
    pub fn on_initialize(&mut self)
        requires
            old(self).wf(),
        ensures
            final(self).wf(),
            final(self).peers@ == Map::<u64, PeerSession>::empty(),
            final(self).manager == old(self).manager,
            final(self).active,
    {
        self.peers.clear();
        self.active = true;
    }

    /// The network substrate reports a peer gone: its session and any
    /// in-flight request are abandoned.
    pub fn on_node_removed(&mut self, id: u64)
        requires
            old(self).wf(),
        ensures
            final(self).wf(),
            final(self).peers@ == old(self).peers@.remove(id),
            final(self).manager == old(self).manager,
            final(self).active == old(self).active,
    {
        self.peers.remove(id);
    }

    /// A connection is up: announce the local chain summary.
    pub fn on_connected(&self, chain: &ChainStore) -> (r: Option<Message>)
        requires
            self.wf(),
            chain.wf(),
        ensures
            self.active ==> (r matches Some(mm) && mm matches Message::Status {
                total_weight,
                best_hash,
                genesis_hash,
            } && total_weight == chain.spec_total_weight() && best_hash == chain.spec_best_hash()
                && genesis_hash == chain.spec_genesis_hash()),
            !self.active ==> r is None,
    {
        if !self.active {
            return None;
        }
        let info = chain.chain_info();
        Some(
            Message::Status {
                total_weight: info.total_weight,
                best_hash: info.best_hash,
                genesis_hash: info.genesis_hash,
            },
        )
    }

    /// An inbound connection was allowed: same announcement as a connection.
    pub fn on_connection_allowed(&self, chain: &ChainStore) -> (r: Option<Message>)
        requires
            self.wf(),
            chain.wf(),
        ensures
            self.active ==> (r matches Some(mm) && mm matches Message::Status {
                total_weight,
                best_hash,
                genesis_hash,
            } && total_weight == chain.spec_total_weight() && best_hash == chain.spec_best_hash()
                && genesis_hash == chain.spec_genesis_hash()),
            !self.active ==> r is None,
    {
        self.on_connected(chain)
    }

    /// Detach from the network: sends become no-ops until re-initialized.
    pub fn on_close(&mut self)
        requires
            old(self).wf(),
        ensures
            final(self).wf(),
            final(self).peers@ == old(self).peers@,
            final(self).manager == old(self).manager,
            !final(self).active,
    {
        self.active = false;
    }

    /// Decide whether an inbound message is valid for peer `id` under the
    /// current session table and local genesis hash.
    pub fn is_valid_message(&self, chain: &ChainStore, id: u64, m: &Message) -> (r: bool)
        requires
            self.wf(),
            chain.wf(),
        ensures
            r == spec_valid_message(self.peers@, chain.spec_genesis_hash(), id, m@),
    {
        match m {
            Message::Status { genesis_hash, .. } => *genesis_hash == chain.genesis_hash(),
            Message::RequestHeaders { .. } => self.peers.contains(id),
            Message::RequestBodies { hashes } => self.peers.contains(id) && hashes.len() > 0,
            Message::Headers { headers } => {
                match self.peers.get(id) {
                    None => false,
                    Some(p) => match &p.last_request {
                        Some(RequestInfo::AwaitingHeaders { start_hash }) => headers.len() == 0
                            || headers[0].hash == *start_hash,
                        _ => false,
                    },
                }
            },
            Message::Bodies { .. } => {
                match self.peers.get(id) {
                    None => false,
                    Some(p) => match &p.last_request {
                        Some(RequestInfo::AwaitingBodies { .. }) => true,
                        _ => false,
                    },
                }
            },
        }
    }

    /// Apply a validated message: `Status` to the session table, responses
    /// to the download manager (a `Headers` response loses its leading
    /// anchor repeat first), requests to nothing.
    pub fn apply_message(&mut self, chain: &mut ChainStore, id: u64, m: &Message)
        requires
            old(self).wf(),
            old(chain).wf(),
        ensures
            final(self).wf(),
            final(chain).wf(),
            final(chain).spec_genesis_hash() == old(chain).spec_genesis_hash(),
            apply_rel(*old(self), *old(chain), id, m@, *final(self), *final(chain)),
    {
        match m {
            Message::Status { total_weight, best_hash, .. } => {
                self.peers.upsert_status(id, *total_weight, *best_hash);
            },
            Message::Headers { headers } => {
                if headers.len() > 0 && headers[0].hash == self.manager.anchor() {
                    let mut rest: Vec<Header> = Vec::new();
                    let mut i: usize = 1;
                    while i < headers.len()
                        invariant
                            1 <= i <= headers@.len(),
                            rest@ == headers@.subrange(1, i as int),
                        decreases headers@.len() - i,
                    {
                        rest.push(headers[i]);
                        proof {
                            assert(rest@ =~= headers@.subrange(1, i + 1));
                        }
                        i = i + 1;
                    }
                    proof {
                        assert(rest@ =~= headers@.drop_first());
                        assert(trimmed(self.manager, headers@) == rest@);
                    }
                    self.manager.import_headers(&rest);
                } else {
                    proof {
                        assert(trimmed(self.manager, headers@) == headers@);
                    }
                    self.manager.import_headers(headers);
                }
            },
            Message::Bodies { bodies } => {
                self.manager.import_bodies(chain, bodies);
            },
            Message::RequestHeaders { .. } => {},
            Message::RequestBodies { .. } => {},
        }
    }

    /// Build the `Headers` reply to a `RequestHeaders`: walk forward from
    /// `start_hash` (inclusive), stopping after `max_count` headers or at
    /// the chain tip.
    pub fn create_headers_message(&self, chain: &ChainStore, start_hash: u64, max_count: u64) -> (r:
        Message)
        requires
            chain.wf(),
        ensures
            r matches Message::Headers { headers } && headers@ == headers_reply(
                *chain,
                start_hash,
                max_count,
            ),
    {
        let mut headers: Vec<Header> = Vec::new();
        match chain.find_height(start_hash) {
            None => Message::Headers { headers },
            Some(h) => {
                let remaining = chain.headers.len() - h;
                let cnt: usize = if max_count < remaining as u64 {
                    max_count as usize
                } else {
                    remaining
                };
                let mut k: usize = 0;
                while k < cnt
                    invariant
                        chain.wf(),
                        0 <= k <= cnt,
                        h + cnt <= chain.headers@.len(),
                        chain.headers@.len() <= usize::MAX,
                        headers@ == chain.headers@.subrange(h as int, h + k),
                    decreases cnt - k,
                {
                    headers.push(chain.headers[h + k]);
                    proof {
                        assert(headers@ =~= chain.headers@.subrange(h as int, h + k + 1));
                    }
                    k = k + 1;
                }
                proof {
                    let e = if h + max_count <= chain.headers@.len() {
                        h + max_count
                    } else {
                        chain.headers@.len() as int
                    };
                    assert(h + cnt == e);
                }
                Message::Headers { headers }
            },
        }
    }

    /// Build the `Bodies` reply to a `RequestBodies`: each requested hash's
    /// stored body in order, unknown hashes silently omitted.
    pub fn create_bodies_message(&self, chain: &ChainStore, hashes: &Vec<u64>) -> (r: Message)
        requires
            chain.wf(),
        ensures
            r matches Message::Bodies { bodies } && bodies@ == bodies_reply(*chain, hashes@),
    {
        let mut bodies: Vec<Body> = Vec::new();
        let mut i: usize = 0;
        while i < hashes.len()
            invariant
                chain.wf(),
                0 <= i <= hashes@.len(),
                bodies@ == bodies_reply(*chain, hashes@.take(i as int)),
            decreases hashes@.len() - i,
        {
            match chain.body_by_hash(hashes[i]) {
                Some(b) => {
                    bodies.push(b);
                },
                None => {},
            }
            proof {
                assert(hashes@.take(i + 1).drop_last() =~= hashes@.take(i as int));
                assert(hashes@.take(i + 1).last() == hashes@[i as int]);
            }
            i = i + 1;
        }
        proof {
            assert(hashes@.take(hashes@.len() as int) =~= hashes@);
        }
        Message::Bodies { bodies }
    }

    /// Record the newly issued request (or its absence) as the peer's single
    /// outstanding request. Replies that are not requests leave the record
    /// as it was.
    pub fn record_last_request(&mut self, id: u64, message: &Option<Message>)
        requires
            old(self).wf(),
        ensures
            final(self).wf(),
            final(self).manager == old(self).manager,
            final(self).active == old(self).active,
            record_rel(old(self).peers@, id, opt_view(*message), final(self).peers@),
    {
        let ghost pre = self.peers@;
        match message {
            Some(Message::RequestHeaders { start_hash, .. }) => {
                self.peers.set_request(
                    id,
                    Some(RequestInfo::AwaitingHeaders { start_hash: *start_hash }),
                );
            },
            Some(Message::RequestBodies { hashes }) => {
                let mut hs: Vec<u64> = Vec::new();
                let mut i: usize = 0;
                while i < hashes.len()
                    invariant
                        0 <= i <= hashes@.len(),
                        hs@ == hashes@.take(i as int),
                    decreases hashes@.len() - i,
                {
                    hs.push(hashes[i]);
                    proof {
                        assert(hs@ =~= hashes@.take(i + 1));
                    }
                    i = i + 1;
                }
                proof {
                    assert(hs@ =~= hashes@);
                }
                self.peers.set_request(id, Some(RequestInfo::AwaitingBodies { hashes: hs }));
                proof {
                    if pre.contains_key(id) {
                        assert(self.peers@.dom() =~= pre.dom());
                    }
                }
            },
            Some(_) => {},
            None => {
                self.peers.set_request(id, None);
            },
        }
    }

    /// Handle one decoded, validated inbound message: apply it, compute the
    /// owed reply or follow-up request, record the new outstanding request,
    /// and return what is to be sent (nothing while detached).
    pub fn handle_message(&mut self, chain: &mut ChainStore, id: u64, m: &Message) -> (r: Option<
        Message,
    >)
        requires
            old(self).wf(),
            old(chain).wf(),
            old(chain).spec_contains_hash(old(self).manager.frontier),
            spec_valid_message(old(self).peers@, old(chain).spec_genesis_hash(), id, m@),
        ensures
            final(self).wf(),
            final(chain).wf(),
            final(chain).spec_genesis_hash() == old(chain).spec_genesis_hash(),
            final(chain).spec_contains_hash(final(self).manager.frontier),
            final(self).active == old(self).active,
            step_rel(*old(self), *old(chain), id, m@, *final(self), *final(chain), r),
    {
        self.apply_message(chain, id, m);
        match m {
            Message::Status { .. } => None,
            Message::RequestHeaders { start_hash, max_count } => {
                let reply = self.create_headers_message(chain, *start_hash, *max_count);
                let next = Some(reply);
                self.record_last_request(id, &next);
                if self.active {
                    next
                } else {
                    None
                }
            },
            Message::RequestBodies { hashes } => {
                let reply = self.create_bodies_message(chain, hashes);
                let next = Some(reply);
                self.record_last_request(id, &next);
                if self.active {
                    next
                } else {
                    None
                }
            },
            Message::Headers { .. } | Message::Bodies { .. } => {
                let ghost mid = *self;
                let ghost mid_c = *chain;
                proof {
                    assert(chain.spec_contains_hash(self.manager.frontier)) by {
                        match m@ {
                            MessageV::Bodies { bodies } => {
                                if old(self).manager.bodies_applicable(*old(chain), bodies) {
                                    let j = bodies.len() as int;
                                    assert(chain.headers@.last().hash == self.manager.frontier);
                                    assert(chain.headers@[chain.headers@.len() - 1].hash
                                        == self.manager.frontier);
                                }
                            },
                            _ => {},
                        }
                    }
                }
                let fr = self.manager.frontier_hash();
                let total = match chain.score_at(fr) {
                    Some(t) => t,
                    None => vstd::pervasive::unreached(),
                };
                let peer_w = match self.peers.get(id) {
                    Some(p) => p.total_weight,
                    None => vstd::pervasive::unreached(),
                };
                let next = if peer_w > total {
                    self.manager.create_request()
                } else {
                    None
                };
                let ghost gnext = next;
                self.record_last_request(id, &next);
                proof {
                    assert(apply_rel(*old(self), *old(chain), id, m@, mid, *chain));
                    assert(followup_rel(mid, *chain, id, gnext, *self));
                    assert(step_rel(
                        *old(self),
                        *old(chain),
                        id,
                        m@,
                        *self,
                        *chain,
                        if old(self).active {
                            gnext
                        } else {
                            None
                        },
                    ));
                }
                if self.active {
                    next
                } else {
                    None
                }
            },
        }
    }

    /// Handle raw inbound bytes from peer `id`: decode them, drop them
    /// silently if they are malformed or invalid under the validation
    /// policy, and otherwise process them as `handle_message` does.
    pub fn on_message(&mut self, chain: &mut ChainStore, id: u64, data: &Vec<u8>) -> (r: Option<
        Message,
    >)
        requires
            old(self).wf(),
            old(chain).wf(),
            old(chain).spec_contains_hash(old(self).manager.frontier),
        ensures
            final(self).wf(),
            final(chain).wf(),
            final(chain).spec_genesis_hash() == old(chain).spec_genesis_hash(),
            final(chain).spec_contains_hash(final(self).manager.frontier),
            final(self).active == old(self).active,
            (forall|mv: MessageV|
                crate::message::msg_wf(mv) ==> data@ != crate::message::msg_bytes(mv)) ==> *final(self) == *old(self) && *final(chain) == *old(chain) && r is None,
            forall|mv: MessageV|
                crate::message::msg_wf(mv) && data@ == crate::message::msg_bytes(mv) ==> (
                if spec_valid_message(old(self).peers@, old(chain).spec_genesis_hash(), id, mv) {
                    step_rel(*old(self), *old(chain), id, mv, *final(self), *final(chain), r)
                } else {
                    *final(self) == *old(self) && *final(chain) == *old(chain) && r is None
                }),
    {
        let decoded = crate::message::decode_message(data);
        match decoded {
            None => None,
            Some(m) => {
                if !self.is_valid_message(chain, id, &m) {
                    proof {
                        assert forall|mv: MessageV|
                            crate::message::msg_wf(mv) && data@ == crate::message::msg_bytes(
                                mv,
                            ) implies mv == m@ by {
                            crate::message::lemma_msg_bytes_injective(mv, m@);
                        }
                    }
                    return None;
                }
                let r = self.handle_message(chain, id, &m);
                proof {
                    assert forall|mv: MessageV|
                        crate::message::msg_wf(mv) && data@ == crate::message::msg_bytes(
                            mv,
                        ) implies mv == m@ by {
                        crate::message::lemma_msg_bytes_injective(mv, m@);
                    }
                }
                r
            },
        }
    }

    /// The periodic timer fired: gather the idle peers, visit them in an
    /// unbiased random order, and for each ask the download manager for the
    /// next unit of work, record it, and (while attached) send it. Peers
    /// with a request still outstanding are left alone, and no peer's
    /// advertised weight or best hash changes.
    pub fn on_timeout(&mut self, timer_id: u64) -> (r: Vec<(u64, Message)>)
        requires
            old(self).wf(),
            timer_id == SYNC_TIMER_ID,
        ensures
            final(self).wf(),
            final(self).active == old(self).active,
            final(self).manager.frontier == old(self).manager.frontier,
            final(self).manager.frontier_number == old(self).manager.frontier_number,
            final(self).manager.pending@ == old(self).manager.pending@,
            forall|k: u64|
                final(self).peers@.contains_key(k) <==> old(self).peers@.contains_key(k),
            forall|k: u64|
                old(self).peers@.contains_key(k) ==> final(self).peers@[k].total_weight == old(self).peers@[k].total_weight && final(self).peers@[k].best_hash == old(self).peers@[k].best_hash,
            forall|k: u64|
                old(self).peers@.contains_key(k) && !old(self).peers@[k].is_idle() ==> final(self).peers@[k] == old(self).peers@[k],
            !old(self).active ==> r@.len() == 0,
            forall|t: int|
                0 <= t < r@.len() ==> old(self).peers@.contains_key(#[trigger] r@[t].0) && old(self).peers@[r@[t].0].is_idle(),
            forall|a: int, b: int| 0 <= a < b < r@.len() ==> r@[a].0 != r@[b].0,
            exists|
                ids: Seq<u64>,
                ps: Seq<Map<u64, PeerSession>>,
                ms: Seq<DownloadManager>,
                sents: Seq<Seq<(u64, Message)>>,
            |
                #![trigger timeout_trace(old(self).peers@, old(self).manager, ids, old(self).active, ps, ms, sents)]
                {
                    &&& ids.no_duplicates()
                    &&& (forall|k: u64|
                        ids.contains(k) <==> (old(self).peers@.contains_key(k) && old(
                            self,
                        ).peers@[k].is_idle()))
                    &&& timeout_trace(
                        old(self).peers@,
                        old(self).manager,
                        ids,
                        old(self).active,
                        ps,
                        ms,
                        sents,
                    )
                    &&& ps.last() == final(self).peers@
                    &&& ms.last() == final(self).manager
                    &&& r@ == sents.flatten()
                },
            (old(self).active && (old(self).manager.requested < old(self).manager.pending@.len()
                || old(self).manager.pending@.len() < crate::MAX_PENDING_HEADERS) && (exists|
                k: u64,
            |
                old(self).peers@.contains_key(k) && old(self).peers@[k].is_idle())) ==> r@.len()
                > 0,
    {
        broadcast use group_to_multiset_ensures;

        let mut ids = self.peers.idle_ids();
        let ghost ids0 = ids@;
        shuffle_ids(&mut ids);
        proof {
            assert forall|k: u64|
                ids@.contains(k) <==> (old(self).peers@.contains_key(k) && old(
                    self,
                ).peers@[k].is_idle()) by {
                if ids@.contains(k) {
                    assert(ids@.to_multiset().count(k) > 0);
                    assert(ids0.to_multiset().count(k) > 0);
                    assert(ids0.contains(k));
                    let j = choose|j: int| 0 <= j < ids0.len() && ids0[j] == k;
                    assert(old(self).peers@.contains_key(ids0[j]) && old(
                        self,
                    ).peers@[ids0[j]].is_idle());
                }
                if old(self).peers@.contains_key(k) && old(self).peers@[k].is_idle() {
                    assert(ids0.contains(k));
                    assert(ids0.to_multiset().count(k) > 0);
                    assert(ids@.to_multiset().count(k) > 0);
                    assert(ids@.contains(k));
                }
            }
            assert forall|t: int|
                0 <= t < ids@.len() implies old(self).peers@.contains_key(#[trigger] ids@[t])
                && old(self).peers@[ids@[t]].is_idle() by {
                assert(ids@.contains(ids@[t]));
            }
            assert(ids0.no_duplicates());
            ids0.lemma_multiset_has_no_duplicates();
            assert forall|x: u64|
                ids@.to_multiset().contains(x) implies ids@.to_multiset().count(x) == 1 by {
                assert(ids0.to_multiset().count(x) == ids@.to_multiset().count(x));
            }
            ids@.lemma_multiset_has_no_duplicates_conv();
        }
        let mut out: Vec<(u64, Message)> = Vec::new();
        let mut i: usize = 0;
        let ghost mut gps: Seq<Map<u64, PeerSession>> = seq![old(self).peers@];
        let ghost mut gms: Seq<DownloadManager> = seq![old(self).manager];
        let ghost mut gsents: Seq<Seq<(u64, Message)>> = Seq::empty();
        proof {
            assert(gsents.flatten() =~= Seq::<(u64, Message)>::empty());
        }
        while i < ids.len()
            invariant
                self.wf(),
                0 <= i <= ids@.len(),
                self.active == old(self).active,
                self.manager.frontier == old(self).manager.frontier,
                self.manager.frontier_number == old(self).manager.frontier_number,
                self.manager.pending@ == old(self).manager.pending@,
                forall|t: int|
                    0 <= t < ids@.len() ==> old(self).peers@.contains_key(#[trigger] ids@[t])
                        && old(self).peers@[ids@[t]].is_idle(),
                forall|k: u64|
                    self.peers@.contains_key(k) <==> old(self).peers@.contains_key(k),
                forall|k: u64|
                    old(self).peers@.contains_key(k) ==> self.peers@[k].total_weight == old(self).peers@[k].total_weight && self.peers@[k].best_hash == old(self).peers@[k].best_hash,
                forall|k: u64|
                    old(self).peers@.contains_key(k) && !old(self).peers@[k].is_idle()
                        ==> self.peers@[k] == old(self).peers@[k],
                !old(self).active ==> out@.len() == 0,
                forall|t: int|
                    0 <= t < out@.len() ==> old(self).peers@.contains_key(#[trigger] out@[t].0)
                        && old(self).peers@[out@[t].0].is_idle(),
                ids@.no_duplicates(),
                forall|t: int|
                    0 <= t < out@.len() ==> exists|l: int|
                        0 <= l < i && ids@[l] == #[trigger] out@[t].0,
                forall|a: int, b: int| 0 <= a < b < out@.len() ==> out@[a].0 != out@[b].0,
                gps.len() == i + 1,
                gms.len() == i + 1,
                gsents.len() == i,
                gps[0] == old(self).peers@,
                gms[0] == old(self).manager,
                gps.last() == self.peers@,
                gms.last() == self.manager,
                forall|k: int|
                    0 <= k < i ==> #[trigger] timeout_step(
                        gps[k],
                        gms[k],
                        ids@[k],
                        old(self).active,
                        gps[k + 1],
                        gms[k + 1],
                        gsents[k],
                    ),
                out@ == gsents.flatten(),
                (i > 0 && old(self).active && (old(self).manager.requested < old(
                    self,
                ).manager.pending@.len() || old(self).manager.pending@.len()
                    < crate::MAX_PENDING_HEADERS)) ==> out@.len() > 0,
            decreases ids@.len() - i,
        {
            let ghost p_before = self.peers@;
            let ghost m_before = self.manager;
            let ghost out0 = out@;
            let pid = ids[i];
            let next = self.manager.create_request();
            let ghost gnext = next;
            self.record_last_request(pid, &next);
            let ghost s_one: Seq<(u64, Message)> = (match gnext {
                Some(msg) => if old(self).active {
                    seq![(pid, msg)]
                } else {
                    Seq::<(u64, Message)>::empty()
                },
                None => Seq::<(u64, Message)>::empty(),
            });
            if self.active {
                match next {
                    Some(msg) => {
                        out.push((pid, msg));
                        proof {
                            assert forall|a: int, b: int|
                                0 <= a < b < out@.len() implies out@[a].0 != out@[b].0 by {
                                if b == out@.len() - 1 {
                                    let l = choose|l: int| 0 <= l < i && ids@[l] == out0[a].0;
                                    assert(ids@[l] != ids@[i as int]);
                                } else {
                                    assert(out0[a] == out@[a] && out0[b] == out@[b]);
                                }
                            }
                            assert forall|t: int|
                                0 <= t < out@.len() implies exists|l: int|
                                0 <= l < i + 1 && ids@[l] == #[trigger] out@[t].0 by {
                                if t < out@.len() - 1 {
                                    let l = choose|l: int| 0 <= l < i && ids@[l] == out0[t].0;
                                    assert(ids@[l] == out@[t].0);
                                } else {
                                    assert(ids@[i as int] == out@[t].0);
                                }
                            }
                        }
                    },
                    None => {},
                }
            }
            proof {
                assert(create_request_rel(m_before, self.manager, gnext));
                assert(record_rel(p_before, pid, opt_view(gnext), self.peers@));
                assert(out@ =~= out0 + s_one);
                assert(timeout_step(
                    p_before,
                    m_before,
                    pid,
                    old(self).active,
                    self.peers@,
                    self.manager,
                    s_one,
                ));
                let gps0 = gps;
                let gms0 = gms;
                let gsents0 = gsents;
                gps = gps.push(self.peers@);
                gms = gms.push(self.manager);
                gsents = gsents.push(s_one);
                gsents0.lemma_flatten_push(s_one);
                assert(out@ == gsents.flatten());
                assert forall|k: int|
                    0 <= k < i + 1 implies #[trigger] timeout_step(
                    gps[k],
                    gms[k],
                    ids@[k],
                    old(self).active,
                    gps[k + 1],
                    gms[k + 1],
                    gsents[k],
                ) by {
                    if k < i {
                        assert(gps[k] == gps0[k] && gps[k + 1] == gps0[k + 1]);
                        assert(gms[k] == gms0[k] && gms[k + 1] == gms0[k + 1]);
                        assert(gsents[k] == gsents0[k]);
                        assert(timeout_step(
                            gps0[k],
                            gms0[k],
                            ids@[k],
                            old(self).active,
                            gps0[k + 1],
                            gms0[k + 1],
                            gsents0[k],
                        ));
                    } else {
                        assert(gps[k] == gps0.last() && gps0.last() == p_before);
                        assert(gms[k] == gms0.last() && gms0.last() == m_before);
                        assert(gps[k + 1] == self.peers@ && gms[k + 1] == self.manager);
                        assert(gsents[k] == s_one);
                        assert(ids@[k] == pid);
                    }
                }
                if i == 0 && old(self).active && (old(self).manager.requested < old(
                    self,
                ).manager.pending@.len() || old(self).manager.pending@.len()
                    < crate::MAX_PENDING_HEADERS) {
                    assert(m_before == gms0[0]);
                    assert(m_before == old(self).manager);
                    assert(gnext is Some);
                    assert(out@.len() > 0);
                }
            }
            i = i + 1;
        }
        proof {
            assert(timeout_trace(
                old(self).peers@,
                old(self).manager,
                ids@,
                old(self).active,
                gps,
                gms,
                gsents,
            ));
            if old(self).active && (old(self).manager.requested < old(
                self,
            ).manager.pending@.len() || old(self).manager.pending@.len()
                < crate::MAX_PENDING_HEADERS) && (exists|k: u64|
                old(self).peers@.contains_key(k) && old(self).peers@[k].is_idle()) {
                let k = choose|k: u64|
                    old(self).peers@.contains_key(k) && old(self).peers@[k].is_idle();
                assert(ids@.contains(k));
                assert(ids@.len() > 0);
            }
        }
        out
    }

    /// The local chain changed: broadcast a fresh `Status` with the current
    /// chain summary to every known peer (while attached).
    pub fn new_blocks(&self, chain: &ChainStore) -> (r: Vec<(u64, Message)>)
        requires
            self.wf(),
            chain.wf(),
        ensures
            !self.active ==> r@.len() == 0,
            self.active ==> r@.len() == self.peers.entries@.len(),
            self.active ==> forall|k: int|
                0 <= k < r@.len() ==> #[trigger] r@[k].0 == self.peers.entries@[k].0 && (r@[k].1
                    matches Message::Status { total_weight, best_hash, genesis_hash }
                    && total_weight == chain.spec_total_weight() && best_hash
                    == chain.spec_best_hash() && genesis_hash == chain.spec_genesis_hash()),
    {
        let mut out: Vec<(u64, Message)> = Vec::new();
        if !self.active {
            return out;
        }
        let ids = self.peers.peer_ids();
        let info = chain.chain_info();
        let mut i: usize = 0;
        while i < ids.len()
            invariant
                self.wf(),
                chain.wf(),
                0 <= i <= ids@.len(),
                ids@.len() == self.peers.entries@.len(),
                forall|j: int| 0 <= j < ids@.len() ==> ids@[j] == self.peers.entries@[j].0,
                info.total_weight == chain.spec_total_weight(),
                info.best_hash == chain.spec_best_hash(),
                info.genesis_hash == chain.spec_genesis_hash(),
                out@.len() == i,
                forall|k: int|
                    0 <= k < i ==> #[trigger] out@[k].0 == self.peers.entries@[k].0 && (out@[k].1
                        matches Message::Status { total_weight, best_hash, genesis_hash }
                        && total_weight == chain.spec_total_weight() && best_hash
                        == chain.spec_best_hash() && genesis_hash == chain.spec_genesis_hash()),
            decreases ids@.len() - i,
        {
            let ghost out0 = out@;
            out.push(
                (
                    ids[i],
                    Message::Status {
                        total_weight: info.total_weight,
                        best_hash: info.best_hash,
                        genesis_hash: info.genesis_hash,
                    },
                ),
            );
            proof {
                assert(out@[i as int].0 == self.peers.entries@[i as int].0);
                assert(out@[i as int].1 matches Message::Status { total_weight, .. }
                    && total_weight == chain.spec_total_weight());
                assert(forall|k: int| 0 <= k < i ==> out@[k] == out0[k]);
            }
            i = i + 1;
        }
        out
    }
}

/// Relies on rand's `SliceRandom::shuffle` (an in-place Fisher–Yates
/// shuffle): it only reorders the slice, so the result holds exactly the
/// identifiers it was given.
#[verifier::external_body]
fn shuffle_ids(ids: &mut Vec<u64>)
    ensures
        final(ids)@.to_multiset() == old(ids)@.to_multiset(),
{
    let mut rng = rand::thread_rng();
    rand::seq::SliceRandom::shuffle(ids.as_mut_slice(), &mut rng);
}

} // verus!
