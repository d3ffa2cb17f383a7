use vstd::prelude::*;
use crate::download::DownloadManager;
use crate::engine::{create_request_rel, opt_view, record_rel, status_applied, timeout_step, timeout_trace};
use crate::message::{Message, MessageV};
use crate::session::PeerSession;
use crate::download::lemma_sum_sizes_push;

verus! {

/// The session table reflects only the most recent `Status` from a peer:
/// after applying one `Status` and then another for the same peer, the
/// peer's entry carries exactly the last announcement's weight and hash
/// (never a stale mix), its outstanding request survives both, and every
/// other peer's entry is untouched.
pub proof fn lemma_status_latest_wins(
    pre: Map<u64, PeerSession>,
    id: u64,
    w1: u64,
    b1: u64,
    w2: u64,
    b2: u64,
)
    ensures
        ({
            let once = status_applied(pre, id, w1, b1);
            let twice = status_applied(once, id, w2, b2);
            &&& twice.contains_key(id)
            &&& twice[id].total_weight == w2
            &&& twice[id].best_hash == b2
            &&& twice[id].last_request == status_applied(pre, id, w2, b2)[id].last_request
            &&& forall|k: u64|
                k != id ==> ((twice.contains_key(k) <==> pre.contains_key(k)) && (pre.contains_key(
                    k,
                ) ==> twice[k] == pre[k]))
        }),
{
}

/// The session table after a whole sequence of valid `Status` announcements
/// `(total_weight, best_hash)` from one peer, applied oldest first.
pub open spec fn statuses_applied(
    pre: Map<u64, PeerSession>,
    id: u64,
    ss: Seq<(u64, u64)>,
) -> Map<u64, PeerSession>
    decreases ss.len(),
{
    if ss.len() == 0 {
        pre
    } else {
        status_applied(statuses_applied(pre, id, ss.drop_last()), id, ss.last().0, ss.last().1)
    }
}

/// For any sequence of valid `Status` announcements from one peer, the
/// session table reflects only the most recent one: the peer's entry holds
/// exactly the last announcement's weight and hash, and every other peer's
/// entry is exactly what it was before the sequence.
pub proof fn lemma_status_sequence_latest_wins(
    pre: Map<u64, PeerSession>,
    id: u64,
    ss: Seq<(u64, u64)>,
)
    requires
        ss.len() > 0,
    ensures
        statuses_applied(pre, id, ss).contains_key(id),
        statuses_applied(pre, id, ss)[id].total_weight == ss.last().0,
        statuses_applied(pre, id, ss)[id].best_hash == ss.last().1,
        forall|k: u64|
            #![trigger statuses_applied(pre, id, ss).contains_key(k)]
            k != id ==> ((statuses_applied(pre, id, ss).contains_key(k) <==> pre.contains_key(k))
                && (pre.contains_key(k) ==> statuses_applied(pre, id, ss)[k] == pre[k])),
    decreases ss.len(),
{
    reveal_with_fuel(statuses_applied, 2);
    if ss.len() > 1 {
        lemma_status_sequence_latest_wins(pre, id, ss.drop_last());
    }
    let mid = statuses_applied(pre, id, ss.drop_last());
    assert(statuses_applied(pre, id, ss) == status_applied(mid, id, ss.last().0, ss.last().1));
    assert forall|k: u64|
        k != id implies ((statuses_applied(pre, id, ss).contains_key(k) <==> pre.contains_key(k))
        && (pre.contains_key(k) ==> statuses_applied(pre, id, ss)[k] == pre[k])) by {
        if ss.len() == 1 {
            assert(mid == pre);
        } else {
            assert(mid.contains_key(k) <==> pre.contains_key(k));
            if pre.contains_key(k) {
                assert(mid[k] == pre[k]);
            }
        }
        assert(statuses_applied(pre, id, ss).contains_key(k) <==> mid.contains_key(k));
        if mid.contains_key(k) {
            assert(statuses_applied(pre, id, ss)[k] == mid[k]);
        }
    }
}

/// At most one request is ever outstanding per peer: each peer maps to a
/// single session holding a single optional request, and recording the
/// outcome of a new request for one peer rewrites only that peer's record —
/// every other peer's session, outstanding request included, is untouched.
pub proof fn lemma_single_outstanding_request(
    pre: Map<u64, PeerSession>,
    id: u64,
    next: Option<MessageV>,
    post: Map<u64, PeerSession>,
    k: u64,
)
    requires
        record_rel(pre, id, next, post),
        pre.contains_key(k),
        k != id,
    ensures
        post.contains_key(k),
        post[k] == pre[k],
{
    if pre.contains_key(id) {
        match next {
            Some(MessageV::RequestBodies { .. }) => {
                assert(post.dom() == pre.dom());
            },
            _ => {},
        }
    }
}

/// The download manager's request policy: a `RequestBodies` it creates is
/// never empty and asks only for headers still pending — blocks already
/// assembled and handed to the chain store were evicted from the queue, and
/// already-requested pending headers are skipped — and it asks for more
/// headers only while the pending queue is below the in-flight bound.
pub proof fn lemma_request_policy(pre: DownloadManager, post: DownloadManager, r: Option<Message>)
    requires
        pre.wf(),
        create_request_rel(pre, post, r),
    ensures
        (match r {
            Some(Message::RequestBodies { hashes }) => hashes@.len() > 0 && (forall|x: int|
                0 <= x < hashes@.len() ==> pre.requested + x < pre.pending@.len()
                    && #[trigger] hashes@[x] == pre.pending@[pre.requested + x].hash),
            _ => true,
        }),
        (match r {
            Some(Message::RequestHeaders { .. }) => pre.pending@.len()
                < crate::MAX_PENDING_HEADERS,
            _ => true,
        }),
{
    let n = if crate::MAX_BODY_REQUEST_COUNT <= pre.pending@.len() - pre.requested {
        crate::MAX_BODY_REQUEST_COUNT as int
    } else {
        pre.pending@.len() - pre.requested
    };
    match r {
        Some(Message::RequestBodies { hashes }) => {
            assert(pre.requested < pre.pending@.len());
            assert(hashes@ == Seq::new(n as nat, |k: int| pre.pending@[pre.requested + k].hash));
            assert(hashes@.len() == n);
            assert(n > 0);
            assert forall|x: int|
                0 <= x < hashes@.len() implies pre.requested + x < pre.pending@.len()
                && #[trigger] hashes@[x] == pre.pending@[pre.requested + x].hash by {
                assert(hashes@[x] == pre.pending@[pre.requested + x].hash);
            }
        },
        Some(Message::RequestHeaders { .. }) => {
            assert(pre.requested == pre.pending@.len());
            assert(pre.pending@.len() < crate::MAX_PENDING_HEADERS);
        },
        _ => {},
    }
}

/// Along a timer trace the download manager's frontier and pending queue
/// never change, its well-formedness is preserved, and the prefix of the
/// pending queue covered by outstanding body requests only grows.
pub proof fn lemma_timer_manager_chain(
    p0: Map<u64, PeerSession>,
    m0: DownloadManager,
    ids: Seq<u64>,
    active: bool,
    ps: Seq<Map<u64, PeerSession>>,
    ms: Seq<DownloadManager>,
    sents: Seq<Seq<(u64, Message)>>,
    k: int,
)
    requires
        m0.wf(),
        timeout_trace(p0, m0, ids, active, ps, ms, sents),
        0 <= k <= ids.len(),
    ensures
        ms[k].wf(),
        ms[k].pending@ == m0.pending@,
        ms[k].frontier == m0.frontier,
        ms[k].frontier_number == m0.frontier_number,
        m0.requested <= ms[k].requested <= m0.pending@.len(),
        k > 0 ==> ms[k - 1].requested <= ms[k].requested,
    decreases k,
{
    if k > 0 {
        lemma_timer_manager_chain(p0, m0, ids, active, ps, ms, sents, k - 1);
        let j = k - 1;
        assert(timeout_step(ps[j], ms[j], ids[j], active, ps[j + 1], ms[j + 1], sents[j]));
        let next = choose|next: Option<Message>|
            create_request_rel(ms[k - 1], ms[k], next) && record_rel(
                ps[k - 1],
                ids[k - 1],
                opt_view(next),
                ps[k],
            );
        if ms[k - 1].requested < ms[k - 1].pending@.len() {
            let n = if crate::MAX_BODY_REQUEST_COUNT <= ms[k - 1].pending@.len() - ms[k
                - 1].requested {
                crate::MAX_BODY_REQUEST_COUNT as int
            } else {
                ms[k - 1].pending@.len() - ms[k - 1].requested
            };
            lemma_sum_sizes_push(ms[k - 1].batch_sizes@, n as usize);
            assert(ms[k].wf());
        } else {
            assert(ms[k] == ms[k - 1]);
        }
    }
}

/// Every message one timer event emits follows the download manager's
/// policy. The message goes to the peer visited at that step. A body
/// request is never empty, asks only for queued headers whose bodies are
/// neither resolved (resolved blocks are evicted from the queue) nor
/// already covered by an outstanding request, and extends the covered
/// prefix by exactly its length. A header request is sent only when the
/// whole queue is covered and below the in-flight bound, anchored where
/// the manager's policy says.
pub proof fn lemma_timer_message_policy(
    p0: Map<u64, PeerSession>,
    m0: DownloadManager,
    ids: Seq<u64>,
    active: bool,
    ps: Seq<Map<u64, PeerSession>>,
    ms: Seq<DownloadManager>,
    sents: Seq<Seq<(u64, Message)>>,
    k: int,
)
    requires
        m0.wf(),
        timeout_trace(p0, m0, ids, active, ps, ms, sents),
        0 <= k < ids.len(),
    ensures
        sents[k].len() <= 1,
        sents[k].len() == 1 ==> sents[k][0].0 == ids[k],
        sents[k].len() == 1 ==> (match sents[k][0].1 {
            Message::RequestBodies { hashes } => hashes@.len() > 0 && ms[k + 1].requested == ms[
                k
            ].requested + hashes@.len() && (forall|x: int|
                0 <= x < hashes@.len() ==> ms[k].requested + x < m0.pending@.len()
                    && #[trigger] hashes@[x] == m0.pending@[ms[k].requested + x].hash),
            Message::RequestHeaders { start_hash, max_count } => ms[k].requested
                == m0.pending@.len() && m0.pending@.len() < crate::MAX_PENDING_HEADERS
                && start_hash == m0.anchor_hash() && max_count == crate::MAX_HEADER_REQUEST_COUNT
                && ms[k + 1] == ms[k],
            _ => false,
        }),
{
    lemma_timer_manager_chain(p0, m0, ids, active, ps, ms, sents, k);
    assert(timeout_step(ps[k], ms[k], ids[k], active, ps[k + 1], ms[k + 1], sents[k]));
    let next = choose|next: Option<Message>|
        create_request_rel(ms[k], ms[k + 1], next) && record_rel(
            ps[k],
            ids[k],
            opt_view(next),
            ps[k + 1],
        ) && sents[k] == (match next {
            Some(msg) => if active {
                seq![(ids[k], msg)]
            } else {
                Seq::<(u64, Message)>::empty()
            },
            None => Seq::<(u64, Message)>::empty(),
        });
    match next {
        Some(Message::RequestBodies { hashes }) => {
            assert(ms[k].requested < ms[k].pending@.len());
            assert(ms[k].anchor_hash() == m0.anchor_hash());
        },
        Some(Message::RequestHeaders { .. }) => {
            assert(ms[k].requested == ms[k].pending@.len());
            assert(ms[k].pending@.len() < crate::MAX_PENDING_HEADERS);
            assert(ms[k].anchor_hash() == m0.anchor_hash()) by {
                if m0.pending@.len() > 0 {
                    assert(ms[k].pending@.last() == m0.pending@.last());
                }
            }
        },
        _ => {},
    }
}

/// Body requests emitted to distinct peers within one timer event cover
/// pairwise disjoint slices of the pending queue: no body is ever asked
/// for twice concurrently, and no duplicate work is handed out.
pub proof fn lemma_timer_batches_disjoint(
    p0: Map<u64, PeerSession>,
    m0: DownloadManager,
    ids: Seq<u64>,
    active: bool,
    ps: Seq<Map<u64, PeerSession>>,
    ms: Seq<DownloadManager>,
    sents: Seq<Seq<(u64, Message)>>,
    k1: int,
    k2: int,
)
    requires
        m0.wf(),
        timeout_trace(p0, m0, ids, active, ps, ms, sents),
        0 <= k1 < k2 < ids.len(),
        sents[k1].len() == 1,
        sents[k2].len() == 1,
    ensures
        (match (sents[k1][0].1, sents[k2][0].1) {
            (
                Message::RequestBodies { hashes: h1 },
                Message::RequestBodies { hashes: h2 },
            ) => forall|x1: int, x2: int|
                0 <= x1 < h1@.len() && 0 <= x2 < h2@.len() ==> h1@[x1] != h2@[x2],
            _ => true,
        }),
{
    lemma_timer_message_policy(p0, m0, ids, active, ps, ms, sents, k1);
    lemma_timer_message_policy(p0, m0, ids, active, ps, ms, sents, k2);
    lemma_timer_requested_monotone(p0, m0, ids, active, ps, ms, sents, k1 + 1, k2);
    match (sents[k1][0].1, sents[k2][0].1) {
        (Message::RequestBodies { hashes: h1 }, Message::RequestBodies { hashes: h2 }) => {
            assert forall|x1: int, x2: int|
                0 <= x1 < h1@.len() && 0 <= x2 < h2@.len() implies h1@[x1] != h2@[x2] by {
                let i1 = ms[k1].requested + x1;
                let i2 = ms[k2].requested + x2;
                assert(i1 < ms[k1 + 1].requested);
                assert(ms[k1 + 1].requested <= ms[k2].requested);
                assert(h1@[x1] == m0.pending@[i1].hash);
                assert(h2@[x2] == m0.pending@[i2].hash);
                assert(m0.pending@[i1].hash != m0.pending@[i2].hash);
            }
        },
        _ => {},
    }
}

/// The covered prefix of the pending queue never shrinks along the trace.
proof fn lemma_timer_requested_monotone(
    p0: Map<u64, PeerSession>,
    m0: DownloadManager,
    ids: Seq<u64>,
    active: bool,
    ps: Seq<Map<u64, PeerSession>>,
    ms: Seq<DownloadManager>,
    sents: Seq<Seq<(u64, Message)>>,
    a: int,
    b: int,
)
    requires
        m0.wf(),
        timeout_trace(p0, m0, ids, active, ps, ms, sents),
        0 <= a <= b <= ids.len(),
    ensures
        ms[a].requested <= ms[b].requested,
    decreases b - a,
{
    if a < b {
        lemma_timer_manager_chain(p0, m0, ids, active, ps, ms, sents, b);
        lemma_timer_requested_monotone(p0, m0, ids, active, ps, ms, sents, a, b - 1);
    }
}

} // verus!
