use block_sync::chain::ChainStore;
use block_sync::engine::{BlockSyncExtension, SYNC_TIMER_ID};
use block_sync::message::{encode_message, Body, Header, Message};
use block_sync::session::RequestInfo;

fn genesis_store() -> ChainStore {
    // local genesis hash 1, local total weight 50
    let genesis = Header { hash: 1, parent_hash: 0, number: 0, score: 50 };
    ChainStore::new(genesis, Body { payload: 0 })
}

fn started_engine(chain: &ChainStore) -> BlockSyncExtension {
    let mut e = BlockSyncExtension::new(chain);
    e.on_initialize();
    e
}

fn send(
    e: &mut BlockSyncExtension,
    chain: &mut ChainStore,
    id: u64,
    m: &Message,
) -> Option<Message> {
    let bytes = encode_message(m);
    e.on_message(chain, id, &bytes)
}

#[test]
fn status_creates_a_session_and_owes_no_reply() {
    let mut chain = genesis_store();
    let mut e = started_engine(&chain);
    let status = Message::Status { total_weight: 100, best_hash: 9, genesis_hash: 1 };
    assert_eq!(send(&mut e, &mut chain, 7, &status), None);
    assert!(e.peers.contains(7));
    let p = e.peers.get(7).unwrap();
    assert_eq!(p.total_weight, 100);
    assert_eq!(p.best_hash, 9);
    assert!(p.last_request.is_none());
}

#[test]
fn repeated_status_keeps_only_the_most_recent() {
    let mut chain = genesis_store();
    let mut e = started_engine(&chain);
    let s1 = Message::Status { total_weight: 100, best_hash: 9, genesis_hash: 1 };
    let s2 = Message::Status { total_weight: 120, best_hash: 11, genesis_hash: 1 };
    send(&mut e, &mut chain, 7, &s1);
    send(&mut e, &mut chain, 7, &s2);
    let p = e.peers.get(7).unwrap();
    assert_eq!(p.total_weight, 120);
    assert_eq!(p.best_hash, 11);
    assert_eq!(e.peers.entries.len(), 1);
}

#[test]
fn mismatched_genesis_is_rejected_and_no_session_exists() {
    let mut chain = genesis_store();
    let mut e = started_engine(&chain);
    let status = Message::Status { total_weight: 100, best_hash: 9, genesis_hash: 999 };
    assert_eq!(send(&mut e, &mut chain, 7, &status), None);
    assert!(!e.peers.contains(7));
    // with no session, every later non-Status message is rejected too
    let headers = Message::Headers { headers: vec![] };
    assert_eq!(send(&mut e, &mut chain, 7, &headers), None);
    assert!(!e.peers.contains(7));
    assert!(!e.is_valid_message(&chain, 7, &headers));
}

#[test]
fn empty_request_bodies_is_rejected_regardless_of_session() {
    let mut chain = genesis_store();
    let mut e = started_engine(&chain);
    let req = Message::RequestBodies { hashes: vec![] };
    // no session
    assert!(!e.is_valid_message(&chain, 7, &req));
    // with a session
    let status = Message::Status { total_weight: 100, best_hash: 9, genesis_hash: 1 };
    send(&mut e, &mut chain, 7, &status);
    assert!(!e.is_valid_message(&chain, 7, &req));
    assert_eq!(send(&mut e, &mut chain, 7, &req), None);
}

#[test]
fn headers_accepted_iff_awaited_and_anchored() {
    let mut chain = genesis_store();
    let mut e = started_engine(&chain);
    let status = Message::Status { total_weight: 100, best_hash: 9, genesis_hash: 1 };
    send(&mut e, &mut chain, 7, &status);

    // not awaited: any Headers response is invalid
    let anchored = Message::Headers {
        headers: vec![Header { hash: 1, parent_hash: 0, number: 0, score: 50 }],
    };
    assert!(!e.is_valid_message(&chain, 7, &anchored));

    // drive the engine so that it requests headers from peer 7
    let sends = e.on_timeout(SYNC_TIMER_ID);
    assert_eq!(sends.len(), 1);
    assert_eq!(sends[0].0, 7);
    match &sends[0].1 {
        Message::RequestHeaders { start_hash, .. } => assert_eq!(*start_hash, 1),
        other => panic!("expected a header request, got {:?}", other),
    }
    match &e.peers.get(7).unwrap().last_request {
        Some(RequestInfo::AwaitingHeaders { start_hash }) => assert_eq!(*start_hash, 1),
        other => panic!("expected an outstanding header request, got {:?}", other),
    }

    // awaited: an empty response is valid, an anchored response is valid,
    // a response starting elsewhere is invalid
    let empty = Message::Headers { headers: vec![] };
    assert!(e.is_valid_message(&chain, 7, &empty));
    assert!(e.is_valid_message(&chain, 7, &anchored));
    let unanchored = Message::Headers {
        headers: vec![Header { hash: 42, parent_hash: 41, number: 5, score: 1 }],
    };
    assert!(!e.is_valid_message(&chain, 7, &unanchored));
    // and a Bodies response does not match an outstanding header request
    let bodies = Message::Bodies { bodies: vec![] };
    assert!(!e.is_valid_message(&chain, 7, &bodies));
}

#[test]
fn requests_are_served_from_the_chain_store() {
    let mut chain = genesis_store();
    let h2 = Header { hash: 2, parent_hash: 1, number: 1, score: 30 };
    assert!(chain.accept_block(h2, Body { payload: 9 }));
    let mut e = started_engine(&chain);
    let status = Message::Status { total_weight: 10, best_hash: 9, genesis_hash: 1 };
    send(&mut e, &mut chain, 7, &status);

    // headers are walked forward from the requested hash, inclusive
    let req = Message::RequestHeaders { start_hash: 1, max_count: 10 };
    match send(&mut e, &mut chain, 7, &req) {
        Some(Message::Headers { headers }) => {
            assert_eq!(headers.len(), 2);
            assert_eq!(headers[0].hash, 1);
            assert_eq!(headers[1].hash, 2);
        }
        other => panic!("expected headers, got {:?}", other),
    }
    // an unknown start hash yields an empty reply
    let req = Message::RequestHeaders { start_hash: 77, max_count: 10 };
    match send(&mut e, &mut chain, 7, &req) {
        Some(Message::Headers { headers }) => assert!(headers.is_empty()),
        other => panic!("expected headers, got {:?}", other),
    }
    // bodies are looked up per hash, unknown hashes silently omitted
    let req = Message::RequestBodies { hashes: vec![2, 77, 1] };
    match send(&mut e, &mut chain, 7, &req) {
        Some(Message::Bodies { bodies }) => {
            assert_eq!(bodies, vec![Body { payload: 9 }, Body { payload: 0 }]);
        }
        other => panic!("expected bodies, got {:?}", other),
    }
}

#[test]
fn end_to_end_sync_from_an_ahead_peer() {
    let mut chain = genesis_store();
    let mut e = started_engine(&chain);

    // peer 7 announces weight 100 against our local weight 50
    let status = Message::Status { total_weight: 100, best_hash: 3, genesis_hash: 1 };
    assert_eq!(send(&mut e, &mut chain, 7, &status), None);
    assert_eq!(e.peers.get(7).unwrap().total_weight, 100);

    // the timer drives the idle peer: a header request from the frontier
    let sends = e.on_timeout(SYNC_TIMER_ID);
    assert_eq!(sends.len(), 1);
    let start = match &sends[0].1 {
        Message::RequestHeaders { start_hash, .. } => *start_hash,
        other => panic!("expected a header request, got {:?}", other),
    };
    assert_eq!(start, 1);

    // the peer responds with headers anchored at our frontier
    let h2 = Header { hash: 2, parent_hash: 1, number: 1, score: 30 };
    let h3 = Header { hash: 3, parent_hash: 2, number: 2, score: 20 };
    let anchor = Header { hash: 1, parent_hash: 0, number: 0, score: 50 };
    let response = Message::Headers { headers: vec![anchor, h2, h3] };
    // accepted, the pending queue grows, and being still behind the peer,
    // the engine follows up by requesting the missing bodies
    let followup = send(&mut e, &mut chain, 7, &response);
    assert_eq!(e.manager.pending, vec![h2, h3]);
    match followup {
        Some(Message::RequestBodies { hashes }) => assert_eq!(hashes, vec![2, 3]),
        other => panic!("expected a body request, got {:?}", other),
    }

    // the peer responds with the aligned bodies: blocks are assembled,
    // handed to the chain store, and the frontier advances past them
    let bodies = Message::Bodies { bodies: vec![Body { payload: 7 }, Body { payload: 8 }] };
    let followup = send(&mut e, &mut chain, 7, &bodies);
    assert_eq!(chain.best_hash(), 3);
    assert_eq!(chain.best_number(), 2);
    assert_eq!(chain.chain_info().total_weight, 100);
    assert_eq!(e.manager.frontier_hash(), 3);
    assert!(e.manager.pending.is_empty());
    // local weight now matches the peer's advertised weight: no follow-up
    assert_eq!(followup, None);
    assert!(e.peers.get(7).unwrap().last_request.is_none());
}

#[test]
fn no_followup_when_peer_is_not_ahead() {
    let mut chain = genesis_store();
    let mut e = started_engine(&chain);
    // the peer's advertised weight equals our local weight: not strictly ahead
    let status = Message::Status { total_weight: 50, best_hash: 1, genesis_hash: 1 };
    send(&mut e, &mut chain, 7, &status);
    let sends = e.on_timeout(SYNC_TIMER_ID);
    assert_eq!(sends.len(), 1);
    // an empty Headers response is valid, but no follow-up request is owed
    let empty = Message::Headers { headers: vec![] };
    assert_eq!(send(&mut e, &mut chain, 7, &empty), None);
    assert!(e.peers.get(7).unwrap().last_request.is_none());
    assert!(e.manager.pending.is_empty());
}

#[test]
fn recording_for_one_peer_leaves_others_alone() {
    let mut chain = genesis_store();
    let mut e = started_engine(&chain);
    let s = Message::Status { total_weight: 100, best_hash: 9, genesis_hash: 1 };
    send(&mut e, &mut chain, 1, &s);
    send(&mut e, &mut chain, 2, &s);
    let sends = e.on_timeout(SYNC_TIMER_ID);
    // every idle peer got exactly one request recorded, and each peer holds
    // at most the one outstanding request just recorded
    assert_eq!(sends.len(), 2);
    assert!(e.peers.get(1).unwrap().last_request.is_some());
    assert!(e.peers.get(2).unwrap().last_request.is_some());
    // a peer with a request outstanding is not driven again by the timer
    let sends = e.on_timeout(SYNC_TIMER_ID);
    assert_eq!(sends.len(), 0);
}

#[test]
fn stale_header_response_cannot_corrupt_the_queue() {
    let mut chain = genesis_store();
    let mut e = started_engine(&chain);
    let status = Message::Status { total_weight: 100, best_hash: 3, genesis_hash: 1 };
    send(&mut e, &mut chain, 7, &status);
    e.on_timeout(SYNC_TIMER_ID);
    // an awaited but non-chaining batch is fully rejected: no partial append
    let bad = Message::Headers {
        headers: vec![
            Header { hash: 1, parent_hash: 0, number: 0, score: 50 },
            Header { hash: 5, parent_hash: 4, number: 1, score: 1 },
        ],
    };
    send(&mut e, &mut chain, 7, &bad);
    assert!(e.manager.pending.is_empty());
    assert_eq!(chain.best_number(), 0);
}

#[test]
fn closed_engine_sends_nothing_but_stays_consistent() {
    let mut chain = genesis_store();
    let mut e = started_engine(&chain);
    let status = Message::Status { total_weight: 100, best_hash: 3, genesis_hash: 1 };
    send(&mut e, &mut chain, 7, &status);
    e.on_close();
    assert_eq!(e.on_connected(&chain), None);
    assert_eq!(e.new_blocks(&chain).len(), 0);
    assert_eq!(e.on_timeout(SYNC_TIMER_ID).len(), 0);
    let req = Message::RequestHeaders { start_hash: 1, max_count: 10 };
    assert_eq!(send(&mut e, &mut chain, 7, &req), None);
}

#[test]
fn connection_and_chain_change_announce_status() {
    let mut chain = genesis_store();
    let mut e = started_engine(&chain);
    match e.on_connected(&chain) {
        Some(Message::Status { total_weight, best_hash, genesis_hash }) => {
            assert_eq!(total_weight, 50);
            assert_eq!(best_hash, 1);
            assert_eq!(genesis_hash, 1);
        }
        other => panic!("expected a status announcement, got {:?}", other),
    }
    assert_eq!(e.on_connection_allowed(&chain), e.on_connected(&chain));
    let s = Message::Status { total_weight: 100, best_hash: 9, genesis_hash: 1 };
    send(&mut e, &mut chain, 1, &s);
    send(&mut e, &mut chain, 2, &s);
    let broadcast = e.new_blocks(&chain);
    assert_eq!(broadcast.len(), 2);
    for (_, m) in broadcast {
        match m {
            Message::Status { total_weight, .. } => assert_eq!(total_weight, 50),
            other => panic!("expected a status announcement, got {:?}", other),
        }
    }
}

#[test]
fn node_removal_drops_the_session() {
    let mut chain = genesis_store();
    let mut e = started_engine(&chain);
    let s = Message::Status { total_weight: 100, best_hash: 9, genesis_hash: 1 };
    send(&mut e, &mut chain, 7, &s);
    assert!(e.peers.contains(7));
    e.on_node_removed(7);
    assert!(!e.peers.contains(7));
}

#[test]
fn engine_identity() {
    let chain = genesis_store();
    let e = BlockSyncExtension::new(&chain);
    assert_eq!(e.name(), "block-propagation");
    assert!(!e.need_encryption());
}

#[test]
fn timer_issues_body_requests_for_pending_headers() {
    let mut chain = genesis_store();
    let mut e = started_engine(&chain);
    let s = Message::Status { total_weight: 100, best_hash: 9, genesis_hash: 1 };
    send(&mut e, &mut chain, 7, &s);
    let h2 = Header { hash: 2, parent_hash: 1, number: 1, score: 30 };
    assert!(e.manager.import_headers(&vec![h2]));
    // the timer drives the idle peer with the pending header's body, and
    // records that single outstanding request for it
    let sends = e.on_timeout(SYNC_TIMER_ID);
    assert_eq!(sends.len(), 1);
    assert_eq!(sends[0].0, 7);
    match &sends[0].1 {
        Message::RequestBodies { hashes } => assert_eq!(hashes, &vec![2]),
        other => panic!("expected a body request, got {:?}", other),
    }
    match &e.peers.get(7).unwrap().last_request {
        Some(RequestInfo::AwaitingBodies { hashes }) => assert_eq!(hashes, &vec![2]),
        other => panic!("expected an outstanding body request, got {:?}", other),
    }
}
