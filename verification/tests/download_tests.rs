use block_sync::chain::ChainStore;
use block_sync::download::DownloadManager;
use block_sync::message::{Body, Header, Message};
use block_sync::{MAX_BODY_REQUEST_COUNT, MAX_HEADER_REQUEST_COUNT, MAX_PENDING_HEADERS};

fn linked_headers(first_parent: u64, first_number: u64, count: u64) -> Vec<Header> {
    let mut out = Vec::new();
    let mut parent = first_parent;
    for i in 0..count {
        let hash = 1000 + first_number + i;
        out.push(Header { hash, parent_hash: parent, number: first_number + i, score: 1 });
        parent = hash;
    }
    out
}

#[test]
fn import_headers_appends_a_linked_batch() {
    let mut m = DownloadManager::new(1, 0);
    let batch = linked_headers(1, 1, 3);
    assert!(m.import_headers(&batch));
    assert_eq!(m.frontier_hash(), 1);
    assert_eq!(m.pending, batch);
}

#[test]
fn import_headers_rejects_broken_link_without_partial_append() {
    let mut m = DownloadManager::new(1, 0);
    let mut batch = linked_headers(1, 1, 3);
    // break the parent link of the middle entry
    batch[1].parent_hash = 777;
    assert!(!m.import_headers(&batch));
    assert!(m.pending.is_empty());
}

#[test]
fn import_headers_rejects_batch_not_anchored_at_frontier() {
    let mut m = DownloadManager::new(1, 0);
    let batch = linked_headers(555, 1, 2);
    assert!(!m.import_headers(&batch));
    assert!(m.pending.is_empty());
}

#[test]
fn import_headers_rejects_wrong_heights() {
    let mut m = DownloadManager::new(1, 0);
    let mut batch = linked_headers(1, 1, 2);
    batch[1].number = 9;
    assert!(!m.import_headers(&batch));
    assert!(m.pending.is_empty());
}

#[test]
fn import_headers_rejects_duplicate_hashes() {
    let mut m = DownloadManager::new(1, 0);
    let mut batch = linked_headers(1, 1, 2);
    batch[1].hash = batch[0].hash;
    batch[1].parent_hash = batch[0].hash;
    assert!(!m.import_headers(&batch));
    assert!(m.pending.is_empty());
}

#[test]
fn create_request_asks_for_headers_when_idle() {
    let mut m = DownloadManager::new(1, 0);
    match m.create_request() {
        Some(Message::RequestHeaders { start_hash, max_count }) => {
            assert_eq!(start_hash, 1);
            assert_eq!(max_count, MAX_HEADER_REQUEST_COUNT);
        }
        other => panic!("expected a header request, got {:?}", other),
    }
}

#[test]
fn create_request_asks_for_pending_bodies_first_and_never_twice() {
    let mut m = DownloadManager::new(1, 0);
    let batch = linked_headers(1, 1, 3);
    assert!(m.import_headers(&batch));
    let hashes: Vec<u64> = batch.iter().map(|h| h.hash).collect();
    match m.create_request() {
        Some(Message::RequestBodies { hashes: hs }) => assert_eq!(hs, hashes),
        other => panic!("expected a body request, got {:?}", other),
    }
    // the same pending headers are not asked for again: the next request
    // anchors new headers at the pending tip
    match m.create_request() {
        Some(Message::RequestHeaders { start_hash, .. }) => {
            assert_eq!(start_hash, *hashes.last().unwrap());
        }
        other => panic!("expected a header request, got {:?}", other),
    }
}

#[test]
fn create_request_batches_bodies() {
    let mut m = DownloadManager::new(1, 0);
    let batch = linked_headers(1, 1, MAX_BODY_REQUEST_COUNT as u64 + 5);
    assert!(m.import_headers(&batch));
    match m.create_request() {
        Some(Message::RequestBodies { hashes }) => {
            assert_eq!(hashes.len(), MAX_BODY_REQUEST_COUNT);
        }
        other => panic!("expected a body request, got {:?}", other),
    }
    match m.create_request() {
        Some(Message::RequestBodies { hashes }) => assert_eq!(hashes.len(), 5),
        other => panic!("expected a body request, got {:?}", other),
    }
}

#[test]
fn create_request_respects_max_in_flight_depth() {
    let mut m = DownloadManager::new(1, 0);
    let batch = linked_headers(1, 1, MAX_PENDING_HEADERS as u64);
    assert!(m.import_headers(&batch));
    // exhaust the body requests over the whole pending queue
    loop {
        match m.create_request() {
            Some(Message::RequestBodies { .. }) => continue,
            None => break,
            other => panic!("expected no header request at full depth, got {:?}", other),
        }
    }
    assert_eq!(m.requested, MAX_PENDING_HEADERS);
}

#[test]
fn import_bodies_assembles_blocks_and_advances_frontier() {
    let genesis = Header { hash: 1, parent_hash: 0, number: 0, score: 50 };
    let mut chain = ChainStore::new(genesis, Body { payload: 0 });
    let mut m = DownloadManager::new(1, 0);
    let batch = linked_headers(1, 1, 2);
    assert!(m.import_headers(&batch));
    match m.create_request() {
        Some(Message::RequestBodies { hashes }) => assert_eq!(hashes.len(), 2),
        other => panic!("expected a body request, got {:?}", other),
    }
    let bodies = vec![Body { payload: 7 }, Body { payload: 8 }];
    assert_eq!(m.import_bodies(&mut chain, &bodies), 2);
    assert_eq!(m.frontier_hash(), batch[1].hash);
    assert!(m.pending.is_empty());
    assert_eq!(chain.best_hash(), batch[1].hash);
    assert_eq!(chain.best_number(), 2);
    assert_eq!(chain.body_by_hash(batch[0].hash), Some(Body { payload: 7 }));
}

#[test]
fn import_bodies_without_outstanding_request_is_dropped() {
    let genesis = Header { hash: 1, parent_hash: 0, number: 0, score: 50 };
    let mut chain = ChainStore::new(genesis, Body { payload: 0 });
    let mut m = DownloadManager::new(1, 0);
    let batch = linked_headers(1, 1, 2);
    assert!(m.import_headers(&batch));
    // no create_request: no outstanding body request to match
    let bodies = vec![Body { payload: 7 }];
    assert_eq!(m.import_bodies(&mut chain, &bodies), 0);
    assert_eq!(chain.best_number(), 0);
    assert_eq!(m.pending, batch);
}

#[test]
fn import_bodies_shorter_response_resolves_a_prefix() {
    let genesis = Header { hash: 1, parent_hash: 0, number: 0, score: 50 };
    let mut chain = ChainStore::new(genesis, Body { payload: 0 });
    let mut m = DownloadManager::new(1, 0);
    let batch = linked_headers(1, 1, 3);
    assert!(m.import_headers(&batch));
    m.create_request();
    let bodies = vec![Body { payload: 7 }];
    assert_eq!(m.import_bodies(&mut chain, &bodies), 1);
    assert_eq!(m.frontier_hash(), batch[0].hash);
    assert_eq!(chain.best_number(), 1);
    assert_eq!(m.pending.len(), 2);
}

#[test]
fn import_bodies_oversized_response_is_dropped() {
    let genesis = Header { hash: 1, parent_hash: 0, number: 0, score: 50 };
    let mut chain = ChainStore::new(genesis, Body { payload: 0 });
    let mut m = DownloadManager::new(1, 0);
    let batch = linked_headers(1, 1, 2);
    assert!(m.import_headers(&batch));
    m.create_request();
    let bodies = vec![Body { payload: 7 }, Body { payload: 8 }, Body { payload: 9 }];
    assert_eq!(m.import_bodies(&mut chain, &bodies), 0);
    assert_eq!(chain.best_number(), 0);
}
