use block_sync::chain::ChainStore;
use block_sync::message::{Body, Header};

fn genesis_store() -> ChainStore {
    let genesis = Header { hash: 1, parent_hash: 0, number: 0, score: 50 };
    ChainStore::new(genesis, Body { payload: 0 })
}

#[test]
fn genesis_summary() {
    let c = genesis_store();
    let info = c.chain_info();
    assert_eq!(info.total_weight, 50);
    assert_eq!(info.best_hash, 1);
    assert_eq!(info.genesis_hash, 1);
    assert_eq!(c.best_number(), 0);
}

#[test]
fn accept_extends_the_chain() {
    let mut c = genesis_store();
    let h2 = Header { hash: 2, parent_hash: 1, number: 1, score: 30 };
    assert!(c.accept_block(h2, Body { payload: 9 }));
    assert_eq!(c.best_hash(), 2);
    assert_eq!(c.best_number(), 1);
    assert_eq!(c.chain_info().total_weight, 80);
    assert_eq!(c.header_by_hash(2), Some(h2));
    assert_eq!(c.header_by_number(1), Some(h2));
    assert_eq!(c.body_by_hash(2), Some(Body { payload: 9 }));
    assert_eq!(c.score_at(1), Some(50));
    assert_eq!(c.score_at(2), Some(80));
}

#[test]
fn reject_wrong_parent() {
    let mut c = genesis_store();
    let bad = Header { hash: 2, parent_hash: 9, number: 1, score: 30 };
    assert!(!c.accept_block(bad, Body { payload: 9 }));
    assert_eq!(c.best_hash(), 1);
}

#[test]
fn reject_wrong_height() {
    let mut c = genesis_store();
    let bad = Header { hash: 2, parent_hash: 1, number: 2, score: 30 };
    assert!(!c.accept_block(bad, Body { payload: 9 }));
    assert_eq!(c.best_number(), 0);
}

#[test]
fn reject_duplicate_hash() {
    let mut c = genesis_store();
    let bad = Header { hash: 1, parent_hash: 1, number: 1, score: 30 };
    assert!(!c.accept_block(bad, Body { payload: 9 }));
    assert_eq!(c.best_number(), 0);
}

#[test]
fn reject_weight_overflow() {
    let mut c = genesis_store();
    let bad = Header { hash: 2, parent_hash: 1, number: 1, score: u64::MAX };
    assert!(!c.accept_block(bad, Body { payload: 9 }));
    assert_eq!(c.chain_info().total_weight, 50);
}

#[test]
fn unknown_hash_lookups() {
    let c = genesis_store();
    assert_eq!(c.header_by_hash(99), None);
    assert_eq!(c.body_by_hash(99), None);
    assert_eq!(c.score_at(99), None);
    assert_eq!(c.header_by_number(5), None);
    assert!(!c.contains_hash(99));
}
