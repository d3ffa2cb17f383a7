use block_sync::message::{decode_message, encode_message, Body, Header, Message};

fn round_trip(m: &Message) -> Message {
    let bytes = encode_message(m);
    decode_message(&bytes).expect("an encoded message must decode")
}

#[test]
fn status_round_trip() {
    let m = Message::Status { total_weight: 100, best_hash: 7, genesis_hash: 1 };
    assert_eq!(round_trip(&m), m);
}

#[test]
fn request_headers_round_trip() {
    let m = Message::RequestHeaders { start_hash: 42, max_count: 128 };
    assert_eq!(round_trip(&m), m);
}

#[test]
fn request_bodies_round_trip() {
    let m = Message::RequestBodies { hashes: vec![3, 5, 8, 13] };
    assert_eq!(round_trip(&m), m);
    let empty = Message::RequestBodies { hashes: vec![] };
    assert_eq!(round_trip(&empty), empty);
}

#[test]
fn headers_round_trip() {
    let h1 = Header { hash: 2, parent_hash: 1, number: 1, score: 30 };
    let h2 = Header { hash: 3, parent_hash: 2, number: 2, score: 20 };
    let m = Message::Headers { headers: vec![h1, h2] };
    assert_eq!(round_trip(&m), m);
    let empty = Message::Headers { headers: vec![] };
    assert_eq!(round_trip(&empty), empty);
}

#[test]
fn bodies_round_trip() {
    let m = Message::Bodies { bodies: vec![Body { payload: 10 }, Body { payload: 11 }] };
    assert_eq!(round_trip(&m), m);
}

#[test]
fn status_exact_bytes() {
    // tag word 1, then the three fields, all big-endian 64-bit words
    let m = Message::Status { total_weight: 2, best_hash: 3, genesis_hash: 4 };
    let bytes = encode_message(&m);
    let mut expected = vec![0u8; 32];
    expected[7] = 1;
    expected[15] = 2;
    expected[23] = 3;
    expected[31] = 4;
    assert_eq!(bytes, expected);
}

#[test]
fn malformed_bytes_are_rejected() {
    // not a multiple of eight bytes
    assert!(decode_message(&vec![1, 2, 3]).is_none());
    // empty input
    assert!(decode_message(&vec![]).is_none());
    // unknown tag word
    let mut bad_tag = vec![0u8; 16];
    bad_tag[7] = 9;
    assert!(decode_message(&bad_tag).is_none());
    // a Status record must have exactly four words
    let mut short_status = vec![0u8; 16];
    short_status[7] = 1;
    assert!(decode_message(&short_status).is_none());
    // a list record whose count word disagrees with its length
    let mut bad_count = vec![0u8; 24];
    bad_count[7] = 3;
    bad_count[15] = 7;
    assert!(decode_message(&bad_count).is_none());
    // truncating a valid encoding must not decode
    let m = Message::RequestBodies { hashes: vec![3, 5] };
    let mut bytes = encode_message(&m);
    bytes.truncate(24);
    assert!(decode_message(&bytes).is_none());
}
