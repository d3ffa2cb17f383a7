use vstd::prelude::*;
use vstd::assert_seqs_equal;

verus! {

/// A block header as the synchronization protocol sees it: an identifying
/// hash, the hash of the parent block, the block height, and the block's
/// contribution to the chain's total weight.
#[derive(Clone, Copy, PartialEq, Eq, Structural, Debug)]
pub struct Header {
    pub hash: u64,
    pub parent_hash: u64,
    pub number: u64,
    pub score: u64,
}

/// A block body. Its contents are opaque to the synchronization engine,
/// which only stores and forwards it.
#[derive(Clone, Copy, PartialEq, Eq, Structural, Debug)]
pub struct Body {
    pub payload: u64,
}

/// The protocol's wire vocabulary.
#[derive(Clone, PartialEq, Eq, Debug)]
pub enum Message {
    /// Chain summary announcement.
    Status { total_weight: u64, best_hash: u64, genesis_hash: u64 },
    /// Ask for up to `max_count` headers starting at `start_hash` (inclusive),
    /// walking forward by increasing height.
    RequestHeaders { start_hash: u64, max_count: u64 },
    /// Ask for the bodies of the given header hashes, order-preserving.
    RequestBodies { hashes: Vec<u64> },
    /// Ordered headers, each linked to the previous by parent hash.
    Headers { headers: Vec<Header> },
    /// Bodies, positionally aligned to the hashes of the request that
    /// produced them.
    Bodies { bodies: Vec<Body> },
}

/// Mathematical model of a `Message`, with sequences in place of vectors.
#[verifier::ext_equal]
pub enum MessageV {
    Status { total_weight: u64, best_hash: u64, genesis_hash: u64 },
    RequestHeaders { start_hash: u64, max_count: u64 },
    RequestBodies { hashes: Seq<u64> },
    Headers { headers: Seq<Header> },
    Bodies { bodies: Seq<Body> },
}

impl View for Message {
    type V = MessageV;

    open spec fn view(&self) -> MessageV {
        match self {
            Message::Status { total_weight, best_hash, genesis_hash } => MessageV::Status {
                total_weight: *total_weight,
                best_hash: *best_hash,
                genesis_hash: *genesis_hash,
            },
            Message::RequestHeaders { start_hash, max_count } => MessageV::RequestHeaders {
                start_hash: *start_hash,
                max_count: *max_count,
            },
            Message::RequestBodies { hashes } => MessageV::RequestBodies { hashes: hashes@ },
            Message::Headers { headers } => MessageV::Headers { headers: headers@ },
            Message::Bodies { bodies } => MessageV::Bodies { bodies: bodies@ },
        }
    }
}

/// A message whose list payload is small enough that its length survives the
/// 64-bit length prefix of the wire encoding. Every message built from
/// vectors satisfies this.
pub open spec fn msg_wf(m: MessageV) -> bool {
    match m {
        MessageV::RequestBodies { hashes } => hashes.len() <= u64::MAX,
        MessageV::Headers { headers } => headers.len() <= u64::MAX,
        MessageV::Bodies { bodies } => bodies.len() <= u64::MAX,
        _ => true,
    }
}

pub open spec fn header_words(hs: Seq<Header>) -> Seq<u64> {
    Seq::new(
        4 * hs.len(),
        |k: int|
            if k % 4 == 0 {
                hs[k / 4].hash
            } else if k % 4 == 1 {
                hs[k / 4].parent_hash
            } else if k % 4 == 2 {
                hs[k / 4].number
            } else {
                hs[k / 4].score
            },
    )
}

/// The tagged, length-prefixed record for a message, as 64-bit words:
/// a tag word, then the fields; list payloads carry their length first.
pub open spec fn msg_words(m: MessageV) -> Seq<u64> {
    match m {
        MessageV::Status { total_weight, best_hash, genesis_hash } => seq![
            1u64,
            total_weight,
            best_hash,
            genesis_hash,
        ],
        MessageV::RequestHeaders { start_hash, max_count } => seq![2u64, start_hash, max_count],
        MessageV::RequestBodies { hashes } => seq![3u64, hashes.len() as u64] + hashes,
        MessageV::Headers { headers } => seq![4u64, headers.len() as u64] + header_words(headers),
        MessageV::Bodies { bodies } => seq![5u64, bodies.len() as u64] + bodies.map_values(
            |b: Body| b.payload,
        ),
    }
}

pub open spec fn combine8(b0: u8, b1: u8, b2: u8, b3: u8, b4: u8, b5: u8, b6: u8, b7: u8) -> u64 {
    ((b0 as u64) << 56) | ((b1 as u64) << 48) | ((b2 as u64) << 40) | ((b3 as u64) << 32) | (
    (b4 as u64) << 24) | ((b5 as u64) << 16) | ((b6 as u64) << 8) | (b7 as u64)
}

pub open spec fn word_at(bs: Seq<u8>, j: int) -> u64 {
    combine8(
        bs[8 * j],
        bs[8 * j + 1],
        bs[8 * j + 2],
        bs[8 * j + 3],
        bs[8 * j + 4],
        bs[8 * j + 5],
        bs[8 * j + 6],
        bs[8 * j + 7],
    )
}

pub open spec fn word_byte(w: u64, j: int) -> u8 {
    if j == 0 {
        (w >> 56) as u8
    } else if j == 1 {
        (w >> 48) as u8
    } else if j == 2 {
        (w >> 40) as u8
    } else if j == 3 {
        (w >> 32) as u8
    } else if j == 4 {
        (w >> 24) as u8
    } else if j == 5 {
        (w >> 16) as u8
    } else if j == 6 {
        (w >> 8) as u8
    } else {
        w as u8
    }
}

/// Big-endian byte image of a word sequence.
pub open spec fn words_bytes(ws: Seq<u64>) -> Seq<u8> {
    Seq::new(8 * ws.len(), |k: int| word_byte(ws[k / 8], k % 8))
}

/// The wire encoding of a message.
pub open spec fn msg_bytes(m: MessageV) -> Seq<u8> {
    words_bytes(msg_words(m))
}

proof fn lemma_split_combine(w: u64)
    ensures
        combine8(
            word_byte(w, 0),
            word_byte(w, 1),
            word_byte(w, 2),
            word_byte(w, 3),
            word_byte(w, 4),
            word_byte(w, 5),
            word_byte(w, 6),
            word_byte(w, 7),
        ) == w,
{
    assert((((w >> 56) as u8 as u64) << 56) | (((w >> 48) as u8 as u64) << 48) | (((w
        >> 40) as u8 as u64) << 40) | (((w >> 32) as u8 as u64) << 32) | (((w
        >> 24) as u8 as u64) << 24) | (((w >> 16) as u8 as u64) << 16) | (((w >> 8) as u8 as u64)
        << 8) | ((w as u8) as u64) == w) by (bit_vector);
}

proof fn lemma_combine_split(b0: u8, b1: u8, b2: u8, b3: u8, b4: u8, b5: u8, b6: u8, b7: u8)
    ensures
        word_byte(combine8(b0, b1, b2, b3, b4, b5, b6, b7), 0) == b0,
        word_byte(combine8(b0, b1, b2, b3, b4, b5, b6, b7), 1) == b1,
        word_byte(combine8(b0, b1, b2, b3, b4, b5, b6, b7), 2) == b2,
        word_byte(combine8(b0, b1, b2, b3, b4, b5, b6, b7), 3) == b3,
        word_byte(combine8(b0, b1, b2, b3, b4, b5, b6, b7), 4) == b4,
        word_byte(combine8(b0, b1, b2, b3, b4, b5, b6, b7), 5) == b5,
        word_byte(combine8(b0, b1, b2, b3, b4, b5, b6, b7), 6) == b6,
        word_byte(combine8(b0, b1, b2, b3, b4, b5, b6, b7), 7) == b7,
{
    let w = ((b0 as u64) << 56) | ((b1 as u64) << 48) | ((b2 as u64) << 40) | ((b3 as u64) << 32)
        | ((b4 as u64) << 24) | ((b5 as u64) << 16) | ((b6 as u64) << 8) | (b7 as u64);
    assert((w >> 56) as u8 == b0 && (w >> 48) as u8 == b1 && (w >> 40) as u8 == b2 && (w
        >> 32) as u8 == b3 && (w >> 24) as u8 == b4 && (w >> 16) as u8 == b5 && (w >> 8) as u8
        == b6 && w as u8 == b7) by (bit_vector)
        requires
            w == ((b0 as u64) << 56) | ((b1 as u64) << 48) | ((b2 as u64) << 40) | ((b3 as u64)
                << 32) | ((b4 as u64) << 24) | ((b5 as u64) << 16) | ((b6 as u64) << 8) | (
            b7 as u64),
    ;
}

/// Two word sequences with the same byte image are the same sequence.
proof fn lemma_words_bytes_injective(ws1: Seq<u64>, ws2: Seq<u64>)
    requires
        words_bytes(ws1) == words_bytes(ws2),
    ensures
        ws1 == ws2,
{
    assert(words_bytes(ws1).len() == 8 * ws1.len());
    assert(words_bytes(ws2).len() == 8 * ws2.len());
    assert(8 * ws1.len() == 8 * ws2.len());
    assert forall|j: int| 0 <= j < ws1.len() implies ws1[j] == ws2[j] by {
        lemma_split_combine(ws1[j]);
        lemma_split_combine(ws2[j]);
        assert forall|k: int| 0 <= k < 8 implies word_byte(ws1[j], k) == word_byte(ws2[j], k) by {
            assert(words_bytes(ws1)[8 * j + k] == word_byte(ws1[j], k));
            assert(words_bytes(ws2)[8 * j + k] == word_byte(ws2[j], k));
        }
    }
    assert(ws1 =~= ws2);
}

/// Distinct well-formed messages have distinct encodings: the codec is
/// lossless.
pub proof fn lemma_msg_bytes_injective(m1: MessageV, m2: MessageV)
    requires
        msg_wf(m1),
        msg_wf(m2),
        msg_bytes(m1) == msg_bytes(m2),
    ensures
        m1 == m2,
{
    lemma_words_bytes_injective(msg_words(m1), msg_words(m2));
    let ws = msg_words(m1);
    match (m1, m2) {
        (MessageV::Status { .. }, MessageV::Status { .. }) => {
            assert(m1 =~= m2);
        },
        (MessageV::RequestHeaders { .. }, MessageV::RequestHeaders { .. }) => {
            assert(m1 =~= m2);
        },
        (MessageV::RequestBodies { hashes: h1 }, MessageV::RequestBodies { hashes: h2 }) => {
            assert(h1.len() == ws.len() - 2 && h2.len() == ws.len() - 2);
            assert forall|i: int| 0 <= i < h1.len() implies h1[i] == h2[i] by {
                assert(ws[2 + i] == h1[i]);
                assert(ws[2 + i] == h2[i]);
            }
            assert(h1 =~= h2);
            assert(m1 =~= m2);
        },
        (MessageV::Headers { headers: h1 }, MessageV::Headers { headers: h2 }) => {
            assert(4 * h1.len() == ws.len() - 2 && 4 * h2.len() == ws.len() - 2);
            assert forall|i: int| 0 <= i < h1.len() implies h1[i] == h2[i] by {
                assert(ws[2 + 4 * i] == header_words(h1)[4 * i]);
                assert(ws[2 + 4 * i + 1] == header_words(h1)[4 * i + 1]);
                assert(ws[2 + 4 * i + 2] == header_words(h1)[4 * i + 2]);
                assert(ws[2 + 4 * i + 3] == header_words(h1)[4 * i + 3]);
                assert(ws[2 + 4 * i] == header_words(h2)[4 * i]);
                assert(ws[2 + 4 * i + 1] == header_words(h2)[4 * i + 1]);
                assert(ws[2 + 4 * i + 2] == header_words(h2)[4 * i + 2]);
                assert(ws[2 + 4 * i + 3] == header_words(h2)[4 * i + 3]);
            }
            assert(h1 =~= h2);
            assert(m1 =~= m2);
        },
        (MessageV::Bodies { bodies: b1 }, MessageV::Bodies { bodies: b2 }) => {
            assert(b1.len() == ws.len() - 2 && b2.len() == ws.len() - 2);
            assert forall|i: int| 0 <= i < b1.len() implies b1[i] == b2[i] by {
                assert(ws[2 + i] == b1.map_values(|b: Body| b.payload)[i]);
                assert(ws[2 + i] == b2.map_values(|b: Body| b.payload)[i]);
            }
            assert(b1 =~= b2);
            assert(m1 =~= m2);
        },
        _ => {
            assert(msg_words(m1)[0] == msg_words(m2)[0]);
        },
    }
}

fn words_to_bytes(ws: &Vec<u64>) -> (r: Vec<u8>)
    ensures
        r@ == words_bytes(ws@),
{
    let mut r: Vec<u8> = Vec::new();
    let mut i: usize = 0;
    while i < ws.len()
        invariant
            0 <= i <= ws.len(),
            r@ == words_bytes(ws@.take(i as int)),
        decreases ws.len() - i,
    {
        let w = ws[i];
        r.push((w >> 56) as u8);
        r.push((w >> 48) as u8);
        r.push((w >> 40) as u8);
        r.push((w >> 32) as u8);
        r.push((w >> 24) as u8);
        r.push((w >> 16) as u8);
        r.push((w >> 8) as u8);
        r.push(w as u8);
        proof {
            assert_seqs_equal!(r@ == words_bytes(ws@.take(i + 1)), k => {
                if k < 8 * i {
                    assert(words_bytes(ws@.take(i as int))[k] == word_byte(ws@[k / 8], k % 8));
                }
            });
        }
        i = i + 1;
    }
    assert(ws@.take(ws@.len() as int) =~= ws@);
    r
}

fn bytes_to_words(bs: &Vec<u8>) -> (r: Option<Vec<u64>>)
    ensures
        match r {
            Some(ws) => bs@ == words_bytes(ws@),
            None => bs@.len() % 8 != 0,
        },
{
    if bs.len() % 8 != 0 {
        return None;
    }
    let nw = bs.len() / 8;
    proof {
        assert(8 * (bs@.len() / 8) == bs@.len());
    }
    let mut ws: Vec<u64> = Vec::new();
    let mut i: usize = 0;
    while i < nw
        invariant
            0 <= i <= nw,
            nw == bs@.len() / 8,
            8 * nw == bs@.len(),
            bs@.len() <= usize::MAX,
            bs@.len() % 8 == 0,
            ws@ == Seq::new(i as nat, |j: int| word_at(bs@, j)),
        decreases nw - i,
    {
        proof {
            assert(8 * i + 7 < bs@.len());
        }
        let w = ((bs[8 * i] as u64) << 56) | ((bs[8 * i + 1] as u64) << 48) | ((bs[8 * i
            + 2] as u64) << 40) | ((bs[8 * i + 3] as u64) << 32) | ((bs[8 * i + 4] as u64) << 24)
            | ((bs[8 * i + 5] as u64) << 16) | ((bs[8 * i + 6] as u64) << 8) | (bs[8 * i
            + 7] as u64);
        ws.push(w);
        proof {
            assert(w == word_at(bs@, i as int));
            assert(ws@ =~= Seq::new((i + 1) as nat, |j: int| word_at(bs@, j)));
        }
        i = i + 1;
    }
    proof {
        assert(bs@.len() == 8 * ws@.len());
        assert forall|k: int| 0 <= k < bs@.len() implies words_bytes(ws@)[k] == bs@[k] by {
            let j = k / 8;
            assert(ws@[j] == word_at(bs@, j));
            lemma_combine_split(
                bs@[8 * j],
                bs@[8 * j + 1],
                bs@[8 * j + 2],
                bs@[8 * j + 3],
                bs@[8 * j + 4],
                bs@[8 * j + 5],
                bs@[8 * j + 6],
                bs@[8 * j + 7],
            );
            assert(words_bytes(ws@)[k] == word_byte(ws@[j], k % 8));
        }
        assert(bs@ =~= words_bytes(ws@));
    }
    Some(ws)
}

fn msg_to_words(m: &Message) -> (r: Vec<u64>)
    ensures
        r@ == msg_words(m@),
{
    match m {
        Message::Status { total_weight, best_hash, genesis_hash } => {
            let mut ws: Vec<u64> = Vec::new();
            ws.push(1);
            ws.push(*total_weight);
            ws.push(*best_hash);
            ws.push(*genesis_hash);
            proof {
                assert(ws@ =~= msg_words(m@));
            }
            ws
        },
        Message::RequestHeaders { start_hash, max_count } => {
            let mut ws: Vec<u64> = Vec::new();
            ws.push(2);
            ws.push(*start_hash);
            ws.push(*max_count);
            proof {
                assert(ws@ =~= msg_words(m@));
            }
            ws
        },
        Message::RequestBodies { hashes } => {
            let mut ws: Vec<u64> = Vec::new();
            ws.push(3);
            ws.push(hashes.len() as u64);
            let mut i: usize = 0;
            while i < hashes.len()
                invariant
                    0 <= i <= hashes@.len(),
                    ws@ == seq![3u64, hashes@.len() as u64] + hashes@.take(i as int),
                decreases hashes@.len() - i,
            {
                ws.push(hashes[i]);
                proof {
                    assert(ws@ =~= seq![3u64, hashes@.len() as u64] + hashes@.take(i + 1));
                }
                i = i + 1;
            }
            proof {
                assert(hashes@.take(hashes@.len() as int) =~= hashes@);
            }
            ws
        },
        Message::Headers { headers } => {
            let mut ws: Vec<u64> = Vec::new();
            ws.push(4);
            ws.push(headers.len() as u64);
            let mut i: usize = 0;
            while i < headers.len()
                invariant
                    0 <= i <= headers@.len(),
                    ws@ == seq![4u64, headers@.len() as u64] + header_words(headers@.take(i as int)),
                decreases headers@.len() - i,
            {
                let h = headers[i];
                ws.push(h.hash);
                ws.push(h.parent_hash);
                ws.push(h.number);
                ws.push(h.score);
                proof {
                    assert_seqs_equal!(
                        ws@ == seq![4u64, headers@.len() as u64] + header_words(headers@.take(i + 1)),
                        k => {
                            if 2 <= k < 2 + 4 * i {
                                assert(header_words(headers@.take(i as int))[k - 2]
                                    == header_words(headers@.take(i + 1))[k - 2]);
                            }
                        }
                    );
                }
                i = i + 1;
            }
            proof {
                assert(headers@.take(headers@.len() as int) =~= headers@);
            }
            ws
        },
        Message::Bodies { bodies } => {
            let mut ws: Vec<u64> = Vec::new();
            ws.push(5);
            ws.push(bodies.len() as u64);
            let mut i: usize = 0;
            while i < bodies.len()
                invariant
                    0 <= i <= bodies@.len(),
                    ws@ == seq![5u64, bodies@.len() as u64] + bodies@.take(i as int).map_values(
                        |b: Body| b.payload,
                    ),
                decreases bodies@.len() - i,
            {
                ws.push(bodies[i].payload);
                proof {
                    assert(ws@ =~= seq![5u64, bodies@.len() as u64] + bodies@.take(
                        i + 1,
                    ).map_values(|b: Body| b.payload));
                }
                i = i + 1;
            }
            proof {
                assert(bodies@.take(bodies@.len() as int) =~= bodies@);
                assert(ws@ =~= msg_words(m@));
            }
            ws
        },
    }
}

/// Serialize a message to its wire bytes.
pub fn encode_message(m: &Message) -> (r: Vec<u8>)
    ensures
        r@ == msg_bytes(m@),
{
    let ws = msg_to_words(m);
    words_to_bytes(&ws)
}

/// The length and leading tag of every well-formed encoding, by variant.
proof fn lemma_msg_words_shape(m: MessageV)
    requires
        msg_wf(m),
    ensures
        msg_words(m).len() >= 2,
        1 <= msg_words(m)[0] <= 5,
        m matches MessageV::Status { .. } <==> msg_words(m)[0] == 1,
        m matches MessageV::RequestHeaders { .. } <==> msg_words(m)[0] == 2,
        m matches MessageV::RequestBodies { .. } <==> msg_words(m)[0] == 3,
        m matches MessageV::Headers { .. } <==> msg_words(m)[0] == 4,
        m matches MessageV::Bodies { .. } <==> msg_words(m)[0] == 5,
        m matches MessageV::Status { .. } ==> msg_words(m).len() == 4,
        m matches MessageV::RequestHeaders { .. } ==> msg_words(m).len() == 3,
        (m matches MessageV::RequestBodies { hashes } ==> msg_words(m).len() == 2 + hashes.len()
            && msg_words(m)[1] == hashes.len() as u64),
        (m matches MessageV::Headers { headers } ==> msg_words(m).len() == 2 + 4 * headers.len()
            && msg_words(m)[1] == headers.len() as u64),
        (m matches MessageV::Bodies { bodies } ==> msg_words(m).len() == 2 + bodies.len()
            && msg_words(m)[1] == bodies.len() as u64),
{
    match m {
        MessageV::Status { .. } => {},
        MessageV::RequestHeaders { .. } => {},
        MessageV::RequestBodies { hashes } => {},
        MessageV::Headers { headers } => {},
        MessageV::Bodies { bodies } => {},
    }
}

fn words_to_msg(ws: &Vec<u64>) -> (r: Option<Message>)
    ensures
        match r {
            Some(m) => ws@ == msg_words(m@) && msg_wf(m@),
            None => forall|mv: MessageV| msg_wf(mv) ==> ws@ != msg_words(mv),
        },
{
    proof {
        assert forall|mv: MessageV| msg_wf(mv) implies msg_words(mv).len() >= 2 && 1 <= msg_words(
            mv,
        )[0] <= 5 by {
            lemma_msg_words_shape(mv);
        }
    }
    if ws.len() < 2 {
        return None;
    }
    let tag = ws[0];
    if tag == 1 {
        if ws.len() != 4 {
            proof {
                assert forall|mv: MessageV| msg_wf(mv) implies ws@ != msg_words(mv) by {
                    lemma_msg_words_shape(mv);
                }
            }
            return None;
        }
        let m = Message::Status { total_weight: ws[1], best_hash: ws[2], genesis_hash: ws[3] };
        proof {
            assert(ws@ =~= msg_words(m@));
        }
        Some(m)
    } else if tag == 2 {
        if ws.len() != 3 {
            proof {
                assert forall|mv: MessageV| msg_wf(mv) implies ws@ != msg_words(mv) by {
                    lemma_msg_words_shape(mv);
                }
            }
            return None;
        }
        let m = Message::RequestHeaders { start_hash: ws[1], max_count: ws[2] };
        proof {
            assert(ws@ =~= msg_words(m@));
        }
        Some(m)
    } else if tag == 3 {
        let n = ws[1];
        if n != (ws.len() - 2) as u64 {
            proof {
                assert forall|mv: MessageV| msg_wf(mv) implies ws@ != msg_words(mv) by {
                    lemma_msg_words_shape(mv);
                }
            }
            return None;
        }
        let mut hashes: Vec<u64> = Vec::new();
        let mut i: usize = 2;
        while i < ws.len()
            invariant
                2 <= i <= ws@.len(),
                hashes@ == ws@.subrange(2, i as int),
            decreases ws@.len() - i,
        {
            hashes.push(ws[i]);
            proof {
                assert(hashes@ =~= ws@.subrange(2, i + 1));
            }
            i = i + 1;
        }
        let m = Message::RequestBodies { hashes };
        proof {
            assert(ws@ =~= msg_words(m@));
        }
        Some(m)
    } else if tag == 4 {
        if (ws.len() - 2) % 4 != 0 || ws[1] != ((ws.len() - 2) / 4) as u64 {
            proof {
                assert forall|mv: MessageV| msg_wf(mv) implies ws@ != msg_words(mv) by {
                    lemma_msg_words_shape(mv);
                    match mv {
                        MessageV::Headers { headers } => {
                            if ws@ == msg_words(mv) {
                                assert(ws@.len() - 2 == 4 * headers.len());
                                assert((ws@.len() - 2) % 4 == 0);
                                assert(headers.len() == (ws@.len() - 2) / 4);
                            }
                        },
                        _ => {},
                    }
                }
            }
            return None;
        }
        let nh = (ws.len() - 2) / 4;
        proof {
            assert(4 * ((ws@.len() - 2) / 4) == ws@.len() - 2);
        }
        let mut headers: Vec<Header> = Vec::new();
        let mut i: usize = 0;
        while i < nh
            invariant
                0 <= i <= nh,
                nh == (ws@.len() - 2) / 4,
                4 * nh == ws@.len() - 2,
                (ws@.len() - 2) % 4 == 0,
                ws@.len() >= 2,
                ws@.len() <= usize::MAX,
                headers@ == Seq::new(
                    i as nat,
                    |j: int|
                        Header {
                            hash: ws@[2 + 4 * j],
                            parent_hash: ws@[2 + 4 * j + 1],
                            number: ws@[2 + 4 * j + 2],
                            score: ws@[2 + 4 * j + 3],
                        },
                ),
            decreases nh - i,
        {
            proof {
                assert(2 + 4 * i + 3 < ws@.len());
            }
            let h = Header {
                hash: ws[2 + 4 * i],
                parent_hash: ws[2 + 4 * i + 1],
                number: ws[2 + 4 * i + 2],
                score: ws[2 + 4 * i + 3],
            };
            headers.push(h);
            proof {
                assert(headers@ =~= Seq::new(
                    (i + 1) as nat,
                    |j: int|
                        Header {
                            hash: ws@[2 + 4 * j],
                            parent_hash: ws@[2 + 4 * j + 1],
                            number: ws@[2 + 4 * j + 2],
                            score: ws@[2 + 4 * j + 3],
                        },
                ));
            }
            i = i + 1;
        }
        let m = Message::Headers { headers };
        proof {
            assert forall|k: int| 0 <= k < ws@.len() implies msg_words(m@)[k] == ws@[k] by {
                if k >= 2 {
                    let j = (k - 2) / 4;
                    assert(header_words(headers@)[k - 2] == ws@[k]);
                }
            }
            assert(ws@ =~= msg_words(m@));
        }
        Some(m)
    } else if tag == 5 {
        let n = ws[1];
        if n != (ws.len() - 2) as u64 {
            proof {
                assert forall|mv: MessageV| msg_wf(mv) implies ws@ != msg_words(mv) by {
                    lemma_msg_words_shape(mv);
                }
            }
            return None;
        }
        let mut bodies: Vec<Body> = Vec::new();
        let mut i: usize = 2;
        while i < ws.len()
            invariant
                2 <= i <= ws@.len(),
                bodies@.len() == i - 2,
                forall|j: int| 0 <= j < i - 2 ==> bodies@[j].payload == ws@[2 + j],
            decreases ws@.len() - i,
        {
            bodies.push(Body { payload: ws[i] });
            i = i + 1;
        }
        let m = Message::Bodies { bodies };
        proof {
            assert forall|k: int| 0 <= k < ws@.len() implies msg_words(m@)[k] == ws@[k] by {
                if k >= 2 {
                    assert(bodies@.map_values(|b: Body| b.payload)[k - 2] == bodies@[k
                        - 2].payload);
                }
            }
            assert(ws@ =~= msg_words(m@));
        }
        Some(m)
    } else {
        proof {
            assert forall|mv: MessageV| msg_wf(mv) implies ws@ != msg_words(mv) by {
                lemma_msg_words_shape(mv);
            }
        }
        None
    }
}

/// Parse wire bytes into a message. Fail-closed: bytes that are not the
/// encoding of any message yield `None`, and a successful parse returns
/// exactly the message that encodes to the input.
pub fn decode_message(data: &Vec<u8>) -> (r: Option<Message>)
    ensures
        match r {
            Some(m) => data@ == msg_bytes(m@) && msg_wf(m@),
            None => forall|mv: MessageV| msg_wf(mv) ==> data@ != msg_bytes(mv),
        },
{
    let ws_opt = bytes_to_words(data);
    match ws_opt {
        None => {
            proof {
                assert forall|mv: MessageV| msg_wf(mv) implies data@ != msg_bytes(mv) by {
                    assert(msg_bytes(mv).len() == 8 * msg_words(mv).len());
                    assert(8 * msg_words(mv).len() % 8 == 0) by (nonlinear_arith);
                }
            }
            None
        },
        Some(ws) => {
            let r = words_to_msg(&ws);
            proof {
                if r is None {
                    assert forall|mv: MessageV| msg_wf(mv) implies data@ != msg_bytes(mv) by {
                        if data@ == msg_bytes(mv) {
                            lemma_words_bytes_injective(ws@, msg_words(mv));
                        }
                    }
                }
            }
            r
        },
    }
}

} // verus!
