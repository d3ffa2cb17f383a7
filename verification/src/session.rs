use vstd::prelude::*;
use vstd::map::*;
use vstd::assert_maps_equal;

verus! {

/// The single in-flight request recorded for a peer, used to validate the
/// shape of that peer's next response.
#[derive(Clone, Debug)]
pub enum RequestInfo {
    /// A `RequestHeaders{start_hash, ..}` was sent; a `Headers` response is
    /// expected to start at `start_hash`.
    AwaitingHeaders { start_hash: u64 },
    /// A `RequestBodies{hashes}` was sent; a `Bodies` response is expected.
    AwaitingBodies { hashes: Vec<u64> },
}

/// Per-peer synchronization state: the chain weight and best hash the peer
/// last advertised, and its at-most-one outstanding request.
#[derive(Clone, Debug)]
pub struct PeerSession {
    pub total_weight: u64,
    pub best_hash: u64,
    pub last_request: Option<RequestInfo>,
}

impl PeerSession {
    pub open spec fn is_idle(self) -> bool {
        self.last_request is None
    }
}

pub open spec fn keys_distinct(s: Seq<(u64, PeerSession)>) -> bool {
    forall|i: int, j: int| 0 <= i < j < s.len() ==> s[i].0 != s[j].0
}

pub open spec fn entries_map(s: Seq<(u64, PeerSession)>) -> Map<u64, PeerSession>
    decreases s.len(),
{
    if s.len() == 0 {
        Map::empty()
    } else {
        entries_map(s.drop_last()).insert(s.last().0, s.last().1)
    }
}

/// On distinct keys, the association list and its map agree entry by entry.
proof fn lemma_entries_map_char(s: Seq<(u64, PeerSession)>)
    requires
        keys_distinct(s),
    ensures
        forall|id: u64|
            entries_map(s).contains_key(id) <==> (exists|i: int|
                0 <= i < s.len() && s[i].0 == id),
        forall|i: int|
            0 <= i < s.len() ==> entries_map(s).contains_key(#[trigger] s[i].0) && entries_map(s)[
                s[i].0
            ] == s[i].1,
    decreases s.len(),
{
    if s.len() > 0 {
        assert(keys_distinct(s.drop_last()));
        lemma_entries_map_char(s.drop_last());
        assert forall|i: int|
            0 <= i < s.len() implies entries_map(s).contains_key(#[trigger] s[i].0)
            && entries_map(s)[s[i].0] == s[i].1 by {
            if i < s.len() - 1 {
                assert(s.drop_last()[i] == s[i]);
                assert(s[i].0 != s.last().0);
            }
        }
        assert forall|id: u64| entries_map(s).contains_key(id) implies (exists|i: int|
            0 <= i < s.len() && s[i].0 == id) by {
            if id != s.last().0 {
                assert(entries_map(s.drop_last()).contains_key(id));
                let i = choose|i: int| 0 <= i < s.drop_last().len() && s.drop_last()[i].0 == id;
                assert(s.drop_last()[i] == s[i]);
                assert(s[i].0 == id);
            } else {
                assert(s[s.len() - 1].0 == id);
            }
        }
    }
}

/// The peer session table, keyed by peer identifier. Its mathematical view
/// is a map from peer identifier to session.
pub struct SessionTable {
    pub entries: Vec<(u64, PeerSession)>,
}

impl View for SessionTable {
    type V = Map<u64, PeerSession>;

    open spec fn view(&self) -> Map<u64, PeerSession> {
        entries_map(self.entries@)
    }
}

impl SessionTable {
    /// Well-formed: no peer identifier occurs twice.
    pub open spec fn wf(self) -> bool {
        keys_distinct(self.entries@)
    }

    pub fn new() -> (r: SessionTable)
        ensures
            r.wf(),
            r@ == Map::<u64, PeerSession>::empty(),
    {
        SessionTable { entries: Vec::new() }
    }

    /// Drop every session.
    pub fn clear(&mut self)
        ensures
            final(self).wf(),
            final(self)@ == Map::<u64, PeerSession>::empty(),
    {
        self.entries.clear();
    }

    fn find(&self, id: u64) -> (r: Option<usize>)
        requires
            self.wf(),
        ensures
            match r {
                Some(i) => 0 <= i < self.entries@.len() && self.entries@[i as int].0 == id
                    && self@.contains_key(id) && self@[id] == self.entries@[i as int].1,
                None => !self@.contains_key(id),
            },
    {
        proof {
            lemma_entries_map_char(self.entries@);
        }
        let mut i: usize = 0;
        while i < self.entries.len()
            invariant
                self.wf(),
                0 <= i <= self.entries@.len(),
                forall|j: int| 0 <= j < i ==> self.entries@[j].0 != id,
                forall|k: u64|
                    self@.contains_key(k) <==> (exists|j: int|
                        0 <= j < self.entries@.len() && self.entries@[j].0 == k),
                forall|j: int|
                    0 <= j < self.entries@.len() ==> self@.contains_key(
                        #[trigger] self.entries@[j].0,
                    ) && self@[self.entries@[j].0] == self.entries@[j].1,
            decreases self.entries@.len() - i,
        {
            if self.entries[i].0 == id {
                return Some(i);
            }
            i = i + 1;
        }
        None
    }

    pub fn contains(&self, id: u64) -> (r: bool)
        requires
            self.wf(),
        ensures
            r == self@.contains_key(id),
    {
        self.find(id).is_some()
    }

    /// Shared-access lookup of a peer's session.
    pub fn get(&self, id: u64) -> (r: Option<&PeerSession>)
        requires
            self.wf(),
        ensures
            match r {
                Some(p) => self@.contains_key(id) && *p == self@[id],
                None => !self@.contains_key(id),
            },
    {
        match self.find(id) {
            Some(i) => Some(&self.entries[i].1),
            None => None,
        }
    }

    /// Record a valid `Status` announcement: weight and best hash update
    /// together; an existing peer keeps its outstanding request, a new peer
    /// starts with none.
    pub fn upsert_status(&mut self, id: u64, total_weight: u64, best_hash: u64)
        requires
            old(self).wf(),
        ensures
            final(self).wf(),
            old(self)@.contains_key(id) ==> final(self)@ == old(self)@.insert(
                id,
                PeerSession {
                    total_weight,
                    best_hash,
                    last_request: old(self)@[id].last_request,
                },
            ),
            !old(self)@.contains_key(id) ==> final(self)@ == old(self)@.insert(
                id,
                PeerSession { total_weight, best_hash, last_request: None },
            ),
    {
        proof {
            lemma_entries_map_char(self.entries@);
        }
        let found = self.find(id);
        match found {
            Some(i) => {
                let ghost s0 = self.entries@;
                self.entries[i].1.total_weight = total_weight;
                self.entries[i].1.best_hash = best_hash;
                proof {
                    let s1 = self.entries@;
                    assert(keys_distinct(s1));
                    lemma_entries_map_char(s1);
                    assert_maps_equal!(
                        entries_map(s1),
                        entries_map(s0).insert(
                            id,
                            PeerSession {
                                total_weight,
                                best_hash,
                                last_request: entries_map(s0)[id].last_request,
                            },
                        ),
                        k => {
                            if entries_map(s1).contains_key(k) {
                                let j = choose|j: int| 0 <= j < s1.len() && s1[j].0 == k;
                                assert(entries_map(s1)[k] == s1[j].1);
                                if j != i {
                                    assert(s0[j] == s1[j]);
                                    assert(entries_map(s0)[k] == s0[j].1);
                                }
                            } else {
                                if entries_map(s0).contains_key(k) {
                                    let j = choose|j: int| 0 <= j < s0.len() && s0[j].0 == k;
                                    assert(s1[j].0 == k);
                                }
                            }
                        }
                    );
                }
            },
            None => {
                let ghost s0 = self.entries@;
                self.entries.push((id, PeerSession { total_weight, best_hash, last_request: None }));
                proof {
                    let s1 = self.entries@;
                    assert(s1.drop_last() =~= s0);
                    assert forall|i: int, j: int| 0 <= i < j < s1.len() implies s1[i].0
                        != s1[j].0 by {
                        if j == s1.len() - 1 {
                            assert(s0[i] == s1[i]);
                        }
                    }
                }
            },
        }
    }

    /// Delete a peer's session; any in-flight request is abandoned.
    pub fn remove(&mut self, id: u64)
        requires
            old(self).wf(),
        ensures
            final(self).wf(),
            final(self)@ == old(self)@.remove(id),
    {
        proof {
            lemma_entries_map_char(self.entries@);
        }
        let found = self.find(id);
        match found {
            Some(i) => {
                let ghost s0 = self.entries@;
                self.entries.swap_remove(i);
                proof {
                    let s1 = self.entries@;
                    assert forall|a: int, b: int| 0 <= a < b < s1.len() implies s1[a].0
                        != s1[b].0 by {
                        assert(s1 == s0.update(i as int, s0.last()).drop_last());
                    }
                    lemma_entries_map_char(s1);
                    assert_maps_equal!(
                        entries_map(s1),
                        entries_map(s0).remove(id),
                        k => {
                            if entries_map(s1).contains_key(k) {
                                let j = choose|j: int| 0 <= j < s1.len() && s1[j].0 == k;
                                if j == i {
                                    assert(s1[j] == s0[s0.len() - 1]);
                                    assert(entries_map(s0)[k] == s0[s0.len() - 1].1);
                                } else {
                                    assert(s1[j] == s0[j]);
                                    assert(entries_map(s0)[k] == s0[j].1);
                                }
                            } else {
                                if k != id && entries_map(s0).contains_key(k) {
                                    let j = choose|j: int| 0 <= j < s0.len() && s0[j].0 == k;
                                    if j == i {
                                        assert(false);
                                    } else if j == s0.len() - 1 {
                                        if i < s0.len() - 1 {
                                            assert(s1[i as int].0 == k);
                                        } else {
                                            assert(false);
                                        }
                                    } else {
                                        assert(s1[j].0 == k);
                                    }
                                }
                            }
                        }
                    );
                }
            },
            None => {
                proof {
                    assert(!old(self)@.contains_key(id));
                    assert_maps_equal!(entries_map(self.entries@), entries_map(self.entries@).remove(id));
                }
            },
        }
    }

    /// Record (or clear) the peer's single outstanding request. A peer with
    /// no session is left untouched.
    pub fn set_request(&mut self, id: u64, req: Option<RequestInfo>)
        requires
            old(self).wf(),
        ensures
            final(self).wf(),
            old(self)@.contains_key(id) ==> final(self)@ == old(self)@.insert(
                id,
                PeerSession {
                    total_weight: old(self)@[id].total_weight,
                    best_hash: old(self)@[id].best_hash,
                    last_request: req,
                },
            ),
            !old(self)@.contains_key(id) ==> final(self)@ == old(self)@ && final(self).entries@
                == old(self).entries@,
    {
        proof {
            lemma_entries_map_char(self.entries@);
        }
        let found = self.find(id);
        match found {
            Some(i) => {
                let ghost s0 = self.entries@;
                self.entries[i].1.last_request = req;
                proof {
                    let s1 = self.entries@;
                    assert(keys_distinct(s1));
                    lemma_entries_map_char(s1);
                    assert_maps_equal!(
                        entries_map(s1),
                        entries_map(s0).insert(
                            id,
                            PeerSession {
                                total_weight: entries_map(s0)[id].total_weight,
                                best_hash: entries_map(s0)[id].best_hash,
                                last_request: req,
                            },
                        ),
                        k => {
                            if entries_map(s1).contains_key(k) {
                                let j = choose|j: int| 0 <= j < s1.len() && s1[j].0 == k;
                                assert(entries_map(s1)[k] == s1[j].1);
                                if j != i {
                                    assert(s0[j] == s1[j]);
                                    assert(entries_map(s0)[k] == s0[j].1);
                                }
                            } else {
                                if entries_map(s0).contains_key(k) {
                                    let j = choose|j: int| 0 <= j < s0.len() && s0[j].0 == k;
                                    assert(s1[j].0 == k);
                                }
                            }
                        }
                    );
                }
            },
            None => {},
        }
    }

    /// The identifiers of all known peers, each exactly once.
    pub fn peer_ids(&self) -> (r: Vec<u64>)
        requires
            self.wf(),
        ensures
            r@.len() == self.entries@.len(),
            forall|j: int| 0 <= j < r@.len() ==> r@[j] == self.entries@[j].0,
            forall|j: int| 0 <= j < r@.len() ==> self@.contains_key(#[trigger] r@[j]),
            forall|id: u64| self@.contains_key(id) ==> r@.contains(id),
    {
        proof {
            lemma_entries_map_char(self.entries@);
        }
        let mut r: Vec<u64> = Vec::new();
        let mut i: usize = 0;
        while i < self.entries.len()
            invariant
                self.wf(),
                0 <= i <= self.entries@.len(),
                r@.len() == i,
                forall|j: int| 0 <= j < i ==> r@[j] == self.entries@[j].0,
            decreases self.entries@.len() - i,
        {
            r.push(self.entries[i].0);
            i = i + 1;
        }
        proof {
            assert forall|id: u64| self@.contains_key(id) implies r@.contains(id) by {
                let j = choose|j: int|
                    0 <= j < self.entries@.len() && self.entries@[j].0 == id;
                assert(r@[j] == id);
            }
        }
        r
    }

    /// The identifiers of peers with no outstanding request: the peers the
    /// periodic timer may drive.
    pub fn idle_ids(&self) -> (r: Vec<u64>)
        requires
            self.wf(),
        ensures
            forall|j: int|
                0 <= j < r@.len() ==> self@.contains_key(#[trigger] r@[j]) && self@[r@[j]].is_idle(),
            forall|id: u64| self@.contains_key(id) && self@[id].is_idle() ==> r@.contains(id),
            forall|a: int, b: int| 0 <= a < b < r@.len() ==> r@[a] != r@[b],
    {
        proof {
            lemma_entries_map_char(self.entries@);
        }
        let mut r: Vec<u64> = Vec::new();
        let mut i: usize = 0;
        while i < self.entries.len()
            invariant
                self.wf(),
                0 <= i <= self.entries@.len(),
                forall|k: u64|
                    self@.contains_key(k) <==> (exists|j: int|
                        0 <= j < self.entries@.len() && self.entries@[j].0 == k),
                forall|j: int|
                    0 <= j < self.entries@.len() ==> self@.contains_key(
                        #[trigger] self.entries@[j].0,
                    ) && self@[self.entries@[j].0] == self.entries@[j].1,
                forall|j: int|
                    0 <= j < r@.len() ==> (exists|l: int|
                        0 <= l < i && self.entries@[l].0 == #[trigger] r@[j]
                            && self.entries@[l].1.is_idle()),
                forall|l: int|
                    0 <= l < i && self.entries@[l].1.is_idle() ==> r@.contains(
                        #[trigger] self.entries@[l].0,
                    ),
                forall|a: int, b: int| 0 <= a < b < r@.len() ==> r@[a] != r@[b],
            decreases self.entries@.len() - i,
        {
            let idle = match &self.entries[i].1.last_request {
                Option::None => true,
                Option::Some(_) => false,
            };
            if idle {
                let ghost r0 = r@;
                r.push(self.entries[i].0);
                proof {
                    assert forall|a: int, b: int| 0 <= a < b < r@.len() implies r@[a] != r@[b] by {
                        if b == r@.len() - 1 {
                            let l = choose|l: int|
                                0 <= l < i && self.entries@[l].0 == r0[a]
                                    && self.entries@[l].1.is_idle();
                            assert(self.entries@[l].0 != self.entries@[i as int].0);
                        } else {
                            assert(r0[a] == r@[a] && r0[b] == r@[b]);
                        }
                    }
                    assert forall|l: int|
                        0 <= l < i + 1 && self.entries@[l].1.is_idle() implies r@.contains(
                        #[trigger] self.entries@[l].0,
                    ) by {
                        if l < i {
                            let j = choose|j: int| 0 <= j < r0.len() && r0[j] == self.entries@[l].0;
                            assert(r@[j] == self.entries@[l].0);
                        } else {
                            assert(r@[r@.len() - 1] == self.entries@[l].0);
                        }
                    }
                }
            }
            i = i + 1;
        }
        proof {
            assert forall|id: u64|
                self@.contains_key(id) && self@[id].is_idle() implies r@.contains(id) by {
                let j = choose|j: int|
                    0 <= j < self.entries@.len() && self.entries@[j].0 == id;
                assert(self.entries@[j].1.is_idle());
            }
        }
        r
    }
}

} // verus!
