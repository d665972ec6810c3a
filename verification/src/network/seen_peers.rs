//! Peers that a discovery mechanism has seen lately.
//!
//! When a peer is found by a discovery mechanism, the network tries to
//! connect to it, and keeps trying for as long as the mechanism "thinks"
//! that the peer is still there: for as long as the peer was seen in one
//! of the last few rounds of discovery.

use crate::collections::table::{lemma_index_of, lemma_map_after_remove, Table};
use crate::crypto::hash;
use vstd::prelude::*;

verus! {

/// When a peer has not been seen after this many rounds, it is removed.
pub const REMOVE_AFTER_ROUND_COUNT: u64 = 2;

/// The address of a peer and the protocol to reach it by.
#[derive(Clone, Copy, Debug, PartialEq, Eq, Structural)]
pub struct PeerAddr {
    /// Whether the peer is reached by QUIC; if not, by TCP.
    pub quic: bool,
    /// The address, an IPv4 address as an IPv4-mapped IPv6 address.
    pub ip: u128,
    pub port: u16,
}

impl PeerAddr {
    /// The key that the peer is filed under.
    pub open spec fn spec_key(self) -> hash::Hash {
        hash::Hash {
            hi: if self.quic {
                (65536 + self.port) as u128
            } else {
                self.port as u128
            },
            lo: self.ip,
        }
    }

    pub fn key(&self) -> (k: hash::Hash)
        ensures
            k == self.spec_key(),
    {
        hash::Hash {
            hi: if self.quic {
                65536 + self.port as u128
            } else {
                self.port as u128
            },
            lo: self.ip,
        }
    }

    /// Different peers are filed under different keys.
    pub proof fn law_key_injective(a: PeerAddr, b: PeerAddr)
        requires
            a.spec_key() == b.spec_key(),
        ensures
            a == b,
    {
    }
}

/// What is known of a peer.
#[derive(Debug)]
pub struct PeerEntry {
    pub addr: PeerAddr,
    /// Number of handles to the peer that are in use.
    pub ref_count: usize,
    /// The rounds in which the peer was seen, oldest first.
    pub rounds: Vec<u64>,
}

/// A handle to a peer that was seen.
#[derive(Debug, PartialEq, Eq)]
pub struct SeenPeer {
    pub addr: PeerAddr,
}

/// The rounds among the first `n` of `rounds` that are not too old in round `current`.
pub open spec fn recent(rounds: Seq<u64>, current: u64, n: int) -> Seq<u64>
    decreases n,
{
    if n <= 0 {
        Seq::<u64>::empty()
    } else if rounds[n - 1] + REMOVE_AFTER_ROUND_COUNT < current {
        recent(rounds, current, n - 1)
    } else {
        recent(rounds, current, n - 1).push(rounds[n - 1])
    }
}

/// Whether the entry with the given count of handles and rounds is to be
/// kept in round `current`: it is in use, or the peer was seen lately.
pub open spec fn alive(ref_count: usize, rounds: Seq<u64>, current: u64) -> bool {
    ref_count > 0 || recent(rounds, current, rounds.len() as int).len() > 0
}

/// The peers that were seen lately, by address.
#[derive(Debug)]
pub struct SeenPeers {
    pub current_round_id: u64,
    pub peers: Table<PeerEntry>,
}

/// The handles to the peers among the first `n` of `entries` that were
/// seen in a round that is remembered, in order.
pub open spec fn collected(
    entries: Seq<crate::collections::table::Entry<PeerEntry>>,
    n: int,
) -> Seq<SeenPeer>
    decreases n,
{
    if n <= 0 {
        Seq::<SeenPeer>::empty()
    } else if entries[n - 1].value.rounds@.len() > 0 {
        collected(entries, n - 1).push(SeenPeer { addr: entries[n - 1].value.addr })
    } else {
        collected(entries, n - 1)
    }
}

fn recent_rounds(rounds: &Vec<u64>, current: u64) -> (out: Vec<u64>)
    ensures
        out@ == recent(rounds@, current, rounds@.len() as int),
{
    let mut out: Vec<u64> = Vec::new();
    let mut i: usize = 0;
    while i < rounds.len()
        invariant
            i <= rounds@.len(),
            out@ == recent(rounds@, current, i as int),
        decreases rounds@.len() - i,
    {
        let r = rounds[i];
        let old_round = r < current && current - r > REMOVE_AFTER_ROUND_COUNT;
        if !old_round {
            out.push(r);
        }
        i = i + 1;
    }
    out
}

impl SeenPeers {
    /// Every peer is filed under the key of its address.
    pub open spec fn wf(&self) -> bool {
        &&& self.peers.wf()
        &&& forall|k: hash::Hash| #[trigger]
            self.peers@.contains_key(k) ==> self.peers@[k].addr.spec_key() == k
    }

    /// Whether a peer with address `addr` is known.
    pub open spec fn spec_knows(&self, addr: PeerAddr) -> bool {
        self.peers@.contains_key(addr.spec_key())
    }

    /// The rounds in which the peer with address `addr` was seen.
    pub open spec fn spec_rounds(&self, addr: PeerAddr) -> Seq<u64> {
        if self.spec_knows(addr) {
            self.peers@[addr.spec_key()].rounds@
        } else {
            Seq::<u64>::empty()
        }
    }

    /// The number of handles to the peer with address `addr` that are in use.
    pub open spec fn spec_ref_count(&self, addr: PeerAddr) -> usize {
        if self.spec_knows(addr) {
            self.peers@[addr.spec_key()].ref_count
        } else {
            0
        }
    }

    pub fn new() -> (s: SeenPeers)
        ensures
            s.wf(),
            s.current_round_id == 0,
            s.peers@ == Map::<hash::Hash, PeerEntry>::empty(),
    {
        SeenPeers { current_round_id: 0, peers: Table::new() }
    }

    /// Starts a new round of discovery. The rounds that are too old by
    /// now are forgotten, and with them the peers that were seen in no
    /// other round and that no handle is in use for.
    pub fn start_new_round(&mut self)
        requires
            old(self).wf(),
            old(self).current_round_id < u64::MAX,
        ensures
            final(self).wf(),
            final(self).current_round_id == old(self).current_round_id + 1,
            forall|k: hash::Hash|
                #![trigger final(self).peers@.contains_key(k)]
                final(self).peers@.contains_key(k) <==> (old(self).peers@.contains_key(k) && alive(
                    old(self).peers@[k].ref_count,
                    old(self).peers@[k].rounds@,
                    final(self).current_round_id,
                )),
            forall|k: hash::Hash| #[trigger]
                final(self).peers@.contains_key(k)
                    ==> final(self).peers@[k].ref_count == old(self).peers@[k].ref_count
                    && final(self).peers@[k].rounds@ == recent(
                    old(self).peers@[k].rounds@,
                    final(self).current_round_id,
                    old(self).peers@[k].rounds@.len() as int,
                ),
    {
        self.current_round_id = self.current_round_id + 1;
        let current = self.current_round_id;
        let ghost start = self.peers@;
        let mut i: usize = self.peers.len();
        while i > 0
            invariant
                self.peers.wf(),
                forall|k: hash::Hash| #[trigger] start.contains_key(k)
                    ==> start[k].addr.spec_key() == k,
                self.current_round_id == current,
                i <= self.peers.entries@.len(),
                forall|k: hash::Hash| #[trigger] self.peers@.contains_key(k)
                    ==> start.contains_key(k),
                forall|j: int|
                    0 <= j < i ==> start.contains_key((#[trigger] self.peers.entries@[j]).key)
                        && self.peers.entries@[j].value == start[self.peers.entries@[j].key],
                forall|j: int|
                    i <= j < self.peers.entries@.len() ==> {
                        let k = (#[trigger] self.peers.entries@[j]).key;
                        &&& alive(start[k].ref_count, start[k].rounds@, current)
                        &&& self.peers.entries@[j].value.addr == start[k].addr
                        &&& self.peers.entries@[j].value.ref_count == start[k].ref_count
                        &&& self.peers.entries@[j].value.rounds@ == recent(
                            start[k].rounds@,
                            current,
                            start[k].rounds@.len() as int,
                        )
                    },
                forall|k: hash::Hash|
                    #![trigger self.peers@.contains_key(k)]
                    start.contains_key(k) && alive(start[k].ref_count, start[k].rounds@, current)
                        ==> self.peers@.contains_key(k),
            decreases i,
        {
            i = i - 1;
            let key = self.peers.key_at(i);
            let ghost before = self.peers.entries@;
            let ghost before_map = self.peers@;
            let ref_count = self.peers.value_at(i).ref_count;
            let rounds = recent_rounds(&self.peers.value_at(i).rounds, current);
            if ref_count == 0 && rounds.len() == 0 {
                proof {
                    lemma_map_after_remove(before, i as int);
                }
                self.peers.entries.remove(i);
                proof {
                    assert(self.peers@ == before_map.remove(key));
                    assert forall|j: int| i <= j < self.peers.entries@.len() implies {
                        let k = (#[trigger] self.peers.entries@[j]).key;
                        &&& alive(start[k].ref_count, start[k].rounds@, current)
                        &&& self.peers.entries@[j].value.addr == start[k].addr
                        &&& self.peers.entries@[j].value.ref_count == start[k].ref_count
                        &&& self.peers.entries@[j].value.rounds@ == recent(
                            start[k].rounds@,
                            current,
                            start[k].rounds@.len() as int,
                        )
                    } by {
                        assert(self.peers.entries@[j] == before[j + 1]);
                    }
                    assert forall|j: int| 0 <= j < i implies start.contains_key(
                        (#[trigger] self.peers.entries@[j]).key,
                    ) && self.peers.entries@[j].value == start[self.peers.entries@[j].key] by {
                        assert(self.peers.entries@[j] == before[j]);
                    }
                }
            } else {
                let addr = self.peers.value_at(i).addr;
                self.peers.set_value_at(i, PeerEntry { addr, ref_count, rounds });
                proof {
                    assert forall|j: int| i <= j < self.peers.entries@.len() implies {
                        let k = (#[trigger] self.peers.entries@[j]).key;
                        &&& alive(start[k].ref_count, start[k].rounds@, current)
                        &&& self.peers.entries@[j].value.addr == start[k].addr
                        &&& self.peers.entries@[j].value.ref_count == start[k].ref_count
                        &&& self.peers.entries@[j].value.rounds@ == recent(
                            start[k].rounds@,
                            current,
                            start[k].rounds@.len() as int,
                        )
                    } by {
                        if j > i {
                            assert(self.peers.entries@[j] == before[j]);
                        }
                    }
                    assert forall|j: int| 0 <= j < i implies start.contains_key(
                        (#[trigger] self.peers.entries@[j]).key,
                    ) && self.peers.entries@[j].value == start[self.peers.entries@[j].key] by {
                        assert(self.peers.entries@[j] == before[j]);
                    }
                }
            }
        }
        proof {
            assert forall|k: hash::Hash| #[trigger] self.peers@.contains_key(k) implies alive(
                start[k].ref_count,
                start[k].rounds@,
                current,
            ) && self.peers@[k].addr == start[k].addr && self.peers@[k].ref_count
                == start[k].ref_count && self.peers@[k].rounds@ == recent(
                start[k].rounds@,
                current,
                start[k].rounds@.len() as int,
            ) by {
                let j = crate::collections::table::index_of(self.peers.entries@, k);
                lemma_index_of(self.peers.entries@, j);
            }
        }
    }

    /// Takes note that the peer with address `addr` was seen in the
    /// current round. Returns a handle to the peer if it was not seen in
    /// any of the rounds that are remembered.
    pub fn insert(&mut self, addr: PeerAddr) -> (r: Option<SeenPeer>)
        requires
            old(self).wf(),
            old(self).spec_ref_count(addr) < usize::MAX,
        ensures
            final(self).wf(),
            final(self).current_round_id == old(self).current_round_id,
            r.is_some() <==> old(self).spec_rounds(addr).len() == 0,
            r.is_some() ==> r.unwrap().addr == addr,
            forall|k: hash::Hash|
                k != addr.spec_key()
                    ==> final(self).peers@.contains_key(k) == old(self).peers@.contains_key(k),
            forall|k: hash::Hash|
                k != addr.spec_key() && old(self).peers@.contains_key(k)
                    ==> #[trigger] final(self).peers@[k] == old(self).peers@[k],
            final(self).spec_knows(addr),
            final(self).spec_rounds(addr) == (if old(self).spec_rounds(addr).contains(
                old(self).current_round_id,
            ) {
                old(self).spec_rounds(addr)
            } else {
                old(self).spec_rounds(addr).push(old(self).current_round_id)
            }),
            final(self).spec_ref_count(addr) == (if r.is_some() {
                (old(self).spec_ref_count(addr) + 1) as usize
            } else {
                old(self).spec_ref_count(addr)
            }),
    {
        let key = addr.key();
        let current = self.current_round_id;
        let mut entry = match self.peers.remove(&key) {
            Some(entry) => entry,
            None => PeerEntry { addr, ref_count: 0, rounds: Vec::new() },
        };
        let ghost before = entry.rounds@;
        let mut seen = false;
        let mut i: usize = 0;
        while i < entry.rounds.len()
            invariant
                i <= entry.rounds@.len(),
                entry.rounds@ == before,
                seen == (exists|j: int| 0 <= j < i && entry.rounds@[j] == current),
            decreases entry.rounds@.len() - i,
        {
            if entry.rounds[i] == current {
                seen = true;
            }
            i = i + 1;
        }
        proof {
            assert(seen == before.contains(current));
        }
        if seen {
            // Already in current round
            self.peers.insert(key, entry);
            return None;
        }
        let is_new = entry.rounds.len() == 0;
        entry.rounds.push(current);
        if !is_new {
            // Already in one of the other rounds.
            self.peers.insert(key, entry);
            return None;
        }
        entry.ref_count = entry.ref_count + 1;
        self.peers.insert(key, entry);
        Some(SeenPeer { addr })
    }

    /// Forgets the peer with address `addr`, whatever rounds it was seen
    /// in and whatever handles to it are in use.
    pub fn remove(&mut self, addr: &PeerAddr)
        requires
            old(self).wf(),
        ensures
            final(self).wf(),
            final(self).current_round_id == old(self).current_round_id,
            final(self).peers@ == old(self).peers@.remove(addr.spec_key()),
    {
        self.peers.remove(&addr.key());
    }

    /// Hands out a handle to every peer that was seen in a round that is
    /// remembered, in the order of their keys.
    pub fn collect(&mut self) -> (out: Vec<SeenPeer>)
        requires
            old(self).wf(),
            forall|k: hash::Hash| #[trigger]
                old(self).peers@.contains_key(k) ==> old(self).peers@[k].ref_count < usize::MAX,
        ensures
            final(self).wf(),
            final(self).current_round_id == old(self).current_round_id,
            final(self).peers@.dom() == old(self).peers@.dom(),
            forall|k: hash::Hash| #[trigger]
                old(self).peers@.contains_key(k)
                    ==> final(self).peers@[k].addr == old(self).peers@[k].addr
                    && final(self).peers@[k].rounds@ == old(self).peers@[k].rounds@
                    && final(self).peers@[k].ref_count == (if old(self).peers@[k].rounds@.len()
                    > 0 {
                    (old(self).peers@[k].ref_count + 1) as usize
                } else {
                    old(self).peers@[k].ref_count
                }),
            out@ == collected(old(self).peers.entries@, old(self).peers.entries@.len() as int),
    {
        let ghost start = self.peers.entries@;
        let ghost start_map = self.peers@;
        let mut out: Vec<SeenPeer> = Vec::new();
        let mut i: usize = 0;
        while i < self.peers.len()
            invariant
                self.peers.wf(),
                crate::collections::table::sorted(start),
                start_map == crate::collections::table::as_map(start),
                forall|k: hash::Hash| #[trigger]
                    start_map.contains_key(k) ==> start_map[k].addr.spec_key() == k
                        && start_map[k].ref_count < usize::MAX,
                self.current_round_id == old(self).current_round_id,
                self.peers.entries@.len() == start.len(),
                i <= start.len(),
                forall|j: int| 0 <= j < start.len()
                    ==> (#[trigger] self.peers.entries@[j]).key == start[j].key,
                forall|j: int| i <= j < start.len()
                    ==> #[trigger] self.peers.entries@[j] == start[j],
                forall|j: int|
                    0 <= j < i
                        ==> (#[trigger] self.peers.entries@[j]).value.addr == start[j].value.addr
                        && self.peers.entries@[j].value.rounds@ == start[j].value.rounds@
                        && self.peers.entries@[j].value.ref_count
                            == (if start[j].value.rounds@.len()
                        > 0 {
                        (start[j].value.ref_count + 1) as usize
                    } else {
                        start[j].value.ref_count
                    }),
                out@ == collected(start, i as int),
            decreases start.len() - i,
        {
            proof {
                lemma_index_of(start, i as int);
            }
            let seen = self.peers.value_at(i).rounds.len() > 0;
            if seen {
                let addr = self.peers.value_at(i).addr;
                let ghost before = self.peers.entries@;
                let gone = self.peers.entries.remove(i);
                let key = gone.key;
                self.peers.entries.insert(
                    i,
                    crate::collections::table::Entry {
                        key,
                        value: PeerEntry {
                            addr: gone.value.addr,
                            ref_count: gone.value.ref_count + 1,
                            rounds: gone.value.rounds,
                        },
                    },
                );
                proof {
                    crate::collections::table::lemma_map_after_update(
                        before,
                        self.peers.entries@,
                        i as int,
                    );
                }
                out.push(SeenPeer { addr });
            }
            i = i + 1;
        }
        proof {
            let after = self.peers.entries@;
            assert forall|k: hash::Hash| start_map.contains_key(k) <==> self.peers@.contains_key(
                k,
            ) by {
                if start_map.contains_key(k) {
                    let j = crate::collections::table::index_of(start, k);
                    lemma_index_of(after, j);
                }
                if self.peers@.contains_key(k) {
                    let j = crate::collections::table::index_of(after, k);
                    lemma_index_of(start, j);
                }
            }
            assert(self.peers@.dom() =~= start_map.dom());
            assert forall|k: hash::Hash| #[trigger] start_map.contains_key(k)
                implies self.peers@[k].addr
                == start_map[k].addr && self.peers@[k].rounds@ == start_map[k].rounds@
                && self.peers@[k].ref_count == (if start_map[k].rounds@.len() > 0 {
                (start_map[k].ref_count + 1) as usize
            } else {
                start_map[k].ref_count
            }) by {
                let j = crate::collections::table::index_of(start, k);
                lemma_index_of(start, j);
                lemma_index_of(after, j);
            }
        }
        out
    }

    /// Whether the peer with address `addr` was seen in a round that is remembered.
    pub fn is_seen(&self, addr: &PeerAddr) -> (r: bool)
        requires
            self.wf(),
        ensures
            r == (self.spec_rounds(*addr).len() > 0),
    {
        match self.peers.get(&addr.key()) {
            Some(entry) => entry.rounds.len() > 0,
            None => false,
        }
    }
}

impl SeenPeer {
    /// The address that the peer was seen at.
    pub fn initial_addr(&self) -> (a: &PeerAddr)
        ensures
            *a == self.addr,
    {
        &self.addr
    }

    /// The address of the peer, as long as the peer was seen in a round that is remembered.
    pub fn addr_if_seen(&self, peers: &SeenPeers) -> (r: Option<&PeerAddr>)
        requires
            peers.wf(),
        ensures
            r == (if peers.spec_rounds(self.addr).len() > 0 {
                Some(&self.addr)
            } else {
                None
            }),
    {
        if peers.is_seen(&self.addr) {
            Some(&self.addr)
        } else {
            None
        }
    }

    /// Gives the handle back. The peer is forgotten with the last handle to it.
    pub fn release(self, peers: &mut SeenPeers)
        requires
            old(peers).wf(),
        ensures
            final(peers).wf(),
            final(peers).current_round_id == old(peers).current_round_id,
            forall|k: hash::Hash|
                k != self.addr.spec_key()
                    ==> final(peers).peers@.contains_key(k) == old(peers).peers@.contains_key(k),
            forall|k: hash::Hash|
                k != self.addr.spec_key() && old(peers).peers@.contains_key(k)
                    ==> #[trigger] final(peers).peers@[k] == old(peers).peers@[k],
            final(peers).spec_knows(self.addr) == (old(peers).spec_ref_count(self.addr) > 1),
            final(peers).spec_knows(self.addr)
                ==> final(peers).spec_rounds(self.addr) == old(peers).spec_rounds(self.addr)
                && final(peers).spec_ref_count(self.addr)
                == old(peers).spec_ref_count(self.addr) - 1,
    {
        let key = self.addr.key();
        match peers.peers.remove(&key) {
            // Removed by `SeenPeers::remove`.
            None => {},
            Some(entry) => {
                if entry.ref_count > 1 {
                    peers.peers.insert(
                        key,
                        PeerEntry {
                            addr: entry.addr,
                            ref_count: entry.ref_count - 1,
                            rounds: entry.rounds,
                        },
                    );
                }
            },
        }
    }

    /// One more handle to the same peer, if the peer is still known.
    pub fn duplicate(&self, peers: &mut SeenPeers) -> (r: Option<SeenPeer>)
        requires
            old(peers).wf(),
            old(peers).spec_ref_count(self.addr) < usize::MAX,
        ensures
            final(peers).wf(),
            final(peers).current_round_id == old(peers).current_round_id,
            r.is_some() == old(peers).spec_knows(self.addr),
            r.is_some() ==> r.unwrap().addr == self.addr,
            !old(peers).spec_knows(self.addr) ==> final(peers).peers@ == old(peers).peers@,
            forall|k: hash::Hash|
                final(peers).peers@.contains_key(k) == old(peers).peers@.contains_key(k),
            forall|k: hash::Hash|
                k != self.addr.spec_key() && old(peers).peers@.contains_key(k)
                    ==> #[trigger] final(peers).peers@[k] == old(peers).peers@[k],
            old(peers).spec_knows(self.addr)
                ==> final(peers).spec_rounds(self.addr) == old(peers).spec_rounds(self.addr)
                && final(peers).spec_ref_count(self.addr)
                == old(peers).spec_ref_count(self.addr) + 1,
    {
        let key = self.addr.key();
        match peers.peers.remove(&key) {
            None => {
                proof {
                    assert(peers.peers@ =~= old(peers).peers@);
                }
                None
            },
            Some(entry) => {
                peers.peers.insert(
                    key,
                    PeerEntry {
                        addr: entry.addr,
                        ref_count: entry.ref_count + 1,
                        rounds: entry.rounds,
                    },
                );
                Some(SeenPeer { addr: self.addr })
            },
        }
    }
}

} // verus!
