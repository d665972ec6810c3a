//! Tracks the blocks that are missing and required, which peers offer
//! them, and which peer, if any, is downloading each: at most one at a time.

use crate::collections::table::Table;
use crate::crypto::hash;
use crate::protocol::block::BlockId;
use vstd::prelude::*;

verus! {

/// Identifier of a peer in the tracker.
pub type ClientId = usize;

#[verifier::external_type_specification]
#[verifier::external_body]
#[verifier::reject_recursive_types(T)]
pub struct ExSlab<T>(slab::Slab<T>);

/// The lists that a slab holds, by key.
pub uninterp spec fn slab_entries(s: slab::Slab<Vec<BlockId>>) -> Map<usize, Seq<BlockId>>;

/// Calls `slab::Slab::new`, which makes a slab without entries.
#[verifier::external_body]
fn slab_new() -> (out: slab::Slab<Vec<BlockId>>)
    ensures
        slab_entries(out).dom() =~= Set::<usize>::empty(),
{
    slab::Slab::new()
}

/// Calls `slab::Slab::insert`, which stores the value under a key that
/// was vacant and returns that key. Storage is taken to be available.
#[verifier::external_body]
fn slab_insert(s: &mut slab::Slab<Vec<BlockId>>, value: Vec<BlockId>) -> (key: usize)
    ensures
        !slab_entries(*old(s)).contains_key(key),
        slab_entries(*final(s)) == slab_entries(*old(s)).insert(key, value@),
{
    s.insert(value)
}

/// Calls `slab::Slab::try_remove`, which takes the value stored under
/// `key` out and returns it, or returns nothing and leaves the slab as it
/// is if the key is vacant.
#[verifier::external_body]
fn slab_try_remove(s: &mut slab::Slab<Vec<BlockId>>, key: usize) -> (value: Option<Vec<BlockId>>)
    ensures
        value.is_some() == slab_entries(*old(s)).contains_key(key),
        value.is_some() ==> value.unwrap()@ == slab_entries(*old(s))[key],
        slab_entries(*final(s)) == slab_entries(*old(s)).remove(key),
{
    s.try_remove(key)
}

/// Calls `slab::Slab::get`, which returns the value stored under `key`, if any.
#[verifier::external_body]
fn slab_get(s: &slab::Slab<Vec<BlockId>>, key: usize) -> (value: Option<&Vec<BlockId>>)
    ensures
        value.is_some() == slab_entries(*s).contains_key(key),
        value.is_some() ==> value.unwrap()@ == slab_entries(*s)[key],
{
    s.get(key)
}

/// Calls `slab::Slab::get_mut`, which returns the value stored under
/// `key`, if any, for the caller to change in place. No other entry changes.
#[verifier::external_body]
fn slab_get_mut(s: &mut slab::Slab<Vec<BlockId>>, key: usize) -> (value: Option<&mut Vec<BlockId>>)
    ensures
        value.is_some() == slab_entries(*old(s)).contains_key(key),
        value.is_some() ==> value.unwrap()@ == slab_entries(*old(s))[key] && slab_entries(*final(s))
            == slab_entries(*old(s)).insert(key, final(value.unwrap())@),
        value.is_none() ==> slab_entries(*final(s)) == slab_entries(*old(s)),
{
    s.get_mut(key)
}

/// Whether no value occurs twice in `s`.
pub open spec fn distinct<T>(s: Seq<T>) -> bool {
    forall|i: int, j: int| 0 <= i < j < s.len() ==> s[i] != s[j]
}

/// `s` without its first occurrence of `x`.
pub open spec fn without<T>(s: Seq<T>, x: T) -> Seq<T> {
    if s.contains(x) {
        s.remove(s.index_of(x))
    } else {
        s
    }
}

pub proof fn lemma_without<T>(s: Seq<T>, x: T)
    requires
        distinct(s),
    ensures
        distinct(without(s, x)),
        !without(s, x).contains(x),
        forall|y: T| y != x ==> (#[trigger] without(s, x).contains(y) == s.contains(y)),
        s.contains(x) ==> without(s, x).len() == s.len() - 1,
{
    let t = without(s, x);
    if s.contains(x) {
        let i = s.index_of(x);
        assert(0 <= i < s.len() && s[i] == x);
        assert forall|a: int, b: int| 0 <= a < b < t.len() implies t[a] != t[b] by {
            let a0 = if a < i {
                a
            } else {
                a + 1
            };
            let b0 = if b < i {
                b
            } else {
                b + 1
            };
            assert(s[a0] != s[b0]);
        }
        if t.contains(x) {
            let j = choose|j: int| 0 <= j < t.len() && t[j] == x;
            let j0 = if j < i {
                j
            } else {
                j + 1
            };
            assert(s[j0] == x);
            if j0 < i {
                assert(s[j0] != s[i]);
            } else {
                assert(s[i] != s[j0]);
            }
        }
        assert forall|y: T| y != x implies (#[trigger] t.contains(y) == s.contains(y)) by {
            if t.contains(y) {
                let j = choose|j: int| 0 <= j < t.len() && t[j] == y;
                let j0 = if j < i {
                    j
                } else {
                    j + 1
                };
                assert(s[j0] == y);
            }
            if s.contains(y) {
                let j = choose|j: int| 0 <= j < s.len() && s[j] == y;
                let j1 = if j < i {
                    j
                } else {
                    j - 1
                };
                assert(t[j1] == y);
            }
        }
    } else {
        assert forall|y: T| y != x implies (#[trigger] t.contains(y) == s.contains(y)) by {}
    }
}

/// The position of `x` in `list`, if it occurs.
pub fn position_of_block(list: &Vec<BlockId>, x: &BlockId) -> (r: Option<usize>)
    ensures
        r.is_some() == list@.contains(*x),
        r.is_some() ==> r.unwrap() < list@.len() && list@[r.unwrap() as int] == *x,
        r.is_some() && distinct(list@) ==> r.unwrap() as int == list@.index_of(*x),
{
    let mut i: usize = 0;
    while i < list.len()
        invariant
            i <= list@.len(),
            forall|j: int| 0 <= j < i ==> list@[j] != *x,
        decreases list@.len() - i,
    {
        if list[i] == *x {
            proof {
                if distinct(list@) {
                    let j = list@.index_of(*x);
                    assert(list@.contains(*x));
                    assert(0 <= j < list@.len() && list@[j] == *x);
                    if j < i {
                        assert(list@[j] != list@[i as int]);
                    } else if i < j {
                        assert(list@[i as int] != list@[j]);
                    }
                }
            }
            return Some(i);
        }
        i = i + 1;
    }
    None
}

/// The position of `x` in `list`, if it occurs.
pub fn position_of_client(list: &Vec<ClientId>, x: ClientId) -> (r: Option<usize>)
    ensures
        r.is_some() == list@.contains(x),
        r.is_some() ==> r.unwrap() < list@.len() && list@[r.unwrap() as int] == x,
        r.is_some() && distinct(list@) ==> r.unwrap() as int == list@.index_of(x),
{
    let mut i: usize = 0;
    while i < list.len()
        invariant
            i <= list@.len(),
            forall|j: int| 0 <= j < i ==> list@[j] != x,
        decreases list@.len() - i,
    {
        if list[i] == x {
            proof {
                if distinct(list@) {
                    let j = list@.index_of(x);
                    assert(list@.contains(x));
                    assert(0 <= j < list@.len() && list@[j] == x);
                    if j < i {
                        assert(list@[j] != list@[i as int]);
                    } else if i < j {
                        assert(list@[i as int] != list@[j]);
                    }
                }
            }
            return Some(i);
        }
        i = i + 1;
    }
    None
}

/// Takes `x` out of `list`. Returns whether it was there.
pub fn remove_block_from(list: &mut Vec<BlockId>, x: &BlockId) -> (r: bool)
    requires
        distinct(old(list)@),
    ensures
        r == old(list)@.contains(*x),
        final(list)@ == without(old(list)@, *x),
        distinct(final(list)@),
{
    proof {
        lemma_without(list@, *x);
    }
    match position_of_block(list, x) {
        Some(i) => {
            list.remove(i);
            true
        },
        None => false,
    }
}

/// Takes `x` out of `list`. Returns whether it was there.
pub fn remove_client_from(list: &mut Vec<ClientId>, x: ClientId) -> (r: bool)
    requires
        distinct(old(list)@),
    ensures
        r == old(list)@.contains(x),
        final(list)@ == without(old(list)@, x),
        distinct(final(list)@),
{
    proof {
        lemma_without(list@, x);
    }
    match position_of_client(list, x) {
        Some(i) => {
            list.remove(i);
            true
        },
        None => false,
    }
}

/// One more than `n`, or `n` if there is no more.
pub open spec fn spec_inc(n: usize) -> usize {
    if n < usize::MAX {
        (n + 1) as usize
    } else {
        n
    }
}

/// One less than `n`, or zero if `n` is zero.
pub open spec fn spec_dec(n: usize) -> usize {
    if n > 0 {
        (n - 1) as usize
    } else {
        n
    }
}

fn inc(n: usize) -> (r: usize)
    ensures
        r == spec_inc(n),
{
    if n < usize::MAX {
        n + 1
    } else {
        n
    }
}

fn dec(n: usize) -> (r: usize)
    ensures
        r == spec_dec(n),
{
    if n > 0 {
        n - 1
    } else {
        n
    }
}

/// What is known of a block that is missing.
#[derive(Debug)]
pub struct MissingBlock {
    /// The clients that offer the block, in the order of their offers.
    pub clients: Vec<ClientId>,
    /// The client that is downloading the block, if any.
    pub accepted_by: Option<ClientId>,
    /// Number of requirements that were begun and neither committed nor dropped.
    pub being_required: usize,
    /// Number of committed requirements.
    pub required: usize,
}

/// A missing block, as plain values.
pub struct MissingBlockView {
    pub clients: Seq<ClientId>,
    pub accepted_by: Option<ClientId>,
    pub being_required: usize,
    pub required: usize,
}

impl MissingBlock {
    pub open spec fn view(&self) -> MissingBlockView {
        MissingBlockView {
            clients: self.clients@,
            accepted_by: self.accepted_by,
            being_required: self.being_required,
            required: self.required,
        }
    }

    fn new() -> (m: MissingBlock)
        ensures
            m@ == MissingBlockView::fresh(),
    {
        MissingBlock { clients: Vec::new(), accepted_by: None, being_required: 0, required: 0 }
    }

    /// Takes the block back from `client_id`, if it is the client that
    /// accepted it. Returns whether it was.
    pub fn unaccept_by(&mut self, client_id: ClientId) -> (r: bool)
        ensures
            r == (old(self).accepted_by == Some(client_id)),
            final(self)@ == old(self)@.unaccepted_by(client_id),
            final(self).clients == old(self).clients,
    {
        match self.accepted_by {
            Some(accepted_by) => {
                if accepted_by == client_id {
                    self.accepted_by = None;
                    return true;
                }
            },
            None => {},
        }
        false
    }
}

impl MissingBlockView {
    /// A block that nobody offers or requires.
    pub open spec fn fresh() -> MissingBlockView {
        MissingBlockView {
            clients: Seq::<ClientId>::empty(),
            accepted_by: None,
            being_required: 0,
            required: 0,
        }
    }

    /// The block taken back from `client` if `client` had accepted it.
    pub open spec fn unaccepted_by(self, client: ClientId) -> MissingBlockView {
        MissingBlockView {
            accepted_by: if self.accepted_by == Some(client) {
                None
            } else {
                self.accepted_by
            },
            ..self
        }
    }

    /// The block without the offer of `client`.
    pub open spec fn without_client(self, client: ClientId) -> MissingBlockView {
        MissingBlockView { clients: without(self.clients, client), ..self }.unaccepted_by(client)
    }

    /// Whether the block waits for a client to accept it.
    pub open spec fn acceptable(self) -> bool {
        self.required > 0 && self.accepted_by.is_none()
    }
}

/// The state of a tracker, as plain values.
pub struct TrackerView {
    /// What is known of each missing block.
    pub missing: Map<BlockId, MissingBlockView>,
    /// The blocks that each client offers, in the order of its offers.
    pub clients: Map<ClientId, Seq<BlockId>>,
}

impl TrackerView {
    /// The entry of `b`, or a fresh one if it has none.
    pub open spec fn entry(self, b: BlockId) -> MissingBlockView {
        if self.missing.contains_key(b) {
            self.missing[b]
        } else {
            MissingBlockView::fresh()
        }
    }

    /// Whether `c` is a client that offers `b`.
    pub open spec fn offers(self, c: ClientId, b: BlockId) -> bool {
        self.clients.contains_key(c) && self.clients[c].contains(b)
    }

    /// Whether `b` is a missing block that is offered by `c`.
    pub open spec fn offered_by(self, b: BlockId, c: ClientId) -> bool {
        self.missing.contains_key(b) && self.missing[b].clients.contains(c)
    }

    /// The two sides of the tracker agree on who offers what, no offer is
    /// recorded twice, and a block is accepted only by a client that offers it.
    pub open spec fn inv(self) -> bool {
        &&& forall|c: ClientId, b: BlockId|
            #![trigger self.offers(c, b)]
            #![trigger self.offered_by(b, c)]
            self.offers(c, b) == self.offered_by(b, c)
        &&& forall|c: ClientId| #[trigger] self.clients.contains_key(c)
            ==> distinct(self.clients[c])
        &&& forall|b: BlockId| #[trigger]
            self.missing.contains_key(b) ==> distinct(self.missing[b].clients) && (
            self.missing[b].accepted_by.is_some() ==> self.missing[b].clients.contains(
                self.missing[b].accepted_by.unwrap(),
            ))
    }

    /// The state after a requirement of `b` was begun.
    pub open spec fn begin_require(self, b: BlockId) -> TrackerView {
        TrackerView {
            missing: self.missing.insert(
                b,
                MissingBlockView {
                    being_required: spec_inc(self.entry(b).being_required),
                    ..self.entry(b)
                },
            ),
            ..self
        }
    }

    /// The state after a requirement of `b` was committed.
    pub open spec fn commit(self, b: BlockId) -> TrackerView {
        if self.missing.contains_key(b) {
            TrackerView {
                missing: self.missing.insert(
                    b,
                    MissingBlockView {
                        required: spec_inc(self.missing[b].required),
                        being_required: spec_dec(self.missing[b].being_required),
                        ..self.missing[b]
                    },
                ),
                ..self
            }
        } else {
            self
        }
    }

    /// The state after a requirement of `b` was dropped without being
    /// committed: the entry goes if nothing requires the block any more
    /// and no client offers it.
    pub open spec fn abandon(self, b: BlockId) -> TrackerView {
        if self.missing.contains_key(b) {
            let e = MissingBlockView {
                being_required: spec_dec(self.missing[b].being_required),
                ..self.missing[b]
            };
            if e.being_required == 0 && e.required == 0 && e.clients.len() == 0 {
                TrackerView { missing: self.missing.remove(b), ..self }
            } else {
                TrackerView { missing: self.missing.insert(b, e), ..self }
            }
        } else {
            self
        }
    }

    /// The state after `c` offered `b`. Nothing changes if `c` is no
    /// client or offers `b` already.
    pub open spec fn offer(self, c: ClientId, b: BlockId) -> TrackerView {
        if !self.clients.contains_key(c) || self.clients[c].contains(b) {
            self
        } else {
            TrackerView {
                missing: self.missing.insert(
                    b,
                    MissingBlockView { clients: self.entry(b).clients.push(c), ..self.entry(b) },
                ),
                clients: self.clients.insert(c, self.clients[c].push(b)),
            }
        }
    }

    /// The state after `c` withdrew its offer of `b`.
    pub open spec fn cancel(self, c: ClientId, b: BlockId) -> TrackerView {
        if !self.offers(c, b) || !self.missing.contains_key(b) {
            self
        } else {
            TrackerView {
                missing: self.missing.insert(b, self.missing[b].without_client(c)),
                clients: self.clients.insert(c, without(self.clients[c], b)),
            }
        }
    }

    /// The position in the offers of `c` of the first block that waits to
    /// be accepted, among the first `n` offers, or -1.
    pub open spec fn first_acceptable(self, c: ClientId, n: int) -> int
        decreases n,
    {
        if n <= 0 {
            -1
        } else {
            let before = self.first_acceptable(c, n - 1);
            if before >= 0 {
                before
            } else if self.entry(self.clients[c][n - 1]).acceptable() && self.missing.contains_key(
                self.clients[c][n - 1],
            ) {
                n - 1
            } else {
                -1
            }
        }
    }

    /// The block that `c` gets when it asks for one: the first of its
    /// offers, in their order, that is required and not accepted.
    pub open spec fn next_for(self, c: ClientId) -> Option<BlockId> {
        if !self.clients.contains_key(c) {
            None
        } else {
            let i = self.first_acceptable(c, self.clients[c].len() as int);
            if i < 0 {
                None
            } else {
                Some(self.clients[c][i])
            }
        }
    }

    /// The state after `c` asked for a block.
    pub open spec fn try_accept(self, c: ClientId) -> TrackerView {
        match self.next_for(c) {
            Some(b) => TrackerView {
                missing: self.missing.insert(
                    b,
                    MissingBlockView { accepted_by: Some(c), ..self.missing[b] },
                ),
                ..self
            },
            None => self,
        }
    }

    /// The state after `b` was received: its entry is gone, and so is every offer of it.
    pub open spec fn complete(self, b: BlockId) -> TrackerView {
        if self.missing.contains_key(b) {
            TrackerView {
                missing: self.missing.remove(b),
                clients: Map::new(
                    |c: ClientId| self.clients.contains_key(c),
                    |c: ClientId| without(self.clients[c], b),
                ),
            }
        } else {
            self
        }
    }

    /// The state after client `c` left: its offers are gone, and what it had accepted is free again.
    pub open spec fn release(self, c: ClientId) -> TrackerView {
        if self.clients.contains_key(c) {
            TrackerView {
                missing: Map::new(
                    |b: BlockId| self.missing.contains_key(b),
                    |b: BlockId|
                        if self.clients[c].contains(b) {
                            self.missing[b].without_client(c)
                        } else {
                            self.missing[b]
                        },
                ),
                clients: self.clients.remove(c),
            }
        } else {
            self
        }
    }
}

impl TrackerView {
    /// The state after `c` was made a client.
    pub open spec fn add_client(self, c: ClientId) -> TrackerView {
        TrackerView { clients: self.clients.insert(c, Seq::<BlockId>::empty()), ..self }
    }

    /// A state in which one entry was replaced by one with the same
    /// offers, and the same or no accepting client, is as sound as before.
    pub proof fn lemma_inv_same_offers(self, b: BlockId, e: MissingBlockView)
        requires
            self.inv(),
            e.clients == self.entry(b).clients,
            e.accepted_by.is_some() ==> e.clients.contains(e.accepted_by.unwrap()),
        ensures
            (TrackerView { missing: self.missing.insert(b, e), ..self }).inv(),
    {
        let v = TrackerView { missing: self.missing.insert(b, e), ..self };
        assert forall|c: ClientId, x: BlockId|
            #![trigger v.offers(c, x)]
            #![trigger v.offered_by(x, c)]
            v.offers(c, x) == v.offered_by(x, c) by {
            assert(self.offers(c, x) == self.offered_by(x, c));
        }
    }

    pub proof fn lemma_inv_begin_require(self, b: BlockId)
        requires
            self.inv(),
        ensures
            self.begin_require(b).inv(),
    {
        self.lemma_inv_same_offers(
            b,
            MissingBlockView {
                being_required: spec_inc(self.entry(b).being_required),
                ..self.entry(b)
            },
        );
    }

    pub proof fn lemma_inv_commit(self, b: BlockId)
        requires
            self.inv(),
        ensures
            self.commit(b).inv(),
    {
        if self.missing.contains_key(b) {
            self.lemma_inv_same_offers(
                b,
                MissingBlockView {
                    required: spec_inc(self.missing[b].required),
                    being_required: spec_dec(self.missing[b].being_required),
                    ..self.missing[b]
                },
            );
        }
    }

    pub proof fn lemma_inv_abandon(self, b: BlockId)
        requires
            self.inv(),
        ensures
            self.abandon(b).inv(),
    {
        if self.missing.contains_key(b) {
            let e = MissingBlockView {
                being_required: spec_dec(self.missing[b].being_required),
                ..self.missing[b]
            };
            if e.being_required == 0 && e.required == 0 && e.clients.len() == 0 {
                let v = self.abandon(b);
                assert forall|c: ClientId, x: BlockId|
                    #![trigger v.offers(c, x)]
                    #![trigger v.offered_by(x, c)]
                    v.offers(c, x) == v.offered_by(x, c) by {
                    assert(self.offers(c, x) == self.offered_by(x, c));
                }
            } else {
                self.lemma_inv_same_offers(b, e);
            }
        }
    }

    pub proof fn lemma_inv_add_client(self, c: ClientId)
        requires
            self.inv(),
            !self.clients.contains_key(c),
        ensures
            self.add_client(c).inv(),
    {
        let v = self.add_client(c);
        assert forall|k: ClientId, x: BlockId|
            #![trigger v.offers(k, x)]
            #![trigger v.offered_by(x, k)]
            v.offers(k, x) == v.offered_by(x, k) by {
            assert(self.offers(k, x) == self.offered_by(x, k));
        }
    }

    pub proof fn lemma_inv_offer(self, c: ClientId, b: BlockId)
        requires
            self.inv(),
        ensures
            self.offer(c, b).inv(),
    {
        if self.clients.contains_key(c) && !self.clients[c].contains(b) {
            let v = self.offer(c, b);
            let e = self.entry(b);
            assert(!self.offers(c, b));
            assert(!self.offered_by(b, c));
            assert(!e.clients.contains(c));
            assert forall|k: ClientId, x: BlockId|
                #![trigger v.offers(k, x)]
                #![trigger v.offered_by(x, k)]
                v.offers(k, x) == v.offered_by(x, k) by {
                assert(self.offers(k, x) == self.offered_by(x, k));
                lemma_push_contains(self.clients[c], b, x);
                lemma_push_contains(e.clients, c, k);
            }
            lemma_push_distinct(self.clients[c], b);
            lemma_push_distinct(e.clients, c);
            assert(distinct(v.missing[b].clients));
            if e.accepted_by.is_some() {
                lemma_push_contains(e.clients, c, e.accepted_by.unwrap());
                assert(self.missing.contains_key(b));
            }
        }
    }

    pub proof fn lemma_inv_cancel(self, c: ClientId, b: BlockId)
        requires
            self.inv(),
        ensures
            self.cancel(c, b).inv(),
    {
        if self.offers(c, b) && self.missing.contains_key(b) {
            let v = self.cancel(c, b);
            let e = self.missing[b];
            lemma_without(self.clients[c], b);
            lemma_without(e.clients, c);
            assert forall|k: ClientId, x: BlockId|
                #![trigger v.offers(k, x)]
                #![trigger v.offered_by(x, k)]
                v.offers(k, x) == v.offered_by(x, k) by {
                assert(self.offers(k, x) == self.offered_by(x, k));
            }
        }
    }

    /// The first acceptable offer of a client, if it has one, is an offer
    /// of a block that waits to be accepted, and no offer before it is.
    pub proof fn lemma_first_acceptable(self, c: ClientId, n: int)
        requires
            self.clients.contains_key(c),
            0 <= n <= self.clients[c].len(),
        ensures
            -1 <= self.first_acceptable(c, n) < n,
            self.first_acceptable(c, n) >= 0 ==> self.missing.contains_key(
                self.clients[c][self.first_acceptable(c, n)],
            ) && self.missing[self.clients[c][self.first_acceptable(c, n)]].acceptable(),
            forall|j: int|
                0 <= j < n && (self.first_acceptable(c, n) < 0 || j < self.first_acceptable(c, n))
                    ==> !(self.missing.contains_key(#[trigger] self.clients[c][j])
                    && self.missing[self.clients[c][j]].acceptable()),
        decreases n,
    {
        if n > 0 {
            self.lemma_first_acceptable(c, n - 1);
        }
    }

    pub proof fn lemma_inv_try_accept(self, c: ClientId)
        requires
            self.inv(),
        ensures
            self.try_accept(c).inv(),
    {
        match self.next_for(c) {
            Some(b) => {
                let n = self.clients[c].len() as int;
                self.lemma_first_acceptable(c, n);
                let i = self.first_acceptable(c, n);
                assert(self.clients[c][i] == b);
                assert(self.offers(c, b));
                assert(self.offered_by(b, c));
                self.lemma_inv_same_offers(
                    b,
                    MissingBlockView { accepted_by: Some(c), ..self.missing[b] },
                );
            },
            None => {},
        }
    }

    pub proof fn lemma_inv_complete(self, b: BlockId)
        requires
            self.inv(),
        ensures
            self.complete(b).inv(),
    {
        if self.missing.contains_key(b) {
            let v = self.complete(b);
            assert forall|k: ClientId, x: BlockId|
                #![trigger v.offers(k, x)]
                #![trigger v.offered_by(x, k)]
                v.offers(k, x) == v.offered_by(x, k) by {
                assert(self.offers(k, x) == self.offered_by(x, k));
                if self.clients.contains_key(k) {
                    lemma_without(self.clients[k], b);
                }
            }
            assert forall|k: ClientId| #[trigger] v.clients.contains_key(k) implies distinct(
                v.clients[k],
            ) by {
                lemma_without(self.clients[k], b);
            }
        }
    }

    pub proof fn lemma_inv_release(self, c: ClientId)
        requires
            self.inv(),
        ensures
            self.release(c).inv(),
    {
        if self.clients.contains_key(c) {
            let v = self.release(c);
            assert forall|k: ClientId, x: BlockId|
                #![trigger v.offers(k, x)]
                #![trigger v.offered_by(x, k)]
                v.offers(k, x) == v.offered_by(x, k) by {
                assert(self.offers(k, x) == self.offered_by(x, k));
                assert(self.offers(c, x) == self.offered_by(x, c));
                if self.missing.contains_key(x) {
                    lemma_without(self.missing[x].clients, c);
                }
            }
            assert forall|x: BlockId| #[trigger] v.missing.contains_key(x) implies distinct(
                v.missing[x].clients,
            ) && (v.missing[x].accepted_by.is_some() ==> v.missing[x].clients.contains(
                v.missing[x].accepted_by.unwrap(),
            )) by {
                lemma_without(self.missing[x].clients, c);
                assert(self.offers(c, x) == self.offered_by(x, c));
            }
        }
    }
}

pub proof fn lemma_push_contains<T>(s: Seq<T>, x: T, y: T)
    ensures
        s.push(x).contains(y) == (s.contains(y) || y == x),
{
    if s.push(x).contains(y) {
        let j = choose|j: int| 0 <= j < s.push(x).len() && s.push(x)[j] == y;
        if j < s.len() {
            assert(s[j] == y);
        }
    }
    if s.contains(y) {
        let j = choose|j: int| 0 <= j < s.len() && s[j] == y;
        assert(s.push(x)[j] == y);
    }
    if y == x {
        assert(s.push(x)[s.len() as int] == y);
    }
}

pub proof fn lemma_push_distinct<T>(s: Seq<T>, x: T)
    requires
        distinct(s),
        !s.contains(x),
    ensures
        distinct(s.push(x)),
{
    assert forall|i: int, j: int| 0 <= i < j < s.push(x).len()
        implies s.push(x)[i] != s.push(x)[j] by {
        if j == s.len() {
            assert(s[i] != x);
        } else {
            assert(s[i] != s[j]);
        }
    }
}

/// Helper for tracking required missing blocks.
#[derive(Debug)]
pub struct BlockTracker {
    pub missing_blocks: Table<MissingBlock>,
    pub clients: slab::Slab<Vec<BlockId>>,
}

/// A requirement of a block that was begun and is yet to be committed or dropped.
#[derive(Debug)]
pub struct Require {
    pub block_id: BlockId,
}

/// A peer that offers blocks and downloads them.
#[derive(Debug)]
pub struct BlockTrackerClient {
    pub client_id: ClientId,
}

/// A block that a client accepted for download.
#[derive(Clone, Copy, Debug, PartialEq, Eq, Structural)]
pub struct AcceptedBlock {
    pub client_id: ClientId,
    pub block_id: BlockId,
}

impl BlockTracker {
    pub open spec fn view(&self) -> TrackerView {
        TrackerView {
            missing: Map::new(
                |b: BlockId| self.missing_blocks@.contains_key(b.hash),
                |b: BlockId| self.missing_blocks@[b.hash]@,
            ),
            clients: slab_entries(self.clients),
        }
    }

    pub open spec fn wf(&self) -> bool {
        self.missing_blocks.wf() && self@.inv()
    }

    pub fn new() -> (t: BlockTracker)
        ensures
            t.wf(),
            t@.missing == Map::<BlockId, MissingBlockView>::empty(),
            t@.clients == Map::<ClientId, Seq<BlockId>>::empty(),
    {
        let t = BlockTracker { missing_blocks: Table::new(), clients: slab_new() };
        proof {
            assert(t@.missing =~= Map::<BlockId, MissingBlockView>::empty());
            assert(t@.clients =~= Map::<ClientId, Seq<BlockId>>::empty());
        }
        t
    }

    /// Whether the tracker has an entry for the block.
    pub fn contains(&self, block_id: &BlockId) -> (r: bool)
        requires
            self.wf(),
        ensures
            r == self@.missing.contains_key(*block_id),
    {
        self.missing_blocks.contains_key(&block_id.hash)
    }

    /// Whether the tracker has no entry for any block.
    pub fn is_empty(&self) -> (r: bool)
        requires
            self.wf(),
        ensures
            r == (self@.missing == Map::<BlockId, MissingBlockView>::empty()),
    {
        let r = self.missing_blocks.is_empty();
        proof {
            if r {
                assert(self@.missing =~= Map::<BlockId, MissingBlockView>::empty());
            } else {
                let k = self.missing_blocks.entries@[0].key;
                crate::collections::table::lemma_index_of(self.missing_blocks.entries@, 0);
                assert(self@.missing.contains_key(BlockId { hash: k }));
            }
        }
        r
    }

    /// Takes the entry of `b` out of the table, or makes a fresh one.
    fn take_entry(&mut self, b: &BlockId) -> (e: MissingBlock)
        requires
            old(self).missing_blocks.wf(),
        ensures
            final(self).missing_blocks.wf(),
            final(self).missing_blocks@ == old(self).missing_blocks@.remove(b.hash),
            final(self).clients == old(self).clients,
            e@ == old(self)@.entry(*b),
    {
        match self.missing_blocks.remove(&b.hash) {
            Some(e) => e,
            None => MissingBlock::new(),
        }
    }

    /// Begin marking the block with the given id as required. See also [`Require::commit`].
    pub fn begin_require(&mut self, block_id: BlockId) -> (r: Require)
        requires
            old(self).wf(),
        ensures
            final(self).wf(),
            final(self)@ == old(self)@.begin_require(block_id),
            r.block_id == block_id,
    {
        let mut entry = self.take_entry(&block_id);
        entry.being_required = inc(entry.being_required);
        self.missing_blocks.insert(block_id.hash, entry);
        proof {
            self.lemma_entry_replaced(old(self), block_id);
            old(self)@.lemma_inv_begin_require(block_id);
        }
        Require { block_id }
    }

    /// Makes a new client.
    pub fn client(&mut self) -> (c: BlockTrackerClient)
        requires
            old(self).wf(),
        ensures
            final(self).wf(),
            !old(self)@.clients.contains_key(c.client_id),
            final(self)@.clients == old(self)@.clients.insert(
                c.client_id,
                Seq::<BlockId>::empty(),
            ),
            final(self)@.missing == old(self)@.missing,
    {
        let client_id = slab_insert(&mut self.clients, Vec::new());
        proof {
            assert(self@.missing =~= old(self)@.missing);
            assert(self@ == old(self)@.add_client(client_id));
            old(self)@.lemma_inv_add_client(client_id);
        }
        BlockTrackerClient { client_id }
    }

    /// After one entry of the table was replaced, the view has that one
    /// entry replaced and is otherwise as before.
    proof fn lemma_entry_replaced(&self, old: &BlockTracker, b: BlockId)
        requires
            self.missing_blocks@.contains_key(b.hash),
            forall|k: hash::Hash|
                k != b.hash ==> self.missing_blocks@.contains_key(k)
                    == old.missing_blocks@.contains_key(k),
            forall|k: hash::Hash|
                k != b.hash && old.missing_blocks@.contains_key(k) ==> self.missing_blocks@[k]
                    == old.missing_blocks@[k],
        ensures
            self@.missing == old@.missing.insert(b, self.missing_blocks@[b.hash]@),
    {
        assert(self@.missing =~= old@.missing.insert(b, self.missing_blocks@[b.hash]@)) by {
            assert forall|x: BlockId| self@.missing.contains_key(x) == old@.missing.insert(
                b,
                self.missing_blocks@[b.hash]@,
            ).contains_key(x) by {
                if x.hash == b.hash {
                    assert(x == b);
                }
            }
        }
    }
}

impl Require {
    /// Commits the requirement: the block is now required, and a client
    /// that offers it may accept it. Returns whether it became required
    /// by this, so that clients that wait for a block are to be woken.
    pub fn commit(self, tracker: &mut BlockTracker) -> (notify: bool)
        requires
            old(tracker).wf(),
        ensures
            final(tracker).wf(),
            final(tracker)@ == old(tracker)@.commit(self.block_id),
            notify == (old(tracker)@.missing.contains_key(self.block_id)
                && old(tracker)@.missing[self.block_id].required == 0),
    {
        let b = self.block_id;
        let mut entry = match tracker.missing_blocks.remove(&b.hash) {
            None => {
                proof {
                    assert(tracker.missing_blocks@ =~= old(tracker).missing_blocks@);
                    assert(tracker@.missing =~= old(tracker)@.missing);
                }
                return false;
            },
            Some(entry) => entry,
        };
        let notify = entry.required == 0;
        entry.required = inc(entry.required);
        entry.being_required = dec(entry.being_required);
        tracker.missing_blocks.insert(b.hash, entry);
        proof {
            tracker.lemma_entry_replaced(old(tracker), b);
            old(tracker)@.lemma_inv_commit(b);
        }
        notify
    }

    /// Drops the requirement without committing it. The entry of the
    /// block goes if nothing requires the block any more and no client
    /// offers it.
    pub fn abandon(self, tracker: &mut BlockTracker)
        requires
            old(tracker).wf(),
        ensures
            final(tracker).wf(),
            final(tracker)@ == old(tracker)@.abandon(self.block_id),
    {
        let b = self.block_id;
        let mut entry = match tracker.missing_blocks.remove(&b.hash) {
            None => {
                proof {
                    assert(tracker.missing_blocks@ =~= old(tracker).missing_blocks@);
                    assert(tracker@.missing =~= old(tracker)@.missing);
                }
                return ;
            },
            Some(entry) => entry,
        };
        entry.being_required = dec(entry.being_required);
        proof {
            old(tracker)@.lemma_inv_abandon(b);
        }
        if entry.being_required == 0 && entry.required == 0 && entry.clients.len() == 0 {
            proof {
                assert(tracker@.missing =~= old(tracker)@.missing.remove(b)) by {
                    assert forall|x: BlockId| tracker@.missing.contains_key(x)
                        == old(tracker)@.missing.remove(b).contains_key(x) by {
                        if x.hash == b.hash {
                            assert(x == b);
                        }
                    }
                }
            }
            return ;
        }
        tracker.missing_blocks.insert(b.hash, entry);
        proof {
            tracker.lemma_entry_replaced(old(tracker), b);
        }
    }
}

impl BlockTrackerClient {
    /// Offer to request the given block if it is, or will become,
    /// required. Returns `true` if this client offers the block for the
    /// first time, `false` if it offered it before and neither cancelled
    /// the offer nor saw the block completed, or if it is no client of
    /// the tracker.
    pub fn offer(&self, tracker: &mut BlockTracker, block_id: BlockId) -> (r: bool)
        requires
            old(tracker).wf(),
        ensures
            final(tracker).wf(),
            final(tracker)@ == old(tracker)@.offer(self.client_id, block_id),
            r == (old(tracker)@.clients.contains_key(self.client_id)
                && !old(tracker)@.clients[self.client_id].contains(block_id)),
    {
        let known = match slab_get(&tracker.clients, self.client_id) {
            None => {
                return false;
            },
            Some(list) => position_of_block(list, &block_id).is_some(),
        };
        if known {
            return false;
        }
        match slab_get_mut(&mut tracker.clients, self.client_id) {
            None => {},
            Some(list) => {
                list.push(block_id);
            },
        }
        let mut entry = tracker.take_entry(&block_id);
        entry.clients.push(self.client_id);
        tracker.missing_blocks.insert(block_id.hash, entry);
        proof {
            tracker.lemma_entry_replaced(old(tracker), block_id);
            old(tracker)@.lemma_inv_offer(self.client_id, block_id);
        }
        true
    }

    /// Cancel a previously accepted request so it can be attempted by
    /// another client. Returns whether the block was accepted by this
    /// client, so that clients that wait for a block are to be woken.
    pub fn cancel(&self, tracker: &mut BlockTracker, block_id: &BlockId) -> (notify: bool)
        requires
            old(tracker).wf(),
        ensures
            final(tracker).wf(),
            final(tracker)@ == old(tracker)@.cancel(self.client_id, *block_id),
            notify == (old(tracker)@.offers(self.client_id, *block_id)
                && old(tracker)@.missing[*block_id].accepted_by == Some(self.client_id)),
    {
        let c = self.client_id;
        let ghost o = old(tracker)@;
        let offered = match slab_get(&tracker.clients, c) {
            None => false,
            Some(list) => position_of_block(list, block_id).is_some(),
        };
        if !offered {
            return false;
        }
        proof {
            assert(o.offers(c, *block_id));
            assert(o.offered_by(*block_id, c));
        }
        match slab_get_mut(&mut tracker.clients, c) {
            None => {},
            Some(list) => {
                remove_block_from(list, block_id);
            },
        }
        let mut entry = tracker.take_entry(block_id);
        remove_client_from(&mut entry.clients, c);
        let notify = entry.unaccept_by(c);
        tracker.missing_blocks.insert(block_id.hash, entry);
        proof {
            tracker.lemma_entry_replaced(old(tracker), *block_id);
            o.lemma_inv_cancel(c, *block_id);
        }
        notify
    }

    /// Returns the next required and offered block request or `None` if
    /// there is no such request currently: the first block, in the order
    /// of the offers of this client, that is required and that no client
    /// has accepted. The block is then accepted by this client.
    pub fn try_accept(&self, tracker: &mut BlockTracker) -> (r: Option<BlockId>)
        requires
            old(tracker).wf(),
        ensures
            final(tracker).wf(),
            r == old(tracker)@.next_for(self.client_id),
            final(tracker)@ == old(tracker)@.try_accept(self.client_id),
    {
        let c = self.client_id;
        let ghost o = old(tracker)@;
        let mut found: Option<BlockId> = None;
        match slab_get(&tracker.clients, c) {
            None => {
                return None;
            },
            Some(list) => {
                let mut i: usize = 0;
                while i < list.len() && found.is_none()
                    invariant
                        tracker.wf(),
                        tracker@ == o,
                        o.clients.contains_key(c),
                        list@ == o.clients[c],
                        i <= list@.len(),
                        found.is_none() ==> o.first_acceptable(c, i as int) == -1,
                        found.is_some() ==> 0 <= o.first_acceptable(c, i as int) < i && found
                            == Some(list@[o.first_acceptable(c, i as int)]),
                    decreases list@.len() - i + (if found.is_none() {
                        1int
                    } else {
                        0int
                    }),
                {
                    let b = list[i];
                    let ok = match tracker.missing_blocks.get(&b.hash) {
                        Some(entry) => entry.required > 0 && entry.accepted_by.is_none(),
                        None => false,
                    };
                    proof {
                        assert(o.missing.contains_key(b) == tracker.missing_blocks@.contains_key(
                            b.hash,
                        ));
                    }
                    if ok {
                        found = Some(b);
                    }
                    i = i + 1;
                }
                proof {
                    o.lemma_first_acceptable_stable(c, i as int, list@.len() as int);
                }
            },
        }
        match found {
            None => None,
            Some(b) => {
                proof {
                    o.lemma_first_acceptable(c, o.clients[c].len() as int);
                }
                let mut entry = tracker.take_entry(&b);
                entry.accepted_by = Some(c);
                tracker.missing_blocks.insert(b.hash, entry);
                proof {
                    tracker.lemma_entry_replaced(old(tracker), b);
                    o.lemma_inv_try_accept(c);
                }
                Some(b)
            },
        }
    }

    /// Like `try_accept`, but hands the block out as a token that is to be completed or cancelled.
    pub fn try_accept_(&self, tracker: &mut BlockTracker) -> (r: Option<AcceptedBlock>)
        requires
            old(tracker).wf(),
        ensures
            final(tracker).wf(),
            final(tracker)@ == old(tracker)@.try_accept(self.client_id),
            match r {
                Some(accepted) => old(tracker)@.next_for(self.client_id) == Some(accepted.block_id)
                    && accepted.client_id == self.client_id,
                None => old(tracker)@.next_for(self.client_id).is_none(),
            },
    {
        match self.try_accept(tracker) {
            Some(block_id) => Some(AcceptedBlock { client_id: self.client_id, block_id }),
            None => None,
        }
    }
}

impl TrackerView {
    /// Once a client has an acceptable offer among its first offers, that
    /// one stays the first when more offers are looked at.
    pub proof fn lemma_first_acceptable_stable(self, c: ClientId, i: int, n: int)
        requires
            self.clients.contains_key(c),
            0 <= i <= n <= self.clients[c].len(),
            self.first_acceptable(c, i) >= 0 || i == n,
        ensures
            self.first_acceptable(c, n) == self.first_acceptable(c, i),
        decreases n - i,
    {
        if i < n {
            self.lemma_first_acceptable_stable(c, i, n - 1);
        }
    }
}

impl AcceptedBlock {
    pub fn block_id(&self) -> (id: &BlockId)
        ensures
            *id == self.block_id,
    {
        &self.block_id
    }

    /// Marks the block as received.
    pub fn complete(&self, tracker: &mut BlockTracker)
        requires
            old(tracker).wf(),
        ensures
            final(tracker).wf(),
            final(tracker)@ == old(tracker)@.complete(self.block_id),
    {
        tracker.complete(&self.block_id)
    }

    /// Gives the block back, so that another client can accept it.
    /// Returns whether clients that wait for a block are to be woken.
    pub fn cancel(&self, tracker: &mut BlockTracker) -> (notify: bool)
        requires
            old(tracker).wf(),
        ensures
            final(tracker).wf(),
            final(tracker)@ == old(tracker)@.cancel(self.client_id, self.block_id),
            notify == (old(tracker)@.offers(self.client_id, self.block_id)
                && old(tracker)@.missing[self.block_id].accepted_by == Some(self.client_id)),
    {
        let client = BlockTrackerClient { client_id: self.client_id };
        client.cancel(tracker, &self.block_id)
    }
}

impl BlockTracker {
    /// Mark the block request as successfully completed: the entry of the
    /// block goes, and with it every offer of the block.
    pub fn complete(&mut self, block_id: &BlockId)
        requires
            old(self).wf(),
        ensures
            final(self).wf(),
            final(self)@ == old(self)@.complete(*block_id),
    {
        let ghost o = old(self)@;
        let b = *block_id;
        let entry = match self.missing_blocks.remove(&b.hash) {
            None => {
                proof {
                    assert(self.missing_blocks@ =~= old(self).missing_blocks@);
                    assert(self@.missing =~= o.missing);
                }
                return ;
            },
            Some(entry) => entry,
        };
        proof {
            assert(self@.missing =~= o.missing.remove(b)) by {
                assert forall|x: BlockId| self@.missing.contains_key(x) == o.missing.remove(
                    b,
                ).contains_key(x) by {
                    if x.hash == b.hash {
                        assert(x == b);
                    }
                }
            }
            assert(entry.clients@ == o.missing[b].clients);
        }
        let ghost gone = self@.missing;
        let mut i: usize = 0;
        while i < entry.clients.len()
            invariant
                self.missing_blocks.wf(),
                o.inv(),
                o.missing.contains_key(b),
                entry.clients@ == o.missing[b].clients,
                self@.missing == gone,
                i <= entry.clients@.len(),
                self@.clients.dom() == o.clients.dom(),
                forall|j: int|
                    0 <= j < i ==> self@.clients[#[trigger] entry.clients@[j]] == without(
                        o.clients[entry.clients@[j]],
                        b,
                    ),
                forall|c: ClientId|
                    o.clients.contains_key(c) && !(exists|j: int|
                        0 <= j < i && entry.clients@[j] == c) ==> #[trigger] self@.clients[c]
                        == o.clients[c],
            decreases entry.clients@.len() - i,
        {
            let c = entry.clients[i];
            let ghost before = self@.clients;
            proof {
                assert(o.missing[b].clients.contains(c));
                assert(o.offered_by(b, c));
                assert(o.offers(c, b));
                if exists|j: int| 0 <= j < i && entry.clients@[j] == c {
                    let j = choose|j: int| 0 <= j < i && entry.clients@[j] == c;
                    assert(entry.clients@[j] != entry.clients@[i as int]);
                }
                assert(before[c] == o.clients[c]);
            }
            match slab_get_mut(&mut self.clients, c) {
                Some(list) => {
                    remove_block_from(list, &b);
                },
                None => {},
            }
            proof {
                assert(self@.clients.dom() =~= o.clients.dom());
                assert forall|j: int| 0 <= j < i + 1
                    implies self@.clients[#[trigger] entry.clients@[j]]
                    == without(o.clients[entry.clients@[j]], b) by {
                    if j < i {
                        assert(entry.clients@[j] != entry.clients@[i as int]);
                    }
                }
                assert forall|k: ClientId|
                    o.clients.contains_key(k) && !(exists|j: int|
                        0 <= j < i + 1 && entry.clients@[j] == k)
                            implies #[trigger] self@.clients[k]
                    == o.clients[k] by {
                    assert(k != c);
                    if exists|j: int| 0 <= j < i && entry.clients@[j] == k {
                        let j = choose|j: int| 0 <= j < i && entry.clients@[j] == k;
                        assert(0 <= j < i + 1 && entry.clients@[j] == k);
                    }
                }
            }
            i = i + 1;
        }
        proof {
            let want = o.complete(b);
            assert forall|c: ClientId| #[trigger] o.clients.contains_key(c) implies self@.clients[c]
                == without(o.clients[c], b) by {
                if exists|j: int| 0 <= j < i && entry.clients@[j] == c {
                    let j = choose|j: int| 0 <= j < i && entry.clients@[j] == c;
                    assert(self@.clients[entry.clients@[j]]
                        == without(o.clients[entry.clients@[j]], b));
                } else {
                    assert(!o.missing[b].clients.contains(c));
                    assert(!o.offered_by(b, c));
                    assert(!o.offers(c, b));
                }
            }
            assert(self@.clients =~= want.clients);
            o.lemma_inv_complete(b);
        }
    }
}

impl BlockTrackerClient {
    /// Takes this client out of the tracker: its offers are withdrawn,
    /// and what it had accepted can be accepted by another client.
    /// Returns whether it had accepted a block, so that clients that wait
    /// for a block are to be woken.
    pub fn release(self, tracker: &mut BlockTracker) -> (notify: bool)
        requires
            old(tracker).wf(),
        ensures
            final(tracker).wf(),
            final(tracker)@ == old(tracker)@.release(self.client_id),
            notify == (old(tracker)@.clients.contains_key(self.client_id) && exists|b: BlockId|
                #![trigger old(tracker)@.missing[b]]
                old(tracker)@.offers(self.client_id, b) && old(tracker)@.missing[b].accepted_by
                    == Some(self.client_id)),
    {
        let c = self.client_id;
        let ghost o = old(tracker)@;
        let blocks = match slab_try_remove(&mut tracker.clients, c) {
            None => {
                proof {
                    assert(tracker@.clients =~= o.clients);
                }
                return false;
            },
            Some(blocks) => blocks,
        };
        let mut notify = false;
        let mut i: usize = 0;
        while i < blocks.len()
            invariant
                tracker.missing_blocks.wf(),
                o.inv(),
                o.clients.contains_key(c),
                blocks@ == o.clients[c],
                tracker@.clients == o.clients.remove(c),
                i <= blocks@.len(),
                tracker@.missing.dom() == o.missing.dom(),
                forall|j: int|
                    0 <= j < i ==> tracker@.missing[#[trigger] blocks@[j]]
                        == o.missing[blocks@[j]].without_client(c),
                forall|b: BlockId|
                    o.missing.contains_key(b) && !(exists|j: int| 0 <= j < i && blocks@[j] == b)
                        ==> #[trigger] tracker@.missing[b] == o.missing[b],
                notify == (exists|j: int|
                    0 <= j < i && (#[trigger] o.missing[blocks@[j]]).accepted_by == Some(c)),
            decreases blocks@.len() - i,
        {
            let b = blocks[i];
            let ghost before = *tracker;
            proof {
                assert(o.clients[c].contains(b));
                assert(o.offers(c, b));
                assert(o.offered_by(b, c));
                if exists|j: int| 0 <= j < i && blocks@[j] == b {
                    let j = choose|j: int| 0 <= j < i && blocks@[j] == b;
                    assert(blocks@[j] != blocks@[i as int]);
                }
                assert(tracker@.missing[b] == o.missing[b]);
                assert(tracker.missing_blocks@.contains_key(b.hash)) by {
                    assert(tracker@.missing.dom().contains(b));
                }
            }
            let mut entry = tracker.take_entry(&b);
            remove_client_from(&mut entry.clients, c);
            let hit = entry.unaccept_by(c);
            tracker.missing_blocks.insert(b.hash, entry);
            proof {
                tracker.lemma_entry_replaced(&before, b);
                assert(tracker@.missing.dom() =~= o.missing.dom());
                assert forall|j: int| 0 <= j < i + 1 implies tracker@.missing[#[trigger] blocks@[j]]
                    == o.missing[blocks@[j]].without_client(c) by {
                    if j < i {
                        assert(blocks@[j] != blocks@[i as int]);
                    }
                }
                assert forall|x: BlockId|
                    o.missing.contains_key(x) && !(exists|j: int| 0 <= j < i + 1 && blocks@[j] == x)
                        implies #[trigger] tracker@.missing[x]
                    == o.missing[x] by {
                    assert(x != b);
                    if exists|j: int| 0 <= j < i && blocks@[j] == x {
                        let j = choose|j: int| 0 <= j < i && blocks@[j] == x;
                        assert(0 <= j < i + 1 && blocks@[j] == x);
                    }
                }
                if hit {
                    assert(o.missing[blocks@[i as int]].accepted_by == Some(c));
                } else if !notify && (exists|j: int|
                    0 <= j < i + 1 && (#[trigger] o.missing[blocks@[j]]).accepted_by == Some(c)) {
                    let j = choose|j: int|
                        0 <= j < i + 1 && (#[trigger] o.missing[blocks@[j]]).accepted_by == Some(c);
                    assert(j < i);
                }
            }
            notify = notify || hit;
            i = i + 1;
        }
        proof {
            let want = o.release(c);
            assert forall|b: BlockId| #[trigger] o.missing.contains_key(b)
                implies tracker@.missing[b]
                == want.missing[b] by {
                if exists|j: int| 0 <= j < i && blocks@[j] == b {
                    let j = choose|j: int| 0 <= j < i && blocks@[j] == b;
                    assert(tracker@.missing[blocks@[j]] == o.missing[blocks@[j]].without_client(c));
                    assert(o.clients[c].contains(b));
                } else {
                    if o.clients[c].contains(b) {
                        let j = choose|j: int| 0 <= j < blocks@.len() && blocks@[j] == b;
                        assert(false);
                    }
                }
            }
            assert(tracker@.missing =~= want.missing);
            o.lemma_inv_release(c);
            if notify {
                let j = choose|j: int|
                    0 <= j < i && (#[trigger] o.missing[blocks@[j]]).accepted_by == Some(c);
                assert(o.clients[c].contains(blocks@[j]));
                assert(o.offers(c, blocks@[j]));
            }
            if exists|b: BlockId|
                #![trigger o.missing[b]]
                o.offers(c, b) && o.missing[b].accepted_by == Some(c) {
                let b = choose|b: BlockId|
                    #![trigger o.missing[b]]
                    o.offers(c, b) && o.missing[b].accepted_by == Some(c);
                let j = choose|j: int| 0 <= j < blocks@.len() && blocks@[j] == b;
                assert(o.missing[blocks@[j]].accepted_by == Some(c));
            }
        }
        notify
    }
}

/// Where one client accepts a block, no other client gets that block
/// when it asks for one: a block has at most one downloader at a time.
pub proof fn law_one_downloader(v: TrackerView, first: ClientId, second: ClientId)
    requires
        v.inv(),
        first != second,
        v.next_for(first).is_some(),
    ensures
        v.try_accept(first).next_for(second) != v.next_for(first),
        v.try_accept(first).missing[v.next_for(first).unwrap()].accepted_by == Some(first),
{
    let b = v.next_for(first).unwrap();
    let w = v.try_accept(first);
    v.lemma_first_acceptable(first, v.clients[first].len() as int);
    if w.clients.contains_key(second) {
        w.lemma_first_acceptable(second, w.clients[second].len() as int);
    }
}

/// A block that was only required, and is then completed, leaves no
/// entry behind: beginning a requirement and completing the block
/// changes nothing in a tracker that did not know the block.
pub proof fn law_require_then_complete(v: TrackerView, b: BlockId)
    requires
        v.inv(),
        !v.missing.contains_key(b),
    ensures
        !v.begin_require(b).complete(b).missing.contains_key(b),
        v.begin_require(b).complete(b).missing == v.missing,
        v.begin_require(b).complete(b).clients == v.clients,
        !v.begin_require(b).commit(b).complete(b).missing.contains_key(b),
{
    let w = v.begin_require(b).complete(b);
    assert(w.missing =~= v.missing);
    assert forall|c: ClientId| #[trigger] v.clients.contains_key(c) implies without(
        v.clients[c],
        b,
    ) == v.clients[c] by {
        assert(!v.offered_by(b, c));
        assert(!v.offers(c, b));
    }
    assert(w.clients =~= v.clients);
}

/// In every state that the operations of the tracker can reach, the
/// clients that a missing block is offered by are exactly the clients
/// whose offers hold the block.
pub proof fn law_offers_agree(t: &BlockTracker, b: BlockId, c: ClientId)
    requires
        t.wf(),
    ensures
        (t@.missing.contains_key(b) && t@.missing[b].clients.contains(c)) == (
        t@.clients.contains_key(c) && t@.clients[c].contains(b)),
{
    assert(t@.offers(c, b) == t@.offered_by(b, c));
}

} // verus!
