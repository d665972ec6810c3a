//! What a replica answers to the requests of a peer, and when it tells a
//! peer of a change without being asked.

use crate::crypto::hash;
use crate::network::message::{Request, Response};
use crate::protocol::root_node::RootNodeFilter;
use crate::protocol::signed::UntrustedProof;
use crate::store::Store;
use vstd::prelude::*;

verus! {

/// What to do about a request for the root node.
#[derive(Clone, Copy, Debug, PartialEq, Eq, Structural)]
pub enum RootNodeReply {
    /// Send the root node, with the given cookie.
    Send { cookie: u64 },
    /// Send nothing until the local branch changes.
    Wait,
}

/// The part of a server that decides when a peer is told of the root node.
///
/// The "cookie" number gets included in the next sent root node. The
/// client stores it and sends it back in its next request for the root
/// node. If its cookie is equal to (or greater than) that of the server,
/// the client is up to date, otherwise it is not. The server increments
/// its cookie every time there is a change to the local branch.
#[derive(Clone, Copy, Debug, PartialEq, Eq, Structural)]
pub struct Server {
    pub cookie: u64,
    /// Whether the server is waiting for a local change before sending
    /// the root node to the client.
    pub waiting: bool,
}

/// One more than `n`, or zero after the largest number.
pub open spec fn wrapping_next(n: u64) -> u64 {
    if n == u64::MAX {
        0
    } else {
        (n + 1) as u64
    }
}

impl Server {
    pub fn new() -> (s: Server)
        ensures
            s == (Server { cookie: 1, waiting: false }),
    {
        Server { cookie: 1, waiting: false }
    }

    /// What to do about a request for the root node by a client with
    /// cookie `cookie`, where `have_root` says whether the local branch
    /// has a root node: it is sent if the client is behind, or if the
    /// cookie of the server has wrapped around to zero.
    pub open spec fn spec_root_node_reply(self, cookie: u64, have_root: bool) -> RootNodeReply {
        if (cookie < self.cookie || self.cookie == 0) && have_root {
            RootNodeReply::Send { cookie: self.cookie }
        } else {
            RootNodeReply::Wait
        }
    }

    pub fn handle_root_node(&mut self, cookie: u64, have_root: bool) -> (r: RootNodeReply)
        ensures
            r == old(self).spec_root_node_reply(cookie, have_root),
            final(self).cookie == old(self).cookie,
            final(self).waiting == (if r == RootNodeReply::Wait {
                true
            } else {
                old(self).waiting
            }),
    {
        if (cookie < self.cookie || self.cookie == 0) && have_root {
            return RootNodeReply::Send { cookie: self.cookie };
        }
        self.waiting = true;
        RootNodeReply::Wait
    }

    /// Takes note of a change to the local branch. If the client waits
    /// for one, it is served as if it had asked with cookie zero.
    pub fn handle_local_change(&mut self, have_root: bool) -> (r: RootNodeReply)
        ensures
            final(self).cookie == wrapping_next(old(self).cookie),
            r == (if old(self).waiting {
                (Server { cookie: wrapping_next(old(self).cookie), waiting: false }).spec_root_node_reply(
                    0,
                    have_root,
                )
            } else {
                RootNodeReply::Wait
            }),
            final(self).waiting == (old(self).waiting && r == RootNodeReply::Wait),
    {
        self.cookie = if self.cookie == u64::MAX {
            0
        } else {
            self.cookie + 1
        };
        if self.waiting {
            self.waiting = false;
            self.handle_root_node(0, have_root)
        } else {
            RootNodeReply::Wait
        }
    }
}

/// Whether a peer is served, and whether it is owed word of a change.
///
/// A peer that is choked is not sent anything. Changes that happen while
/// it is choked add up to one notification, sent when it is served again.
#[derive(Clone, Copy, Debug, PartialEq, Eq, Structural)]
pub struct Choked {
    pub choked: bool,
    pub pending_notification: bool,
}

impl Choked {
    pub fn new() -> (c: Choked)
        ensures
            c == (Choked { choked: false, pending_notification: false }),
    {
        Choked { choked: false, pending_notification: false }
    }

    /// A local branch changed. Returns whether to tell the peer now.
    pub fn on_local_change(&mut self) -> (send: bool)
        ensures
            send == !old(self).choked,
            final(self).choked == old(self).choked,
            final(self).pending_notification == (old(self).choked || old(self).pending_notification
                && !send),
    {
        if self.choked {
            self.pending_notification = true;
            false
        } else {
            self.pending_notification = false;
            true
        }
    }

    /// The peer is no longer served.
    pub fn choke(&mut self)
        ensures
            final(self).choked,
            final(self).pending_notification == old(self).pending_notification,
    {
        self.choked = true;
    }

    /// The peer is served again. Returns whether to tell it of a change now.
    pub fn unchoke(&mut self) -> (send: bool)
        ensures
            send == old(self).pending_notification,
            *final(self) == (Choked { choked: false, pending_notification: false }),
    {
        let send = self.pending_notification;
        self.choked = false;
        self.pending_notification = false;
        send
    }
}

/// The first of the tables of inner nodes of `store` that holds a group under `h`.
pub open spec fn inner_layer_of(store: &Store, h: hash::Hash) -> int {
    if store.inners0@.contains_key(h) {
        0
    } else if store.inners1@.contains_key(h) {
        1
    } else if store.inners2@.contains_key(h) {
        2
    } else {
        -1
    }
}

/// Whether `response` is what `store` answers to `request`.
pub open spec fn answers(store: &Store, request: Request, response: Response) -> bool {
    match request {
        Request::RootNode(writer_id, _) => {
            let i = store.spec_latest_approved_filtered(writer_id, RootNodeFilter::Published);
            if store.spec_latest_approved(writer_id) < 0 {
                response matches Response::RootNodeError(w, _) && w == writer_id
            } else {
                response matches Response::RootNode { proof, summary, .. } && summary
                    == store.roots@[i].summary && proof.proof.writer_id == writer_id
                    && proof.proof.hash == store.roots@[i].proof.hash && proof.proof.signature@
                    == store.roots@[i].proof.signature@ && proof.proof.version_vector.versions@
                    == store.roots@[i].proof.version_vector.versions@
            }
        },
        Request::ChildNodes(h, disambiguator, _) => {
            let layer = inner_layer_of(store, h);
            if layer == 0 {
                response matches Response::InnerNodes(nodes, d, _) && d == disambiguator
                    && nodes.slots@ == store.inners0@[h].slots@
            } else if layer == 1 {
                response matches Response::InnerNodes(nodes, d, _) && d == disambiguator
                    && nodes.slots@ == store.inners1@[h].slots@
            } else if layer == 2 {
                response matches Response::InnerNodes(nodes, d, _) && d == disambiguator
                    && nodes.slots@ == store.inners2@[h].slots@
            } else if store.leaves@.contains_key(h) {
                response matches Response::LeafNodes(nodes, d, _) && d == disambiguator
                    && nodes.nodes@ == store.leaves@[h].nodes@
            } else {
                response matches Response::ChildNodesError(x, d, _) && x == h && d == disambiguator
            }
        },
        Request::Block(id, _) => {
            if store.blocks@.contains_key(id.hash) {
                response matches Response::Block { content, nonce, .. } && content@
                    == store.blocks@[id.hash].content@ && nonce@ == store.blocks@[id.hash].nonce@
            } else {
                response matches Response::BlockError(x, _) && x == id
            }
        },
    }
}

fn copy_bytes(bytes: &Vec<u8>) -> (out: Vec<u8>)
    ensures
        out@ == bytes@,
{
    let mut out: Vec<u8> = Vec::new();
    let mut i: usize = 0;
    while i < bytes.len()
        invariant
            i <= bytes@.len(),
            out@ == bytes@.subrange(0, i as int),
        decreases bytes@.len() - i,
    {
        out.push(bytes[i]);
        assert(out@ =~= bytes@.subrange(0, i + 1));
        i = i + 1;
    }
    assert(out@ =~= bytes@);
    out
}

/// Answers a request of a peer from what is stored: the latest published
/// root node of a writer, the children of a node, inner nodes before leaf
/// nodes, or a block; or says that it cannot.
pub fn handle_request(store: &Store, request: Request) -> (response: Response)
    requires
        store.wf(),
    ensures
        answers(store, request, response),
{
    match request {
        Request::RootNode(writer_id, debug) => {
            match store.load_latest_approved_root_node(&writer_id, RootNodeFilter::Published) {
                Ok(node) => {
                    proof {
                        store.lemma_latest_approved(writer_id, store.roots@.len() as int);
                        store.lemma_published(writer_id, store.spec_latest_approved(writer_id));
                    }
                    Response::RootNode {
                        proof: UntrustedProof::new(node.proof),
                        summary: node.summary,
                        debug: debug.reply(),
                    }
                },
                Err(_) => Response::RootNodeError(writer_id, debug.reply()),
            }
        },
        Request::ChildNodes(h, disambiguator, debug) => {
            match store.inners0.get(&h) {
                Some(nodes) => {
                    return Response::InnerNodes(nodes.duplicate(), disambiguator, debug.reply());
                },
                None => {},
            }
            match store.inners1.get(&h) {
                Some(nodes) => {
                    return Response::InnerNodes(nodes.duplicate(), disambiguator, debug.reply());
                },
                None => {},
            }
            match store.inners2.get(&h) {
                Some(nodes) => {
                    return Response::InnerNodes(nodes.duplicate(), disambiguator, debug.reply());
                },
                None => {},
            }
            match store.leaves.get(&h) {
                Some(nodes) => Response::LeafNodes(nodes.duplicate(), disambiguator, debug.reply()),
                None => Response::ChildNodesError(h, disambiguator, debug.reply()),
            }
        },
        Request::Block(id, debug) => {
            match store.read_block(&id) {
                Ok(block) => Response::Block {
                    content: copy_bytes(&block.content),
                    nonce: copy_bytes(&block.nonce),
                    debug: debug.reply(),
                },
                Err(_) => Response::BlockError(id, debug.reply()),
            }
        },
    }
}

} // verus!
