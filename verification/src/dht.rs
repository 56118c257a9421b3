//! The DHT topology: membership plus a token ring over a 64-bit key space.
//!
//! A `Dht` holds one node's authoritative view: the membership table, the
//! ring, and which id is the local one. Inserts are insert-only and keep
//! both tables sorted, so the view only grows and two converged nodes hold
//! bit-identical tables. The gossip round functions build and consume the
//! wire messages and say exactly how the store changes.

use vstd::prelude::*;

use crate::digest::{spec_fnv1a, fnv1a, FNV_OFFSET_BASIS};
use crate::errors::SwarmError;
use crate::node::{
    addr_wf,
    meta_encodable,
    node_wf,
    nodes_views,
    spec_hash_nodes,
    spec_meta_insert,
    hash_nodes,
    NetAddr,
    Node,
    NodeV,
};
use crate::peer::{gossip_peer, spec_non_local};
use crate::codec::Parsed;
use crate::protocol::{
    nodes_all_wf,
    nodes_encodable,
    spec_encode_reply,
    spec_encode_request,
    spec_encode_tokens,
    spec_parse_reply,
    spec_parse_request,
    decode_reply,
    decode_request,
    encode_reply,
    encode_request,
    write_tokens,
};
use crate::store::{
    has_member_id,
    has_token,
    insert_member_vec,
    insert_token_vec,
    lemma_insert_member_ids,
    lemma_insert_token_facts,
    lemma_lookup_member_props,
    lemma_merge_members_idempotent,
    lemma_merge_members_props,
    lemma_merge_members_union,
    lemma_merge_tokens_idempotent,
    lemma_merge_tokens_props,
    lemma_merge_tokens_union,
    lemma_sorted_insert_member_elems,
    lemma_sorted_insert_member_sorted,
    lookup_member_vec,
    members_all_wf,
    members_sorted,
    set_local_metadata,
    spec_first_greater_owner,
    spec_insert_member,
    spec_insert_token,
    spec_lookup_member,
    spec_merge_members,
    spec_merge_tokens,
    spec_ring_owner,
    tokens_sorted,
    TokenEntry,
};
use crate::swarm::{Swarm, SwarmConfig};

verus! {

// ---------------------------------------------------------------------------
// The token digest.
// ---------------------------------------------------------------------------

/// The ring digest: FNV-1a over the entries in ascending token order, each
/// as big-endian token then big-endian owner id. A pure function of the
/// ring, identical on any two hosts holding the same entries.
pub open spec fn spec_hash_tokens(s: Seq<TokenEntry>) -> u64 {
    spec_fnv1a(spec_encode_tokens(s), FNV_OFFSET_BASIS)
}

/// The ring digest, executable; returns exactly the spec digest.
pub fn hash_tokens(tokens: &Vec<TokenEntry>) -> (r: u64)
    ensures
        r == spec_hash_tokens(tokens@),
{
    let mut buf: Vec<u8> = Vec::new();
    write_tokens(tokens, &mut buf);
    proof {
        assert(buf@ =~= spec_encode_tokens(tokens@));
    }
    fnv1a(&buf, FNV_OFFSET_BASIS)
}

// ---------------------------------------------------------------------------
// The store.
// ---------------------------------------------------------------------------

/// Mathematical model of one node's DHT view.
pub struct DhtV {
    pub local_id: u32,
    pub members: Seq<NodeV>,
    pub tokens: Seq<TokenEntry>,
}

/// Both tables sorted, every record well formed, and the local record
/// present — present from startup on, and inserts never remove, so it is
/// present in every snapshot.
pub open spec fn dht_wf(d: DhtV) -> bool {
    &&& members_sorted(d.members)
    &&& members_all_wf(d.members)
    &&& has_member_id(d.members, d.local_id)
    &&& tokens_sorted(d.tokens)
}

/// The local node's record.
pub open spec fn spec_local_node(d: DhtV) -> NodeV {
    spec_lookup_member(d.members, d.local_id)->Some_0
}

/// One node's DHT view: the local id, the membership table and the ring.
pub struct Dht {
    pub local_id: u32,
    pub members: Vec<Node>,
    pub tokens: Vec<TokenEntry>,
}

impl View for Dht {
    type V = DhtV;

    open spec fn view(&self) -> DhtV {
        DhtV { local_id: self.local_id, members: nodes_views(self.members@), tokens: self.tokens@ }
    }
}

impl Dht {
    /// A fresh store holding only the local record.
    pub fn new(local_node: Node) -> (r: Dht)
        requires
            node_wf(local_node@),
        ensures
            dht_wf(r@),
            r@.local_id == local_node@.id,
            r@.members == seq![local_node@],
            r@.tokens == Seq::<TokenEntry>::empty(),
    {
        let local_id = local_node.get_id();
        let mut members: Vec<Node> = Vec::new();
        members.push(local_node);
        let r = Dht { local_id, members, tokens: Vec::new() };
        proof {
            assert(r@.members =~= seq![local_node@]);
            assert(r@.members[0].id == local_id);
        }
        r
    }

    /// Insert a received record; one whose id is known is discarded
    /// silently. The table only grows.
    pub fn register_node(&mut self, node: Node) -> (r: bool)
        requires
            dht_wf(old(self)@),
            node_wf(node@),
        ensures
            dht_wf(final(self)@),
            final(self)@.members == spec_insert_member(old(self)@.members, node@),
            final(self)@.tokens == old(self)@.tokens,
            final(self)@.local_id == old(self)@.local_id,
            r == !has_member_id(old(self)@.members, node@.id),
            forall|x: NodeV|
                old(self)@.members.contains(x) ==> #[trigger] final(self)@.members.contains(x),
    {
        let ghost s = self@.members;
        let ghost nv = node@;
        let r = insert_member_vec(&mut self.members, node);
        proof {
            lemma_insert_member_ids(s, nv);
            if !has_member_id(s, nv.id) {
                lemma_sorted_insert_member_sorted(s, nv);
                lemma_sorted_insert_member_elems(s, nv);
                assert forall|i: int|
                    0 <= i < final(self)@.members.len() implies node_wf(
                    #[trigger] final(self)@.members[i],
                ) by {
                    assert(final(self)@.members.contains(final(self)@.members[i]));
                }
            }
        }
        r
    }

    /// Insert a received token; one already present keeps its first
    /// observed owner, even when the incoming owner differs. The ring only
    /// grows.
    pub fn add_token(&mut self, token: u64, id: u32) -> (r: bool)
        requires
            dht_wf(old(self)@),
        ensures
            dht_wf(final(self)@),
            final(self)@.tokens == spec_insert_token(
                old(self)@.tokens,
                TokenEntry { token, id },
            ),
            final(self)@.members == old(self)@.members,
            final(self)@.local_id == old(self)@.local_id,
            r == !has_token(old(self)@.tokens, token),
            forall|x: TokenEntry|
                old(self)@.tokens.contains(x) ==> #[trigger] final(self)@.tokens.contains(x),
    {
        let ghost s = self@.tokens;
        let t = TokenEntry { token, id };
        let r = insert_token_vec(&mut self.tokens, t);
        proof {
            lemma_insert_token_facts(s, t);
            if !has_token(s, t.token) {
                crate::store::lemma_sorted_insert_token_sorted(s, t);
            }
        }
        r
    }

    /// The record with the given id, if known.
    pub fn get(&self, id: u32) -> (r: Option<&Node>)
        ensures
            match r {
                Some(n) => spec_lookup_member(self@.members, id) == Some(n@),
                None => spec_lookup_member(self@.members, id) is None,
            },
    {
        lookup_member_vec(&self.members, id)
    }

    /// The id of the local record.
    pub fn local_id(&self) -> (r: u32)
        ensures
            r == self@.local_id,
    {
        self.local_id
    }

    /// The gossip address of the local record, immutable after
    /// construction.
    pub fn local_address(&self) -> (r: NetAddr)
        requires
            dht_wf(self@),
        ensures
            r@ == spec_local_node(self@).addr,
    {
        proof {
            lemma_lookup_member_props(self@.members, self@.local_id);
        }
        match lookup_member_vec(&self.members, self.local_id) {
            Some(n) => n.get_address(),
            None => {
                proof {
                    assert(false);
                }
                NetAddr { octets: Vec::new(), port: 0 }
            },
        }
    }

    /// The owner of the ring range holding `token`: the owner of the
    /// smallest token strictly greater than it, or of the smallest token
    /// when none is greater. `None` when the ring is empty or the owner is
    /// not (yet) in the membership table.
    pub fn locate(&self, token: u64) -> (r: Option<Node>)
        requires
            dht_wf(self@),
        ensures
            match r {
                Some(n) => spec_locate(self@, token) == Some(n@),
                None => spec_locate(self@, token) is None,
            },
    {
        let n = self.tokens.len();
        let mut i: usize = 0;
        let mut owner: Option<u32> = None;
        proof {
            assert(self@.tokens.skip(0) =~= self@.tokens);
        }
        while i < n
            invariant_except_break
                i <= n,
                n == self.tokens@.len(),
                owner is None,
                spec_first_greater_owner(self@.tokens, token) == spec_first_greater_owner(
                    self@.tokens.skip(i as int),
                    token,
                ),
            ensures
                match owner {
                    Some(o) => spec_first_greater_owner(self@.tokens, token) == Some(o),
                    None => i == n && spec_first_greater_owner(self@.tokens, token)
                        == spec_first_greater_owner(self@.tokens.skip(n as int), token),
                },
            decreases n - i,
        {
            proof {
                assert(self@.tokens.skip(i as int)[0] == self@.tokens[i as int]);
                assert(self@.tokens.skip(i as int).drop_first() =~= self@.tokens.skip(i + 1));
            }
            if self.tokens[i].token > token {
                owner = Some(self.tokens[i].id);
                break ;
            }
            i = i + 1;
        }
        proof {
            if owner is None {
                assert(self@.tokens.skip(n as int) =~= Seq::<TokenEntry>::empty());
            }
        }
        let owner_id = match owner {
            Some(o) => o,
            None => {
                if self.tokens.len() > 0 {
                    self.tokens[0].id
                } else {
                    proof {
                        assert(spec_ring_owner(self@.tokens, token) is None);
                    }
                    return None;
                }
            },
        };
        proof {
            assert(spec_ring_owner(self@.tokens, token) == Some(owner_id));
        }
        match lookup_member_vec(&self.members, owner_id) {
            Some(node) => Some(node.clone()),
            None => None,
        }
    }

    /// A copy of the membership table, ascending by id; the local record
    /// is always among them.
    pub fn nodes(&self) -> (r: Vec<Node>)
        requires
            dht_wf(self@),
        ensures
            nodes_views(r@) == self@.members,
            has_member_id(nodes_views(r@), self@.local_id),
    {
        clone_members(&self.members)
    }

    /// A copy of the ring, ascending by token.
    pub fn snapshot_tokens(&self) -> (r: Vec<TokenEntry>)
        ensures
            r@ == self@.tokens,
    {
        let mut r: Vec<TokenEntry> = Vec::new();
        let n = self.tokens.len();
        let mut i: usize = 0;
        while i < n
            invariant
                i <= n,
                n == self.tokens@.len(),
                r@ == self.tokens@.subrange(0, i as int),
            decreases n - i,
        {
            r.push(self.tokens[i]);
            proof {
                assert(r@ =~= self.tokens@.subrange(0, i + 1));
            }
            i = i + 1;
        }
        proof {
            assert(self.tokens@.subrange(0, n as int) =~= self.tokens@);
        }
        r
    }

    /// The membership digest of the current snapshot: a pure function of
    /// the table, so two calls without a write in between agree.
    pub fn digest_members(&self) -> (r: u64)
        ensures
            r == spec_hash_nodes(self@.members),
    {
        hash_nodes(&self.members)
    }

    /// The ring digest of the current snapshot: a pure function of the
    /// ring.
    pub fn digest_tokens(&self) -> (r: u64)
        ensures
            r == spec_hash_tokens(self@.tokens),
    {
        hash_tokens(&self.tokens)
    }

    /// Bind `key` to `value` in the local record's metadata.
    pub fn set_metadata(&mut self, key: Vec<u8>, value: Vec<u8>)
        requires
            dht_wf(old(self)@),
        ensures
            dht_wf(final(self)@),
            final(self)@.tokens == old(self)@.tokens,
            final(self)@.local_id == old(self)@.local_id,
            exists|i: int|
                {
                    &&& 0 <= i < old(self)@.members.len()
                    &&& old(self)@.members[i].id == old(self)@.local_id
                    &&& final(self)@.members == old(self)@.members.update(
                        i,
                        NodeV {
                            meta: spec_meta_insert(old(self)@.members[i].meta, key@, value@),
                            ..old(self)@.members[i]
                        },
                    )
                },
    {
        set_local_metadata(&mut self.members, self.local_id, key, value);
    }

    /// One peer address for this round, or none when there is nobody to
    /// gossip with: with other records known, one of them at random; with
    /// only the local record, the seed when configured; else `None`, and
    /// the round is skipped.
    pub fn gossip_addr(&self, seed_address: &Option<NetAddr>) -> (r: Option<NetAddr>)
        requires
            dht_wf(self@),
        ensures
            self@.members.len() <= 1 ==> match (r, seed_address) {
                (Some(a), Some(sd)) => a@ == sd@,
                (None, None) => true,
                _ => false,
            },
            self@.members.len() > 1 ==> match r {
                Some(a) => exists|j: int|
                    0 <= j < spec_non_local(self@.members, self@.local_id).len() && a@
                        == spec_non_local(self@.members, self@.local_id)[j].addr,
                None => false,
            },
    {
        gossip_peer(&self.members, self.local_id, seed_address)
    }
}

impl Dht {
    /// The request this node sends for a round: its own record and the two
    /// digests of its current snapshot. Refused only when the local
    /// record's metadata does not fit the wire.
    pub fn request_message(&self) -> (r: Result<Vec<u8>, SwarmError>)
        requires
            dht_wf(self@),
        ensures
            match r {
                Ok(buf) => {
                    &&& meta_encodable(spec_local_node(self@).meta)
                    &&& buf@ == spec_encode_request(
                        spec_local_node(self@),
                        spec_hash_nodes(self@.members),
                        spec_hash_tokens(self@.tokens),
                    )
                },
                Err(e) => e == SwarmError::Protocol && !meta_encodable(spec_local_node(self@).meta),
            },
    {
        proof {
            lemma_lookup_member_props(self@.members, self@.local_id);
        }
        let local = match lookup_member_vec(&self.members, self.local_id) {
            Some(n) => n,
            None => {
                proof {
                    assert(false);
                }
                return Err(SwarmError::Protocol);
            },
        };
        let h_nodes = hash_nodes(&self.members);
        let h_tokens = hash_tokens(&self.tokens);
        proof {
            assert(node_wf(local@)) by {
                assert(self@.members.contains(local@));
            }
        }
        encode_request(local, h_nodes, h_tokens)
    }

    /// Answer a request: when the received digest equals the matching
    /// digest of this snapshot the section is suppressed (a count of zero),
    /// otherwise the whole snapshot is sent; afterwards the requester's own
    /// record is merged, insert-only, so a joining node is learned even
    /// when the digests matched. The store only grows, and only by the
    /// requester's record.
    pub fn handle_request(&mut self, req: &Vec<u8>) -> (r: Result<Vec<u8>, SwarmError>)
        requires
            dht_wf(old(self)@),
        ensures
            dht_wf(final(self)@),
            final(self)@.local_id == old(self)@.local_id,
            forall|x: NodeV|
                old(self)@.members.contains(x) ==> #[trigger] final(self)@.members.contains(x),
            match r {
                Ok(reply) => match spec_parse_request(req@, 0) {
                    Parsed::Found(t, p) => {
                        &&& reply@ == spec_encode_reply(
                            if t.1 == spec_hash_nodes(old(self)@.members) {
                                Seq::<NodeV>::empty()
                            } else {
                                old(self)@.members
                            },
                            if t.2 == spec_hash_tokens(old(self)@.tokens) {
                                Seq::<TokenEntry>::empty()
                            } else {
                                old(self)@.tokens
                            },
                        )
                        &&& final(self)@.members == spec_insert_member(old(self)@.members, t.0)
                        &&& final(self)@.tokens == old(self)@.tokens
                    },
                    _ => false,
                },
                Err(e) => {
                    &&& final(self)@ == old(self)@
                    &&& (e == SwarmError::Io || e == SwarmError::Protocol)
                    &&& (e == SwarmError::Io <==> spec_parse_request(req@, 0) == Parsed::<
                        (NodeV, u64, u64),
                    >::Short)
                    &&& (e == SwarmError::Protocol <==> (spec_parse_request(req@, 0) == Parsed::<
                        (NodeV, u64, u64),
                    >::Bad || (match spec_parse_request(req@, 0) {
                        Parsed::Found(t, p) => (t.1 != spec_hash_nodes(old(self)@.members) && (
                        old(self)@.members.len() > 0xffff || !nodes_encodable(
                            old(self)@.members,
                        ))) || (t.2 != spec_hash_tokens(old(self)@.tokens) && old(
                            self,
                        )@.tokens.len() > 0xffff),
                        _ => false,
                    })))
                },
            },
    {
        let ((node, h_nodes, h_tokens), _used) = match decode_request(req) {
            Ok(x) => x,
            Err(e) => {
                return Err(e);
            },
        };
        let my_h_nodes = hash_nodes(&self.members);
        let my_h_tokens = hash_tokens(&self.tokens);
        let empty_members: Vec<Node> = Vec::new();
        let empty_tokens: Vec<TokenEntry> = Vec::new();
        let node_section: &Vec<Node> = if h_nodes == my_h_nodes {
            &empty_members
        } else {
            &self.members
        };
        let token_section: &Vec<TokenEntry> = if h_tokens == my_h_tokens {
            &empty_tokens
        } else {
            &self.tokens
        };
        proof {
            assert(nodes_views(empty_members@) =~= Seq::<NodeV>::empty());
        }
        let reply = match encode_reply(node_section, token_section) {
            Ok(x) => x,
            Err(e) => {
                proof {
                    assert(nodes_encodable(Seq::<NodeV>::empty()));
                }
                return Err(e);
            },
        };
        self.register_node(node);
        Ok(reply)
    }

    /// Merge a reply into the store, insert-only, record by record and
    /// token by token. The store only grows; applying the same reply again
    /// changes nothing further.
    pub fn apply_reply(&mut self, reply: &Vec<u8>) -> (r: Result<(), SwarmError>)
        requires
            dht_wf(old(self)@),
        ensures
            dht_wf(final(self)@),
            final(self)@.local_id == old(self)@.local_id,
            forall|x: NodeV|
                old(self)@.members.contains(x) ==> #[trigger] final(self)@.members.contains(x),
            forall|x: TokenEntry|
                old(self)@.tokens.contains(x) ==> #[trigger] final(self)@.tokens.contains(x),
            match r {
                Ok(()) => match spec_parse_reply(reply@, 0) {
                    Parsed::Found(sections, p) => {
                        &&& final(self)@.members == spec_merge_members(
                            old(self)@.members,
                            sections.0,
                        )
                        &&& final(self)@.tokens == spec_merge_tokens(old(self)@.tokens, sections.1)
                    },
                    _ => false,
                },
                Err(e) => {
                    &&& final(self)@ == old(self)@
                    &&& (e == SwarmError::Io || e == SwarmError::Protocol)
                    &&& (e == SwarmError::Io <==> spec_parse_reply(reply@, 0) == Parsed::<
                        (Seq<NodeV>, Seq<TokenEntry>),
                    >::Short)
                    &&& (e == SwarmError::Protocol <==> spec_parse_reply(reply@, 0) == Parsed::<
                        (Seq<NodeV>, Seq<TokenEntry>),
                    >::Bad)
                },
            },
    {
        let ((mut nodes, mut tokens), _used) = match decode_reply(reply) {
            Ok(x) => x,
            Err(e) => {
                return Err(e);
            },
        };
        let ghost ns = nodes_views(nodes@);
        let ghost ts = tokens@;
        let ghost m0 = self@.members;
        let ghost t0 = self@.tokens;
        while nodes.len() > 0
            invariant
                dht_wf(self@),
                self@.local_id == old(self)@.local_id,
                self@.tokens == t0,
                nodes_all_wf(nodes_views(nodes@)),
                spec_merge_members(m0, ns) == spec_merge_members(
                    self@.members,
                    nodes_views(nodes@),
                ),
                forall|x: NodeV| m0.contains(x) ==> #[trigger] self@.members.contains(x),
            decreases nodes@.len(),
        {
            let ghost pre = nodes_views(nodes@);
            let nd = nodes.remove(0);
            proof {
                assert(nodes_views(nodes@) =~= pre.drop_first()) by {
                    assert(forall|j: int|
                        0 <= j < nodes@.len() ==> nodes_views(nodes@)[j] == (#[trigger] nodes@[j])@
                            && pre[j + 1] == nodes@[j]@);
                }
                assert(node_wf(nd@)) by {
                    assert(pre[0] == nd@);
                }
                assert(forall|j: int|
                    0 <= j < pre.drop_first().len() ==> node_wf(#[trigger] pre.drop_first()[j]))
                    by {
                    assert(forall|j: int|
                        0 <= j < pre.drop_first().len() ==> pre.drop_first()[j] == #[trigger] pre[j
                            + 1]);
                }
            }
            let ghost cur = self@.members;
            self.register_node(nd);
            proof {
                assert(spec_merge_members(cur, pre) == spec_merge_members(
                    self@.members,
                    nodes_views(nodes@),
                ));
                lemma_insert_member_ids(cur, nd@);
            }
        }
        proof {
            assert(nodes_views(nodes@) =~= Seq::<NodeV>::empty());
            assert(spec_merge_members(m0, ns) == self@.members);
        }
        let ghost m1 = self@.members;
        while tokens.len() > 0
            invariant
                dht_wf(self@),
                self@.local_id == old(self)@.local_id,
                self@.members == m1,
                spec_merge_tokens(t0, ts) == spec_merge_tokens(self@.tokens, tokens@),
                forall|x: TokenEntry| t0.contains(x) ==> #[trigger] self@.tokens.contains(x),
            decreases tokens@.len(),
        {
            let ghost pre = tokens@;
            let te = tokens.remove(0);
            proof {
                assert(tokens@ =~= pre.drop_first());
                assert(pre[0] == te);
            }
            let ghost cur = self@.tokens;
            self.add_token(te.token, te.id);
            proof {
                assert(TokenEntry { token: te.token, id: te.id } == te);
                assert(spec_merge_tokens(cur, pre) == spec_merge_tokens(self@.tokens, tokens@));
                lemma_insert_token_facts(cur, te);
            }
        }
        proof {
            assert(tokens@ =~= Seq::<TokenEntry>::empty());
            assert(spec_merge_tokens(t0, ts) == self@.tokens);
            lemma_merge_members_props(m0, ns);
            lemma_merge_tokens_props(t0, ts);
        }
        Ok(())
    }
}

/// A copy of a membership table with the same view.
pub(crate) fn clone_members(members: &Vec<Node>) -> (r: Vec<Node>)
    ensures
        nodes_views(r@) == nodes_views(members@),
{
    let mut r: Vec<Node> = Vec::new();
    let n = members.len();
    let mut i: usize = 0;
    while i < n
        invariant
            i <= n,
            n == members@.len(),
            r@.len() == i,
            forall|j: int| 0 <= j < i ==> (#[trigger] r@[j])@ == members@[j]@,
        decreases n - i,
    {
        r.push(members[i].clone());
        i = i + 1;
    }
    proof {
        assert(nodes_views(r@) =~= nodes_views(members@)) by {
            assert(forall|j: int|
                0 <= j < n ==> nodes_views(r@)[j] == (#[trigger] r@[j])@ && nodes_views(members@)[j]
                    == (#[trigger] members@[j])@);
        }
    }
    r
}

/// Where a key lives: the record owning the ring range that holds it, or
/// nothing when the ring is empty or the owner is unknown.
pub open spec fn spec_locate(d: DhtV, k: u64) -> Option<NodeV> {
    match spec_ring_owner(d.tokens, k) {
        None => None,
        Some(o) => spec_lookup_member(d.members, o),
    }
}

// ---------------------------------------------------------------------------
// The builder.
// ---------------------------------------------------------------------------

/// The metadata key under which a node's RPC address travels: `rpc_addr`.
pub open spec fn spec_rpc_addr_key() -> Seq<u8> {
    seq![114u8, 112u8, 99u8, 95u8, 97u8, 100u8, 100u8, 114u8]
}

/// The metadata key under which a node's transfer address travels:
/// `xfer_addr`.
pub open spec fn spec_xfer_addr_key() -> Seq<u8> {
    seq![120u8, 102u8, 101u8, 114u8, 95u8, 97u8, 100u8, 100u8, 114u8]
}

/// The bytes of the key `rpc_addr`.
pub fn rpc_addr_key() -> (r: Vec<u8>)
    ensures
        r@ == spec_rpc_addr_key(),
{
    let mut r: Vec<u8> = Vec::new();
    r.push(114);
    r.push(112);
    r.push(99);
    r.push(95);
    r.push(97);
    r.push(100);
    r.push(100);
    r.push(114);
    proof {
        assert(r@ =~= spec_rpc_addr_key());
    }
    r
}

/// The bytes of the key `xfer_addr`.
pub fn xfer_addr_key() -> (r: Vec<u8>)
    ensures
        r@ == spec_xfer_addr_key(),
{
    let mut r: Vec<u8> = Vec::new();
    r.push(120);
    r.push(102);
    r.push(101);
    r.push(114);
    r.push(95);
    r.push(97);
    r.push(100);
    r.push(100);
    r.push(114);
    proof {
        assert(r@ =~= spec_xfer_addr_key());
    }
    r
}

/// Builds a swarm endpoint and its DHT store: the local record (with the
/// service addresses as metadata), this node's tokens, and the seed.
pub struct DhtBuilder {
    pub id: u32,
    pub rpc_addr: Option<Vec<u8>>,
    pub seed_addr: Option<NetAddr>,
    pub swarm_config: Option<SwarmConfig>,
    pub tokens: Vec<u64>,
    pub xfer_addr: Option<Vec<u8>>,
}

/// The local record `build` puts in the table: the configured id and bind
/// address, with the service addresses bound under their keys.
pub open spec fn spec_built_local(b: DhtBuilder) -> NodeV {
    let m0 = Seq::<(Seq<u8>, Seq<u8>)>::empty();
    let m1 = match b.rpc_addr {
        Some(v) => spec_meta_insert(m0, spec_rpc_addr_key(), v@),
        None => m0,
    };
    let m2 = match b.xfer_addr {
        Some(v) => spec_meta_insert(m1, spec_xfer_addr_key(), v@),
        None => m1,
    };
    NodeV { id: b.id, addr: (b.swarm_config->Some_0).addr@, meta: m2 }
}

impl DhtBuilder {
    pub fn new() -> (r: DhtBuilder)
        ensures
            r.id == 0,
            r.rpc_addr is None,
            r.seed_addr is None,
            r.swarm_config is None,
            r.tokens@ == Seq::<u64>::empty(),
            r.xfer_addr is None,
    {
        let r = DhtBuilder {
            id: 0,
            rpc_addr: None,
            seed_addr: None,
            swarm_config: None,
            tokens: Vec::new(),
            xfer_addr: None,
        };
        proof {
            assert(r.tokens@ =~= Seq::<u64>::empty());
        }
        r
    }

    pub fn id(self, id: u32) -> (r: DhtBuilder)
        ensures
            r == (DhtBuilder { id, ..self }),
    {
        DhtBuilder { id, ..self }
    }

    pub fn rpc_addr(self, rpc_addr: Vec<u8>) -> (r: DhtBuilder)
        ensures
            r == (DhtBuilder { rpc_addr: Some(rpc_addr), ..self }),
    {
        DhtBuilder { rpc_addr: Some(rpc_addr), ..self }
    }

    pub fn seed_addr(self, seed_addr: NetAddr) -> (r: DhtBuilder)
        ensures
            r == (DhtBuilder { seed_addr: Some(seed_addr), ..self }),
    {
        DhtBuilder { seed_addr: Some(seed_addr), ..self }
    }

    pub fn swarm_config(self, swarm_config: SwarmConfig) -> (r: DhtBuilder)
        ensures
            r == (DhtBuilder { swarm_config: Some(swarm_config), ..self }),
    {
        DhtBuilder { swarm_config: Some(swarm_config), ..self }
    }

    pub fn tokens(self, tokens: Vec<u64>) -> (r: DhtBuilder)
        ensures
            r == (DhtBuilder { tokens, ..self }),
    {
        DhtBuilder { tokens, ..self }
    }

    pub fn xfer_addr(self, xfer_addr: Vec<u8>) -> (r: DhtBuilder)
        ensures
            r == (DhtBuilder { xfer_addr: Some(xfer_addr), ..self }),
    {
        DhtBuilder { xfer_addr: Some(xfer_addr), ..self }
    }

    /// Build the endpoint and its store. Refused with `Bind` when no
    /// configuration was given or its bind address is malformed. The store
    /// holds the local record and this node's tokens; the swarm is
    /// stopped.
    pub fn build(self) -> (r: Result<(Swarm, Dht), SwarmError>)
        ensures
            match r {
                Ok(pair) => {
                    &&& self.swarm_config is Some
                    &&& addr_wf((self.swarm_config->Some_0).addr@)
                    &&& dht_wf(pair.1@)
                    &&& pair.1@.local_id == self.id
                    &&& pair.1@.members == seq![spec_built_local(self)]
                    &&& (forall|t: u64|
                        #[trigger] has_token(pair.1@.tokens, t) <==> self.tokens@.contains(t))
                    &&& (forall|i: int|
                        0 <= i < pair.1@.tokens.len() ==> (#[trigger] pair.1@.tokens[i]).id
                            == self.id)
                    &&& !pair.0.running
                    &&& pair.0.id == self.id
                    &&& pair.0.address == (self.swarm_config->Some_0).addr
                    &&& pair.0.seed_address == self.seed_addr
                },
                Err(e) => e == SwarmError::Bind && (self.swarm_config is None || !addr_wf(
                    (self.swarm_config->Some_0).addr@,
                )),
            },
    {
        let config = match self.swarm_config {
            Some(c) => c,
            None => {
                return Err(SwarmError::Bind);
            },
        };
        if !(config.addr.octets.len() == 4 || config.addr.octets.len() == 16) {
            return Err(SwarmError::Bind);
        }
        let mut node = Node::new(self.id, config.addr.clone());
        match self.rpc_addr {
            Some(v) => {
                node.set_metadata(rpc_addr_key(), v);
            },
            None => {},
        }
        match self.xfer_addr {
            Some(v) => {
                node.set_metadata(xfer_addr_key(), v);
            },
            None => {},
        }
        proof {
            assert(node@ == spec_built_local(self));
        }
        let mut dht = Dht::new(node);
        let n = self.tokens.len();
        let mut i: usize = 0;
        proof {
            assert(forall|t: u64| !has_token(dht@.tokens, t));
            assert(forall|t: u64| !self.tokens@.subrange(0, 0).contains(t)) by {
                assert(self.tokens@.subrange(0, 0) =~= Seq::<u64>::empty());
            }
        }
        while i < n
            invariant
                i <= n,
                n == self.tokens@.len(),
                dht_wf(dht@),
                dht@.local_id == self.id,
                dht@.members == seq![spec_built_local(self)],
                forall|t: u64|
                    #[trigger] has_token(dht@.tokens, t) <==> self.tokens@.subrange(
                        0,
                        i as int,
                    ).contains(t),
                forall|j: int|
                    0 <= j < dht@.tokens.len() ==> (#[trigger] dht@.tokens[j]).id == self.id,
            decreases n - i,
        {
            let ghost before = dht@.tokens;
            dht.add_token(self.tokens[i], self.id);
            proof {
                lemma_insert_token_facts(before, TokenEntry { token: self.tokens@[i as int], id: self.id });
                assert forall|j: int|
                    0 <= j < dht@.tokens.len() implies (#[trigger] dht@.tokens[j]).id
                    == self.id by {
                    let x = dht@.tokens[j];
                    assert(dht@.tokens.contains(x));
                    if before.contains(x) {
                        let k = choose|k: int| 0 <= k < before.len() && before[k] == x;
                        assert(before[k].id == self.id);
                    } else {
                        assert(x == TokenEntry { token: self.tokens@[i as int], id: self.id });
                    }
                }
                assert forall|t: u64|
                    #[trigger] has_token(dht@.tokens, t) <==> self.tokens@.subrange(
                        0,
                        i + 1,
                    ).contains(t) by {
                    assert(self.tokens@.subrange(0, i + 1) =~= self.tokens@.subrange(
                        0,
                        i as int,
                    ).push(self.tokens@[i as int]));
                    if self.tokens@.subrange(0, i + 1).contains(t) {
                        let k = choose|k: int|
                            0 <= k < i + 1 && #[trigger] self.tokens@.subrange(0, i + 1)[k] == t;
                        if k < i {
                            assert(self.tokens@.subrange(0, i as int)[k] == t);
                        }
                    }
                    if self.tokens@.subrange(0, i as int).contains(t) {
                        let k = choose|k: int|
                            0 <= k < i && #[trigger] self.tokens@.subrange(0, i as int)[k] == t;
                        assert(self.tokens@.subrange(0, i + 1)[k] == t);
                    }
                    if t == self.tokens@[i as int] {
                        assert(self.tokens@.subrange(0, i + 1)[i as int] == t);
                    }
                }
            }
            i = i + 1;
        }
        proof {
            assert(self.tokens@.subrange(0, n as int) =~= self.tokens@);
        }
        let swarm = Swarm::new(self.id, config.addr, self.seed_addr);
        Ok((swarm, dht))
    }
}

// ---------------------------------------------------------------------------
// Laws of a gossip round.
// ---------------------------------------------------------------------------

/// A store after merging one reply's sections, as `apply_reply` does.
pub open spec fn spec_apply_updates(d: DhtV, ns: Seq<NodeV>, ts: Seq<TokenEntry>) -> DhtV {
    DhtV {
        local_id: d.local_id,
        members: spec_merge_members(d.members, ns),
        tokens: spec_merge_tokens(d.tokens, ts),
    }
}

/// A replier's store after a round: the requester's record merged in, as
/// `handle_request` does.
pub open spec fn spec_after_reply(d: DhtV, req: NodeV) -> DhtV {
    DhtV { local_id: d.local_id, members: spec_insert_member(d.members, req), tokens: d.tokens }
}

/// The sections a replier sends against received digests: a section is
/// suppressed exactly when the digests agree, else the whole snapshot.
pub open spec fn spec_reply_sections(d: DhtV, h_nodes: u64, h_tokens: u64) -> (
    Seq<NodeV>,
    Seq<TokenEntry>,
) {
    (
        if h_nodes == spec_hash_nodes(d.members) {
            Seq::<NodeV>::empty()
        } else {
            d.members
        },
        if h_tokens == spec_hash_tokens(d.tokens) {
            Seq::<TokenEntry>::empty()
        } else {
            d.tokens
        },
    )
}

/// One completed round from requester `a` to replier `b`: the pair of
/// stores afterwards, requester first.
pub open spec fn spec_round(a: DhtV, b: DhtV) -> (DhtV, DhtV) {
    let sections = spec_reply_sections(b, spec_hash_nodes(a.members), spec_hash_tokens(a.tokens));
    (spec_apply_updates(a, sections.0, sections.1), spec_after_reply(b, spec_local_node(a)))
}

/// Applying the same reply twice yields the same store as applying it
/// once: every second insert finds its key present and is discarded.
pub proof fn lemma_apply_reply_idempotent(d: DhtV, ns: Seq<NodeV>, ts: Seq<TokenEntry>)
    ensures
        spec_apply_updates(spec_apply_updates(d, ns, ts), ns, ts) == spec_apply_updates(d, ns, ts),
{
    lemma_merge_members_idempotent(d.members, ns);
    lemma_merge_tokens_idempotent(d.tokens, ts);
}

/// In a one-record table the local record is that record.
proof fn lemma_singleton_local(a: DhtV)
    requires
        dht_wf(a),
        a.members.len() == 1,
    ensures
        spec_local_node(a).id == a.local_id,
        forall|x: NodeV| a.members.contains(x) <==> x == spec_local_node(a),
{
    let al = spec_local_node(a);
    lemma_lookup_member_props(a.members, a.local_id);
    assert(a.members.contains(al));
    assert(al == a.members[0]) by {
        let i = choose|i: int| 0 <= i < a.members.len() && a.members[i] == al;
    }
    assert(a.members.contains(a.members[0]));
    assert forall|x: NodeV| a.members.contains(x) implies x == al by {
        let i = choose|i: int| 0 <= i < a.members.len() && a.members[i] == x;
    }
}

/// Merging a whole table into a one-record table yields the same sequence
/// as inserting that one record into the whole table: the sorted union.
proof fn lemma_merge_singleton_equals_insert(am: Seq<NodeV>, bm: Seq<NodeV>, al: NodeV)
    requires
        members_sorted(am),
        members_sorted(bm),
        forall|x: NodeV| am.contains(x) <==> x == al,
        !has_member_id(bm, al.id),
    ensures
        spec_merge_members(am, bm) == spec_insert_member(bm, al),
        forall|x: NodeV|
            #[trigger] spec_merge_members(am, bm).contains(x) <==> (am.contains(x)
                || bm.contains(x)),
        members_sorted(spec_merge_members(am, bm)),
{
    assert(forall|i: int, j: int|
        0 <= i < am.len() && 0 <= j < bm.len() && (#[trigger] am[i]).id == (#[trigger] bm[j]).id
            ==> am[i] == bm[j]) by {
        assert forall|i: int, j: int|
            0 <= i < am.len() && 0 <= j < bm.len() && (#[trigger] am[i]).id
                == (#[trigger] bm[j]).id implies am[i] == bm[j] by {
            assert(am.contains(am[i]));
            assert(am[i] == al);
            assert(has_member_id(bm, al.id));
        }
    }
    lemma_merge_members_union(am, bm);
    lemma_merge_members_props(am, bm);
    lemma_insert_member_ids(bm, al);
    lemma_sorted_insert_member_elems(bm, al);
    lemma_sorted_insert_member_sorted(bm, al);
    assert(forall|x: NodeV|
        #[trigger] spec_merge_members(am, bm).contains(x) <==> spec_insert_member(
            bm,
            al,
        ).contains(x));
    crate::seq_order::lemma_sorted_unique_equal(
        spec_merge_members(am, bm),
        spec_insert_member(bm, al),
        |n: NodeV| n.id as int,
    );
}

/// A table whose every record comes from one of two well-formed tables is
/// well formed record for record.
proof fn lemma_all_wf_from_two(m: Seq<NodeV>, p: Seq<NodeV>, q: Seq<NodeV>)
    requires
        members_all_wf(p),
        members_all_wf(q),
        forall|x: NodeV| #[trigger] m.contains(x) ==> p.contains(x) || q.contains(x),
    ensures
        members_all_wf(m),
{
    assert forall|i: int| 0 <= i < m.len() implies node_wf(#[trigger] m[i]) by {
        assert(m.contains(m[i]));
        if p.contains(m[i]) {
            let j = choose|j: int| 0 <= j < p.len() && p[j] == m[i];
        } else {
            let j = choose|j: int| 0 <= j < q.len() && q[j] == m[i];
        }
    }
}

/// A fresh node `a` (its table holding only its own record) completes one
/// round with a seed `b` whose view it does not yet share: no record of
/// `b` carries `a`'s id, entries agreeing on a token agree wholly, and the
/// digests differ. Afterwards both membership tables are the same sorted
/// union, and `a`'s ring holds exactly both rings' entries; `b`'s ring is
/// untouched, since a request carries no tokens.
#[verifier::rlimit(100)]
pub proof fn lemma_join_round_converges(a: DhtV, b: DhtV)
    requires
        dht_wf(a),
        dht_wf(b),
        a.members.len() == 1,
        !has_member_id(b.members, a.local_id),
        forall|i: int, j: int|
            0 <= i < a.tokens.len() && 0 <= j < b.tokens.len() && (#[trigger] a.tokens[i]).token
                == (#[trigger] b.tokens[j]).token ==> a.tokens[i] == b.tokens[j],
        spec_hash_nodes(a.members) != spec_hash_nodes(b.members),
        spec_hash_tokens(a.tokens) != spec_hash_tokens(b.tokens),
    ensures
        ({
            let r = spec_round(a, b);
            &&& r.0.members == r.1.members
            &&& spec_hash_nodes(r.0.members) == spec_hash_nodes(r.1.members)
            &&& forall|x: NodeV|
                #[trigger] r.0.members.contains(x) <==> (a.members.contains(x)
                    || b.members.contains(x))
            &&& forall|x: TokenEntry|
                #[trigger] r.0.tokens.contains(x) <==> (a.tokens.contains(x) || b.tokens.contains(
                    x,
                ))
            &&& r.1.tokens == b.tokens
            &&& dht_wf(r.0)
            &&& dht_wf(r.1)
        }),
{
    let al = spec_local_node(a);
    lemma_singleton_local(a);
    let r = spec_round(a, b);
    assert(r.0.members == spec_merge_members(a.members, b.members));
    assert(r.0.tokens == spec_merge_tokens(a.tokens, b.tokens));
    assert(r.1.members == spec_insert_member(b.members, al));
    lemma_merge_singleton_equals_insert(a.members, b.members, al);
    lemma_merge_tokens_union(a.tokens, b.tokens);
    lemma_merge_tokens_props(a.tokens, b.tokens);
    assert(dht_wf(r.0)) by {
        lemma_all_wf_from_two(r.0.members, a.members, b.members);
        assert(has_member_id(r.0.members, a.local_id)) by {
            assert(a.members.contains(al));
            assert(r.0.members.contains(al));
            let i = choose|i: int| 0 <= i < r.0.members.len() && r.0.members[i] == al;
        }
    }
    assert(dht_wf(r.1)) by {
        assert(members_sorted(r.1.members) && members_all_wf(r.1.members));
        assert(has_member_id(r.1.members, b.local_id)) by {
            let i = choose|i: int| 0 <= i < b.members.len() && b.members[i].id == b.local_id;
            assert(b.members.contains(b.members[i]));
            assert(r.1.members.contains(b.members[i]));
            let j = choose|j: int| 0 <= j < r.1.members.len() && r.1.members[j] == b.members[i];
        }
    }
}

/// The return round completes the join: after `a` and `b` hold the same
/// membership table, a round from `b` back to `a` suppresses the record
/// section (the digests now agree) and carries `a`'s ring, whose digest
/// still differs; afterwards both rings hold the same entries and both
/// stores are converged.
pub proof fn lemma_return_round_converges(a2: DhtV, b2: DhtV)
    requires
        dht_wf(a2),
        dht_wf(b2),
        a2.members == b2.members,
        spec_hash_tokens(b2.tokens) != spec_hash_tokens(a2.tokens),
        forall|x: TokenEntry| b2.tokens.contains(x) ==> #[trigger] a2.tokens.contains(x),
    ensures
        ({
            let r = spec_round(b2, a2);
            &&& r.1 == a2
            &&& r.0.members == b2.members
            &&& r.0.tokens == a2.tokens
            &&& spec_hash_tokens(r.0.tokens) == spec_hash_tokens(r.1.tokens)
            &&& spec_reply_sections(
                a2,
                spec_hash_nodes(b2.members),
                spec_hash_tokens(b2.tokens),
            ).0 == Seq::<NodeV>::empty()
        }),
{
    let r = spec_round(b2, a2);
    let bl = spec_local_node(b2);
    lemma_lookup_member_props(b2.members, b2.local_id);
    assert(bl.id == b2.local_id);
    // The record section is suppressed: the tables are equal, so the
    // digests are equal.
    assert(spec_hash_nodes(b2.members) == spec_hash_nodes(a2.members));
    assert(r.0.members == spec_merge_members(b2.members, Seq::<NodeV>::empty()));
    // The replier learns nothing new: the requester's record is already in
    // its table.
    assert(has_member_id(a2.members, bl.id)) by {
        assert(b2.members.contains(bl));
        let i = choose|i: int| 0 <= i < b2.members.len() && b2.members[i] == bl;
        assert(a2.members[i].id == bl.id);
    }
    assert(r.1.members == a2.members);
    assert(r.1 == a2) by {
        assert(r.1 == DhtV { local_id: a2.local_id, members: a2.members, tokens: a2.tokens });
    }
    // The requester merges the full ring; equal tokens carry equal entries
    // because every entry it holds is already in the replier's ring, whose
    // tokens are unique.
    assert(r.0.tokens == spec_merge_tokens(b2.tokens, a2.tokens));
    assert(forall|i: int, j: int|
        0 <= i < b2.tokens.len() && 0 <= j < a2.tokens.len() && (#[trigger] b2.tokens[i]).token
            == (#[trigger] a2.tokens[j]).token ==> b2.tokens[i] == a2.tokens[j]) by {
        assert forall|i: int, j: int|
            0 <= i < b2.tokens.len() && 0 <= j < a2.tokens.len() && (#[trigger] b2.tokens[i]).token
                == (#[trigger] a2.tokens[j]).token implies b2.tokens[i] == a2.tokens[j] by {
            assert(b2.tokens.contains(b2.tokens[i]));
            assert(a2.tokens.contains(b2.tokens[i]));
            let k = choose|k: int| 0 <= k < a2.tokens.len() && a2.tokens[k] == b2.tokens[i];
            if k != j {
                assert(a2.tokens[k].token != a2.tokens[j].token);
            }
        }
    }
    lemma_merge_tokens_union(b2.tokens, a2.tokens);
    lemma_merge_tokens_props(b2.tokens, a2.tokens);
    assert(forall|x: TokenEntry|
        #[trigger] r.0.tokens.contains(x) <==> a2.tokens.contains(x));
    crate::seq_order::lemma_sorted_unique_equal(
        r.0.tokens,
        a2.tokens,
        |t: TokenEntry| t.token as int,
    );
}

/// The membership digest does not confuse these two tables: equal digests
/// mean equal tables. True of the stores any run actually reaches unless
/// FNV-1a collides on them.
pub open spec fn digests_tell_apart(x: Seq<NodeV>, y: Seq<NodeV>) -> bool {
    spec_hash_nodes(x) == spec_hash_nodes(y) ==> x == y
}

/// One completed round spreads membership. The requester's member set
/// becomes the union of both sets: the full snapshot flows when the
/// digests differ, and equal digests mean equal tables under the
/// collision-freedom premise. The replier learns the requester's record
/// and nothing else.
pub proof fn lemma_round_spreads_members(a: DhtV, b: DhtV)
    requires
        dht_wf(a),
        dht_wf(b),
        forall|i: int, j: int|
            0 <= i < a.members.len() && 0 <= j < b.members.len() && (#[trigger] a.members[i]).id
                == (#[trigger] b.members[j]).id ==> a.members[i] == b.members[j],
        digests_tell_apart(a.members, b.members),
    ensures
        ({
            let r = spec_round(a, b);
            &&& dht_wf(r.0)
            &&& dht_wf(r.1)
            &&& r.0.local_id == a.local_id
            &&& r.1.local_id == b.local_id
            &&& forall|x: NodeV|
                #[trigger] r.0.members.contains(x) <==> (a.members.contains(x)
                    || b.members.contains(x))
            &&& forall|x: NodeV|
                #[trigger] r.1.members.contains(x) <==> (b.members.contains(x) || x
                    == spec_local_node(a))
        }),
{
    let al = spec_local_node(a);
    lemma_lookup_member_props(a.members, a.local_id);
    assert(a.members.contains(al) && al.id == a.local_id);
    let r = spec_round(a, b);
    let sections = spec_reply_sections(b, spec_hash_nodes(a.members), spec_hash_tokens(a.tokens));
    // The requester's table.
    if spec_hash_nodes(a.members) == spec_hash_nodes(b.members) {
        assert(a.members == b.members);
        assert(r.0.members == spec_merge_members(a.members, Seq::<NodeV>::empty()));
        assert(r.0.members == a.members);
    } else {
        assert(r.0.members == spec_merge_members(a.members, b.members));
        lemma_merge_members_union(a.members, b.members);
        lemma_merge_members_props(a.members, b.members);
    }
    lemma_merge_tokens_props(a.tokens, sections.1);
    assert(dht_wf(r.0)) by {
        lemma_all_wf_from_two(r.0.members, a.members, b.members);
        assert(has_member_id(r.0.members, a.local_id)) by {
            assert(r.0.members.contains(al));
            let i = choose|i: int| 0 <= i < r.0.members.len() && r.0.members[i] == al;
        }
    }
    // The replier's table.
    assert(r.1.members == spec_insert_member(b.members, al));
    lemma_insert_member_ids(b.members, al);
    if has_member_id(b.members, al.id) {
        assert(r.1.members == b.members);
        assert(b.members.contains(al)) by {
            let j = choose|j: int| 0 <= j < b.members.len() && b.members[j].id == al.id;
            let i = choose|i: int| 0 <= i < a.members.len() && a.members[i] == al;
            assert(a.members[i] == b.members[j]);
            assert(b.members.contains(b.members[j]));
        }
    } else {
        lemma_sorted_insert_member_elems(b.members, al);
        lemma_sorted_insert_member_sorted(b.members, al);
    }
    assert(dht_wf(r.1)) by {
        lemma_all_wf_from_two(r.1.members, b.members, a.members);
        assert(has_member_id(r.1.members, b.local_id)) by {
            let i = choose|i: int| 0 <= i < b.members.len() && b.members[i].id == b.local_id;
            assert(b.members.contains(b.members[i]));
            assert(r.1.members.contains(b.members[i]));
            let j = choose|j: int| 0 <= j < r.1.members.len() && r.1.members[j] == b.members[i];
        }
    }
}

/// Every record of both tables comes from four fixed records with
/// pairwise distinct ids, so equal ids across the tables mean equal
/// records.
proof fn lemma_pool_consistent(
    xm: Seq<NodeV>,
    ym: Seq<NodeV>,
    n0: NodeV,
    n1: NodeV,
    n2: NodeV,
    n3: NodeV,
)
    requires
        n0.id != n1.id,
        n0.id != n2.id,
        n0.id != n3.id,
        n1.id != n2.id,
        n1.id != n3.id,
        n2.id != n3.id,
        forall|x: NodeV| #[trigger] xm.contains(x) ==> (x == n0 || x == n1 || x == n2 || x == n3),
        forall|x: NodeV| #[trigger] ym.contains(x) ==> (x == n0 || x == n1 || x == n2 || x == n3),
    ensures
        forall|i: int, j: int|
            0 <= i < xm.len() && 0 <= j < ym.len() && (#[trigger] xm[i]).id == (#[trigger] ym[j]).id
                ==> xm[i] == ym[j],
{
    assert forall|i: int, j: int|
        0 <= i < xm.len() && 0 <= j < ym.len() && (#[trigger] xm[i]).id
            == (#[trigger] ym[j]).id implies xm[i] == ym[j] by {
        assert(xm.contains(xm[i]));
        assert(ym.contains(ym[j]));
    }
}

/// The record a store contributes as requester: its local record, found by
/// id among records drawn from the four fixed ones.
proof fn lemma_pool_local(d: DhtV, n0: NodeV, n1: NodeV, n2: NodeV, n3: NodeV, nk: NodeV)
    requires
        dht_wf(d),
        n0.id != n1.id,
        n0.id != n2.id,
        n0.id != n3.id,
        n1.id != n2.id,
        n1.id != n3.id,
        n2.id != n3.id,
        forall|x: NodeV| #[trigger] d.members.contains(x) ==> (x == n0 || x == n1 || x == n2 || x == n3),
        nk == n0 || nk == n1 || nk == n2 || nk == n3,
        nk.id == d.local_id,
    ensures
        spec_local_node(d) == nk,
{
    lemma_lookup_member_props(d.members, d.local_id);
    let m = spec_local_node(d);
    assert(d.members.contains(m) && m.id == d.local_id);
}

/// The stores after the seed schedule of a four-node cluster: nodes 1, 2
/// and 3 each complete a round with the seed node 0, then 1 and 2 each
/// complete one more; the four stores afterwards, in id order.
pub open spec fn spec_star_schedule(d0: DhtV, d1: DhtV, d2: DhtV, d3: DhtV) -> (
    DhtV,
    DhtV,
    DhtV,
    DhtV,
) {
    let s1 = spec_round(d1, d0);
    let s2 = spec_round(d2, s1.1);
    let s3 = spec_round(d3, s2.1);
    let s4 = spec_round(s1.0, s3.1);
    let s5 = spec_round(s2.0, s4.1);
    (s5.1, s4.0, s5.0, s3.0)
}

/// Four-node convergence under the seed schedule: ids 0 to 3, each node
/// starting from its own record alone, nodes 1 to 3 seeded to node 0.
/// After the schedule's five rounds every membership table holds exactly
/// the four records — and, being sorted, all four tables are the same
/// sequence and hash identically. The collision-freedom premises say the
/// digest told the intermediate tables apart; where it collides the
/// transfer is suppressed and convergence waits for a later round.
pub proof fn lemma_four_node_star_convergence(d0: DhtV, d1: DhtV, d2: DhtV, d3: DhtV)
    requires
        dht_wf(d0),
        dht_wf(d1),
        dht_wf(d2),
        dht_wf(d3),
        d0.members.len() == 1,
        d1.members.len() == 1,
        d2.members.len() == 1,
        d3.members.len() == 1,
        d0.local_id != d1.local_id,
        d0.local_id != d2.local_id,
        d0.local_id != d3.local_id,
        d1.local_id != d2.local_id,
        d1.local_id != d3.local_id,
        d2.local_id != d3.local_id,
        ({
            let s1 = spec_round(d1, d0);
            let s2 = spec_round(d2, s1.1);
            let s3 = spec_round(d3, s2.1);
            let s4 = spec_round(s1.0, s3.1);
            &&& digests_tell_apart(d1.members, d0.members)
            &&& digests_tell_apart(d2.members, s1.1.members)
            &&& digests_tell_apart(d3.members, s2.1.members)
            &&& digests_tell_apart(s1.0.members, s3.1.members)
            &&& digests_tell_apart(s2.0.members, s4.1.members)
        }),
    ensures
        ({
            let r = spec_star_schedule(d0, d1, d2, d3);
            &&& forall|x: NodeV|
                #[trigger] r.0.members.contains(x) <==> (x == spec_local_node(d0) || x
                    == spec_local_node(d1) || x == spec_local_node(d2) || x == spec_local_node(d3))
            &&& r.1.members == r.0.members
            &&& r.2.members == r.0.members
            &&& r.3.members == r.0.members
            &&& spec_hash_nodes(r.1.members) == spec_hash_nodes(r.0.members)
            &&& spec_hash_nodes(r.2.members) == spec_hash_nodes(r.0.members)
            &&& spec_hash_nodes(r.3.members) == spec_hash_nodes(r.0.members)
            &&& dht_wf(r.0)
            &&& dht_wf(r.1)
            &&& dht_wf(r.2)
            &&& dht_wf(r.3)
        }),
{
    let n0 = spec_local_node(d0);
    let n1 = spec_local_node(d1);
    let n2 = spec_local_node(d2);
    let n3 = spec_local_node(d3);
    lemma_singleton_local(d0);
    lemma_singleton_local(d1);
    lemma_singleton_local(d2);
    lemma_singleton_local(d3);
    assert(n0.id == d0.local_id && n1.id == d1.local_id && n2.id == d2.local_id && n3.id
        == d3.local_id);
    let pool = |x: NodeV| x == n0 || x == n1 || x == n2 || x == n3;
    // Round one: node 1 dials the seed.
    let s1 = spec_round(d1, d0);
    lemma_pool_consistent(d1.members, d0.members, n0, n1, n2, n3);
    lemma_round_spreads_members(d1, d0);
    assert(forall|x: NodeV| #[trigger] s1.0.members.contains(x) <==> (x == n0 || x == n1));
    assert(forall|x: NodeV| #[trigger] s1.1.members.contains(x) <==> (x == n0 || x == n1));
    // Round two: node 2 dials the seed.
    let s2 = spec_round(d2, s1.1);
    lemma_pool_consistent(d2.members, s1.1.members, n0, n1, n2, n3);
    lemma_round_spreads_members(d2, s1.1);
    lemma_pool_local(d2, n0, n1, n2, n3, n2);
    assert(forall|x: NodeV|
        #[trigger] s2.0.members.contains(x) <==> (x == n0 || x == n1 || x == n2));
    assert(forall|x: NodeV|
        #[trigger] s2.1.members.contains(x) <==> (x == n0 || x == n1 || x == n2));
    // Round three: node 3 dials the seed and learns everything.
    let s3 = spec_round(d3, s2.1);
    lemma_pool_consistent(d3.members, s2.1.members, n0, n1, n2, n3);
    lemma_round_spreads_members(d3, s2.1);
    lemma_pool_local(d3, n0, n1, n2, n3, n3);
    assert(forall|x: NodeV| #[trigger] s3.0.members.contains(x) <==> pool(x));
    assert(forall|x: NodeV| #[trigger] s3.1.members.contains(x) <==> pool(x));
    // Round four: node 1 dials the seed again and learns everything.
    let s4 = spec_round(s1.0, s3.1);
    lemma_pool_consistent(s1.0.members, s3.1.members, n0, n1, n2, n3);
    lemma_round_spreads_members(s1.0, s3.1);
    assert(s1.0.local_id == d1.local_id);
    lemma_pool_local(s1.0, n0, n1, n2, n3, n1);
    assert(forall|x: NodeV| #[trigger] s4.0.members.contains(x) <==> pool(x));
    assert(forall|x: NodeV| #[trigger] s4.1.members.contains(x) <==> pool(x));
    // Round five: node 2 dials the seed again and learns everything.
    let s5 = spec_round(s2.0, s4.1);
    lemma_pool_consistent(s2.0.members, s4.1.members, n0, n1, n2, n3);
    lemma_round_spreads_members(s2.0, s4.1);
    assert(s2.0.local_id == d2.local_id);
    lemma_pool_local(s2.0, n0, n1, n2, n3, n2);
    assert(forall|x: NodeV| #[trigger] s5.0.members.contains(x) <==> pool(x));
    assert(forall|x: NodeV| #[trigger] s5.1.members.contains(x) <==> pool(x));
    // All four final tables hold the same records; sorted, they are the
    // same sequence.
    let r = spec_star_schedule(d0, d1, d2, d3);
    assert(r.0 == s5.1 && r.1 == s4.0 && r.2 == s5.0 && r.3 == s3.0);
    assert(forall|x: NodeV| #[trigger] r.1.members.contains(x) <==> r.0.members.contains(x));
    assert(forall|x: NodeV| #[trigger] r.2.members.contains(x) <==> r.0.members.contains(x));
    assert(forall|x: NodeV| #[trigger] r.3.members.contains(x) <==> r.0.members.contains(x));
    crate::seq_order::lemma_sorted_unique_equal(r.1.members, r.0.members, |n: NodeV| n.id as int);
    crate::seq_order::lemma_sorted_unique_equal(r.2.members, r.0.members, |n: NodeV| n.id as int);
    crate::seq_order::lemma_sorted_unique_equal(r.3.members, r.0.members, |n: NodeV| n.id as int);
}

/// `locate` returns `None` exactly on the empty ring, provided every token
/// owner is in the membership table.
pub proof fn lemma_locate_none_iff_empty(d: DhtV, k: u64)
    requires
        dht_wf(d),
        forall|i: int|
            0 <= i < d.tokens.len() ==> has_member_id(d.members, (#[trigger] d.tokens[i]).id),
    ensures
        (spec_locate(d, k) is None) <==> d.tokens.len() == 0,
{
    crate::store::lemma_ring_owner_characterization(d.tokens, k);
    match spec_ring_owner(d.tokens, k) {
        None => {},
        Some(o) => {
            assert(d.tokens.len() > 0);
            assert(has_member_id(d.members, o)) by {
                if spec_first_greater_owner(d.tokens, k) is Some {
                    lemma_owner_is_entry(d.tokens, k);
                    let i = choose|i: int|
                        0 <= i < d.tokens.len() && (#[trigger] d.tokens[i]).id == o;
                } else {
                    assert(o == d.tokens[0].id);
                }
            }
            lemma_lookup_member_props(d.members, o);
        },
    }
}

/// The first-greater owner is the id of some ring entry.
proof fn lemma_owner_is_entry(s: Seq<TokenEntry>, k: u64)
    requires
        spec_first_greater_owner(s, k) is Some,
    ensures
        exists|i: int|
            0 <= i < s.len() && (#[trigger] s[i]).id == spec_first_greater_owner(s, k)->Some_0,
    decreases s.len(),
{
    if s.len() > 0 {
        if s[0].token > k {
            assert(s[0].id == spec_first_greater_owner(s, k)->Some_0);
        } else {
            lemma_owner_is_entry(s.drop_first(), k);
            let i = choose|i: int|
                0 <= i < s.drop_first().len() && (#[trigger] s.drop_first()[i]).id
                    == spec_first_greater_owner(s.drop_first(), k)->Some_0;
            assert(s[i + 1].id == spec_first_greater_owner(s, k)->Some_0);
        }
    }
}

} // verus!
