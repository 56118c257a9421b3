//! The cluster topology: membership only.
//!
//! Identical to the DHT variant with every token-related exchange left
//! out: the request carries the record and the membership digest alone,
//! and the reply holds one section. The two variants share the framing up
//! to the token section, so a cluster node speaks the same bytes as a DHT
//! node's record section.

use vstd::prelude::*;

use crate::codec::Parsed;
use crate::errors::SwarmError;
use crate::node::{
    meta_encodable,
    node_wf,
    nodes_views,
    spec_hash_nodes,
    spec_meta_insert,
    hash_nodes,
    NetAddr,
    Node,
    NodeV,
};
use crate::peer::{gossip_peer, spec_non_local};
use crate::protocol::{
    spec_encode_reply_cluster,
    spec_encode_request_cluster,
    spec_parse_reply_cluster,
    spec_parse_request_cluster,
    decode_reply_cluster,
    decode_request_cluster,
    encode_reply_cluster,
    encode_request_cluster,
};
use crate::store::{
    has_member_id,
    insert_member_vec,
    lemma_insert_member_ids,
    lemma_lookup_member_props,
    lemma_sorted_insert_member_elems,
    lemma_sorted_insert_member_sorted,
    lookup_member_vec,
    members_all_wf,
    members_sorted,
    set_local_metadata,
    spec_insert_member,
    spec_lookup_member,
    spec_merge_members,
};

verus! {

/// Mathematical model of one node's cluster view.
pub struct ClusterV {
    pub local_id: u32,
    pub members: Seq<NodeV>,
}

/// The table sorted, every record well formed, the local record present.
pub open spec fn cluster_wf(c: ClusterV) -> bool {
    &&& members_sorted(c.members)
    &&& members_all_wf(c.members)
    &&& has_member_id(c.members, c.local_id)
}

/// The local node's record.
pub open spec fn spec_cluster_local_node(c: ClusterV) -> NodeV {
    spec_lookup_member(c.members, c.local_id)->Some_0
}

/// One node's cluster view: the local id and the membership table.
pub struct Cluster {
    pub local_id: u32,
    pub members: Vec<Node>,
}

impl View for Cluster {
    type V = ClusterV;

    open spec fn view(&self) -> ClusterV {
        ClusterV { local_id: self.local_id, members: nodes_views(self.members@) }
    }
}

/// Builds the cluster topology for a swarm.
pub struct ClusterBuilder {
}

impl ClusterBuilder {
    pub fn new() -> (r: ClusterBuilder) {
        ClusterBuilder {  }
    }

    /// A fresh cluster view holding only the local record.
    pub fn build(&self, local_node: Node) -> (r: Cluster)
        requires
            node_wf(local_node@),
        ensures
            cluster_wf(r@),
            r@.local_id == local_node@.id,
            r@.members == seq![local_node@],
    {
        let local_id = local_node.get_id();
        let mut members: Vec<Node> = Vec::new();
        members.push(local_node);
        let r = Cluster { local_id, members };
        proof {
            assert(r@.members =~= seq![local_node@]);
            assert(r@.members[0].id == local_id);
        }
        r
    }
}

impl Cluster {
    /// Insert a received record; one whose id is known is discarded
    /// silently. The table only grows.
    pub fn register_node(&mut self, node: Node) -> (r: bool)
        requires
            cluster_wf(old(self)@),
            node_wf(node@),
        ensures
            cluster_wf(final(self)@),
            final(self)@.members == spec_insert_member(old(self)@.members, node@),
            final(self)@.local_id == old(self)@.local_id,
            r == !has_member_id(old(self)@.members, node@.id),
            forall|x: NodeV|
                old(self)@.members.contains(x) ==> #[trigger] final(self)@.members.contains(x),
    {
        let ghost s = self@.members;
        let ghost nv = node@;
        let r = insert_member_vec(&mut self.members, node);
        proof {
            lemma_insert_member_ids(s, nv);
            if !has_member_id(s, nv.id) {
                lemma_sorted_insert_member_sorted(s, nv);
                lemma_sorted_insert_member_elems(s, nv);
                assert forall|i: int|
                    0 <= i < final(self)@.members.len() implies node_wf(
                    #[trigger] final(self)@.members[i],
                ) by {
                    assert(final(self)@.members.contains(final(self)@.members[i]));
                }
            }
        }
        r
    }

    /// The record with the given id, if known.
    pub fn get(&self, id: u32) -> (r: Option<&Node>)
        ensures
            match r {
                Some(n) => spec_lookup_member(self@.members, id) == Some(n@),
                None => spec_lookup_member(self@.members, id) is None,
            },
    {
        lookup_member_vec(&self.members, id)
    }

    /// The gossip address of the local record, immutable after
    /// construction.
    pub fn local_address(&self) -> (r: NetAddr)
        requires
            cluster_wf(self@),
        ensures
            r@ == spec_cluster_local_node(self@).addr,
    {
        proof {
            lemma_lookup_member_props(self@.members, self@.local_id);
        }
        match lookup_member_vec(&self.members, self.local_id) {
            Some(n) => n.get_address(),
            None => {
                proof {
                    assert(false);
                }
                NetAddr { octets: Vec::new(), port: 0 }
            },
        }
    }

    /// A copy of the membership table, ascending by id; the local record
    /// is always among them.
    pub fn nodes(&self) -> (r: Vec<Node>)
        requires
            cluster_wf(self@),
        ensures
            nodes_views(r@) == self@.members,
            has_member_id(nodes_views(r@), self@.local_id),
    {
        crate::dht::clone_members(&self.members)
    }

    /// The membership digest of the current snapshot: a pure function of
    /// the table.
    pub fn digest_members(&self) -> (r: u64)
        ensures
            r == spec_hash_nodes(self@.members),
    {
        hash_nodes(&self.members)
    }

    /// Bind `key` to `value` in the local record's metadata.
    pub fn set_metadata(&mut self, key: Vec<u8>, value: Vec<u8>)
        requires
            cluster_wf(old(self)@),
        ensures
            cluster_wf(final(self)@),
            final(self)@.local_id == old(self)@.local_id,
            exists|i: int|
                {
                    &&& 0 <= i < old(self)@.members.len()
                    &&& old(self)@.members[i].id == old(self)@.local_id
                    &&& final(self)@.members == old(self)@.members.update(
                        i,
                        NodeV {
                            meta: spec_meta_insert(old(self)@.members[i].meta, key@, value@),
                            ..old(self)@.members[i]
                        },
                    )
                },
    {
        set_local_metadata(&mut self.members, self.local_id, key, value);
    }

    /// One peer address for this round, or none when there is nobody to
    /// gossip with.
    pub fn gossip_addr(&self, seed_address: &Option<NetAddr>) -> (r: Option<NetAddr>)
        requires
            cluster_wf(self@),
        ensures
            self@.members.len() <= 1 ==> match (r, seed_address) {
                (Some(a), Some(sd)) => a@ == sd@,
                (None, None) => true,
                _ => false,
            },
            self@.members.len() > 1 ==> match r {
                Some(a) => exists|j: int|
                    0 <= j < spec_non_local(self@.members, self@.local_id).len() && a@
                        == spec_non_local(self@.members, self@.local_id)[j].addr,
                None => false,
            },
    {
        gossip_peer(&self.members, self.local_id, seed_address)
    }

    /// The request this node sends for a round: its own record and the
    /// membership digest.
    pub fn request_message(&self) -> (r: Result<Vec<u8>, SwarmError>)
        requires
            cluster_wf(self@),
        ensures
            match r {
                Ok(buf) => {
                    &&& meta_encodable(spec_cluster_local_node(self@).meta)
                    &&& buf@ == spec_encode_request_cluster(
                        spec_cluster_local_node(self@),
                        spec_hash_nodes(self@.members),
                    )
                },
                Err(e) => e == SwarmError::Protocol && !meta_encodable(
                    spec_cluster_local_node(self@).meta,
                ),
            },
    {
        proof {
            lemma_lookup_member_props(self@.members, self@.local_id);
        }
        let local = match lookup_member_vec(&self.members, self.local_id) {
            Some(n) => n,
            None => {
                proof {
                    assert(false);
                }
                return Err(SwarmError::Protocol);
            },
        };
        let h_nodes = hash_nodes(&self.members);
        proof {
            assert(node_wf(local@)) by {
                assert(self@.members.contains(local@));
            }
        }
        encode_request_cluster(local, h_nodes)
    }

    /// Answer a request: a suppressed record section when the digests
    /// agree, else the whole snapshot; afterwards the requester's record
    /// is merged, insert-only.
    pub fn handle_request(&mut self, req: &Vec<u8>) -> (r: Result<Vec<u8>, SwarmError>)
        requires
            cluster_wf(old(self)@),
        ensures
            cluster_wf(final(self)@),
            final(self)@.local_id == old(self)@.local_id,
            forall|x: NodeV|
                old(self)@.members.contains(x) ==> #[trigger] final(self)@.members.contains(x),
            match r {
                Ok(reply) => match spec_parse_request_cluster(req@, 0) {
                    Parsed::Found(t, p) => {
                        &&& reply@ == spec_encode_reply_cluster(
                            if t.1 == spec_hash_nodes(old(self)@.members) {
                                Seq::<NodeV>::empty()
                            } else {
                                old(self)@.members
                            },
                        )
                        &&& final(self)@.members == spec_insert_member(old(self)@.members, t.0)
                    },
                    _ => false,
                },
                Err(e) => {
                    &&& final(self)@ == old(self)@
                    &&& (e == SwarmError::Io || e == SwarmError::Protocol)
                    &&& (e == SwarmError::Io <==> spec_parse_request_cluster(req@, 0) == Parsed::<
                        (NodeV, u64),
                    >::Short)
                    &&& (e == SwarmError::Protocol <==> (spec_parse_request_cluster(req@, 0)
                        == Parsed::<(NodeV, u64)>::Bad || (match spec_parse_request_cluster(
                        req@,
                        0,
                    ) {
                        Parsed::Found(t, p) => t.1 != spec_hash_nodes(old(self)@.members) && (
                        old(self)@.members.len() > 0xffff || !crate::protocol::nodes_encodable(
                            old(self)@.members,
                        )),
                        _ => false,
                    })))
                },
            },
    {
        let ((node, h_nodes), _used) = match decode_request_cluster(req) {
            Ok(x) => x,
            Err(e) => {
                return Err(e);
            },
        };
        let my_h_nodes = hash_nodes(&self.members);
        let empty_members: Vec<Node> = Vec::new();
        let node_section: &Vec<Node> = if h_nodes == my_h_nodes {
            &empty_members
        } else {
            &self.members
        };
        proof {
            assert(nodes_views(empty_members@) =~= Seq::<NodeV>::empty());
        }
        let reply = match encode_reply_cluster(node_section) {
            Ok(x) => x,
            Err(e) => {
                proof {
                    assert(crate::protocol::nodes_encodable(Seq::<NodeV>::empty()));
                }
                return Err(e);
            },
        };
        self.register_node(node);
        Ok(reply)
    }

    /// Merge a reply into the table, insert-only, record by record.
    pub fn apply_reply(&mut self, reply: &Vec<u8>) -> (r: Result<(), SwarmError>)
        requires
            cluster_wf(old(self)@),
        ensures
            cluster_wf(final(self)@),
            final(self)@.local_id == old(self)@.local_id,
            forall|x: NodeV|
                old(self)@.members.contains(x) ==> #[trigger] final(self)@.members.contains(x),
            match r {
                Ok(()) => match spec_parse_reply_cluster(reply@, 0) {
                    Parsed::Found(ns, p) => final(self)@.members == spec_merge_members(
                        old(self)@.members,
                        ns,
                    ),
                    _ => false,
                },
                Err(e) => {
                    &&& final(self)@ == old(self)@
                    &&& (e == SwarmError::Io || e == SwarmError::Protocol)
                    &&& (e == SwarmError::Io <==> spec_parse_reply_cluster(reply@, 0) == Parsed::<
                        Seq<NodeV>,
                    >::Short)
                    &&& (e == SwarmError::Protocol <==> spec_parse_reply_cluster(reply@, 0)
                        == Parsed::<Seq<NodeV>>::Bad)
                },
            },
    {
        let (mut nodes, _used) = match decode_reply_cluster(reply) {
            Ok(x) => x,
            Err(e) => {
                return Err(e);
            },
        };
        let ghost ns = nodes_views(nodes@);
        let ghost m0 = self@.members;
        while nodes.len() > 0
            invariant
                cluster_wf(self@),
                self@.local_id == old(self)@.local_id,
                crate::protocol::nodes_all_wf(nodes_views(nodes@)),
                spec_merge_members(m0, ns) == spec_merge_members(
                    self@.members,
                    nodes_views(nodes@),
                ),
                forall|x: NodeV| m0.contains(x) ==> #[trigger] self@.members.contains(x),
            decreases nodes@.len(),
        {
            let ghost pre = nodes_views(nodes@);
            let nd = nodes.remove(0);
            proof {
                assert(nodes_views(nodes@) =~= pre.drop_first()) by {
                    assert(forall|j: int|
                        0 <= j < nodes@.len() ==> nodes_views(nodes@)[j] == (#[trigger] nodes@[j])@
                            && pre[j + 1] == nodes@[j]@);
                }
                assert(node_wf(nd@)) by {
                    assert(pre[0] == nd@);
                }
                assert(forall|j: int|
                    0 <= j < pre.drop_first().len() ==> node_wf(#[trigger] pre.drop_first()[j]))
                    by {
                    assert(forall|j: int|
                        0 <= j < pre.drop_first().len() ==> pre.drop_first()[j] == #[trigger] pre[j
                            + 1]);
                }
            }
            let ghost cur = self@.members;
            self.register_node(nd);
            proof {
                assert(spec_merge_members(cur, pre) == spec_merge_members(
                    self@.members,
                    nodes_views(nodes@),
                ));
                lemma_insert_member_ids(cur, nd@);
            }
        }
        proof {
            assert(nodes_views(nodes@) =~= Seq::<NodeV>::empty());
            assert(spec_merge_members(m0, ns) == self@.members);
            crate::store::lemma_merge_members_props(m0, ns);
        }
        Ok(())
    }
}

} // verus!
