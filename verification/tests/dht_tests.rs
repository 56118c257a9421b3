//! The DHT store: insert-only tables, ring lookup, digests, peer choice.

use swarm::dht::{Dht, DhtBuilder};
use swarm::node::{NetAddr, Node};
use swarm::swarm::SwarmConfigBuilder;

fn addr(port: u16) -> NetAddr {
    NetAddr::new(vec![127, 0, 0, 1], port).expect("addr")
}

fn store(id: u32, port: u16) -> Dht {
    Dht::new(Node::new(id, addr(port)))
}

#[test]
fn dht_get() {
    let address = addr(12000);
    let config = SwarmConfigBuilder::new().addr(address).build().expect("parse seed addr");
    let (_swarm, dht) = DhtBuilder::new()
        .id(0)
        .tokens(vec![0, 6148914691236516864, 12297829382473033728])
        .swarm_config(config)
        .build()
        .expect("build");
    let result = dht.locate(15605);
    assert!(result.is_some());
    assert_eq!(result.unwrap().get_id(), 0);
}

#[test]
fn local_identity_is_fixed() {
    let d = store(6, 9006);
    assert_eq!(d.local_id(), 6);
    assert_eq!(d.local_address(), addr(9006));
}

#[test]
fn register_node_is_insert_only() {
    let mut d = store(0, 9000);
    assert!(d.register_node(Node::new(1, addr(9001))));
    // A second record under a known id is discarded silently.
    assert!(!d.register_node(Node::new(1, addr(9999))));
    let n = d.get(1).expect("known");
    assert_eq!(n.get_port(), 9001);
    // The snapshot is ascending by id and holds the local record.
    assert!(d.register_node(Node::new(7, addr(9007))));
    assert!(d.register_node(Node::new(3, addr(9003))));
    let ids: Vec<u32> = d.nodes().iter().map(|n| n.get_id()).collect();
    assert_eq!(ids, vec![0, 1, 3, 7]);
}

#[test]
fn conflicting_token_keeps_first_owner() {
    let mut d = store(0, 9000);
    assert!(d.add_token(42, 0));
    // Another node announcing the same token does not displace the owner,
    // and no error is raised.
    assert!(!d.add_token(42, 1));
    let ring = d.snapshot_tokens();
    assert_eq!(ring.len(), 1);
    assert_eq!((ring[0].token, ring[0].id), (42, 0));
}

#[test]
fn locate_follows_the_ring() {
    let mut d = store(0, 9000);
    d.register_node(Node::new(1, addr(9001)));
    d.add_token(100, 0);
    d.add_token(200, 1);
    // Smallest token strictly greater than the key owns it.
    assert_eq!(d.locate(0).unwrap().get_id(), 0);
    assert_eq!(d.locate(99).unwrap().get_id(), 0);
    assert_eq!(d.locate(100).unwrap().get_id(), 1);
    assert_eq!(d.locate(150).unwrap().get_id(), 1);
    // Keys past the last token wrap to the smallest token.
    assert_eq!(d.locate(200).unwrap().get_id(), 0);
    assert_eq!(d.locate(u64::MAX).unwrap().get_id(), 0);
}

#[test]
fn locate_on_empty_ring_is_none() {
    let d = store(0, 9000);
    assert!(d.locate(0).is_none());
    assert!(d.locate(u64::MAX).is_none());
}

#[test]
fn digests_are_pure_and_stable_across_stores() {
    let mut a = store(0, 9000);
    let mut b = store(5, 9005);
    for d in [&mut a, &mut b] {
        d.register_node(Node::new(0, addr(9000)));
        d.register_node(Node::new(5, addr(9005)));
        d.add_token(1, 0);
        d.add_token(2, 5);
    }
    // Calling twice without mutation gives the identical result.
    assert_eq!(a.digest_members(), a.digest_members());
    assert_eq!(a.digest_tokens(), a.digest_tokens());
    // Two stores holding the same records hash identically.
    assert_eq!(a.digest_members(), b.digest_members());
    assert_eq!(a.digest_tokens(), b.digest_tokens());
    // A mutation changes the digest.
    let before = b.digest_tokens();
    b.add_token(3, 0);
    assert_ne!(before, b.digest_tokens());
}

#[test]
fn gossip_addr_prefers_members_then_seed() {
    let mut d = store(0, 9000);
    // Only the local record and no seed: every round is skipped.
    assert!(d.gossip_addr(&None).is_none());
    // Only the local record with a seed: the seed is dialed.
    let seed = Some(addr(7000));
    let got = d.gossip_addr(&seed).expect("seed");
    assert_eq!(got, addr(7000));
    // With another record known, the peer is that record, never the seed
    // and never the local node.
    d.register_node(Node::new(1, addr(9001)));
    for _ in 0..32 {
        let got = d.gossip_addr(&seed).expect("peer");
        assert_eq!(got, addr(9001));
    }
}

#[test]
fn builder_carries_service_addresses_as_metadata() {
    let config = SwarmConfigBuilder::new().addr(addr(12001)).build().expect("config");
    let (swarm, dht) = DhtBuilder::new()
        .id(3)
        .rpc_addr(b"127.0.0.1:12002".to_vec())
        .xfer_addr(b"127.0.0.1:12003".to_vec())
        .seed_addr(addr(12000))
        .swarm_config(config)
        .build()
        .expect("build");
    assert!(!swarm.is_running());
    assert_eq!(swarm.id, 3);
    let me = dht.get(3).expect("local");
    assert_eq!(
        me.get_metadata(&b"rpc_addr".to_vec()),
        Some(&b"127.0.0.1:12002".to_vec())
    );
    assert_eq!(
        me.get_metadata(&b"xfer_addr".to_vec()),
        Some(&b"127.0.0.1:12003".to_vec())
    );
}

#[test]
fn builder_without_config_is_refused() {
    assert!(DhtBuilder::new().id(1).build().is_err());
}
