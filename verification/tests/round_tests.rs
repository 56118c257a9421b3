//! Whole gossip rounds over the wire bytes, without sockets: the requester
//! builds its request, the replier answers and merges the requester, and
//! the requester merges the reply.

use swarm::dht::{Dht, DhtBuilder};
use swarm::errors::SwarmError;
use swarm::node::{NetAddr, Node};
use swarm::swarm::SwarmConfigBuilder;

fn addr(port: u16) -> NetAddr {
    NetAddr::new(vec![127, 0, 0, 1], port).expect("addr")
}

fn built(id: u32, port: u16, tokens: Vec<u64>) -> Dht {
    let config = SwarmConfigBuilder::new().addr(addr(port)).build().expect("config");
    let (_swarm, dht) = DhtBuilder::new()
        .id(id)
        .tokens(tokens)
        .swarm_config(config)
        .build()
        .expect("build");
    dht
}

/// One request/reply exchange: `from` gossips to `to`.
fn round(from: &mut Dht, to: &mut Dht) {
    let request = from.request_message().expect("request");
    let reply = to.handle_request(&request).expect("reply");
    from.apply_reply(&reply).expect("apply");
}

fn member_ids(d: &Dht) -> Vec<u32> {
    d.nodes().iter().map(|n| n.get_id()).collect()
}

fn ring(d: &Dht) -> Vec<(u64, u32)> {
    d.snapshot_tokens().iter().map(|t| (t.token, t.id)).collect()
}

#[test]
fn two_node_join_via_seed() {
    // Node A: id 0, port 12000, three tokens, no seed. Node B: id 1, port
    // 12001, one token, seeded at A. B dials the seed first; once A knows
    // B, A dials B back.
    let mut a = built(0, 12000, vec![0, 6148914691236516864, 12297829382473033728]);
    let mut b = built(1, 12001, vec![3074457345618258432]);
    round(&mut b, &mut a);
    round(&mut a, &mut b);
    let expected_ring = vec![
        (0, 0),
        (3074457345618258432, 1),
        (6148914691236516864, 0),
        (12297829382473033728, 0),
    ];
    assert_eq!(member_ids(&a), vec![0, 1]);
    assert_eq!(member_ids(&b), vec![0, 1]);
    assert_eq!(ring(&a), expected_ring);
    assert_eq!(ring(&b), expected_ring);
    assert_eq!(a.locate(1).expect("owner").get_id(), 1);
    assert_eq!(a.locate(12297829382473033729).expect("wrap").get_id(), 0);
}

#[test]
fn four_node_convergence() {
    // Ids 0..3 on ports 13000..13003; nodes 1..3 seed to node 0, so their
    // rounds dial it. Five rounds of that seed schedule converge every
    // membership set to {0, 1, 2, 3}.
    let mut n0 = built(0, 13000, vec![0]);
    let mut n1 = built(1, 13001, vec![1000]);
    let mut n2 = built(2, 13002, vec![2000]);
    let mut n3 = built(3, 13003, vec![3000]);
    round(&mut n1, &mut n0);
    round(&mut n2, &mut n0);
    round(&mut n3, &mut n0);
    round(&mut n1, &mut n0);
    round(&mut n2, &mut n0);
    for d in [&n0, &n1, &n2, &n3] {
        assert_eq!(member_ids(d), vec![0, 1, 2, 3]);
    }
    // Tokens flow only toward requesters, so the rings take further
    // rounds: the seed fetches every ring, then the joiners fetch the
    // union from it.
    round(&mut n0, &mut n1);
    round(&mut n0, &mut n2);
    round(&mut n0, &mut n3);
    round(&mut n1, &mut n0);
    round(&mut n2, &mut n0);
    round(&mut n3, &mut n0);
    for d in [&n0, &n1, &n2, &n3] {
        assert_eq!(ring(d), vec![(0, 0), (1000, 1), (2000, 2), (3000, 3)]);
    }
}

#[test]
fn digest_suppression_on_identical_state() {
    // Bring two nodes into identical state, then capture a round's bytes:
    // both counts are zero and no payload follows.
    let mut a = built(0, 12000, vec![10, 20]);
    let mut b = built(1, 12001, vec![30]);
    round(&mut b, &mut a);
    round(&mut a, &mut b);
    assert_eq!(member_ids(&a), member_ids(&b));
    assert_eq!(ring(&a), ring(&b));
    let request = b.request_message().expect("request");
    let reply = a.handle_request(&request).expect("reply");
    assert_eq!(reply, vec![0, 0, 0, 0]);
    // Applying the empty reply changes nothing.
    let before_members = member_ids(&b);
    let before_ring = ring(&b);
    b.apply_reply(&reply).expect("apply");
    assert_eq!(member_ids(&b), before_members);
    assert_eq!(ring(&b), before_ring);
}

#[test]
fn applying_the_same_reply_twice_is_harmless() {
    let mut a = built(0, 12000, vec![1, 2, 3]);
    let mut b = built(1, 12001, vec![9]);
    let request = b.request_message().expect("request");
    let reply = a.handle_request(&request).expect("reply");
    b.apply_reply(&reply).expect("first");
    let members_once = member_ids(&b);
    let ring_once = ring(&b);
    b.apply_reply(&reply).expect("second");
    assert_eq!(member_ids(&b), members_once);
    assert_eq!(ring(&b), ring_once);
}

#[test]
fn metadata_propagates_to_the_peer() {
    // A carries its service addresses as metadata; B, joined via the
    // seed, eventually reads them through the membership table.
    let config = SwarmConfigBuilder::new().addr(addr(12000)).build().expect("config");
    let (_swarm, mut a) = DhtBuilder::new()
        .id(0)
        .rpc_addr(b"127.0.0.1:12002".to_vec())
        .xfer_addr(b"127.0.0.1:12003".to_vec())
        .swarm_config(config)
        .build()
        .expect("build");
    let mut b = built(1, 12001, vec![]);
    round(&mut b, &mut a);
    let seen = b.get(0).expect("learned A");
    assert_eq!(
        seen.get_metadata(&b"rpc_addr".to_vec()),
        Some(&b"127.0.0.1:12002".to_vec())
    );
    assert_eq!(
        seen.get_metadata(&b"xfer_addr".to_vec()),
        Some(&b"127.0.0.1:12003".to_vec())
    );
}

#[test]
fn malformed_request_aborts_the_round() {
    let mut a = built(0, 12000, vec![1]);
    // An unknown address family inside the requester's record.
    let bad = vec![0, 0, 0, 9, 5, 1, 2, 3, 4, 0, 80];
    assert_eq!(a.handle_request(&bad), Err(SwarmError::Protocol));
    // A truncated request only asks for more bytes.
    let mut b = built(1, 12001, vec![]);
    let request = b.request_message().expect("request");
    let cut = request[0..request.len() - 1].to_vec();
    assert_eq!(a.handle_request(&cut), Err(SwarmError::Io));
    // The store is untouched by the failed rounds.
    assert_eq!(member_ids(&a), vec![0]);
}

#[test]
fn partial_convergence_keeps_growing() {
    // Member and token sets are monotone across rounds: nothing observed
    // is ever lost.
    let mut a = built(0, 12000, vec![5]);
    let mut b = built(1, 12001, vec![6]);
    let mut c = built(2, 12002, vec![7]);
    round(&mut b, &mut a);
    round(&mut c, &mut a);
    round(&mut b, &mut a);
    assert_eq!(member_ids(&a), vec![0, 1, 2]);
    assert_eq!(member_ids(&b), vec![0, 1, 2]);
    // A request carries no tokens, so the replier's ring is untouched and
    // the requester holds what it has seen so far.
    assert_eq!(ring(&a), vec![(5, 0)]);
    assert_eq!(ring(&b), vec![(5, 0), (6, 1)]);
    round(&mut b, &mut c);
    assert_eq!(ring(&b), vec![(5, 0), (6, 1), (7, 2)]);
}
