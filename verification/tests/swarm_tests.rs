//! Lifecycle, configuration, and the cluster variant.

use swarm::cluster::ClusterBuilder;
use swarm::errors::SwarmError;
use swarm::node::{NetAddr, Node};
use swarm::server::ThreadPoolServer;
use swarm::swarm::{Swarm, SwarmConfigBuilder};

fn addr(port: u16) -> NetAddr {
    NetAddr::new(vec![127, 0, 0, 1], port).expect("parse address")
}

#[test]
fn cycle_swarm() {
    // Initialize the cluster topology and a swarm endpoint, start it, and
    // stop it again.
    let cluster_builder = ClusterBuilder::new();
    let address = addr(12000);
    let _cluster = cluster_builder.build(Node::new(0, addr(12000)));
    let mut swarm = Swarm::new(0, address, None);
    swarm.start(2, 50, 2000);
    assert!(swarm.is_running());
    swarm.stop();
    assert!(!swarm.is_running());
}

#[test]
fn repeated_stop_is_a_no_op() {
    let mut swarm = Swarm::new(9, addr(15000), Some(addr(15001)));
    swarm.start(4, 10, 100);
    swarm.stop();
    assert!(!swarm.is_running());
    // Stopping again changes nothing: same flag, same settings.
    swarm.stop();
    assert!(!swarm.is_running());
    assert_eq!(swarm.thread_count, 4);
    assert_eq!(swarm.thread_sleep_ms, 10);
    assert_eq!(swarm.gossip_interval_ms, 100);
    // The swarm can start again after a stop.
    swarm.start(2, 50, 2000);
    assert!(swarm.is_running());
    swarm.stop();
}

#[test]
fn config_builder_defaults_and_required_addr() {
    assert!(matches!(
        SwarmConfigBuilder::new().build(),
        Err(SwarmError::Bind)
    ));
    let config = SwarmConfigBuilder::new()
        .addr(addr(12000))
        .build()
        .expect("config");
    assert_eq!(config.listener_workers, 2);
    assert_eq!(config.listener_sleep_ms, 50);
    assert_eq!(config.gossip_interval_ms, 2000);
    let tuned = SwarmConfigBuilder::new()
        .addr(addr(12000))
        .listener_workers(8)
        .listener_sleep(5)
        .gossip_interval(75)
        .build()
        .expect("config");
    assert_eq!(tuned.listener_workers, 8);
    assert_eq!(tuned.listener_sleep_ms, 5);
    assert_eq!(tuned.gossip_interval_ms, 75);
}

#[test]
fn thread_pool_server_holds_its_settings() {
    let server = ThreadPoolServer::new(50, 2);
    assert_eq!(server.get_sleep_ms(), 50);
    assert_eq!(server.get_thread_count(), 2);
}

#[test]
fn cluster_round_without_tokens() {
    // The cluster variant speaks the same framing minus the token
    // section.
    let mut a = ClusterBuilder::new().build(Node::new(0, addr(12000)));
    let mut b = ClusterBuilder::new().build(Node::new(1, addr(12001)));
    let request = b.request_message().expect("request");
    let reply = a.handle_request(&request).expect("reply");
    b.apply_reply(&reply).expect("apply");
    let a_ids: Vec<u32> = a.nodes().iter().map(|n| n.get_id()).collect();
    let b_ids: Vec<u32> = b.nodes().iter().map(|n| n.get_id()).collect();
    assert_eq!(a_ids, vec![0, 1]);
    assert_eq!(b_ids, vec![0, 1]);
    // Identical state suppresses the section: one zero count.
    let request = b.request_message().expect("request");
    let reply = a.handle_request(&request).expect("reply");
    assert_eq!(reply, vec![0, 0]);
    // Peer selection with only the local record and no seed skips the
    // round.
    let lonely = ClusterBuilder::new().build(Node::new(5, addr(12005)));
    assert!(lonely.gossip_addr(&None).is_none());
}
