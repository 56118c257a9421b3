//! Node records: metadata order, wire round trip, refused encodings.

use swarm::errors::SwarmError;
use swarm::node::{hash_nodes, MetaEntry, NetAddr, Node};

fn local(id: u32, port: u16) -> Node {
    Node::new(id, NetAddr::new(vec![127, 0, 0, 1], port).expect("addr"))
}

#[test]
fn metadata_is_sorted_and_replaced() {
    let mut n = local(7, 9000);
    n.set_metadata(b"zeta".to_vec(), b"1".to_vec());
    n.set_metadata(b"alpha".to_vec(), b"2".to_vec());
    n.set_metadata(b"mid".to_vec(), b"3".to_vec());
    assert_eq!(n.metadata[0].key, b"alpha".to_vec());
    assert_eq!(n.metadata[1].key, b"mid".to_vec());
    assert_eq!(n.metadata[2].key, b"zeta".to_vec());
    // Re-binding a key replaces its value in place.
    n.set_metadata(b"mid".to_vec(), b"4".to_vec());
    assert_eq!(n.metadata.len(), 3);
    assert_eq!(n.get_metadata(&b"mid".to_vec()), Some(&b"4".to_vec()));
    assert_eq!(n.get_metadata(&b"missing".to_vec()), None);
}

#[test]
fn node_round_trip() {
    // Metadata set in reverse order comes back lexicographic after the
    // round trip.
    let mut n = local(42, 8080);
    n.set_metadata(b"rpc_addr".to_vec(), b"127.0.0.1:12002".to_vec());
    n.set_metadata(b"a".to_vec(), b"first".to_vec());
    let mut buf: Vec<u8> = Vec::new();
    n.write(&mut buf).expect("encode");
    let (back, p) = Node::read(&buf, 0).expect("decode");
    assert_eq!(p, buf.len());
    assert_eq!(back, n);
    assert_eq!(back.metadata[0].key, b"a".to_vec());
    assert_eq!(back.metadata[1].key, b"rpc_addr".to_vec());
}

#[test]
fn node_wire_form_is_exact() {
    let mut n = local(1, 258);
    n.set_metadata(b"k".to_vec(), b"v".to_vec());
    let mut buf: Vec<u8> = Vec::new();
    n.write(&mut buf).expect("encode");
    assert_eq!(
        buf,
        vec![
            0, 0, 0, 1, // id
            4, 127, 0, 0, 1, // family tag and octets
            1, 2, // port 258
            0, 1, // one metadata pair
            1, b'k', 1, b'v',
        ]
    );
}

#[test]
fn oversized_metadata_value_refused() {
    let mut n = local(3, 9000);
    n.set_metadata(b"big".to_vec(), vec![0u8; 256]);
    let mut buf: Vec<u8> = Vec::new();
    assert_eq!(n.write(&mut buf), Err(SwarmError::Protocol));
    assert!(buf.is_empty());
}

#[test]
fn oversized_metadata_count_refused() {
    // 0x10000 pairs cannot be counted in 16 bits. The keys are built
    // directly, in sorted fixed-width form.
    let mut metadata: Vec<MetaEntry> = Vec::new();
    for i in 0u32..0x10000 {
        metadata.push(MetaEntry {
            key: vec![(i >> 16) as u8, (i >> 8) as u8, i as u8],
            value: Vec::new(),
        });
    }
    let n = Node {
        id: 9,
        address: NetAddr::new(vec![10, 0, 0, 1], 1).expect("addr"),
        metadata,
    };
    let mut buf: Vec<u8> = Vec::new();
    assert_eq!(n.write(&mut buf), Err(SwarmError::Protocol));
    assert!(buf.is_empty());
}

#[test]
fn truncated_node_is_io_error() {
    let mut n = local(5, 1000);
    n.set_metadata(b"k".to_vec(), b"v".to_vec());
    let mut buf: Vec<u8> = Vec::new();
    n.write(&mut buf).expect("encode");
    for cut in 0..buf.len() {
        let shorter = buf[0..cut].to_vec();
        assert_eq!(
            Node::read(&shorter, 0),
            Err(SwarmError::Io),
            "cut at {}",
            cut
        );
    }
}

#[test]
fn hash_nodes_is_stable_and_content_sensitive() {
    let a = vec![local(1, 10), local(2, 20)];
    let b = vec![local(1, 10), local(2, 20)];
    assert_eq!(hash_nodes(&a), hash_nodes(&a));
    assert_eq!(hash_nodes(&a), hash_nodes(&b));
    let c = vec![local(1, 10), local(3, 20)];
    assert_ne!(hash_nodes(&a), hash_nodes(&c));
    // Metadata participates in the digest.
    let mut d = vec![local(1, 10), local(2, 20)];
    d[0].set_metadata(b"k".to_vec(), b"v".to_vec());
    assert_ne!(hash_nodes(&a), hash_nodes(&d));
}
