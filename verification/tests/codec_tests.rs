//! Wire primitives: fixed-width integers, strings, addresses, the hash.

use swarm::codec::{read_u16, read_u32, read_u64, read_u8, write_u16, write_u32, write_u64};
use swarm::digest::{fnv1a, FNV_OFFSET_BASIS};
use swarm::errors::SwarmError;
use swarm::node::{read_addr, read_string, write_addr, write_string, NetAddr};

#[test]
fn fnv1a_matches_the_published_vectors() {
    assert_eq!(fnv1a(&vec![], FNV_OFFSET_BASIS), 0xcbf29ce484222325);
    assert_eq!(fnv1a(&b"a".to_vec(), FNV_OFFSET_BASIS), 0xaf63dc4c8601ec8c);
    assert_eq!(fnv1a(&b"foobar".to_vec(), FNV_OFFSET_BASIS), 0x85944171f73967e8);
}

#[test]
fn be_integers_round_trip() {
    let mut buf: Vec<u8> = Vec::new();
    write_u16(&mut buf, 0xBEEF);
    write_u32(&mut buf, 0xDEADBEEF);
    write_u64(&mut buf, 0x0123456789ABCDEF);
    assert_eq!(buf.len(), 14);
    assert_eq!(&buf[0..2], &[0xBE, 0xEF]);
    assert_eq!(&buf[2..6], &[0xDE, 0xAD, 0xBE, 0xEF]);
    let (v16, p) = read_u16(&buf, 0).expect("u16");
    assert_eq!((v16, p), (0xBEEF, 2));
    let (v32, p) = read_u32(&buf, 2).expect("u32");
    assert_eq!((v32, p), (0xDEADBEEF, 6));
    let (v64, p) = read_u64(&buf, 6).expect("u64");
    assert_eq!((v64, p), (0x0123456789ABCDEF, 14));
}

#[test]
fn truncated_reads_are_io_errors() {
    let buf: Vec<u8> = vec![1, 2, 3];
    assert_eq!(read_u32(&buf, 0), Err(SwarmError::Io));
    assert_eq!(read_u64(&buf, 0), Err(SwarmError::Io));
    assert_eq!(read_u16(&buf, 2), Err(SwarmError::Io));
    assert_eq!(read_u8(&buf, 3), Err(SwarmError::Io));
}

#[test]
fn string_round_trip() {
    let mut buf: Vec<u8> = Vec::new();
    write_string(&b"hello".to_vec(), &mut buf).expect("encode");
    assert_eq!(buf, vec![5, b'h', b'e', b'l', b'l', b'o']);
    let (s, p) = read_string(&buf, 0).expect("decode");
    assert_eq!(s, b"hello".to_vec());
    assert_eq!(p, 6);
}

#[test]
fn long_string_encoding_refused() {
    // A value longer than 255 bytes cannot be length-prefixed.
    let long = vec![7u8; 256];
    let mut buf: Vec<u8> = Vec::new();
    assert_eq!(write_string(&long, &mut buf), Err(SwarmError::Protocol));
    assert!(buf.is_empty());
    let edge = vec![7u8; 255];
    assert!(write_string(&edge, &mut buf).is_ok());
    assert_eq!(buf.len(), 256);
}

#[test]
fn addr_round_trip_v4_and_v6() {
    let v4 = NetAddr::new(vec![127, 0, 0, 1], 12000).expect("v4");
    let mut buf: Vec<u8> = Vec::new();
    write_addr(&v4, &mut buf);
    assert_eq!(buf, vec![4, 127, 0, 0, 1, 0x2E, 0xE0]);
    let (back, p) = read_addr(&buf, 0).expect("decode v4");
    assert_eq!(back.octets, vec![127, 0, 0, 1]);
    assert_eq!(back.port, 12000);
    assert_eq!(p, 7);

    let v6 = NetAddr::new(vec![0; 16], 53).expect("v6");
    let mut buf6: Vec<u8> = Vec::new();
    write_addr(&v6, &mut buf6);
    assert_eq!(buf6[0], 6);
    assert_eq!(buf6.len(), 19);
    let (back6, p6) = read_addr(&buf6, 0).expect("decode v6");
    assert_eq!(back6.octets, vec![0; 16]);
    assert_eq!(back6.port, 53);
    assert_eq!(p6, 19);
}

#[test]
fn unknown_address_family_is_protocol_error() {
    // Family tag 5 is neither v4 nor v6.
    let buf: Vec<u8> = vec![5, 127, 0, 0, 1, 0, 80];
    assert_eq!(read_addr(&buf, 0), Err(SwarmError::Protocol));
    // A truncated v4 frame is an I/O error instead.
    let short: Vec<u8> = vec![4, 127, 0];
    assert_eq!(read_addr(&short, 0), Err(SwarmError::Io));
}

#[test]
fn bad_octet_count_refused() {
    assert_eq!(NetAddr::new(vec![1, 2, 3], 80), Err(SwarmError::Protocol));
    assert_eq!(NetAddr::new(vec![0; 5], 80), Err(SwarmError::Protocol));
}
