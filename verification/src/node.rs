//! Node records and their bit-exact wire form.
//!
//! A node is an unsigned 32-bit id, a gossip address (v4 or v6 octets and a
//! port), and a metadata map from short byte strings to short byte strings,
//! kept sorted lexicographically by key. On the wire a node is its id,
//! its address (family tag, octets, port), a 16-bit metadata count, and the
//! length-prefixed key/value pairs in key order.

use vstd::prelude::*;

use crate::codec::{
    lemma_be16_round_trip,
    lemma_be32_round_trip,
    spec_be16,
    spec_be32,
    spec_parse_u8,
    spec_parse_u16,
    spec_parse_u32,
    spec_u16_of,
    spec_u32_of,
    Parsed,
    append_bytes,
    take_bytes,
    read_u8,
    read_u16,
    read_u32,
    write_u16,
    write_u32,
};
use crate::digest::{spec_fnv1a, fnv1a, FNV_OFFSET_BASIS};
use crate::errors::SwarmError;
use crate::seq_order::{lex_lt, bytes_lt, bytes_eq, lemma_lex_lt_total, lemma_lex_lt_transitive};
use vstd::pervasive::VecAdditionalExecFns;

verus! {

// ---------------------------------------------------------------------------
// Addresses.
// ---------------------------------------------------------------------------

/// Mathematical model of a gossip address.
pub struct AddrV {
    pub octets: Seq<u8>,
    pub port: u16,
}

/// An address is v4 (four octets) or v6 (sixteen octets).
pub open spec fn addr_wf(a: AddrV) -> bool {
    a.octets.len() == 4 || a.octets.len() == 16
}

/// A gossip socket address: raw IP octets and a port.
#[derive(Debug, PartialEq, Eq)]
pub struct NetAddr {
    pub octets: Vec<u8>,
    pub port: u16,
}

impl View for NetAddr {
    type V = AddrV;

    open spec fn view(&self) -> AddrV {
        AddrV { octets: self.octets@, port: self.port }
    }
}

impl NetAddr {
    /// Build an address from raw octets; any count other than 4 or 16 is
    /// refused as a protocol violation.
    pub fn new(octets: Vec<u8>, port: u16) -> (r: Result<NetAddr, SwarmError>)
        ensures
            match r {
                Ok(a) => addr_wf(a@) && a@ == (AddrV { octets: octets@, port }),
                Err(e) => e == SwarmError::Protocol && !addr_wf(
                    AddrV { octets: octets@, port },
                ),
            },
    {
        if octets.len() == 4 || octets.len() == 16 {
            Ok(NetAddr { octets, port })
        } else {
            Err(SwarmError::Protocol)
        }
    }

    pub fn get_port(&self) -> (r: u16)
        ensures
            r == self@.port,
    {
        self.port
    }
}

impl Clone for NetAddr {
    fn clone(&self) -> (r: Self)
        ensures
            r@ == self@,
    {
        let octets = crate::codec::take_all(&self.octets);
        NetAddr { octets, port: self.port }
    }
}

/// Wire form of an address: family tag, octets, big-endian port.
pub open spec fn spec_encode_addr(a: AddrV) -> Seq<u8> {
    seq![
        if a.octets.len() == 4 {
            4u8
        } else {
            6u8
        },
    ] + a.octets + spec_be16(a.port)
}

pub open spec fn spec_parse_addr(b: Seq<u8>, pos: int) -> Parsed<AddrV> {
    match spec_parse_u8(b, pos) {
        Parsed::Found(tag, p) => {
            if tag == 4 {
                if p + 6 <= b.len() {
                    Parsed::Found(
                        AddrV { octets: b.subrange(p, p + 4), port: spec_u16_of(b[p + 4], b[p + 5]) },
                        p + 6,
                    )
                } else {
                    Parsed::Short
                }
            } else if tag == 6 {
                if p + 18 <= b.len() {
                    Parsed::Found(
                        AddrV {
                            octets: b.subrange(p, p + 16),
                            port: spec_u16_of(b[p + 16], b[p + 17]),
                        },
                        p + 18,
                    )
                } else {
                    Parsed::Short
                }
            } else {
                Parsed::Bad
            }
        },
        _ => Parsed::Short,
    }
}

/// Append the wire form of `addr` to `out`.
pub fn write_addr(addr: &NetAddr, out: &mut Vec<u8>)
    requires
        addr_wf(addr@),
    ensures
        final(out)@ == old(out)@ + spec_encode_addr(addr@),
{
    if addr.octets.len() == 4 {
        out.push(4u8);
    } else {
        out.push(6u8);
    }
    append_bytes(out, &addr.octets);
    write_u16(out, addr.port);
    assert(out@ =~= old(out)@ + spec_encode_addr(addr@));
}

/// Read an address at `pos`; an unknown family tag is a protocol error and a
/// buffer too short for the frame is an I/O error.
pub fn read_addr(buf: &Vec<u8>, pos: usize) -> (r: Result<(NetAddr, usize), SwarmError>)
    ensures
        match r {
            Ok(ap) => addr_wf(ap.0@) && spec_parse_addr(buf@, pos as int) == Parsed::Found(
                ap.0@,
                ap.1 as int,
            ),
            Err(e) => {
                &&& (e == SwarmError::Io || e == SwarmError::Protocol)
                &&& (e == SwarmError::Io <==> spec_parse_addr(buf@, pos as int)
                    == Parsed::<AddrV>::Short)
                &&& (e == SwarmError::Protocol <==> spec_parse_addr(buf@, pos as int)
                    == Parsed::<AddrV>::Bad)
            },
        },
{
    let (tag, p) = match read_u8(buf, pos) {
        Ok(tp) => tp,
        Err(e) => {
            return Err(e);
        },
    };
    if tag == 4 {
        if buf.len() - p >= 6 {
            let octets = take_bytes(buf, p, 4);
            let port = ((buf[p + 4] as u16) << 8) | (buf[p + 5] as u16);
            Ok((NetAddr { octets, port }, p + 6))
        } else {
            Err(SwarmError::Io)
        }
    } else if tag == 6 {
        if buf.len() - p >= 18 {
            let octets = take_bytes(buf, p, 16);
            let port = ((buf[p + 16] as u16) << 8) | (buf[p + 17] as u16);
            Ok((NetAddr { octets, port }, p + 18))
        } else {
            Err(SwarmError::Io)
        }
    } else {
        Err(SwarmError::Protocol)
    }
}

// ---------------------------------------------------------------------------
// Length-prefixed byte strings.
// ---------------------------------------------------------------------------

/// Wire form of a short byte string: one length byte, then the bytes.
pub open spec fn spec_encode_string(s: Seq<u8>) -> Seq<u8> {
    seq![s.len() as u8] + s
}

pub open spec fn spec_parse_string(b: Seq<u8>, pos: int) -> Parsed<Seq<u8>> {
    match spec_parse_u8(b, pos) {
        Parsed::Found(n, p) => {
            if p + n <= b.len() {
                Parsed::Found(b.subrange(p, p + n), p + n)
            } else {
                Parsed::Short
            }
        },
        _ => Parsed::Short,
    }
}

/// Append the wire form of `value`; strings longer than 255 bytes cannot be
/// encoded and are refused with `Protocol`, leaving `out` unchanged.
pub fn write_string(value: &Vec<u8>, out: &mut Vec<u8>) -> (r: Result<(), SwarmError>)
    ensures
        match r {
            Ok(()) => value@.len() <= 255 && final(out)@ == old(out)@ + spec_encode_string(value@),
            Err(e) => e == SwarmError::Protocol && value@.len() > 255 && final(out)@ == old(out)@,
        },
{
    if value.len() > 255 {
        return Err(SwarmError::Protocol);
    }
    out.push(value.len() as u8);
    append_bytes(out, value);
    assert(out@ =~= old(out)@ + spec_encode_string(value@));
    Ok(())
}

/// Read a length-prefixed byte string at `pos`; a buffer too short for the
/// prefix or the bytes is an I/O error.
pub fn read_string(buf: &Vec<u8>, pos: usize) -> (r: Result<(Vec<u8>, usize), SwarmError>)
    ensures
        match r {
            Ok(sp) => spec_parse_string(buf@, pos as int) == Parsed::Found(sp.0@, sp.1 as int),
            Err(e) => e == SwarmError::Io && spec_parse_string(buf@, pos as int)
                == Parsed::<Seq<u8>>::Short,
        },
{
    let (n, p) = match read_u8(buf, pos) {
        Ok(np) => np,
        Err(e) => {
            return Err(e);
        },
    };
    if buf.len() - p >= n as usize {
        let s = take_bytes(buf, p, n as usize);
        Ok((s, p + n as usize))
    } else {
        Err(SwarmError::Io)
    }
}

// ---------------------------------------------------------------------------
// Node records.
// ---------------------------------------------------------------------------

/// One metadata pair.
#[derive(Debug, PartialEq, Eq)]
pub struct MetaEntry {
    pub key: Vec<u8>,
    pub value: Vec<u8>,
}

/// Mathematical model of a node record.
pub struct NodeV {
    pub id: u32,
    pub addr: AddrV,
    pub meta: Seq<(Seq<u8>, Seq<u8>)>,
}

/// Metadata is kept strictly sorted by key, lexicographically; strictness
/// makes keys unique.
pub open spec fn meta_sorted(m: Seq<(Seq<u8>, Seq<u8>)>) -> bool {
    forall|i: int, j: int| 0 <= i < j < m.len() ==> lex_lt(m[i].0, m[j].0)
}

/// A well-formed record: a v4 or v6 address and sorted metadata.
pub open spec fn node_wf(n: NodeV) -> bool {
    addr_wf(n.addr) && meta_sorted(n.meta)
}

/// A member of the cluster: id, gossip address, and metadata.
#[derive(Debug, PartialEq, Eq)]
pub struct Node {
    pub id: u32,
    pub address: NetAddr,
    pub metadata: Vec<MetaEntry>,
}

impl View for Node {
    type V = NodeV;

    open spec fn view(&self) -> NodeV {
        NodeV {
            id: self.id,
            addr: self.address@,
            meta: self.metadata@.map_values(|e: MetaEntry| (e.key@, e.value@)),
        }
    }
}

/// First value bound to `k`, scanning left to right. On sorted metadata the
/// first match is the only one.
pub open spec fn spec_meta_lookup(m: Seq<(Seq<u8>, Seq<u8>)>, k: Seq<u8>) -> Option<Seq<u8>>
    decreases m.len(),
{
    if m.len() == 0 {
        None
    } else if m[0].0 == k {
        Some(m[0].1)
    } else {
        spec_meta_lookup(m.drop_first(), k)
    }
}

/// Sorted insert-or-replace of one pair.
pub open spec fn spec_meta_insert(
    m: Seq<(Seq<u8>, Seq<u8>)>,
    k: Seq<u8>,
    v: Seq<u8>,
) -> Seq<(Seq<u8>, Seq<u8>)>
    decreases m.len(),
{
    if m.len() == 0 {
        seq![(k, v)]
    } else if lex_lt(k, m[0].0) {
        seq![(k, v)] + m
    } else if k == m[0].0 {
        m.update(0, (k, v))
    } else {
        seq![m[0]] + spec_meta_insert(m.drop_first(), k, v)
    }
}

/// Every element of an insert result is the new pair or an old pair whose
/// key differs from the inserted key.
pub proof fn lemma_meta_insert_elems(m: Seq<(Seq<u8>, Seq<u8>)>, k: Seq<u8>, v: Seq<u8>)
    requires
        meta_sorted(m),
    ensures
        forall|x: (Seq<u8>, Seq<u8>)|
            #[trigger] spec_meta_insert(m, k, v).contains(x) <==> (x == (k, v) || (m.contains(x)
                && x.0 != k)),
    decreases m.len(),
{
    let w = spec_meta_insert(m, k, v);
    if m.len() == 0 {
        assert(forall|x: (Seq<u8>, Seq<u8>)| w.contains(x) ==> x == (k, v));
        assert(w[0] == (k, v) && w.contains(w[0]));
    } else if lex_lt(k, m[0].0) {
        assert(forall|x: (Seq<u8>, Seq<u8>)|
            #[trigger] w.contains(x) <==> (x == (k, v) || m.contains(x))) by {
            assert(w[0] == (k, v));
            assert(forall|i: int| 0 <= i < m.len() ==> w[i + 1] == m[i]);
            assert(forall|i: int| 0 <= i < w.len() ==> w[i] == (k, v) || m.contains(w[i]));
        }
        assert(forall|x: (Seq<u8>, Seq<u8>)| m.contains(x) ==> x.0 != k) by {
            assert(forall|i: int|
                0 <= i < m.len() ==> lex_lt(k, (#[trigger] m[i]).0)) by {
                assert(forall|i: int|
                    0 < i < m.len() ==> lex_lt(m[0].0, (#[trigger] m[i]).0));
                assert forall|i: int| 0 <= i < m.len() implies lex_lt(k, (#[trigger] m[i]).0) by {
                    if i > 0 {
                        lemma_lex_lt_transitive(k, m[0].0, m[i].0);
                    }
                }
            }
            assert forall|i: int| 0 <= i < m.len() implies (#[trigger] m[i]).0 != k by {
                if m[i].0 == k {
                    crate::seq_order::lemma_lex_lt_irreflexive(k);
                }
            }
        }
    } else if k == m[0].0 {
        assert(forall|x: (Seq<u8>, Seq<u8>)|
            #[trigger] w.contains(x) <==> (x == (k, v) || m.drop_first().contains(x))) by {
            assert(w[0] == (k, v));
            assert(forall|i: int| 0 < i < w.len() ==> w[i] == m[i] && m.drop_first()[i - 1] == m[i]);
            assert(forall|i: int|
                0 <= i < m.drop_first().len() ==> w[i + 1] == #[trigger] m.drop_first()[i]);
        }
        assert(forall|x: (Seq<u8>, Seq<u8>)|
            #[trigger] m.contains(x) && x.0 != k ==> m.drop_first().contains(x)) by {
            assert(forall|i: int|
                0 < i < m.len() ==> #[trigger] m[i] == m.drop_first()[i - 1]
                    && m.drop_first().contains(m.drop_first()[i - 1]));
        }
        assert(forall|x: (Seq<u8>, Seq<u8>)|
            #[trigger] m.drop_first().contains(x) ==> m.contains(x) && x.0 != k) by {
            assert(forall|i: int|
                0 <= i < m.drop_first().len() ==> #[trigger] m.drop_first()[i] == m[i + 1]
                    && m.contains(m[i + 1]));
            assert forall|i: int|
                0 <= i < m.drop_first().len() implies (#[trigger] m.drop_first()[i]).0 != k by {
                assert(lex_lt(m[0].0, m[i + 1].0));
                if m[i + 1].0 == k {
                    crate::seq_order::lemma_lex_lt_irreflexive(k);
                }
            }
        }
    } else {
        lemma_lex_lt_total(k, m[0].0);
        assert(lex_lt(m[0].0, k));
        let mt = m.drop_first();
        assert(meta_sorted(mt)) by {
            assert(forall|i: int, j: int|
                0 <= i < j < mt.len() ==> mt[i] == m[i + 1] && mt[j] == m[j + 1]);
        }
        lemma_meta_insert_elems(mt, k, v);
        let wt = spec_meta_insert(mt, k, v);
        assert(forall|x: (Seq<u8>, Seq<u8>)|
            #[trigger] w.contains(x) <==> (x == m[0] || wt.contains(x))) by {
            assert(w[0] == m[0]);
            assert(forall|i: int| 0 <= i < wt.len() ==> w[i + 1] == #[trigger] wt[i]);
            assert(forall|i: int| 0 <= i < w.len() ==> w[i] == m[0] || wt.contains(w[i]));
        }
        assert(m[0].0 != k) by {
            if m[0].0 == k {
                crate::seq_order::lemma_lex_lt_irreflexive(k);
            }
        }
        assert(forall|x: (Seq<u8>, Seq<u8>)|
            #[trigger] m.contains(x) <==> (x == m[0] || mt.contains(x))) by {
            assert(m.contains(m[0]));
            assert(forall|i: int|
                0 <= i < mt.len() ==> #[trigger] mt[i] == m[i + 1] && m.contains(m[i + 1]));
            assert(forall|i: int|
                0 < i < m.len() ==> #[trigger] m[i] == mt[i - 1] && mt.contains(mt[i - 1]));
        }
    }
}

/// Inserting keeps metadata sorted.
pub proof fn lemma_meta_insert_sorted(m: Seq<(Seq<u8>, Seq<u8>)>, k: Seq<u8>, v: Seq<u8>)
    requires
        meta_sorted(m),
    ensures
        meta_sorted(spec_meta_insert(m, k, v)),
    decreases m.len(),
{
    let w = spec_meta_insert(m, k, v);
    if m.len() == 0 {
    } else if lex_lt(k, m[0].0) {
        assert forall|i: int, j: int| 0 <= i < j < w.len() implies lex_lt(w[i].0, w[j].0) by {
            assert(w[0] == (k, v));
            assert(forall|t: int| 0 < t < w.len() ==> w[t] == m[t - 1]);
            if i == 0 {
                if j > 1 {
                    lemma_lex_lt_transitive(k, m[0].0, m[j - 1].0);
                }
            }
        }
    } else if k == m[0].0 {
        assert forall|i: int, j: int| 0 <= i < j < w.len() implies lex_lt(w[i].0, w[j].0) by {
            assert(forall|t: int| 0 < t < w.len() ==> w[t] == m[t]);
            assert(w[0].0 == m[0].0);
        }
    } else {
        lemma_lex_lt_total(k, m[0].0);
        let mt = m.drop_first();
        assert(meta_sorted(mt)) by {
            assert(forall|i: int, j: int|
                0 <= i < j < mt.len() ==> mt[i] == m[i + 1] && mt[j] == m[j + 1]);
        }
        lemma_meta_insert_sorted(mt, k, v);
        lemma_meta_insert_elems(mt, k, v);
        let wt = spec_meta_insert(mt, k, v);
        assert forall|i: int, j: int| 0 <= i < j < w.len() implies lex_lt(w[i].0, w[j].0) by {
            assert(w[0] == m[0]);
            assert(forall|t: int| 0 < t < w.len() ==> w[t] == #[trigger] wt[t - 1]);
            if i == 0 {
                assert(wt.contains(wt[j - 1]));
                if wt[j - 1] == (k, v) {
                    assert(lex_lt(m[0].0, k));
                } else {
                    assert(mt.contains(wt[j - 1]));
                    let t = choose|t: int| 0 <= t < mt.len() && mt[t] == wt[j - 1];
                    assert(mt[t] == m[t + 1]);
                    assert(lex_lt(m[0].0, m[t + 1].0));
                }
            }
        }
    }
}

/// Inserting binds `k` to `v` and leaves every other key alone.
pub proof fn lemma_meta_insert_lookup(
    m: Seq<(Seq<u8>, Seq<u8>)>,
    k: Seq<u8>,
    v: Seq<u8>,
    q: Seq<u8>,
)
    ensures
        spec_meta_lookup(spec_meta_insert(m, k, v), q) == if q == k {
            Some(v)
        } else {
            spec_meta_lookup(m, q)
        },
    decreases m.len(),
{
    let w = spec_meta_insert(m, k, v);
    if m.len() == 0 {
        assert(w[0] == (k, v));
        if q != k {
            assert(w.drop_first() =~= Seq::<(Seq<u8>, Seq<u8>)>::empty());
            assert(spec_meta_lookup(Seq::<(Seq<u8>, Seq<u8>)>::empty(), q) is None);
            assert(spec_meta_lookup(w, q) is None);
        }
    } else if lex_lt(k, m[0].0) {
        assert(w[0] == (k, v));
        if q != k {
            assert(w.drop_first() =~= m);
        }
    } else if k == m[0].0 {
        assert(w[0] == (k, v));
        if q != k {
            assert(w.drop_first() =~= m.drop_first());
        }
    } else {
        assert(w[0] == m[0]);
        assert(w.drop_first() =~= spec_meta_insert(m.drop_first(), k, v));
        lemma_meta_insert_lookup(m.drop_first(), k, v, q);
        if q == k {
            assert(m[0].0 != k);
        }
    }
}

/// Inserting a key greater than every present key appends.
pub proof fn lemma_meta_insert_append(m: Seq<(Seq<u8>, Seq<u8>)>, k: Seq<u8>, v: Seq<u8>)
    requires
        forall|i: int| 0 <= i < m.len() ==> lex_lt((#[trigger] m[i]).0, k),
    ensures
        spec_meta_insert(m, k, v) == m.push((k, v)),
    decreases m.len(),
{
    if m.len() == 0 {
        assert(spec_meta_insert(m, k, v) =~= m.push((k, v)));
    } else {
        assert(lex_lt(m[0].0, k));
        assert(!lex_lt(k, m[0].0)) by {
            crate::seq_order::lemma_lex_lt_asymmetric(m[0].0, k);
        }
        assert(k != m[0].0) by {
            if k == m[0].0 {
                crate::seq_order::lemma_lex_lt_irreflexive(k);
            }
        }
        let mt = m.drop_first();
        assert(forall|i: int| 0 <= i < mt.len() ==> #[trigger] mt[i] == m[i + 1]);
        lemma_meta_insert_append(mt, k, v);
        assert(spec_meta_insert(m, k, v) =~= m.push((k, v)));
    }
}

/// Where the scan stopped decides the shape of the insert.
proof fn lemma_meta_insert_at(m: Seq<(Seq<u8>, Seq<u8>)>, k: Seq<u8>, v: Seq<u8>, idx: int)
    requires
        meta_sorted(m),
        0 <= idx <= m.len(),
        forall|j: int| 0 <= j < idx ==> lex_lt((#[trigger] m[j]).0, k),
        idx < m.len() ==> !lex_lt(m[idx].0, k),
    ensures
        spec_meta_insert(m, k, v) == if idx < m.len() && m[idx].0 == k {
            m.update(idx, (k, v))
        } else {
            m.insert(idx, (k, v))
        },
    decreases idx,
{
    if idx == 0 {
        if m.len() == 0 {
            assert(spec_meta_insert(m, k, v) =~= m.insert(0, (k, v)));
        } else if m[0].0 == k {
        } else {
            lemma_lex_lt_total(k, m[0].0);
            assert(lex_lt(k, m[0].0));
            assert(spec_meta_insert(m, k, v) =~= m.insert(0, (k, v)));
        }
    } else {
        assert(lex_lt(m[0].0, k));
        assert(!lex_lt(k, m[0].0)) by {
            crate::seq_order::lemma_lex_lt_asymmetric(m[0].0, k);
        }
        assert(k != m[0].0) by {
            if k == m[0].0 {
                crate::seq_order::lemma_lex_lt_irreflexive(k);
            }
        }
        let mt = m.drop_first();
        assert(meta_sorted(mt)) by {
            assert(forall|i: int, j: int|
                0 <= i < j < mt.len() ==> mt[i] == m[i + 1] && mt[j] == m[j + 1]);
        }
        assert(forall|i: int| 0 <= i < mt.len() ==> #[trigger] mt[i] == m[i + 1]);
        lemma_meta_insert_at(mt, k, v, idx - 1);
        if idx < m.len() && m[idx].0 == k {
            assert(spec_meta_insert(m, k, v) =~= m.update(idx, (k, v)));
        } else {
            assert(spec_meta_insert(m, k, v) =~= m.insert(idx, (k, v)));
        }
    }
}

impl Node {
    /// A fresh record with empty metadata.
    pub fn new(id: u32, address: NetAddr) -> (r: Node)
        requires
            addr_wf(address@),
        ensures
            r@ == (NodeV { id, addr: address@, meta: Seq::<(Seq<u8>, Seq<u8>)>::empty() }),
            node_wf(r@),
    {
        let r = Node { id, address, metadata: Vec::new() };
        proof {
            assert(r@.meta =~= Seq::<(Seq<u8>, Seq<u8>)>::empty());
        }
        r
    }

    pub fn get_id(&self) -> (r: u32)
        ensures
            r == self@.id,
    {
        self.id
    }

    pub fn get_port(&self) -> (r: u16)
        ensures
            r == self@.addr.port,
    {
        self.address.port
    }

    /// The raw IP octets of the gossip address.
    pub fn get_ip_address(&self) -> (r: &Vec<u8>)
        ensures
            r@ == self@.addr.octets,
    {
        &self.address.octets
    }

    /// A copy of the gossip address.
    pub fn get_address(&self) -> (r: NetAddr)
        ensures
            r@ == self@.addr,
    {
        self.address.clone()
    }

    /// The value bound to `key`, if any.
    pub fn get_metadata(&self, key: &Vec<u8>) -> (r: Option<&Vec<u8>>)
        ensures
            match r {
                Some(v) => spec_meta_lookup(self@.meta, key@) == Some(v@),
                None => spec_meta_lookup(self@.meta, key@) is None,
            },
    {
        let n = self.metadata.len();
        let mut i: usize = 0;
        proof {
            assert(self@.meta.skip(0) =~= self@.meta);
        }
        while i < n
            invariant
                i <= n,
                n == self.metadata@.len(),
                spec_meta_lookup(self@.meta, key@) == spec_meta_lookup(
                    self@.meta.skip(i as int),
                    key@,
                ),
            decreases n - i,
        {
            proof {
                assert(self@.meta.skip(i as int)[0] == self@.meta[i as int]);
                assert(self@.meta.skip(i as int).drop_first() =~= self@.meta.skip(i + 1));
            }
            if bytes_eq(&self.metadata[i].key, key) {
                return Some(&self.metadata[i].value);
            }
            i = i + 1;
        }
        proof {
            assert(self@.meta.skip(n as int) =~= Seq::<(Seq<u8>, Seq<u8>)>::empty());
        }
        None
    }

    /// Bind `key` to `value`, inserting or replacing, keeping key order.
    pub fn set_metadata(&mut self, key: Vec<u8>, value: Vec<u8>)
        requires
            node_wf(old(self)@),
        ensures
            final(self)@ == (NodeV {
                meta: spec_meta_insert(old(self)@.meta, key@, value@),
                ..old(self)@
            }),
            node_wf(final(self)@),
    {
        let ghost m = self@.meta;
        let n = self.metadata.len();
        let mut idx: usize = 0;
        while idx < n && bytes_lt(&self.metadata[idx].key, &key)
            invariant
                idx <= n,
                n == self.metadata@.len(),
                forall|j: int| 0 <= j < idx ==> lex_lt((#[trigger] m[j]).0, key@),
                m == self@.meta,
                *self == *old(self),
            decreases n - idx,
        {
            idx = idx + 1;
        }
        proof {
            lemma_meta_insert_at(m, key@, value@, idx as int);
        }
        if idx < n && bytes_eq(&self.metadata[idx].key, &key) {
            self.metadata.set(idx, MetaEntry { key, value });
            proof {
                assert(final(self)@.meta =~= spec_meta_insert(m, key@, value@));
                lemma_meta_insert_sorted(m, key@, value@);
            }
        } else {
            self.metadata.insert(idx, MetaEntry { key, value });
            proof {
                assert(final(self)@.meta =~= spec_meta_insert(m, key@, value@));
                lemma_meta_insert_sorted(m, key@, value@);
            }
        }
    }
}

// ---------------------------------------------------------------------------
// Node wire form.
// ---------------------------------------------------------------------------

/// Metadata fits the wire: a 16-bit count and 255-byte keys and values.
pub open spec fn meta_encodable(m: Seq<(Seq<u8>, Seq<u8>)>) -> bool {
    &&& m.len() <= 0xffff
    &&& forall|i: int|
        0 <= i < m.len() ==> (#[trigger] m[i]).0.len() <= 255 && m[i].1.len() <= 255
}

pub open spec fn spec_encode_meta(m: Seq<(Seq<u8>, Seq<u8>)>) -> Seq<u8>
    decreases m.len(),
{
    if m.len() == 0 {
        Seq::<u8>::empty()
    } else {
        spec_encode_string(m[0].0) + spec_encode_string(m[0].1) + spec_encode_meta(m.drop_first())
    }
}

/// Wire form of a whole record.
pub open spec fn spec_encode_node(n: NodeV) -> Seq<u8> {
    spec_be32(n.id) + spec_encode_addr(n.addr) + spec_be16(n.meta.len() as u16)
        + spec_encode_meta(n.meta)
}

/// Encoding metadata entry by entry appends entry encodings.
pub proof fn lemma_encode_meta_push(m: Seq<(Seq<u8>, Seq<u8>)>, k: Seq<u8>, v: Seq<u8>)
    ensures
        spec_encode_meta(m.push((k, v))) == spec_encode_meta(m) + spec_encode_string(k)
            + spec_encode_string(v),
    decreases m.len(),
{
    if m.len() == 0 {
        assert(m.push((k, v))[0] == (k, v));
        assert(m.push((k, v)).drop_first() =~= Seq::<(Seq<u8>, Seq<u8>)>::empty());
        assert(spec_encode_meta(Seq::<(Seq<u8>, Seq<u8>)>::empty()) == Seq::<u8>::empty());
        assert(spec_encode_meta(m.push((k, v))) == spec_encode_string(k) + spec_encode_string(v)
            + Seq::<u8>::empty());
        assert(spec_encode_meta(m.push((k, v))) =~= spec_encode_meta(m) + spec_encode_string(k)
            + spec_encode_string(v));
    } else {
        assert(m.push((k, v))[0] == m[0]);
        assert(m.push((k, v)).drop_first() =~= m.drop_first().push((k, v)));
        lemma_encode_meta_push(m.drop_first(), k, v);
        assert(spec_encode_meta(m.push((k, v))) =~= spec_encode_meta(m) + spec_encode_string(k)
            + spec_encode_string(v));
    }
}

/// The metadata section parses entry by entry, folding each pair in.
pub open spec fn spec_parse_meta(
    b: Seq<u8>,
    pos: int,
    count: int,
    acc: Seq<(Seq<u8>, Seq<u8>)>,
) -> Parsed<Seq<(Seq<u8>, Seq<u8>)>>
    decreases count,
{
    if count <= 0 {
        Parsed::Found(acc, pos)
    } else {
        match spec_parse_string(b, pos) {
            Parsed::Found(k, p1) => match spec_parse_string(b, p1) {
                Parsed::Found(v, p2) => spec_parse_meta(b, p2, count - 1, spec_meta_insert(acc, k, v)),
                _ => Parsed::Short,
            },
            _ => Parsed::Short,
        }
    }
}

pub open spec fn spec_parse_node(b: Seq<u8>, pos: int) -> Parsed<NodeV> {
    match spec_parse_u32(b, pos) {
        Parsed::Found(id, p1) => match spec_parse_addr(b, p1) {
            Parsed::Found(addr, p2) => match spec_parse_u16(b, p2) {
                Parsed::Found(mlen, p3) => match spec_parse_meta(
                    b,
                    p3,
                    mlen as int,
                    Seq::<(Seq<u8>, Seq<u8>)>::empty(),
                ) {
                    Parsed::Found(meta, p4) => Parsed::Found(NodeV { id, addr, meta }, p4),
                    Parsed::Short => Parsed::Short,
                    Parsed::Bad => Parsed::Bad,
                },
                _ => Parsed::Short,
            },
            Parsed::Short => Parsed::Short,
            Parsed::Bad => Parsed::Bad,
        },
        _ => Parsed::Short,
    }
}

impl Node {
    /// Append the wire form of this record. A metadata count above
    /// `0xffff` or a key or value longer than 255 bytes refuses the
    /// encoding with `Protocol` and leaves `out` untouched.
    pub fn write(&self, out: &mut Vec<u8>) -> (r: Result<(), SwarmError>)
        requires
            node_wf(self@),
        ensures
            match r {
                Ok(()) => meta_encodable(self@.meta) && final(out)@ == old(out)@ + spec_encode_node(
                    self@,
                ),
                Err(e) => e == SwarmError::Protocol && !meta_encodable(self@.meta) && final(out)@
                    == old(out)@,
            },
    {
        let mcount = self.metadata.len();
        if mcount > 0xffff {
            return Err(SwarmError::Protocol);
        }
        let mut i: usize = 0;
        while i < mcount
            invariant
                i <= mcount,
                mcount == self.metadata@.len(),
                forall|j: int|
                    0 <= j < i ==> (#[trigger] self@.meta[j]).0.len() <= 255
                        && self@.meta[j].1.len() <= 255,
            decreases mcount - i,
        {
            if self.metadata[i].key.len() > 255 || self.metadata[i].value.len() > 255 {
                proof {
                    assert(self@.meta[i as int] == (self.metadata@[i as int].key@,
                    self.metadata@[i as int].value@));
                }
                return Err(SwarmError::Protocol);
            }
            i = i + 1;
        }
        write_u32(out, self.id);
        write_addr(&self.address, out);
        write_u16(out, mcount as u16);
        let ghost head = old(out)@ + spec_be32(self@.id) + spec_encode_addr(self@.addr)
            + spec_be16(self@.meta.len() as u16);
        assert(out@ == head);
        let mut j: usize = 0;
        while j < mcount
            invariant
                j <= mcount,
                mcount == self.metadata@.len(),
                meta_encodable(self@.meta),
                node_wf(self@),
                out@ == head + spec_encode_meta(self@.meta.subrange(0, j as int)),
            decreases mcount - j,
        {
            proof {
                assert(spec_encode_meta(self@.meta.subrange(0, 0)) =~= Seq::<u8>::empty());
                assert(self@.meta[j as int] == (self.metadata@[j as int].key@,
                self.metadata@[j as int].value@));
            }
            let ghost before = out@;
            match write_string(&self.metadata[j].key, out) {
                Ok(()) => {},
                Err(e) => {
                    proof {
                        assert(false);
                    }
                    return Err(e);
                },
            }
            match write_string(&self.metadata[j].value, out) {
                Ok(()) => {},
                Err(e) => {
                    proof {
                        assert(false);
                    }
                    return Err(e);
                },
            }
            proof {
                assert(self@.meta.subrange(0, j + 1) =~= self@.meta.subrange(0, j as int).push(
                    self@.meta[j as int],
                ));
                lemma_encode_meta_push(
                    self@.meta.subrange(0, j as int),
                    self@.meta[j as int].0,
                    self@.meta[j as int].1,
                );
                assert(out@ == head + spec_encode_meta(self@.meta.subrange(0, j + 1)));
            }
            j = j + 1;
        }
        proof {
            assert(spec_encode_meta(self@.meta.subrange(0, 0)) =~= Seq::<u8>::empty());
            assert(self@.meta.subrange(0, mcount as int) =~= self@.meta);
            assert(out@ =~= old(out)@ + spec_encode_node(self@));
        }
        Ok(())
    }

    /// Read a record at `pos`. Truncation is an I/O error; an unknown
    /// address family is a protocol error. Metadata pairs are folded in with
    /// `set_metadata`, so the record comes back sorted whatever order the
    /// wire had.
    pub fn read(buf: &Vec<u8>, pos: usize) -> (r: Result<(Node, usize), SwarmError>)
        ensures
            match r {
                Ok(np) => node_wf(np.0@) && spec_parse_node(buf@, pos as int) == Parsed::Found(
                    np.0@,
                    np.1 as int,
                ),
                Err(e) => {
                    &&& (e == SwarmError::Io || e == SwarmError::Protocol)
                    &&& (e == SwarmError::Io <==> spec_parse_node(buf@, pos as int)
                        == Parsed::<NodeV>::Short)
                    &&& (e == SwarmError::Protocol <==> spec_parse_node(buf@, pos as int)
                        == Parsed::<NodeV>::Bad)
                },
            },
    {
        let (id, p1) = match read_u32(buf, pos) {
            Ok(x) => x,
            Err(e) => {
                return Err(e);
            },
        };
        let (address, p2) = match read_addr(buf, p1) {
            Ok(x) => x,
            Err(e) => {
                return Err(e);
            },
        };
        let (mlen, p3) = match read_u16(buf, p2) {
            Ok(x) => x,
            Err(e) => {
                return Err(e);
            },
        };
        let ghost av = address@;
        let mut node = Node::new(id, address);
        let mut p = p3;
        let mut i: u16 = 0;
        while i < mlen
            invariant
                i <= mlen,
                node@.id == id,
                node@.addr == av,
                node_wf(node@),
                spec_parse_u32(buf@, pos as int) == Parsed::Found(id, p1 as int),
                spec_parse_addr(buf@, p1 as int) == Parsed::Found(av, p2 as int),
                spec_parse_u16(buf@, p2 as int) == Parsed::Found(mlen, p3 as int),
                spec_parse_meta(buf@, p3 as int, mlen as int, Seq::<(Seq<u8>, Seq<u8>)>::empty())
                    == spec_parse_meta(buf@, p as int, mlen - i, node@.meta),
            decreases mlen - i,
        {
            let (k, pk) = match read_string(buf, p) {
                Ok(x) => x,
                Err(e) => {
                    proof {
                        assert(spec_parse_meta(buf@, p as int, mlen - i, node@.meta)
                            == Parsed::<Seq<(Seq<u8>, Seq<u8>)>>::Short);
                        assert(spec_parse_u32(buf@, pos as int) == Parsed::Found(id, p1 as int));
                        assert(spec_parse_addr(buf@, p1 as int) == Parsed::Found(av, p2 as int));
                        assert(spec_parse_u16(buf@, p2 as int) == Parsed::Found(mlen, p3 as int));
                        assert(spec_parse_meta(
                            buf@,
                            p3 as int,
                            mlen as int,
                            Seq::<(Seq<u8>, Seq<u8>)>::empty(),
                        ) == Parsed::<Seq<(Seq<u8>, Seq<u8>)>>::Short);
                        assert(spec_parse_node(buf@, pos as int) == Parsed::<NodeV>::Short);
                    }
                    return Err(e);
                },
            };
            let (v, pv) = match read_string(buf, pk) {
                Ok(x) => x,
                Err(e) => {
                    proof {
                        assert(spec_parse_meta(buf@, p as int, mlen - i, node@.meta)
                            == Parsed::<Seq<(Seq<u8>, Seq<u8>)>>::Short);
                        assert(spec_parse_node(buf@, pos as int) == Parsed::<NodeV>::Short);
                    }
                    return Err(e);
                },
            };
            node.set_metadata(k, v);
            p = pv;
            i = i + 1;
        }
        proof {
            assert(spec_parse_meta(buf@, p3 as int, mlen as int, Seq::<(Seq<u8>, Seq<u8>)>::empty())
                == Parsed::Found(node@.meta, p as int));
        }
        Ok((node, p))
    }
}

// ---------------------------------------------------------------------------
// Round trip: a written record reads back identically.
// ---------------------------------------------------------------------------

/// A string encoding sitting at `pos` inside a larger buffer parses to the
/// string it encodes.
pub proof fn lemma_parse_string_at(b: Seq<u8>, pos: int, s: Seq<u8>)
    requires
        0 <= pos,
        s.len() <= 255,
        pos + 1 + s.len() <= b.len(),
        b.subrange(pos, pos + 1 + s.len()) == spec_encode_string(s),
    ensures
        spec_parse_string(b, pos) == Parsed::Found(s, pos + 1 + s.len()),
{
    let e = spec_encode_string(s);
    assert(b[pos] == e[0]) by {
        assert(b.subrange(pos, pos + 1 + s.len())[0] == b[pos]);
    }
    assert(e[0] == s.len() as u8);
    assert((s.len() as u8) as int == s.len());
    assert(b.subrange(pos + 1, pos + 1 + s.len()) =~= s) by {
        assert(forall|j: int|
            0 <= j < s.len() ==> b.subrange(pos + 1, pos + 1 + s.len())[j] == b[pos + 1 + j]
                && b.subrange(pos, pos + 1 + s.len())[1 + j] == b[pos + 1 + j] && e[1 + j] == s[j]);
    }
}

/// An address encoding sitting at `pos` parses to the address it encodes.
pub proof fn lemma_parse_addr_at(b: Seq<u8>, pos: int, a: AddrV)
    requires
        0 <= pos,
        addr_wf(a),
        pos + 3 + a.octets.len() <= b.len(),
        b.subrange(pos, pos + 3 + a.octets.len()) == spec_encode_addr(a),
    ensures
        spec_parse_addr(b, pos) == Parsed::Found(a, pos + 3 + a.octets.len()),
{
    let e = spec_encode_addr(a);
    let l = a.octets.len() as int;
    assert(forall|j: int| 0 <= j < 3 + l ==> b.subrange(pos, pos + 3 + l)[j] == #[trigger] b[pos + j]);
    assert(b[pos] == e[0]);
    assert(e[0] == if l == 4 {
        4u8
    } else {
        6u8
    });
    assert(forall|j: int| 0 <= j < l ==> #[trigger] e[1 + j] == a.octets[j]);
    assert(b.subrange(pos + 1, pos + 1 + l) =~= a.octets) by {
        assert(forall|j: int|
            0 <= j < l ==> #[trigger] b.subrange(pos + 1, pos + 1 + l)[j] == b[pos + 1 + j] && b[pos
                + 1 + j] == e[1 + j]);
    }
    assert(e[1 + l] == spec_be16(a.port)[0] && e[2 + l] == spec_be16(a.port)[1]);
    assert(b[pos + 1 + l] == e[1 + l] && b[pos + 2 + l] == e[2 + l]);
    lemma_be16_round_trip(a.port);
    assert(spec_u16_of(b[pos + 1 + l], b[pos + 2 + l]) == a.port);
    if l == 4 {
        let got = AddrV { octets: b.subrange(pos + 1, pos + 5), port: spec_u16_of(b[pos + 5], b[pos + 6]) };
        assert(got.octets == a.octets && got.port == a.port);
        assert(got == a);
    } else {
        let got = AddrV {
            octets: b.subrange(pos + 1, pos + 17),
            port: spec_u16_of(b[pos + 17], b[pos + 18]),
        };
        assert(got.octets == a.octets && got.port == a.port);
        assert(got == a);
    }
}

/// A metadata section written in sorted key order parses back, appended to
/// what was already collected.
pub proof fn lemma_parse_meta_encoded(
    b: Seq<u8>,
    pos: int,
    acc: Seq<(Seq<u8>, Seq<u8>)>,
    m: Seq<(Seq<u8>, Seq<u8>)>,
)
    requires
        0 <= pos,
        meta_sorted(acc),
        meta_sorted(m),
        forall|i: int, j: int|
            0 <= i < acc.len() && 0 <= j < m.len() ==> lex_lt(
                (#[trigger] acc[i]).0,
                (#[trigger] m[j]).0,
            ),
        forall|j: int| 0 <= j < m.len() ==> (#[trigger] m[j]).0.len() <= 255 && m[j].1.len() <= 255,
        pos + spec_encode_meta(m).len() <= b.len(),
        b.subrange(pos, pos + spec_encode_meta(m).len()) == spec_encode_meta(m),
    ensures
        spec_parse_meta(b, pos, m.len() as int, acc) == Parsed::Found(
            acc + m,
            pos + spec_encode_meta(m).len(),
        ),
    decreases m.len(),
{
    if m.len() == 0 {
        assert(acc + m =~= acc);
    } else {
        let k = m[0].0;
        let v = m[0].1;
        let ek = spec_encode_string(k);
        let ev = spec_encode_string(v);
        let mt = m.drop_first();
        let et = spec_encode_meta(mt);
        assert(spec_encode_meta(m) == ek + ev + et);
        let lk = 1 + k.len() as int;
        let lv = 1 + v.len() as int;
        let lt = et.len() as int;
        assert(forall|j: int|
            0 <= j < lk + lv + lt ==> b.subrange(pos, pos + lk + lv + lt)[j] == #[trigger] b[pos
                + j]);
        assert(b.subrange(pos, pos + lk) =~= ek) by {
            assert(forall|j: int|
                0 <= j < lk ==> b.subrange(pos, pos + lk)[j] == b[pos + j] && b[pos + j]
                    == (ek + ev + et)[j] && (ek + ev + et)[j] == ek[j]);
        }
        lemma_parse_string_at(b, pos, k);
        assert(b.subrange(pos + lk, pos + lk + lv) =~= ev) by {
            assert(forall|j: int|
                0 <= j < lv ==> b.subrange(pos + lk, pos + lk + lv)[j] == b[pos + lk + j] && b[pos
                    + lk + j] == (ek + ev + et)[lk + j] && (ek + ev + et)[lk + j] == ev[j]);
        }
        lemma_parse_string_at(b, pos + lk, v);
        assert(forall|i: int| 0 <= i < acc.len() ==> lex_lt((#[trigger] acc[i]).0, k));
        lemma_meta_insert_append(acc, k, v);
        let acc2 = acc.push((k, v));
        assert(meta_sorted(acc2)) by {
            assert(forall|i: int| 0 <= i < acc.len() ==> acc2[i] == acc[i]);
            assert(acc2[acc.len() as int] == (k, v));
        }
        assert(meta_sorted(mt)) by {
            assert(forall|i: int, j: int|
                0 <= i < j < mt.len() ==> mt[i] == m[i + 1] && mt[j] == m[j + 1]);
        }
        assert(forall|i: int, j: int|
            0 <= i < acc2.len() && 0 <= j < mt.len() ==> lex_lt(
                (#[trigger] acc2[i]).0,
                (#[trigger] mt[j]).0,
            )) by {
            assert(forall|j: int| 0 <= j < mt.len() ==> #[trigger] mt[j] == m[j + 1]);
            assert(forall|i: int| 0 <= i < acc.len() ==> #[trigger] acc2[i] == acc[i]);
            assert(forall|j: int| 0 <= j < mt.len() ==> lex_lt(k, (#[trigger] mt[j]).0));
        }
        assert(forall|j: int|
            0 <= j < mt.len() ==> (#[trigger] mt[j]).0.len() <= 255 && mt[j].1.len() <= 255) by {
            assert(forall|j: int| 0 <= j < mt.len() ==> #[trigger] mt[j] == m[j + 1]);
        }
        assert(b.subrange(pos + lk + lv, pos + lk + lv + lt) =~= et) by {
            assert(forall|j: int|
                0 <= j < lt ==> b.subrange(pos + lk + lv, pos + lk + lv + lt)[j] == b[pos + lk + lv
                    + j] && b[pos + lk + lv + j] == (ek + ev + et)[lk + lv + j] && (ek + ev + et)[lk
                    + lv + j] == et[j]);
        }
        lemma_parse_meta_encoded(b, pos + lk + lv, acc2, mt);
        assert(acc2 + mt =~= acc + m) by {
            assert(forall|i: int| 0 <= i < acc.len() ==> (acc2 + mt)[i] == acc[i] && (acc + m)[i]
                == acc[i]);
            assert((acc2 + mt)[acc.len() as int] == (k, v) && (acc + m)[acc.len() as int] == m[0]);
            assert(forall|j: int|
                0 < j < m.len() ==> (acc2 + mt)[acc.len() + j] == mt[j - 1] && (acc + m)[acc.len()
                    + j] == #[trigger] m[j] && mt[j - 1] == m[j]);
        }
    }
}

/// A node encoding sitting at `pos` parses to the record it encodes.
pub proof fn lemma_parse_node_at(b: Seq<u8>, pos: int, n: NodeV)
    requires
        0 <= pos,
        node_wf(n),
        meta_encodable(n.meta),
        pos + spec_encode_node(n).len() <= b.len(),
        b.subrange(pos, pos + spec_encode_node(n).len()) == spec_encode_node(n),
    ensures
        spec_parse_node(b, pos) == Parsed::Found(n, pos + spec_encode_node(n).len()),
{
    let e = spec_encode_node(n);
    let ea = spec_encode_addr(n.addr);
    let em = spec_encode_meta(n.meta);
    let la = ea.len() as int;
    let lm = em.len() as int;
    assert(e == spec_be32(n.id) + ea + spec_be16(n.meta.len() as u16) + em);
    assert(forall|j: int| 0 <= j < e.len() ==> b.subrange(pos, pos + e.len())[j] == #[trigger] b[pos
        + j]);
    assert(la == 3 + n.addr.octets.len());
    // The id.
    assert(forall|j: int| 0 <= j < 4 ==> b[pos + j] == #[trigger] spec_be32(n.id)[j]);
    lemma_be32_round_trip(n.id);
    assert(spec_parse_u32(b, pos) == Parsed::Found(n.id, pos + 4)) by {
        assert(spec_u32_of(b[pos], b[pos + 1], b[pos + 2], b[pos + 3]) == n.id);
    }
    // The address.
    assert(b.subrange(pos + 4, pos + 4 + la) =~= ea) by {
        assert(forall|j: int|
            0 <= j < la ==> b.subrange(pos + 4, pos + 4 + la)[j] == b[pos + 4 + j] && b[pos + 4 + j]
                == e[4 + j] && e[4 + j] == ea[j]);
    }
    lemma_parse_addr_at(b, pos + 4, n.addr);
    // The metadata count.
    let pc = pos + 4 + la;
    assert(b[pc] == e[4 + la] && b[pc + 1] == e[4 + la + 1]);
    assert(e[4 + la] == spec_be16(n.meta.len() as u16)[0] && e[4 + la + 1] == spec_be16(
        n.meta.len() as u16,
    )[1]);
    lemma_be16_round_trip(n.meta.len() as u16);
    assert(spec_parse_u16(b, pc) == Parsed::Found(n.meta.len() as u16, pc + 2));
    assert((n.meta.len() as u16) as int == n.meta.len());
    // The metadata.
    let pm = pc + 2;
    assert(b.subrange(pm, pm + lm) =~= em) by {
        assert(forall|j: int|
            0 <= j < lm ==> b.subrange(pm, pm + lm)[j] == b[pm + j] && b[pm + j] == e[4 + la + 2
                + j] && e[4 + la + 2 + j] == em[j]);
    }
    lemma_parse_meta_encoded(b, pm, Seq::<(Seq<u8>, Seq<u8>)>::empty(), n.meta);
    assert(Seq::<(Seq<u8>, Seq<u8>)>::empty() + n.meta =~= n.meta);
    assert(spec_parse_node(b, pos) == Parsed::Found(n, pos + e.len()));
}

/// Round trip: for every well-formed, encodable record, reading the written
/// bytes yields the record again, its metadata in lexicographic key order.
pub proof fn lemma_node_round_trip(n: NodeV)
    requires
        node_wf(n),
        meta_encodable(n.meta),
    ensures
        spec_parse_node(spec_encode_node(n), 0) == Parsed::Found(
            n,
            spec_encode_node(n).len() as int,
        ),
{
    let b = spec_encode_node(n);
    assert(b.subrange(0, b.len() as int) =~= b);
    lemma_parse_node_at(b, 0, n);
}

// ---------------------------------------------------------------------------
// Membership digest input.
// ---------------------------------------------------------------------------

/// Bytes hashed for one record's metadata: keys and values concatenated in
/// key order, without prefixes.
pub open spec fn spec_meta_bytes(m: Seq<(Seq<u8>, Seq<u8>)>) -> Seq<u8>
    decreases m.len(),
{
    if m.len() == 0 {
        Seq::<u8>::empty()
    } else {
        m[0].0 + m[0].1 + spec_meta_bytes(m.drop_first())
    }
}

/// Bytes hashed for one record: the big-endian id then the metadata bytes.
pub open spec fn spec_node_bytes(n: NodeV) -> Seq<u8> {
    spec_be32(n.id) + spec_meta_bytes(n.meta)
}

/// Bytes hashed for a membership snapshot, in snapshot order.
pub open spec fn spec_nodes_bytes(s: Seq<NodeV>) -> Seq<u8>
    decreases s.len(),
{
    if s.len() == 0 {
        Seq::<u8>::empty()
    } else {
        spec_node_bytes(s[0]) + spec_nodes_bytes(s.drop_first())
    }
}

/// The membership digest: FNV-1a over the snapshot bytes. A pure function
/// of the snapshot, identical on any two hosts holding the same records.
pub open spec fn spec_hash_nodes(s: Seq<NodeV>) -> u64 {
    spec_fnv1a(spec_nodes_bytes(s), FNV_OFFSET_BASIS)
}

pub open spec fn nodes_views(s: Seq<Node>) -> Seq<NodeV> {
    s.map_values(|n: Node| n@)
}

pub proof fn lemma_meta_bytes_push(m: Seq<(Seq<u8>, Seq<u8>)>, k: Seq<u8>, v: Seq<u8>)
    ensures
        spec_meta_bytes(m.push((k, v))) == spec_meta_bytes(m) + k + v,
    decreases m.len(),
{
    if m.len() == 0 {
        assert(m.push((k, v))[0] == (k, v));
        assert(m.push((k, v)).drop_first() =~= Seq::<(Seq<u8>, Seq<u8>)>::empty());
        assert(spec_meta_bytes(Seq::<(Seq<u8>, Seq<u8>)>::empty()) == Seq::<u8>::empty());
        assert(spec_meta_bytes(m.push((k, v))) =~= spec_meta_bytes(m) + k + v);
    } else {
        assert(m.push((k, v))[0] == m[0]);
        assert(m.push((k, v)).drop_first() =~= m.drop_first().push((k, v)));
        lemma_meta_bytes_push(m.drop_first(), k, v);
        assert(spec_meta_bytes(m.push((k, v))) =~= spec_meta_bytes(m) + k + v);
    }
}

pub proof fn lemma_nodes_bytes_push(s: Seq<NodeV>, n: NodeV)
    ensures
        spec_nodes_bytes(s.push(n)) == spec_nodes_bytes(s) + spec_node_bytes(n),
    decreases s.len(),
{
    if s.len() == 0 {
        assert(s.push(n)[0] == n);
        assert(s.push(n).drop_first() =~= Seq::<NodeV>::empty());
        assert(spec_nodes_bytes(Seq::<NodeV>::empty()) == Seq::<u8>::empty());
        assert(spec_nodes_bytes(s.push(n)) =~= spec_nodes_bytes(s) + spec_node_bytes(n));
    } else {
        assert(s.push(n)[0] == s[0]);
        assert(s.push(n).drop_first() =~= s.drop_first().push(n));
        lemma_nodes_bytes_push(s.drop_first(), n);
        assert(spec_nodes_bytes(s.push(n)) =~= spec_nodes_bytes(s) + spec_node_bytes(n));
    }
}

/// The membership digest of a snapshot, executable. Returns exactly the
/// spec digest, so two calls on one snapshot agree, as do two hosts with
/// equal snapshots.
pub fn hash_nodes(nodes: &Vec<Node>) -> (r: u64)
    ensures
        r == spec_hash_nodes(nodes_views(nodes@)),
{
    let mut buf: Vec<u8> = Vec::new();
    let n = nodes.len();
    let mut i: usize = 0;
    proof {
        assert(spec_nodes_bytes(nodes_views(nodes@).subrange(0, 0)) == Seq::<u8>::empty());
        assert(buf@ =~= spec_nodes_bytes(nodes_views(nodes@).subrange(0, 0)));
    }
    while i < n
        invariant
            i <= n,
            n == nodes@.len(),
            buf@ == spec_nodes_bytes(nodes_views(nodes@).subrange(0, i as int)),
        decreases n - i,
    {
        let ghost nv = nodes@[i as int]@;
        write_u32(&mut buf, nodes[i].id);
        let ghost mid = buf@;
        let mcount = nodes[i].metadata.len();
        let mut j: usize = 0;
        proof {
            assert(spec_meta_bytes(nv.meta.subrange(0, 0)) == Seq::<u8>::empty());
            assert(buf@ =~= mid + spec_meta_bytes(nv.meta.subrange(0, 0)));
        }
        while j < mcount
            invariant
                j <= mcount,
                i < n,
                n == nodes@.len(),
                mcount == nodes@[i as int].metadata@.len(),
                nv == nodes@[i as int]@,
                buf@ == mid + spec_meta_bytes(nv.meta.subrange(0, j as int)),
            decreases mcount - j,
        {
            append_bytes(&mut buf, &nodes[i].metadata[j].key);
            append_bytes(&mut buf, &nodes[i].metadata[j].value);
            proof {
                assert(nv.meta[j as int] == (nodes@[i as int].metadata@[j as int].key@,
                nodes@[i as int].metadata@[j as int].value@));
                assert(nv.meta.subrange(0, j + 1) =~= nv.meta.subrange(0, j as int).push(
                    nv.meta[j as int],
                ));
                lemma_meta_bytes_push(
                    nv.meta.subrange(0, j as int),
                    nv.meta[j as int].0,
                    nv.meta[j as int].1,
                );
                assert(buf@ =~= mid + spec_meta_bytes(nv.meta.subrange(0, j + 1)));
            }
            j = j + 1;
        }
        proof {
            assert(nv.meta.subrange(0, mcount as int) =~= nv.meta);
            assert(nodes_views(nodes@)[i as int] == nv);
            assert(nodes_views(nodes@).subrange(0, i + 1) =~= nodes_views(nodes@).subrange(
                0,
                i as int,
            ).push(nv));
            lemma_nodes_bytes_push(nodes_views(nodes@).subrange(0, i as int), nv);
            assert(buf@ =~= spec_nodes_bytes(nodes_views(nodes@).subrange(0, i + 1))) by {
                assert(spec_node_bytes(nv) == spec_be32(nv.id) + spec_meta_bytes(nv.meta));
                assert(nv.id == nodes@[i as int].id);
            }
        }
        i = i + 1;
    }
    proof {
        assert(nodes_views(nodes@).subrange(0, n as int) =~= nodes_views(nodes@));
    }
    fnv1a(&buf, FNV_OFFSET_BASIS)
}

impl Clone for Node {
    /// A field-for-field copy with the same view.
    fn clone(&self) -> (r: Self)
        ensures
            r@ == self@,
    {
        let mut metadata: Vec<MetaEntry> = Vec::new();
        let n = self.metadata.len();
        let mut i: usize = 0;
        while i < n
            invariant
                i <= n,
                n == self.metadata@.len(),
                metadata@.len() == i,
                forall|j: int|
                    0 <= j < i ==> (#[trigger] metadata@[j]).key@ == self.metadata@[j].key@
                        && metadata@[j].value@ == self.metadata@[j].value@,
            decreases n - i,
        {
            let key = crate::codec::take_all(&self.metadata[i].key);
            let value = crate::codec::take_all(&self.metadata[i].value);
            metadata.push(MetaEntry { key, value });
            i = i + 1;
        }
        let r = Node { id: self.id, address: self.address.clone(), metadata };
        proof {
            assert(r@.meta =~= self@.meta) by {
                assert(forall|j: int|
                    0 <= j < n ==> r@.meta[j] == ((#[trigger] r.metadata@[j]).key@,
                    r.metadata@[j].value@) && self@.meta[j] == (self.metadata@[j].key@,
                    self.metadata@[j].value@));
            }
            assert(r@ == self@);
        }
        r
    }
}

} // verus!
