//! The gossip wire messages.
//!
//! One round is a single request and a single reply over one connection.
//! A request carries the requester's own record and its digests; a reply
//! carries a record section and a token section, each a 16-bit count and
//! that many entries. When the replier's digest equals the received one the
//! matching section is a count of zero and no payload. The cluster variant
//! omits everything token-related; the framing is otherwise identical.

use vstd::prelude::*;

use crate::codec::{
    lemma_be16_round_trip,
    spec_be16,
    spec_be32,
    spec_be64,
    spec_parse_u16,
    spec_parse_u32,
    spec_parse_u64,
    Parsed,
    read_u16,
    read_u32,
    read_u64,
    write_u16,
    write_u32,
    write_u64,
};
use crate::errors::SwarmError;
use crate::node::{
    lemma_parse_node_at,
    meta_encodable,
    node_wf,
    nodes_views,
    spec_encode_node,
    spec_parse_node,
    Node,
    NodeV,
};
use crate::store::TokenEntry;

verus! {

// ---------------------------------------------------------------------------
// Record lists.
// ---------------------------------------------------------------------------

/// Every record's metadata fits the wire.
pub open spec fn nodes_encodable(s: Seq<NodeV>) -> bool {
    forall|i: int| 0 <= i < s.len() ==> meta_encodable((#[trigger] s[i]).meta)
}

pub open spec fn nodes_all_wf(s: Seq<NodeV>) -> bool {
    forall|i: int| 0 <= i < s.len() ==> node_wf(#[trigger] s[i])
}

pub open spec fn spec_encode_nodes(s: Seq<NodeV>) -> Seq<u8>
    decreases s.len(),
{
    if s.len() == 0 {
        Seq::<u8>::empty()
    } else {
        spec_encode_node(s[0]) + spec_encode_nodes(s.drop_first())
    }
}

/// Prefix a collected list onto a parse outcome.
pub open spec fn parsed_prepend<T>(pre: Seq<T>, r: Parsed<Seq<T>>) -> Parsed<Seq<T>> {
    match r {
        Parsed::Found(s, p) => Parsed::Found(pre + s, p),
        Parsed::Short => Parsed::Short,
        Parsed::Bad => Parsed::Bad,
    }
}

/// `count` records, one after the other, in wire order.
pub open spec fn spec_parse_nodes(b: Seq<u8>, pos: int, count: int) -> Parsed<Seq<NodeV>>
    decreases count,
{
    if count <= 0 {
        Parsed::Found(Seq::<NodeV>::empty(), pos)
    } else {
        match spec_parse_node(b, pos) {
            Parsed::Found(n, p) => parsed_prepend(seq![n], spec_parse_nodes(b, p, count - 1)),
            Parsed::Short => Parsed::Short,
            Parsed::Bad => Parsed::Bad,
        }
    }
}

pub proof fn lemma_encode_nodes_push(s: Seq<NodeV>, n: NodeV)
    ensures
        spec_encode_nodes(s.push(n)) == spec_encode_nodes(s) + spec_encode_node(n),
    decreases s.len(),
{
    if s.len() == 0 {
        assert(s.push(n)[0] == n);
        assert(s.push(n).drop_first() =~= Seq::<NodeV>::empty());
        assert(spec_encode_nodes(Seq::<NodeV>::empty()) == Seq::<u8>::empty());
        assert(spec_encode_nodes(s.push(n)) =~= spec_encode_nodes(s) + spec_encode_node(n));
    } else {
        assert(s.push(n)[0] == s[0]);
        assert(s.push(n).drop_first() =~= s.drop_first().push(n));
        lemma_encode_nodes_push(s.drop_first(), n);
        assert(spec_encode_nodes(s.push(n)) =~= spec_encode_nodes(s) + spec_encode_node(n));
    }
}

/// True iff the record's metadata fits the wire.
pub fn check_encodable(n: &Node) -> (r: bool)
    ensures
        r == meta_encodable(n@.meta),
{
    let mcount = n.metadata.len();
    if mcount > 0xffff {
        return false;
    }
    let mut i: usize = 0;
    while i < mcount
        invariant
            i <= mcount,
            mcount == n.metadata@.len(),
            forall|j: int|
                0 <= j < i ==> (#[trigger] n@.meta[j]).0.len() <= 255 && n@.meta[j].1.len() <= 255,
        decreases mcount - i,
    {
        if n.metadata[i].key.len() > 255 || n.metadata[i].value.len() > 255 {
            proof {
                assert(n@.meta[i as int] == (n.metadata@[i as int].key@,
                n.metadata@[i as int].value@));
            }
            return false;
        }
        i = i + 1;
    }
    true
}

/// Append the wire form of a record list; refused whole when any record
/// does not fit the wire, leaving `out` untouched.
pub fn write_nodes(nodes: &Vec<Node>, out: &mut Vec<u8>) -> (r: Result<(), SwarmError>)
    requires
        nodes_all_wf(nodes_views(nodes@)),
    ensures
        match r {
            Ok(()) => nodes_encodable(nodes_views(nodes@)) && final(out)@ == old(out)@
                + spec_encode_nodes(nodes_views(nodes@)),
            Err(e) => e == SwarmError::Protocol && !nodes_encodable(nodes_views(nodes@))
                && final(out)@ == old(out)@,
        },
{
    let ghost s = nodes_views(nodes@);
    let n = nodes.len();
    let mut i: usize = 0;
    while i < n
        invariant
            i <= n,
            n == nodes@.len(),
            s == nodes_views(nodes@),
            forall|j: int| 0 <= j < i ==> meta_encodable((#[trigger] s[j]).meta),
        decreases n - i,
    {
        if !check_encodable(&nodes[i]) {
            proof {
                assert(s[i as int] == nodes@[i as int]@);
            }
            return Err(SwarmError::Protocol);
        }
        proof {
            assert(s[i as int] == nodes@[i as int]@);
        }
        i = i + 1;
    }
    let mut j: usize = 0;
    proof {
        assert(spec_encode_nodes(s.subrange(0, 0)) == Seq::<u8>::empty());
        assert(out@ =~= old(out)@ + spec_encode_nodes(s.subrange(0, 0)));
    }
    while j < n
        invariant
            j <= n,
            n == nodes@.len(),
            s == nodes_views(nodes@),
            nodes_all_wf(s),
            nodes_encodable(s),
            out@ == old(out)@ + spec_encode_nodes(s.subrange(0, j as int)),
        decreases n - j,
    {
        proof {
            assert(s[j as int] == nodes@[j as int]@);
        }
        match nodes[j].write(out) {
            Ok(()) => {},
            Err(e) => {
                proof {
                    assert(false);
                }
                return Err(e);
            },
        }
        proof {
            assert(s.subrange(0, j + 1) =~= s.subrange(0, j as int).push(s[j as int]));
            lemma_encode_nodes_push(s.subrange(0, j as int), s[j as int]);
        }
        j = j + 1;
    }
    proof {
        assert(s.subrange(0, n as int) =~= s);
    }
    Ok(())
}

/// Read `count` records.
pub fn read_nodes(buf: &Vec<u8>, pos: usize, count: u16) -> (r: Result<
    (Vec<Node>, usize),
    SwarmError,
>)
    ensures
        match r {
            Ok(np) => {
                &&& spec_parse_nodes(buf@, pos as int, count as int) == Parsed::Found(
                    nodes_views(np.0@),
                    np.1 as int,
                )
                &&& nodes_all_wf(nodes_views(np.0@))
            },
            Err(e) => {
                &&& (e == SwarmError::Io || e == SwarmError::Protocol)
                &&& (e == SwarmError::Io <==> spec_parse_nodes(buf@, pos as int, count as int)
                    == Parsed::<Seq<NodeV>>::Short)
                &&& (e == SwarmError::Protocol <==> spec_parse_nodes(buf@, pos as int, count as int)
                    == Parsed::<Seq<NodeV>>::Bad)
            },
        },
{
    let mut nodes: Vec<Node> = Vec::new();
    let mut p = pos;
    let mut i: u16 = 0;
    proof {
        assert(nodes_views(nodes@) =~= Seq::<NodeV>::empty());
    }
    while i < count
        invariant
            i <= count,
            nodes_views(nodes@).len() == i as int,
            nodes_all_wf(nodes_views(nodes@)),
            spec_parse_nodes(buf@, pos as int, count as int) == parsed_prepend(
                nodes_views(nodes@),
                spec_parse_nodes(buf@, p as int, count - i),
            ),
        decreases count - i,
    {
        let ghost pre = nodes_views(nodes@);
        let ghost prev = nodes@;
        let (node, pn) = match Node::read(buf, p) {
            Ok(x) => x,
            Err(e) => {
                return Err(e);
            },
        };
        let ghost nv = node@;
        nodes.push(node);
        proof {
            assert(nodes_views(nodes@) =~= pre.push(nv)) by {
                assert(nodes@ == prev.push(node));
                assert(forall|k: int|
                    0 <= k < nodes@.len() ==> nodes_views(nodes@)[k] == (#[trigger] nodes@[k])@);
                assert(forall|k: int| 0 <= k < prev.len() ==> pre[k] == (#[trigger] prev[k])@);
            }
            let rest = spec_parse_nodes(buf@, pn as int, count - (i + 1));
            assert(spec_parse_nodes(buf@, p as int, count - i) == parsed_prepend(seq![nv], rest));
            match rest {
                Parsed::Found(rs, rp) => {
                    assert(pre + (seq![nv] + rs) =~= pre.push(nv) + rs);
                },
                Parsed::Short => {},
                Parsed::Bad => {},
            }
        }
        p = pn;
        i = i + 1;
    }
    proof {
        assert(spec_parse_nodes(buf@, p as int, 0) == Parsed::Found(Seq::<NodeV>::empty(), p as int));
        assert(nodes_views(nodes@) + Seq::<NodeV>::empty() =~= nodes_views(nodes@));
    }
    Ok((nodes, p))
}

// ---------------------------------------------------------------------------
// Token lists.
// ---------------------------------------------------------------------------

/// Wire form of one ring entry: big-endian token then big-endian owner id.
pub open spec fn spec_encode_token(t: TokenEntry) -> Seq<u8> {
    spec_be64(t.token) + spec_be32(t.id)
}

pub open spec fn spec_encode_tokens(s: Seq<TokenEntry>) -> Seq<u8>
    decreases s.len(),
{
    if s.len() == 0 {
        Seq::<u8>::empty()
    } else {
        spec_encode_token(s[0]) + spec_encode_tokens(s.drop_first())
    }
}

pub open spec fn spec_parse_tokens(b: Seq<u8>, pos: int, count: int) -> Parsed<Seq<TokenEntry>>
    decreases count,
{
    if count <= 0 {
        Parsed::Found(Seq::<TokenEntry>::empty(), pos)
    } else {
        match spec_parse_u64(b, pos) {
            Parsed::Found(token, p1) => match spec_parse_u32(b, p1) {
                Parsed::Found(id, p2) => parsed_prepend(
                    seq![TokenEntry { token, id }],
                    spec_parse_tokens(b, p2, count - 1),
                ),
                _ => Parsed::Short,
            },
            _ => Parsed::Short,
        }
    }
}

pub proof fn lemma_encode_tokens_push(s: Seq<TokenEntry>, t: TokenEntry)
    ensures
        spec_encode_tokens(s.push(t)) == spec_encode_tokens(s) + spec_encode_token(t),
    decreases s.len(),
{
    if s.len() == 0 {
        assert(s.push(t)[0] == t);
        assert(s.push(t).drop_first() =~= Seq::<TokenEntry>::empty());
        assert(spec_encode_tokens(Seq::<TokenEntry>::empty()) == Seq::<u8>::empty());
        assert(spec_encode_tokens(s.push(t)) =~= spec_encode_tokens(s) + spec_encode_token(t));
    } else {
        assert(s.push(t)[0] == s[0]);
        assert(s.push(t).drop_first() =~= s.drop_first().push(t));
        lemma_encode_tokens_push(s.drop_first(), t);
        assert(spec_encode_tokens(s.push(t)) =~= spec_encode_tokens(s) + spec_encode_token(t));
    }
}

/// Append the wire form of a token list.
pub fn write_tokens(tokens: &Vec<TokenEntry>, out: &mut Vec<u8>)
    ensures
        final(out)@ == old(out)@ + spec_encode_tokens(tokens@),
{
    let n = tokens.len();
    let mut i: usize = 0;
    proof {
        assert(spec_encode_tokens(tokens@.subrange(0, 0)) == Seq::<u8>::empty());
        assert(out@ =~= old(out)@ + spec_encode_tokens(tokens@.subrange(0, 0)));
    }
    while i < n
        invariant
            i <= n,
            n == tokens@.len(),
            out@ == old(out)@ + spec_encode_tokens(tokens@.subrange(0, i as int)),
        decreases n - i,
    {
        write_u64(out, tokens[i].token);
        write_u32(out, tokens[i].id);
        proof {
            assert(tokens@.subrange(0, i + 1) =~= tokens@.subrange(0, i as int).push(
                tokens@[i as int],
            ));
            lemma_encode_tokens_push(tokens@.subrange(0, i as int), tokens@[i as int]);
            assert(out@ =~= old(out)@ + spec_encode_tokens(tokens@.subrange(0, i + 1)));
        }
        i = i + 1;
    }
    proof {
        assert(tokens@.subrange(0, n as int) =~= tokens@);
    }
}

/// Read `count` ring entries.
pub fn read_tokens(buf: &Vec<u8>, pos: usize, count: u16) -> (r: Result<
    (Vec<TokenEntry>, usize),
    SwarmError,
>)
    ensures
        match r {
            Ok(tp) => spec_parse_tokens(buf@, pos as int, count as int) == Parsed::Found(
                tp.0@,
                tp.1 as int,
            ),
            Err(e) => e == SwarmError::Io && spec_parse_tokens(buf@, pos as int, count as int)
                == Parsed::<Seq<TokenEntry>>::Short,
        },
{
    let mut tokens: Vec<TokenEntry> = Vec::new();
    let mut p = pos;
    let mut i: u16 = 0;
    while i < count
        invariant
            i <= count,
            tokens@.len() == i as int,
            spec_parse_tokens(buf@, pos as int, count as int) == parsed_prepend(
                tokens@,
                spec_parse_tokens(buf@, p as int, count - i),
            ),
        decreases count - i,
    {
        let ghost pre = tokens@;
        let (token, p1) = match read_u64(buf, p) {
            Ok(x) => x,
            Err(e) => {
                return Err(e);
            },
        };
        let (id, p2) = match read_u32(buf, p1) {
            Ok(x) => x,
            Err(e) => {
                return Err(e);
            },
        };
        let entry = TokenEntry { token, id };
        tokens.push(entry);
        proof {
            let rest = spec_parse_tokens(buf@, p2 as int, count - (i + 1));
            assert(spec_parse_tokens(buf@, p as int, count - i) == parsed_prepend(
                seq![entry],
                rest,
            ));
            match rest {
                Parsed::Found(rs, rp) => {
                    assert(pre + (seq![entry] + rs) =~= pre.push(entry) + rs);
                },
                Parsed::Short => {},
                Parsed::Bad => {},
            }
        }
        p = p2;
        i = i + 1;
    }
    proof {
        assert(spec_parse_tokens(buf@, p as int, 0) == Parsed::Found(
            Seq::<TokenEntry>::empty(),
            p as int,
        ));
        assert(tokens@ + Seq::<TokenEntry>::empty() =~= tokens@);
    }
    Ok((tokens, p))
}

// ---------------------------------------------------------------------------
// Requests.
// ---------------------------------------------------------------------------

/// A request: the requester's own record, then its membership digest, then
/// its token digest.
pub open spec fn spec_encode_request(n: NodeV, h_nodes: u64, h_tokens: u64) -> Seq<u8> {
    spec_encode_node(n) + spec_be64(h_nodes) + spec_be64(h_tokens)
}

pub open spec fn spec_parse_request(b: Seq<u8>, pos: int) -> Parsed<(NodeV, u64, u64)> {
    match spec_parse_node(b, pos) {
        Parsed::Found(n, p1) => match spec_parse_u64(b, p1) {
            Parsed::Found(h1, p2) => match spec_parse_u64(b, p2) {
                Parsed::Found(h2, p3) => Parsed::Found((n, h1, h2), p3),
                _ => Parsed::Short,
            },
            _ => Parsed::Short,
        },
        Parsed::Short => Parsed::Short,
        Parsed::Bad => Parsed::Bad,
    }
}

/// Build the request bytes; refused when the record does not fit the wire.
pub fn encode_request(node: &Node, h_nodes: u64, h_tokens: u64) -> (r: Result<Vec<u8>, SwarmError>)
    requires
        node_wf(node@),
    ensures
        match r {
            Ok(buf) => meta_encodable(node@.meta) && buf@ == spec_encode_request(
                node@,
                h_nodes,
                h_tokens,
            ),
            Err(e) => e == SwarmError::Protocol && !meta_encodable(node@.meta),
        },
{
    let mut buf: Vec<u8> = Vec::new();
    match node.write(&mut buf) {
        Ok(()) => {},
        Err(e) => {
            return Err(e);
        },
    }
    write_u64(&mut buf, h_nodes);
    write_u64(&mut buf, h_tokens);
    proof {
        assert(buf@ =~= spec_encode_request(node@, h_nodes, h_tokens));
    }
    Ok(buf)
}

/// Take a request apart. `Io` marks a buffer still too short (more bytes
/// may complete it); `Protocol` a malformed frame.
pub fn decode_request(buf: &Vec<u8>) -> (r: Result<((Node, u64, u64), usize), SwarmError>)
    ensures
        match r {
            Ok(x) => {
                &&& node_wf(x.0.0@)
                &&& spec_parse_request(buf@, 0) == Parsed::Found(
                    (x.0.0@, x.0.1, x.0.2),
                    x.1 as int,
                )
            },
            Err(e) => {
                &&& (e == SwarmError::Io || e == SwarmError::Protocol)
                &&& (e == SwarmError::Io <==> spec_parse_request(buf@, 0) == Parsed::<
                    (NodeV, u64, u64),
                >::Short)
                &&& (e == SwarmError::Protocol <==> spec_parse_request(buf@, 0) == Parsed::<
                    (NodeV, u64, u64),
                >::Bad)
            },
        },
{
    let (node, p1) = match Node::read(buf, 0) {
        Ok(x) => x,
        Err(e) => {
            return Err(e);
        },
    };
    let (h1, p2) = match read_u64(buf, p1) {
        Ok(x) => x,
        Err(e) => {
            return Err(e);
        },
    };
    let (h2, p3) = match read_u64(buf, p2) {
        Ok(x) => x,
        Err(e) => {
            return Err(e);
        },
    };
    Ok(((node, h1, h2), p3))
}

/// The cluster variant's request: the record and the membership digest
/// alone.
pub open spec fn spec_encode_request_cluster(n: NodeV, h_nodes: u64) -> Seq<u8> {
    spec_encode_node(n) + spec_be64(h_nodes)
}

pub open spec fn spec_parse_request_cluster(b: Seq<u8>, pos: int) -> Parsed<(NodeV, u64)> {
    match spec_parse_node(b, pos) {
        Parsed::Found(n, p1) => match spec_parse_u64(b, p1) {
            Parsed::Found(h1, p2) => Parsed::Found((n, h1), p2),
            _ => Parsed::Short,
        },
        Parsed::Short => Parsed::Short,
        Parsed::Bad => Parsed::Bad,
    }
}

pub fn encode_request_cluster(node: &Node, h_nodes: u64) -> (r: Result<Vec<u8>, SwarmError>)
    requires
        node_wf(node@),
    ensures
        match r {
            Ok(buf) => meta_encodable(node@.meta) && buf@ == spec_encode_request_cluster(
                node@,
                h_nodes,
            ),
            Err(e) => e == SwarmError::Protocol && !meta_encodable(node@.meta),
        },
{
    let mut buf: Vec<u8> = Vec::new();
    match node.write(&mut buf) {
        Ok(()) => {},
        Err(e) => {
            return Err(e);
        },
    }
    write_u64(&mut buf, h_nodes);
    proof {
        assert(buf@ =~= spec_encode_request_cluster(node@, h_nodes));
    }
    Ok(buf)
}

pub fn decode_request_cluster(buf: &Vec<u8>) -> (r: Result<((Node, u64), usize), SwarmError>)
    ensures
        match r {
            Ok(x) => {
                &&& node_wf(x.0.0@)
                &&& spec_parse_request_cluster(buf@, 0) == Parsed::Found(
                    (x.0.0@, x.0.1),
                    x.1 as int,
                )
            },
            Err(e) => {
                &&& (e == SwarmError::Io || e == SwarmError::Protocol)
                &&& (e == SwarmError::Io <==> spec_parse_request_cluster(buf@, 0) == Parsed::<
                    (NodeV, u64),
                >::Short)
                &&& (e == SwarmError::Protocol <==> spec_parse_request_cluster(buf@, 0)
                    == Parsed::<(NodeV, u64)>::Bad)
            },
        },
{
    let (node, p1) = match Node::read(buf, 0) {
        Ok(x) => x,
        Err(e) => {
            return Err(e);
        },
    };
    let (h1, p2) = match read_u64(buf, p1) {
        Ok(x) => x,
        Err(e) => {
            return Err(e);
        },
    };
    Ok(((node, h1), p2))
}

// ---------------------------------------------------------------------------
// Replies.
// ---------------------------------------------------------------------------

/// A reply: a record section and a token section, each a 16-bit count then
/// the entries. A suppressed section is a count of zero and nothing else.
pub open spec fn spec_encode_reply(ns: Seq<NodeV>, ts: Seq<TokenEntry>) -> Seq<u8> {
    spec_be16(ns.len() as u16) + spec_encode_nodes(ns) + spec_be16(ts.len() as u16)
        + spec_encode_tokens(ts)
}

pub open spec fn spec_parse_reply(b: Seq<u8>, pos: int) -> Parsed<(Seq<NodeV>, Seq<TokenEntry>)> {
    match spec_parse_u16(b, pos) {
        Parsed::Found(nc, p1) => match spec_parse_nodes(b, p1, nc as int) {
            Parsed::Found(ns, p2) => match spec_parse_u16(b, p2) {
                Parsed::Found(tc, p3) => match spec_parse_tokens(b, p3, tc as int) {
                    Parsed::Found(ts, p4) => Parsed::Found((ns, ts), p4),
                    _ => Parsed::Short,
                },
                _ => Parsed::Short,
            },
            Parsed::Short => Parsed::Short,
            Parsed::Bad => Parsed::Bad,
        },
        _ => Parsed::Short,
    }
}

/// Build the reply bytes; refused when a section overflows its 16-bit
/// count or a record does not fit the wire.
pub fn encode_reply(nodes: &Vec<Node>, tokens: &Vec<TokenEntry>) -> (r: Result<
    Vec<u8>,
    SwarmError,
>)
    requires
        nodes_all_wf(nodes_views(nodes@)),
    ensures
        match r {
            Ok(buf) => {
                &&& nodes@.len() <= 0xffff
                &&& tokens@.len() <= 0xffff
                &&& nodes_encodable(nodes_views(nodes@))
                &&& buf@ == spec_encode_reply(nodes_views(nodes@), tokens@)
            },
            Err(e) => e == SwarmError::Protocol && (nodes@.len() > 0xffff || tokens@.len() > 0xffff
                || !nodes_encodable(nodes_views(nodes@))),
        },
{
    if nodes.len() > 0xffff || tokens.len() > 0xffff {
        return Err(SwarmError::Protocol);
    }
    let mut buf: Vec<u8> = Vec::new();
    write_u16(&mut buf, nodes.len() as u16);
    match write_nodes(nodes, &mut buf) {
        Ok(()) => {},
        Err(e) => {
            return Err(e);
        },
    }
    write_u16(&mut buf, tokens.len() as u16);
    write_tokens(tokens, &mut buf);
    proof {
        assert(buf@ =~= spec_encode_reply(nodes_views(nodes@), tokens@));
    }
    Ok(buf)
}

/// Take a reply apart.
pub fn decode_reply(buf: &Vec<u8>) -> (r: Result<
    ((Vec<Node>, Vec<TokenEntry>), usize),
    SwarmError,
>)
    ensures
        match r {
            Ok(x) => {
                &&& nodes_all_wf(nodes_views(x.0.0@))
                &&& spec_parse_reply(buf@, 0) == Parsed::Found(
                    (nodes_views(x.0.0@), x.0.1@),
                    x.1 as int,
                )
            },
            Err(e) => {
                &&& (e == SwarmError::Io || e == SwarmError::Protocol)
                &&& (e == SwarmError::Io <==> spec_parse_reply(buf@, 0) == Parsed::<
                    (Seq<NodeV>, Seq<TokenEntry>),
                >::Short)
                &&& (e == SwarmError::Protocol <==> spec_parse_reply(buf@, 0) == Parsed::<
                    (Seq<NodeV>, Seq<TokenEntry>),
                >::Bad)
            },
        },
{
    let (nc, p1) = match read_u16(buf, 0) {
        Ok(x) => x,
        Err(e) => {
            return Err(e);
        },
    };
    let (nodes, p2) = match read_nodes(buf, p1, nc) {
        Ok(x) => x,
        Err(e) => {
            return Err(e);
        },
    };
    let (tc, p3) = match read_u16(buf, p2) {
        Ok(x) => x,
        Err(e) => {
            return Err(e);
        },
    };
    let (tokens, p4) = match read_tokens(buf, p3, tc) {
        Ok(x) => x,
        Err(e) => {
            return Err(e);
        },
    };
    Ok(((nodes, tokens), p4))
}

/// The cluster variant's reply: the record section alone.
pub open spec fn spec_encode_reply_cluster(ns: Seq<NodeV>) -> Seq<u8> {
    spec_be16(ns.len() as u16) + spec_encode_nodes(ns)
}

pub open spec fn spec_parse_reply_cluster(b: Seq<u8>, pos: int) -> Parsed<Seq<NodeV>> {
    match spec_parse_u16(b, pos) {
        Parsed::Found(nc, p1) => spec_parse_nodes(b, p1, nc as int),
        _ => Parsed::Short,
    }
}

pub fn encode_reply_cluster(nodes: &Vec<Node>) -> (r: Result<Vec<u8>, SwarmError>)
    requires
        nodes_all_wf(nodes_views(nodes@)),
    ensures
        match r {
            Ok(buf) => {
                &&& nodes@.len() <= 0xffff
                &&& nodes_encodable(nodes_views(nodes@))
                &&& buf@ == spec_encode_reply_cluster(nodes_views(nodes@))
            },
            Err(e) => e == SwarmError::Protocol && (nodes@.len() > 0xffff || !nodes_encodable(
                nodes_views(nodes@),
            )),
        },
{
    if nodes.len() > 0xffff {
        return Err(SwarmError::Protocol);
    }
    let mut buf: Vec<u8> = Vec::new();
    write_u16(&mut buf, nodes.len() as u16);
    match write_nodes(nodes, &mut buf) {
        Ok(()) => {},
        Err(e) => {
            return Err(e);
        },
    }
    proof {
        assert(buf@ =~= spec_encode_reply_cluster(nodes_views(nodes@)));
    }
    Ok(buf)
}

pub fn decode_reply_cluster(buf: &Vec<u8>) -> (r: Result<(Vec<Node>, usize), SwarmError>)
    ensures
        match r {
            Ok(x) => {
                &&& nodes_all_wf(nodes_views(x.0@))
                &&& spec_parse_reply_cluster(buf@, 0) == Parsed::Found(
                    nodes_views(x.0@),
                    x.1 as int,
                )
            },
            Err(e) => {
                &&& (e == SwarmError::Io || e == SwarmError::Protocol)
                &&& (e == SwarmError::Io <==> spec_parse_reply_cluster(buf@, 0) == Parsed::<
                    Seq<NodeV>,
                >::Short)
                &&& (e == SwarmError::Protocol <==> spec_parse_reply_cluster(buf@, 0) == Parsed::<
                    Seq<NodeV>,
                >::Bad)
            },
        },
{
    let (nc, p1) = match read_u16(buf, 0) {
        Ok(x) => x,
        Err(e) => {
            return Err(e);
        },
    };
    let (nodes, p2) = match read_nodes(buf, p1, nc) {
        Ok(x) => x,
        Err(e) => {
            return Err(e);
        },
    };
    Ok((nodes, p2))
}

// ---------------------------------------------------------------------------
// Round trips: a written message reads back identically.
// ---------------------------------------------------------------------------

/// One ring entry's encoding sitting at `pos` parses to its two integers.
proof fn lemma_parse_token_entry_at(b: Seq<u8>, pos: int, t: TokenEntry)
    requires
        0 <= pos,
        pos + 12 <= b.len(),
        b.subrange(pos, pos + 12) == spec_encode_token(t),
    ensures
        spec_parse_u64(b, pos) == Parsed::Found(t.token, pos + 8),
        spec_parse_u32(b, pos + 8) == Parsed::Found(t.id, pos + 12),
{
    let e = spec_encode_token(t);
    let sub = b.subrange(pos, pos + 12);
    assert(sub[0] == b[pos] && sub[1] == b[pos + 1] && sub[2] == b[pos + 2] && sub[3] == b[pos + 3]
        && sub[4] == b[pos + 4] && sub[5] == b[pos + 5] && sub[6] == b[pos + 6] && sub[7] == b[pos
        + 7] && sub[8] == b[pos + 8] && sub[9] == b[pos + 9] && sub[10] == b[pos + 10] && sub[11]
        == b[pos + 11]);
    assert(e[0] == spec_be64(t.token)[0] && e[1] == spec_be64(t.token)[1] && e[2] == spec_be64(
        t.token,
    )[2] && e[3] == spec_be64(t.token)[3] && e[4] == spec_be64(t.token)[4] && e[5] == spec_be64(
        t.token,
    )[5] && e[6] == spec_be64(t.token)[6] && e[7] == spec_be64(t.token)[7]);
    assert(e[8] == spec_be32(t.id)[0] && e[9] == spec_be32(t.id)[1] && e[10] == spec_be32(t.id)[2]
        && e[11] == spec_be32(t.id)[3]);
    crate::codec::lemma_parse_u64_at(b, pos, t.token);
    crate::codec::lemma_parse_u32_at(b, pos + 8, t.id);
}

/// A token-list encoding sitting at `pos` parses to the list it encodes.
#[verifier::rlimit(100)]
pub proof fn lemma_parse_tokens_encoded(b: Seq<u8>, pos: int, s: Seq<TokenEntry>)
    requires
        0 <= pos,
        pos + spec_encode_tokens(s).len() <= b.len(),
        b.subrange(pos, pos + spec_encode_tokens(s).len()) == spec_encode_tokens(s),
    ensures
        spec_parse_tokens(b, pos, s.len() as int) == Parsed::Found(
            s,
            pos + spec_encode_tokens(s).len(),
        ),
    decreases s.len(),
{
    if s.len() == 0 {
        assert(s =~= Seq::<TokenEntry>::empty());
        assert(spec_encode_tokens(s).len() == 0);
    } else {
        let t = s[0];
        let e = spec_encode_tokens(s);
        let et = spec_encode_tokens(s.drop_first());
        assert(e == spec_encode_token(t) + et);
        let lt = et.len() as int;
        let sub = b.subrange(pos, pos + e.len());
        assert(b.subrange(pos, pos + 12) =~= spec_encode_token(t)) by {
            assert(forall|j: int|
                0 <= j < 12 ==> #[trigger] b.subrange(pos, pos + 12)[j] == b[pos + j] && sub[j]
                    == b[pos + j] && e[j] == spec_encode_token(t)[j]);
        }
        lemma_parse_token_entry_at(b, pos, t);
        assert(b.subrange(pos + 12, pos + 12 + lt) =~= et) by {
            assert(forall|j: int|
                0 <= j < lt ==> #[trigger] b.subrange(pos + 12, pos + 12 + lt)[j] == b[pos + 12 + j]
                    && sub[12 + j] == b[pos + 12 + j] && e[12 + j] == et[j]);
        }
        lemma_parse_tokens_encoded(b, pos + 12, s.drop_first());
        assert(seq![t] + s.drop_first() =~= s);
        assert(spec_parse_tokens(b, pos, s.len() as int) == parsed_prepend(
            seq![t],
            spec_parse_tokens(b, pos + 12, s.len() - 1),
        ));
    }
}

/// A record-list encoding sitting at `pos` parses to the list it encodes.
#[verifier::rlimit(100)]
pub proof fn lemma_parse_nodes_encoded(b: Seq<u8>, pos: int, s: Seq<NodeV>)
    requires
        0 <= pos,
        nodes_all_wf(s),
        nodes_encodable(s),
        pos + spec_encode_nodes(s).len() <= b.len(),
        b.subrange(pos, pos + spec_encode_nodes(s).len()) == spec_encode_nodes(s),
    ensures
        spec_parse_nodes(b, pos, s.len() as int) == Parsed::Found(
            s,
            pos + spec_encode_nodes(s).len(),
        ),
    decreases s.len(),
{
    if s.len() == 0 {
        assert(s =~= Seq::<NodeV>::empty());
        assert(spec_encode_nodes(s).len() == 0);
    } else {
        let n = s[0];
        let e = spec_encode_nodes(s);
        let en = spec_encode_node(n);
        let et = spec_encode_nodes(s.drop_first());
        assert(e == en + et);
        let ln = en.len() as int;
        let lt = et.len() as int;
        assert(forall|j: int| 0 <= j < e.len() ==> b.subrange(pos, pos + e.len())[j]
            == #[trigger] b[pos + j]);
        assert(b.subrange(pos, pos + ln) =~= en) by {
            assert(forall|j: int|
                0 <= j < ln ==> #[trigger] b.subrange(pos, pos + ln)[j] == b[pos + j] && b[pos + j]
                    == e[j] && e[j] == en[j]);
        }
        lemma_parse_node_at(b, pos, n);
        assert(b.subrange(pos + ln, pos + ln + lt) =~= et) by {
            assert(forall|j: int|
                0 <= j < lt ==> #[trigger] b.subrange(pos + ln, pos + ln + lt)[j] == b[pos + ln + j]
                    && b[pos + ln + j] == e[ln + j] && e[ln + j] == et[j]);
        }
        assert(nodes_all_wf(s.drop_first()) && nodes_encodable(s.drop_first())) by {
            assert(forall|i: int| 0 <= i < s.drop_first().len() ==> #[trigger] s.drop_first()[i]
                == s[i + 1]);
        }
        lemma_parse_nodes_encoded(b, pos + ln, s.drop_first());
        assert(seq![n] + s.drop_first() =~= s);
        assert(spec_parse_nodes(b, pos, s.len() as int) == parsed_prepend(
            seq![n],
            spec_parse_nodes(b, pos + ln, s.len() - 1),
        ));
    }
}

/// Round trip for requests: decoding an encoded request yields the record
/// and both digests unchanged.
#[verifier::rlimit(100)]
pub proof fn lemma_request_round_trip(n: NodeV, h_nodes: u64, h_tokens: u64)
    requires
        node_wf(n),
        meta_encodable(n.meta),
    ensures
        spec_parse_request(spec_encode_request(n, h_nodes, h_tokens), 0) == Parsed::Found(
            (n, h_nodes, h_tokens),
            spec_encode_request(n, h_nodes, h_tokens).len() as int,
        ),
{
    let b = spec_encode_request(n, h_nodes, h_tokens);
    let en = spec_encode_node(n);
    let ln = en.len() as int;
    assert(b.subrange(0, ln) =~= en) by {
        assert(forall|j: int| 0 <= j < ln ==> #[trigger] b.subrange(0, ln)[j] == b[j] && b[j]
            == en[j]);
    }
    lemma_parse_node_at(b, 0, n);
    assert(b[ln] == spec_be64(h_nodes)[0] && b[ln + 1] == spec_be64(h_nodes)[1] && b[ln + 2]
        == spec_be64(h_nodes)[2] && b[ln + 3] == spec_be64(h_nodes)[3] && b[ln + 4] == spec_be64(
        h_nodes,
    )[4] && b[ln + 5] == spec_be64(h_nodes)[5] && b[ln + 6] == spec_be64(h_nodes)[6] && b[ln + 7]
        == spec_be64(h_nodes)[7]);
    assert(b[ln + 8] == spec_be64(h_tokens)[0] && b[ln + 9] == spec_be64(h_tokens)[1] && b[ln + 10]
        == spec_be64(h_tokens)[2] && b[ln + 11] == spec_be64(h_tokens)[3] && b[ln + 12]
        == spec_be64(h_tokens)[4] && b[ln + 13] == spec_be64(h_tokens)[5] && b[ln + 14]
        == spec_be64(h_tokens)[6] && b[ln + 15] == spec_be64(h_tokens)[7]);
    crate::codec::lemma_parse_u64_at(b, ln, h_nodes);
    crate::codec::lemma_parse_u64_at(b, ln + 8, h_tokens);
}

/// Round trip for the cluster variant's requests.
#[verifier::rlimit(100)]
pub proof fn lemma_request_cluster_round_trip(n: NodeV, h_nodes: u64)
    requires
        node_wf(n),
        meta_encodable(n.meta),
    ensures
        spec_parse_request_cluster(spec_encode_request_cluster(n, h_nodes), 0) == Parsed::Found(
            (n, h_nodes),
            spec_encode_request_cluster(n, h_nodes).len() as int,
        ),
{
    let b = spec_encode_request_cluster(n, h_nodes);
    let en = spec_encode_node(n);
    let ln = en.len() as int;
    assert(b.subrange(0, ln) =~= en) by {
        assert(forall|j: int| 0 <= j < ln ==> #[trigger] b.subrange(0, ln)[j] == b[j] && b[j]
            == en[j]);
    }
    lemma_parse_node_at(b, 0, n);
    assert(b[ln] == spec_be64(h_nodes)[0] && b[ln + 1] == spec_be64(h_nodes)[1] && b[ln + 2]
        == spec_be64(h_nodes)[2] && b[ln + 3] == spec_be64(h_nodes)[3] && b[ln + 4] == spec_be64(
        h_nodes,
    )[4] && b[ln + 5] == spec_be64(h_nodes)[5] && b[ln + 6] == spec_be64(h_nodes)[6] && b[ln + 7]
        == spec_be64(h_nodes)[7]);
    crate::codec::lemma_parse_u64_at(b, ln, h_nodes);
}

/// Round trip for replies: decoding an encoded reply yields both sections
/// unchanged.
#[verifier::rlimit(100)]
pub proof fn lemma_reply_round_trip(ns: Seq<NodeV>, ts: Seq<TokenEntry>)
    requires
        nodes_all_wf(ns),
        nodes_encodable(ns),
        ns.len() <= 0xffff,
        ts.len() <= 0xffff,
    ensures
        spec_parse_reply(spec_encode_reply(ns, ts), 0) == Parsed::Found(
            (ns, ts),
            spec_encode_reply(ns, ts).len() as int,
        ),
{
    let b = spec_encode_reply(ns, ts);
    let c1 = spec_be16(ns.len() as u16);
    let en = spec_encode_nodes(ns);
    let c2 = spec_be16(ts.len() as u16);
    let et = spec_encode_tokens(ts);
    let ln = en.len() as int;
    let lt = et.len() as int;
    assert(b == c1 + en + c2 + et);
    crate::codec::lemma_concat4_slices(c1, en, c2, et);
    assert(b[0] == c1[0] && b[1] == c1[1]) by {
        let s = b.subrange(0, 2);
        assert(s[0] == b[0] && s[1] == b[1]);
    }
    crate::codec::lemma_parse_u16_at(b, 0, ns.len() as u16);
    assert((ns.len() as u16) as int == ns.len());
    lemma_parse_nodes_encoded(b, 2, ns);
    assert(b[2 + ln] == c2[0] && b[2 + ln + 1] == c2[1]) by {
        let s = b.subrange(2 + ln, 2 + ln + 2);
        assert(s[0] == b[2 + ln] && s[1] == b[2 + ln + 1]);
    }
    crate::codec::lemma_parse_u16_at(b, 2 + ln, ts.len() as u16);
    assert((ts.len() as u16) as int == ts.len());
    lemma_parse_tokens_encoded(b, 4 + ln, ts);
}

/// Round trip for the cluster variant's replies.
#[verifier::rlimit(100)]
pub proof fn lemma_reply_cluster_round_trip(ns: Seq<NodeV>)
    requires
        nodes_all_wf(ns),
        nodes_encodable(ns),
        ns.len() <= 0xffff,
    ensures
        spec_parse_reply_cluster(spec_encode_reply_cluster(ns), 0) == Parsed::Found(
            ns,
            spec_encode_reply_cluster(ns).len() as int,
        ),
{
    let b = spec_encode_reply_cluster(ns);
    let en = spec_encode_nodes(ns);
    let ln = en.len() as int;
    assert(b[0] == spec_be16(ns.len() as u16)[0] && b[1] == spec_be16(ns.len() as u16)[1]);
    lemma_be16_round_trip(ns.len() as u16);
    assert(spec_parse_u16(b, 0) == Parsed::Found(ns.len() as u16, 2));
    assert((ns.len() as u16) as int == ns.len());
    assert(b.subrange(2, 2 + ln) =~= en) by {
        assert(forall|j: int| 0 <= j < ln ==> #[trigger] b.subrange(2, 2 + ln)[j] == b[2 + j] && b[2
            + j] == en[j]);
    }
    lemma_parse_nodes_encoded(b, 2, ns);
}

} // verus!
