//! Peer selection for a gossip round.
//!
//! With more than one record in the table, a peer is drawn at random from
//! the non-local records; with only the local record, the configured seed
//! address is used; with neither, the round is skipped. The draw itself is
//! the only unverified step: the reduction modulo the non-local count and
//! the walk to the selected record are proved exact.

use vstd::prelude::*;

use crate::node::{NetAddr, Node, NodeV, nodes_views};
use crate::store::{has_member_id, members_sorted};

verus! {

/// Relies on rand::random: draws a value of the standard distribution;
/// nothing is promised of it.
pub assume_specification<T>[ rand::random::<T> ]() -> (r: T)
    where
        rand::distributions::Standard: rand::distributions::Distribution<T>,
;

/// The non-local records, in table order.
pub open spec fn spec_non_local(s: Seq<NodeV>, local: u32) -> Seq<NodeV>
    decreases s.len(),
{
    if s.len() == 0 {
        Seq::<NodeV>::empty()
    } else if s[0].id == local {
        spec_non_local(s.drop_first(), local)
    } else {
        seq![s[0]] + spec_non_local(s.drop_first(), local)
    }
}

/// Every selectable record is a non-local record of the table.
pub proof fn lemma_non_local_elems(s: Seq<NodeV>, local: u32)
    ensures
        forall|x: NodeV|
            #[trigger] spec_non_local(s, local).contains(x) ==> s.contains(x) && x.id != local,
    decreases s.len(),
{
    if s.len() > 0 {
        let st = s.drop_first();
        lemma_non_local_elems(st, local);
        assert(forall|x: NodeV| st.contains(x) ==> #[trigger] s.contains(x)) by {
            assert(forall|i: int|
                0 <= i < st.len() ==> #[trigger] st[i] == s[i + 1] && s.contains(s[i + 1]));
        }
        if s[0].id != local {
            let w = spec_non_local(s, local);
            let wt = spec_non_local(st, local);
            assert(w == seq![s[0]] + wt);
            assert forall|x: NodeV| #[trigger] w.contains(x) implies s.contains(x) && x.id
                != local by {
                let i = choose|i: int| 0 <= i < w.len() && w[i] == x;
                if i == 0 {
                    assert(x == s[0]);
                    assert(s.contains(s[0]));
                } else {
                    assert(w[i] == wt[i - 1]);
                    assert(wt.contains(wt[i - 1]));
                }
            }
        } else {
            assert(spec_non_local(s, local) == spec_non_local(st, local));
        }
    }
}

/// In a strictly sorted table the local record occurs at most once, so the
/// non-local records number one fewer when it is present.
pub proof fn lemma_non_local_len(s: Seq<NodeV>, local: u32)
    requires
        members_sorted(s),
    ensures
        spec_non_local(s, local).len() == if has_member_id(s, local) {
            s.len() - 1
        } else {
            s.len() as int
        },
    decreases s.len(),
{
    if s.len() == 0 {
        if has_member_id(s, local) {
            let i = choose|i: int| 0 <= i < s.len() && s[i].id == local;
        }
    } else {
        let st = s.drop_first();
        assert(members_sorted(st)) by {
            assert(forall|i: int, j: int|
                0 <= i < j < st.len() ==> st[i] == s[i + 1] && st[j] == s[j + 1]);
        }
        lemma_non_local_len(st, local);
        assert(forall|i: int| 0 <= i < st.len() ==> #[trigger] st[i] == s[i + 1]);
        if s[0].id == local {
            assert(!has_member_id(st, local)) by {
                if has_member_id(st, local) {
                    let i = choose|i: int| 0 <= i < st.len() && st[i].id == local;
                    assert(s[0].id < s[i + 1].id);
                }
            }
            assert(has_member_id(s, local));
        } else {
            assert(has_member_id(st, local) <==> has_member_id(s, local)) by {
                if has_member_id(st, local) {
                    let i = choose|i: int| 0 <= i < st.len() && st[i].id == local;
                    assert(s[i + 1].id == local);
                }
                if has_member_id(s, local) {
                    let i = choose|i: int| 0 <= i < s.len() && s[i].id == local;
                    assert(i > 0);
                    assert(st[i - 1].id == local);
                }
            }
        }
    }
}

/// The address of the `index`-th non-local record.
fn peer_at(members: &Vec<Node>, local_id: u32, index: usize) -> (r: NetAddr)
    requires
        index < spec_non_local(nodes_views(members@), local_id).len(),
    ensures
        r@ == spec_non_local(nodes_views(members@), local_id)[index as int].addr,
{
    let ghost s = nodes_views(members@);
    let ghost full = spec_non_local(s, local_id);
    let n = members.len();
    let mut i: usize = 0;
    let mut cnt: usize = 0;
    let ghost mut took = Seq::<NodeV>::empty();
    proof {
        assert(s.skip(0) =~= s);
        assert(took + spec_non_local(s.skip(0), local_id) =~= full);
    }
    while i < n
        invariant
            i <= n,
            n == members@.len(),
            s == nodes_views(members@),
            full == spec_non_local(s, local_id),
            index < full.len(),
            cnt <= index,
            took.len() == cnt as int,
            full == took + spec_non_local(s.skip(i as int), local_id),
        decreases n - i,
    {
        proof {
            assert(s.skip(i as int)[0] == s[i as int]);
            assert(s[i as int] == members@[i as int]@);
            assert(s.skip(i as int).drop_first() =~= s.skip(i + 1));
        }
        if members[i].id != local_id {
            let ghost rest = spec_non_local(s.skip(i + 1), local_id);
            proof {
                assert(spec_non_local(s.skip(i as int), local_id) == seq![s[i as int]] + rest);
            }
            if cnt == index {
                proof {
                    assert(full[index as int] == s[i as int]) by {
                        assert(full == took + (seq![s[i as int]] + rest));
                        assert((took + (seq![s[i as int]] + rest))[took.len() as int]
                            == s[i as int]);
                    }
                }
                return members[i].get_address();
            }
            cnt = cnt + 1;
            proof {
                took = took.push(s[i as int]);
                assert(took + rest =~= full);
            }
        } else {
            proof {
                assert(spec_non_local(s.skip(i as int), local_id) == spec_non_local(
                    s.skip(i + 1),
                    local_id,
                ));
            }
        }
        i = i + 1;
    }
    proof {
        assert(s.skip(n as int) =~= Seq::<NodeV>::empty());
        assert(full =~= took);
        assert(false);
    }
    NetAddr { octets: Vec::new(), port: 0 }
}

/// One peer for this round. With other records present, one of them at
/// random; with only the local record, the seed if configured; otherwise
/// none, and the round is skipped.
pub fn gossip_peer(members: &Vec<Node>, local_id: u32, seed_address: &Option<NetAddr>) -> (r:
    Option<NetAddr>)
    requires
        members_sorted(nodes_views(members@)),
        has_member_id(nodes_views(members@), local_id),
    ensures
        members@.len() <= 1 ==> match (r, seed_address) {
            (Some(a), Some(sd)) => a@ == sd@,
            (None, None) => true,
            _ => false,
        },
        members@.len() > 1 ==> match r {
            Some(a) => exists|j: int|
                0 <= j < spec_non_local(nodes_views(members@), local_id).len() && a@
                    == spec_non_local(nodes_views(members@), local_id)[j].addr,
            None => false,
        },
{
    let n = members.len();
    if n > 1 {
        proof {
            lemma_non_local_len(nodes_views(members@), local_id);
            assert(nodes_views(members@).len() == n as int);
        }
        let draw: usize = rand::random::<usize>();
        let index = draw % (n - 1);
        let addr = peer_at(members, local_id, index);
        Some(addr)
    } else {
        match seed_address {
            Some(sd) => Some(sd.clone()),
            None => None,
        }
    }
}

} // verus!
