//! The state store's sorted tables.
//!
//! The membership table is a vector of node records strictly sorted by id;
//! the token ring is a vector of token entries strictly sorted by token.
//! Both are insert-only: a record or token whose key is already present is
//! discarded silently. Sortedness makes each table a canonical form of its
//! contents, so two stores holding the same records are bit-identical and
//! hash identically.

use vstd::prelude::*;

use crate::node::{Node, NodeV, node_wf};

verus! {

// ---------------------------------------------------------------------------
// Membership table.
// ---------------------------------------------------------------------------

/// Ids strictly increase along the table.
pub open spec fn members_sorted(s: Seq<NodeV>) -> bool {
    forall|i: int, j: int| 0 <= i < j < s.len() ==> s[i].id < s[j].id
}

/// Every record in the table is well formed.
pub open spec fn members_all_wf(s: Seq<NodeV>) -> bool {
    forall|i: int| 0 <= i < s.len() ==> node_wf(#[trigger] s[i])
}

pub open spec fn has_member_id(s: Seq<NodeV>, id: u32) -> bool {
    exists|i: int| 0 <= i < s.len() && s[i].id == id
}

/// First record with the given id, scanning left to right.
pub open spec fn spec_lookup_member(s: Seq<NodeV>, id: u32) -> Option<NodeV>
    decreases s.len(),
{
    if s.len() == 0 {
        None
    } else if s[0].id == id {
        Some(s[0])
    } else {
        spec_lookup_member(s.drop_first(), id)
    }
}

/// The lookup finds exactly the records the table holds.
pub proof fn lemma_lookup_member_props(s: Seq<NodeV>, id: u32)
    ensures
        match spec_lookup_member(s, id) {
            Some(n) => s.contains(n) && n.id == id && has_member_id(s, id),
            None => !has_member_id(s, id),
        },
    decreases s.len(),
{
    if s.len() > 0 {
        if s[0].id == id {
            assert(s.contains(s[0]));
        } else {
            let st = s.drop_first();
            lemma_lookup_member_props(st, id);
            assert(forall|i: int| 0 <= i < st.len() ==> #[trigger] st[i] == s[i + 1]);
            match spec_lookup_member(st, id) {
                Some(n) => {
                    let i = choose|i: int| 0 <= i < st.len() && st[i] == n;
                    assert(s[i + 1] == n);
                },
                None => {
                    if has_member_id(s, id) {
                        let i = choose|i: int| 0 <= i < s.len() && s[i].id == id;
                        assert(st[i - 1].id == id);
                    }
                },
            }
        }
    }
}

/// Sorted insert of a record with a fresh id.
pub open spec fn spec_sorted_insert_member(s: Seq<NodeV>, n: NodeV) -> Seq<NodeV>
    decreases s.len(),
{
    if s.len() == 0 {
        seq![n]
    } else if n.id < s[0].id {
        seq![n] + s
    } else {
        seq![s[0]] + spec_sorted_insert_member(s.drop_first(), n)
    }
}

/// Insert-only: a record whose id is present is discarded.
pub open spec fn spec_insert_member(s: Seq<NodeV>, n: NodeV) -> Seq<NodeV> {
    if has_member_id(s, n.id) {
        s
    } else {
        spec_sorted_insert_member(s, n)
    }
}

/// What the sorted insert holds: the old records and the new one.
pub proof fn lemma_sorted_insert_member_elems(s: Seq<NodeV>, n: NodeV)
    ensures
        forall|x: NodeV|
            #[trigger] spec_sorted_insert_member(s, n).contains(x) <==> (s.contains(x) || x == n),
        spec_sorted_insert_member(s, n).len() == s.len() + 1,
    decreases s.len(),
{
    let w = spec_sorted_insert_member(s, n);
    if s.len() == 0 {
        assert(w[0] == n && w.contains(w[0]));
        assert(forall|x: NodeV| w.contains(x) ==> x == n);
    } else if n.id < s[0].id {
        assert(forall|x: NodeV| #[trigger] w.contains(x) <==> (x == n || s.contains(x))) by {
            assert(w[0] == n);
            assert(forall|i: int| 0 <= i < s.len() ==> w[i + 1] == #[trigger] s[i]);
            assert(forall|i: int| 0 <= i < w.len() ==> w[i] == n || s.contains(w[i]));
        }
    } else {
        let st = s.drop_first();
        lemma_sorted_insert_member_elems(st, n);
        let wt = spec_sorted_insert_member(st, n);
        assert(forall|x: NodeV| #[trigger] w.contains(x) <==> (x == s[0] || wt.contains(x))) by {
            assert(w[0] == s[0]);
            assert(forall|i: int| 0 <= i < wt.len() ==> w[i + 1] == #[trigger] wt[i]);
            assert(forall|i: int| 0 <= i < w.len() ==> w[i] == s[0] || wt.contains(w[i]));
        }
        assert(forall|x: NodeV| #[trigger] s.contains(x) <==> (x == s[0] || st.contains(x))) by {
            assert(s.contains(s[0]));
            assert(forall|i: int|
                0 <= i < st.len() ==> #[trigger] st[i] == s[i + 1] && s.contains(s[i + 1]));
            assert(forall|i: int|
                0 < i < s.len() ==> #[trigger] s[i] == st[i - 1] && st.contains(st[i - 1]));
        }
    }
}

/// Sorted insert of a fresh id keeps the table sorted.
pub proof fn lemma_sorted_insert_member_sorted(s: Seq<NodeV>, n: NodeV)
    requires
        members_sorted(s),
        !has_member_id(s, n.id),
    ensures
        members_sorted(spec_sorted_insert_member(s, n)),
    decreases s.len(),
{
    let w = spec_sorted_insert_member(s, n);
    if s.len() == 0 {
    } else if n.id < s[0].id {
        assert forall|i: int, j: int| 0 <= i < j < w.len() implies w[i].id < w[j].id by {
            assert(w[0] == n);
            assert(forall|t: int| 0 < t < w.len() ==> w[t] == s[t - 1]);
        }
    } else {
        let st = s.drop_first();
        assert(members_sorted(st)) by {
            assert(forall|i: int, j: int|
                0 <= i < j < st.len() ==> st[i] == s[i + 1] && st[j] == s[j + 1]);
        }
        assert(!has_member_id(st, n.id)) by {
            if has_member_id(st, n.id) {
                let i = choose|i: int| 0 <= i < st.len() && st[i].id == n.id;
                assert(s[i + 1].id == n.id);
            }
        }
        assert(n.id != s[0].id) by {
            if n.id == s[0].id {
                assert(has_member_id(s, n.id));
            }
        }
        assert(s[0].id < n.id);
        lemma_sorted_insert_member_sorted(st, n);
        lemma_sorted_insert_member_elems(st, n);
        let wt = spec_sorted_insert_member(st, n);
        assert forall|i: int, j: int| 0 <= i < j < w.len() implies w[i].id < w[j].id by {
            assert(w[0] == s[0]);
            assert(forall|t: int| 0 < t < w.len() ==> w[t] == #[trigger] wt[t - 1]);
            if i == 0 {
                assert(wt.contains(wt[j - 1]));
                if wt[j - 1] == n {
                } else {
                    assert(st.contains(wt[j - 1]));
                    let t = choose|t: int| 0 <= t < st.len() && st[t] == wt[j - 1];
                    assert(st[t] == s[t + 1]);
                }
            }
        }
    }
}

/// Insert-only merge of a received record list, first to last.
pub open spec fn spec_merge_members(cur: Seq<NodeV>, inc: Seq<NodeV>) -> Seq<NodeV>
    decreases inc.len(),
{
    if inc.len() == 0 {
        cur
    } else {
        spec_merge_members(spec_insert_member(cur, inc[0]), inc.drop_first())
    }
}

/// Ids after one insert: the old ids and the new record's id.
pub proof fn lemma_insert_member_ids(s: Seq<NodeV>, n: NodeV)
    ensures
        forall|id: u32|
            #[trigger] has_member_id(spec_insert_member(s, n), id) <==> (has_member_id(s, id)
                || id == n.id),
        forall|x: NodeV| s.contains(x) ==> #[trigger] spec_insert_member(s, n).contains(x),
        forall|x: NodeV|
            #[trigger] spec_insert_member(s, n).contains(x) ==> s.contains(x) || x == n,
{
    if has_member_id(s, n.id) {
    } else {
        lemma_sorted_insert_member_elems(s, n);
        let w = spec_sorted_insert_member(s, n);
        assert forall|id: u32| #[trigger] has_member_id(w, id) implies (has_member_id(s, id) || id
            == n.id) by {
            let i = choose|i: int| 0 <= i < w.len() && w[i].id == id;
            assert(w.contains(w[i]));
            if w[i] != n {
                assert(s.contains(w[i]));
                let j = choose|j: int| 0 <= j < s.len() && s[j] == w[i];
                assert(has_member_id(s, id));
            }
        }
        assert forall|id: u32| has_member_id(s, id) || id == n.id implies #[trigger] has_member_id(
            w,
            id,
        ) by {
            if has_member_id(s, id) {
                let i = choose|i: int| 0 <= i < s.len() && s[i].id == id;
                assert(s.contains(s[i]));
                assert(w.contains(s[i]));
                let j = choose|j: int| 0 <= j < w.len() && w[j] == s[i];
            } else {
                assert(w.contains(n));
                let j = choose|j: int| 0 <= j < w.len() && w[j] == n;
            }
        }
    }
}

/// The merge holds the old records; every merged-in record is old or
/// incoming; an id is present after iff it was present or arrived.
pub proof fn lemma_merge_members_props(cur: Seq<NodeV>, inc: Seq<NodeV>)
    ensures
        forall|x: NodeV| cur.contains(x) ==> #[trigger] spec_merge_members(cur, inc).contains(x),
        forall|x: NodeV|
            #[trigger] spec_merge_members(cur, inc).contains(x) ==> cur.contains(x) || inc.contains(
                x,
            ),
        forall|id: u32|
            #[trigger] has_member_id(spec_merge_members(cur, inc), id) <==> (has_member_id(cur, id)
                || has_member_id(inc, id)),
        members_sorted(cur) ==> members_sorted(spec_merge_members(cur, inc)),
    decreases inc.len(),
{
    if inc.len() == 0 {
        assert forall|id: u32| has_member_id(inc, id) implies has_member_id(cur, id) by {
            let i = choose|i: int| 0 <= i < inc.len() && inc[i].id == id;
        }
    } else {
        let cur2 = spec_insert_member(cur, inc[0]);
        let it = inc.drop_first();
        lemma_insert_member_ids(cur, inc[0]);
        if !has_member_id(cur, inc[0].id) {
            lemma_sorted_insert_member_elems(cur, inc[0]);
            if members_sorted(cur) {
                lemma_sorted_insert_member_sorted(cur, inc[0]);
            }
        }
        lemma_merge_members_props(cur2, it);
        assert(forall|i: int| 0 <= i < it.len() ==> #[trigger] it[i] == inc[i + 1]);
        assert(inc.contains(inc[0]));
        assert(forall|x: NodeV| it.contains(x) ==> #[trigger] inc.contains(x)) by {
            assert(forall|i: int|
                0 <= i < it.len() ==> #[trigger] it[i] == inc[i + 1] && inc.contains(inc[i + 1]));
        }
        assert forall|id: u32| has_member_id(inc, id) implies has_member_id(it, id) || id
            == inc[0].id by {
            let i = choose|i: int| 0 <= i < inc.len() && inc[i].id == id;
            if i > 0 {
                assert(it[i - 1].id == id);
            }
        }
        assert forall|id: u32| has_member_id(it, id) implies has_member_id(inc, id) by {
            let i = choose|i: int| 0 <= i < it.len() && it[i].id == id;
            assert(inc[i + 1].id == id);
        }
    }
}

/// Merging a list whose every id is already present changes nothing;
/// applying the same update list twice is the same as applying it once.
pub proof fn lemma_merge_members_noop(cur: Seq<NodeV>, inc: Seq<NodeV>)
    requires
        forall|i: int| 0 <= i < inc.len() ==> has_member_id(cur, (#[trigger] inc[i]).id),
    ensures
        spec_merge_members(cur, inc) == cur,
    decreases inc.len(),
{
    if inc.len() > 0 {
        assert(has_member_id(cur, inc[0].id));
        assert(spec_insert_member(cur, inc[0]) == cur);
        let it = inc.drop_first();
        assert(forall|i: int| 0 <= i < it.len() ==> #[trigger] it[i] == inc[i + 1]);
        lemma_merge_members_noop(cur, it);
    }
}

/// Applying one reply's record list twice yields the same table as once.
pub proof fn lemma_merge_members_idempotent(cur: Seq<NodeV>, inc: Seq<NodeV>)
    ensures
        spec_merge_members(spec_merge_members(cur, inc), inc) == spec_merge_members(cur, inc),
{
    let once = spec_merge_members(cur, inc);
    lemma_merge_members_props(cur, inc);
    assert(forall|i: int|
        0 <= i < inc.len() ==> #[trigger] has_member_id(once, inc[i].id)) by {
        assert(forall|i: int|
            0 <= i < inc.len() ==> #[trigger] inc.contains(inc[i]) && has_member_id(inc, inc[i].id));
    }
    lemma_merge_members_noop(once, inc);
}

/// When equal ids across the two tables always carry equal records, the
/// merge holds exactly the union of the records.
pub proof fn lemma_merge_members_union(cur: Seq<NodeV>, inc: Seq<NodeV>)
    requires
        members_sorted(inc),
        forall|i: int, j: int|
            0 <= i < cur.len() && 0 <= j < inc.len() && (#[trigger] cur[i]).id
                == (#[trigger] inc[j]).id ==> cur[i] == inc[j],
    ensures
        forall|x: NodeV|
            #[trigger] spec_merge_members(cur, inc).contains(x) <==> (cur.contains(x)
                || inc.contains(x)),
    decreases inc.len(),
{
    if inc.len() == 0 {
        assert forall|x: NodeV| inc.contains(x) implies false by {
            let i = choose|i: int| 0 <= i < inc.len() && inc[i] == x;
        }
    } else {
        let n = inc[0];
        let cur2 = spec_insert_member(cur, n);
        let it = inc.drop_first();
        assert(forall|i: int| 0 <= i < it.len() ==> #[trigger] it[i] == inc[i + 1]);
        lemma_insert_member_ids(cur, n);
        assert(cur2.contains(n)) by {
            if has_member_id(cur, n.id) {
                let i = choose|i: int| 0 <= i < cur.len() && cur[i].id == n.id;
                assert(cur[i] == n);
                assert(cur.contains(cur[i]));
            } else {
                lemma_sorted_insert_member_elems(cur, n);
            }
        }
        assert(members_sorted(it)) by {
            assert(forall|i: int, j: int|
                0 <= i < j < it.len() ==> it[i] == inc[i + 1] && it[j] == inc[j + 1]);
        }
        assert(forall|i: int, j: int|
            0 <= i < cur2.len() && 0 <= j < it.len() && (#[trigger] cur2[i]).id
                == (#[trigger] it[j]).id ==> cur2[i] == it[j]) by {
            assert forall|i: int, j: int|
                0 <= i < cur2.len() && 0 <= j < it.len() && (#[trigger] cur2[i]).id
                    == (#[trigger] it[j]).id implies cur2[i] == it[j] by {
                assert(cur2.contains(cur2[i]));
                if cur.contains(cur2[i]) {
                    let ci = choose|ci: int| 0 <= ci < cur.len() && cur[ci] == cur2[i];
                    assert(inc[j + 1] == it[j]);
                    assert(cur[ci] == inc[j + 1]);
                } else {
                    assert(cur2[i] == n);
                    assert(n.id < inc[j + 1].id);
                }
            }
        }
        lemma_merge_members_union(cur2, it);
        assert forall|x: NodeV|
            #[trigger] spec_merge_members(cur, inc).contains(x) <==> (cur.contains(x)
                || inc.contains(x)) by {
            assert(spec_merge_members(cur, inc) == spec_merge_members(cur2, it));
            assert(inc.contains(x) <==> (x == n || it.contains(x))) by {
                if inc.contains(x) {
                    let i = choose|i: int| 0 <= i < inc.len() && inc[i] == x;
                    if i > 0 {
                        assert(it[i - 1] == x);
                    }
                }
                if it.contains(x) {
                    let i = choose|i: int| 0 <= i < it.len() && it[i] == x;
                    assert(inc[i + 1] == x);
                }
                assert(inc.contains(inc[0]));
            }
            assert(cur2.contains(x) <==> (cur.contains(x) || x == n)) by {
                if !has_member_id(cur, n.id) {
                    lemma_sorted_insert_member_elems(cur, n);
                }
            }
        }
    }
}

/// The same for rings: when equal tokens across the two rings always carry
/// equal entries, the merge holds exactly the union of the entries.
pub proof fn lemma_merge_tokens_union(cur: Seq<TokenEntry>, inc: Seq<TokenEntry>)
    requires
        tokens_sorted(inc),
        forall|i: int, j: int|
            0 <= i < cur.len() && 0 <= j < inc.len() && (#[trigger] cur[i]).token
                == (#[trigger] inc[j]).token ==> cur[i] == inc[j],
    ensures
        forall|x: TokenEntry|
            #[trigger] spec_merge_tokens(cur, inc).contains(x) <==> (cur.contains(x)
                || inc.contains(x)),
    decreases inc.len(),
{
    if inc.len() == 0 {
        assert forall|x: TokenEntry| inc.contains(x) implies false by {
            let i = choose|i: int| 0 <= i < inc.len() && inc[i] == x;
        }
    } else {
        let t = inc[0];
        let cur2 = spec_insert_token(cur, t);
        let it = inc.drop_first();
        assert(forall|i: int| 0 <= i < it.len() ==> #[trigger] it[i] == inc[i + 1]);
        lemma_insert_token_facts(cur, t);
        assert(cur2.contains(t)) by {
            if has_token(cur, t.token) {
                let i = choose|i: int| 0 <= i < cur.len() && cur[i].token == t.token;
                assert(cur[i] == t);
                assert(cur.contains(cur[i]));
            } else {
                lemma_sorted_insert_token_elems(cur, t);
            }
        }
        assert(tokens_sorted(it)) by {
            assert(forall|i: int, j: int|
                0 <= i < j < it.len() ==> it[i] == inc[i + 1] && it[j] == inc[j + 1]);
        }
        assert(forall|i: int, j: int|
            0 <= i < cur2.len() && 0 <= j < it.len() && (#[trigger] cur2[i]).token
                == (#[trigger] it[j]).token ==> cur2[i] == it[j]) by {
            assert forall|i: int, j: int|
                0 <= i < cur2.len() && 0 <= j < it.len() && (#[trigger] cur2[i]).token
                    == (#[trigger] it[j]).token implies cur2[i] == it[j] by {
                assert(cur2.contains(cur2[i]));
                if cur.contains(cur2[i]) {
                    let ci = choose|ci: int| 0 <= ci < cur.len() && cur[ci] == cur2[i];
                    assert(inc[j + 1] == it[j]);
                    assert(cur[ci] == inc[j + 1]);
                } else {
                    assert(cur2[i] == t);
                    assert(t.token < inc[j + 1].token);
                }
            }
        }
        lemma_merge_tokens_union(cur2, it);
        assert forall|x: TokenEntry|
            #[trigger] spec_merge_tokens(cur, inc).contains(x) <==> (cur.contains(x)
                || inc.contains(x)) by {
            assert(spec_merge_tokens(cur, inc) == spec_merge_tokens(cur2, it));
            assert(inc.contains(x) <==> (x == t || it.contains(x))) by {
                if inc.contains(x) {
                    let i = choose|i: int| 0 <= i < inc.len() && inc[i] == x;
                    if i > 0 {
                        assert(it[i - 1] == x);
                    }
                }
                if it.contains(x) {
                    let i = choose|i: int| 0 <= i < it.len() && it[i] == x;
                    assert(inc[i + 1] == x);
                }
                assert(inc.contains(inc[0]));
            }
            assert(cur2.contains(x) <==> (cur.contains(x) || x == t)) by {
                if !has_token(cur, t.token) {
                    lemma_sorted_insert_token_elems(cur, t);
                }
            }
        }
    }
}

/// Where the scan stopped decides the shape of the member insert.
pub proof fn lemma_insert_member_at(s: Seq<NodeV>, n: NodeV, idx: int)
    requires
        members_sorted(s),
        0 <= idx <= s.len(),
        forall|j: int| 0 <= j < idx ==> (#[trigger] s[j]).id < n.id,
        idx < s.len() ==> s[idx].id >= n.id,
    ensures
        has_member_id(s, n.id) <==> (idx < s.len() && s[idx].id == n.id),
        !has_member_id(s, n.id) ==> spec_sorted_insert_member(s, n) == s.insert(idx, n),
    decreases idx,
{
    assert(has_member_id(s, n.id) <==> (idx < s.len() && s[idx].id == n.id)) by {
        if idx < s.len() && s[idx].id == n.id {
        } else {
            if has_member_id(s, n.id) {
                let i = choose|i: int| 0 <= i < s.len() && s[i].id == n.id;
                if i < idx {
                } else if i > idx {
                    assert(s[idx].id < s[i].id);
                }
            }
        }
    }
    if !has_member_id(s, n.id) {
        if idx == 0 {
            if s.len() == 0 {
                assert(spec_sorted_insert_member(s, n) =~= s.insert(0, n));
            } else {
                assert(s[0].id != n.id);
                assert(n.id < s[0].id);
                assert(spec_sorted_insert_member(s, n) =~= s.insert(0, n));
            }
        } else {
            assert(s[0].id < n.id);
            let st = s.drop_first();
            assert(members_sorted(st)) by {
                assert(forall|i: int, j: int|
                    0 <= i < j < st.len() ==> st[i] == s[i + 1] && st[j] == s[j + 1]);
            }
            assert(forall|j: int| 0 <= j < st.len() ==> #[trigger] st[j] == s[j + 1]);
            assert(!has_member_id(st, n.id)) by {
                if has_member_id(st, n.id) {
                    let i = choose|i: int| 0 <= i < st.len() && st[i].id == n.id;
                    assert(s[i + 1].id == n.id);
                }
            }
            lemma_insert_member_at(st, n, idx - 1);
            assert(spec_sorted_insert_member(s, n) =~= s.insert(idx, n));
        }
    }
}

/// Insert a record into a sorted table, keeping it sorted; a record whose
/// id is present is discarded. Returns whether the record went in.
pub fn insert_member_vec(members: &mut Vec<Node>, node: Node) -> (r: bool)
    requires
        members_sorted(crate::node::nodes_views(old(members)@)),
    ensures
        crate::node::nodes_views(final(members)@) == spec_insert_member(
            crate::node::nodes_views(old(members)@),
            node@,
        ),
        r == !has_member_id(crate::node::nodes_views(old(members)@), node@.id),
{
    let ghost s = crate::node::nodes_views(members@);
    let n = members.len();
    let mut idx: usize = 0;
    while idx < n && members[idx].id < node.id
        invariant
            idx <= n,
            n == members@.len(),
            forall|j: int| 0 <= j < idx ==> (#[trigger] s[j]).id < node@.id,
            s == crate::node::nodes_views(members@),
            *members == *old(members),
        decreases n - idx,
    {
        proof {
            assert(s[idx as int].id == members@[idx as int].id);
        }
        idx = idx + 1;
    }
    proof {
        if idx < n {
            assert(s[idx as int].id == members@[idx as int].id);
        }
        lemma_insert_member_at(s, node@, idx as int);
    }
    if idx < n && members[idx].id == node.id {
        proof {
            assert(s[idx as int].id == members@[idx as int].id);
        }
        false
    } else {
        members.insert(idx, node);
        proof {
            assert(crate::node::nodes_views(members@) =~= s.insert(idx as int, node@)) by {
                assert(forall|j: int|
                    0 <= j < members@.len() ==> crate::node::nodes_views(members@)[j]
                        == (#[trigger] members@[j])@);
                assert(forall|j: int|
                    0 <= j < s.len() ==> s[j] == (#[trigger] old(members)@[j])@);
            }
        }
        true
    }
}

/// Look a record up by id.
pub fn lookup_member_vec(members: &Vec<Node>, id: u32) -> (r: Option<&Node>)
    ensures
        match r {
            Some(n) => spec_lookup_member(crate::node::nodes_views(members@), id) == Some(n@),
            None => spec_lookup_member(crate::node::nodes_views(members@), id) is None,
        },
{
    let ghost s = crate::node::nodes_views(members@);
    let n = members.len();
    let mut i: usize = 0;
    proof {
        assert(s.skip(0) =~= s);
    }
    while i < n
        invariant
            i <= n,
            n == members@.len(),
            s == crate::node::nodes_views(members@),
            spec_lookup_member(s, id) == spec_lookup_member(s.skip(i as int), id),
        decreases n - i,
    {
        proof {
            assert(s.skip(i as int)[0] == s[i as int]);
            assert(s[i as int] == members@[i as int]@);
            assert(s.skip(i as int).drop_first() =~= s.skip(i + 1));
        }
        if members[i].id == id {
            return Some(&members[i]);
        }
        i = i + 1;
    }
    proof {
        assert(s.skip(n as int) =~= Seq::<NodeV>::empty());
    }
    None
}

/// Hash stability: two sorted tables holding the same records are the
/// same table, so any two nodes with identical membership and per-record
/// metadata produce the identical membership digest.
pub proof fn lemma_members_digest_stability(a: Seq<NodeV>, b: Seq<NodeV>)
    requires
        members_sorted(a),
        members_sorted(b),
        forall|x: NodeV| a.contains(x) <==> b.contains(x),
    ensures
        a == b,
        crate::node::spec_hash_nodes(a) == crate::node::spec_hash_nodes(b),
{
    crate::seq_order::lemma_sorted_unique_equal(a, b, |n: NodeV| n.id as int);
}

/// Bind `key` to `value` in the metadata of the record with the local id,
/// leaving every other record and the table's order untouched.
pub fn set_local_metadata(members: &mut Vec<Node>, local_id: u32, key: Vec<u8>, value: Vec<u8>)
    requires
        members_sorted(crate::node::nodes_views(old(members)@)),
        members_all_wf(crate::node::nodes_views(old(members)@)),
        has_member_id(crate::node::nodes_views(old(members)@), local_id),
    ensures
        ({
            let s = crate::node::nodes_views(old(members)@);
            let s2 = crate::node::nodes_views(final(members)@);
            &&& members_sorted(s2)
            &&& members_all_wf(s2)
            &&& has_member_id(s2, local_id)
            &&& exists|i: int|
                {
                    &&& 0 <= i < s.len()
                    &&& s[i].id == local_id
                    &&& s2 == s.update(
                        i,
                        NodeV {
                            meta: crate::node::spec_meta_insert(s[i].meta, key@, value@),
                            ..s[i]
                        },
                    )
                }
        }),
{
    let ghost s = crate::node::nodes_views(members@);
    let n = members.len();
    let mut i: usize = 0;
    while i < n && members[i].id != local_id
        invariant
            i <= n,
            n == members@.len(),
            s == crate::node::nodes_views(members@),
            forall|j: int| 0 <= j < i ==> (#[trigger] s[j]).id != local_id,
            *members == *old(members),
        decreases n - i,
    {
        proof {
            assert(s[i as int].id == members@[i as int].id);
        }
        i = i + 1;
    }
    proof {
        assert(i < n) by {
            if i == n {
                let j = choose|j: int| 0 <= j < s.len() && s[j].id == local_id;
            }
        }
        assert(s[i as int].id == members@[i as int].id);
    }
    let mut node = members.remove(i);
    let ghost nv = node@;
    node.set_metadata(key, value);
    let ghost nv2 = node@;
    members.insert(i, node);
    proof {
        assert(crate::node::nodes_views(members@) =~= s.update(i as int, nv2)) by {
            assert(members@ == old(members)@.remove(i as int).insert(i as int, node));
            assert(forall|j: int|
                0 <= j < members@.len() ==> crate::node::nodes_views(members@)[j]
                    == (#[trigger] members@[j])@);
            assert(forall|j: int| 0 <= j < i ==> members@[j] == old(members)@[j]);
            assert(forall|j: int|
                i < j < members@.len() ==> members@[j] == old(members)@[j]);
            assert(forall|j: int|
                0 <= j < s.len() ==> s[j] == (#[trigger] old(members)@[j])@);
        }
        assert(nv == s[i as int]);
        let s2 = crate::node::nodes_views(members@);
        assert(forall|j: int| 0 <= j < s2.len() ==> j != i ==> s2[j] == s[j]);
        assert(s2[i as int].id == s[i as int].id);
        assert(members_sorted(s2)) by {
            assert(forall|p: int, q: int|
                0 <= p < q < s2.len() ==> s2[p].id == s[p].id && s2[q].id == s[q].id);
        }
        assert(members_all_wf(s2)) by {
            assert(forall|j: int| 0 <= j < s2.len() && j != i ==> node_wf(#[trigger] s2[j]));
            assert(node_wf(s2[i as int]));
        }
        assert(has_member_id(s2, local_id)) by {
            assert(s2[i as int].id == local_id);
        }
    }
}

// ---------------------------------------------------------------------------
// Token ring.
// ---------------------------------------------------------------------------

/// One point of the ring: a token and the id of the node owning it.
#[derive(Clone, Copy, Debug, PartialEq, Eq, Structural)]
pub struct TokenEntry {
    pub token: u64,
    pub id: u32,
}

/// Tokens strictly increase along the ring.
pub open spec fn tokens_sorted(s: Seq<TokenEntry>) -> bool {
    forall|i: int, j: int| 0 <= i < j < s.len() ==> s[i].token < s[j].token
}

pub open spec fn has_token(s: Seq<TokenEntry>, token: u64) -> bool {
    exists|i: int| 0 <= i < s.len() && s[i].token == token
}

/// Sorted insert of a fresh token.
pub open spec fn spec_sorted_insert_token(s: Seq<TokenEntry>, t: TokenEntry) -> Seq<TokenEntry>
    decreases s.len(),
{
    if s.len() == 0 {
        seq![t]
    } else if t.token < s[0].token {
        seq![t] + s
    } else {
        seq![s[0]] + spec_sorted_insert_token(s.drop_first(), t)
    }
}

/// Insert-only: a token already present keeps its first-observed owner,
/// even when the incoming owner differs.
pub open spec fn spec_insert_token(s: Seq<TokenEntry>, t: TokenEntry) -> Seq<TokenEntry> {
    if has_token(s, t.token) {
        s
    } else {
        spec_sorted_insert_token(s, t)
    }
}

pub proof fn lemma_sorted_insert_token_elems(s: Seq<TokenEntry>, t: TokenEntry)
    ensures
        forall|x: TokenEntry|
            #[trigger] spec_sorted_insert_token(s, t).contains(x) <==> (s.contains(x) || x == t),
        spec_sorted_insert_token(s, t).len() == s.len() + 1,
    decreases s.len(),
{
    let w = spec_sorted_insert_token(s, t);
    if s.len() == 0 {
        assert(w[0] == t && w.contains(w[0]));
        assert(forall|x: TokenEntry| w.contains(x) ==> x == t);
    } else if t.token < s[0].token {
        assert(forall|x: TokenEntry| #[trigger] w.contains(x) <==> (x == t || s.contains(x))) by {
            assert(w[0] == t);
            assert(forall|i: int| 0 <= i < s.len() ==> w[i + 1] == #[trigger] s[i]);
            assert(forall|i: int| 0 <= i < w.len() ==> w[i] == t || s.contains(w[i]));
        }
    } else {
        let st = s.drop_first();
        lemma_sorted_insert_token_elems(st, t);
        let wt = spec_sorted_insert_token(st, t);
        assert(forall|x: TokenEntry| #[trigger] w.contains(x) <==> (x == s[0] || wt.contains(x)))
            by {
            assert(w[0] == s[0]);
            assert(forall|i: int| 0 <= i < wt.len() ==> w[i + 1] == #[trigger] wt[i]);
            assert(forall|i: int| 0 <= i < w.len() ==> w[i] == s[0] || wt.contains(w[i]));
        }
        assert(forall|x: TokenEntry| #[trigger] s.contains(x) <==> (x == s[0] || st.contains(x)))
            by {
            assert(s.contains(s[0]));
            assert(forall|i: int|
                0 <= i < st.len() ==> #[trigger] st[i] == s[i + 1] && s.contains(s[i + 1]));
            assert(forall|i: int|
                0 < i < s.len() ==> #[trigger] s[i] == st[i - 1] && st.contains(st[i - 1]));
        }
    }
}

pub proof fn lemma_sorted_insert_token_sorted(s: Seq<TokenEntry>, t: TokenEntry)
    requires
        tokens_sorted(s),
        !has_token(s, t.token),
    ensures
        tokens_sorted(spec_sorted_insert_token(s, t)),
    decreases s.len(),
{
    let w = spec_sorted_insert_token(s, t);
    if s.len() == 0 {
    } else if t.token < s[0].token {
        assert forall|i: int, j: int| 0 <= i < j < w.len() implies w[i].token < w[j].token by {
            assert(w[0] == t);
            assert(forall|k: int| 0 < k < w.len() ==> w[k] == s[k - 1]);
        }
    } else {
        let st = s.drop_first();
        assert(tokens_sorted(st)) by {
            assert(forall|i: int, j: int|
                0 <= i < j < st.len() ==> st[i] == s[i + 1] && st[j] == s[j + 1]);
        }
        assert(!has_token(st, t.token)) by {
            if has_token(st, t.token) {
                let i = choose|i: int| 0 <= i < st.len() && st[i].token == t.token;
                assert(s[i + 1].token == t.token);
            }
        }
        assert(t.token != s[0].token) by {
            if t.token == s[0].token {
                assert(has_token(s, t.token));
            }
        }
        assert(s[0].token < t.token);
        lemma_sorted_insert_token_sorted(st, t);
        lemma_sorted_insert_token_elems(st, t);
        let wt = spec_sorted_insert_token(st, t);
        assert forall|i: int, j: int| 0 <= i < j < w.len() implies w[i].token < w[j].token by {
            assert(w[0] == s[0]);
            assert(forall|k: int| 0 < k < w.len() ==> w[k] == #[trigger] wt[k - 1]);
            if i == 0 {
                assert(wt.contains(wt[j - 1]));
                if wt[j - 1] == t {
                } else {
                    assert(st.contains(wt[j - 1]));
                    let k = choose|k: int| 0 <= k < st.len() && st[k] == wt[j - 1];
                    assert(st[k] == s[k + 1]);
                }
            }
        }
    }
}

/// Insert-only merge of a received token list, first to last.
pub open spec fn spec_merge_tokens(cur: Seq<TokenEntry>, inc: Seq<TokenEntry>) -> Seq<TokenEntry>
    decreases inc.len(),
{
    if inc.len() == 0 {
        cur
    } else {
        spec_merge_tokens(spec_insert_token(cur, inc[0]), inc.drop_first())
    }
}

pub proof fn lemma_insert_token_facts(s: Seq<TokenEntry>, t: TokenEntry)
    ensures
        forall|tok: u64|
            #[trigger] has_token(spec_insert_token(s, t), tok) <==> (has_token(s, tok) || tok
                == t.token),
        forall|x: TokenEntry| s.contains(x) ==> #[trigger] spec_insert_token(s, t).contains(x),
        forall|x: TokenEntry|
            #[trigger] spec_insert_token(s, t).contains(x) ==> s.contains(x) || x == t,
{
    if has_token(s, t.token) {
    } else {
        lemma_sorted_insert_token_elems(s, t);
        let w = spec_sorted_insert_token(s, t);
        assert forall|tok: u64| #[trigger] has_token(w, tok) implies (has_token(s, tok) || tok
            == t.token) by {
            let i = choose|i: int| 0 <= i < w.len() && w[i].token == tok;
            assert(w.contains(w[i]));
            if w[i] != t {
                assert(s.contains(w[i]));
                let j = choose|j: int| 0 <= j < s.len() && s[j] == w[i];
                assert(has_token(s, tok));
            }
        }
        assert forall|tok: u64| has_token(s, tok) || tok == t.token implies #[trigger] has_token(
            w,
            tok,
        ) by {
            if has_token(s, tok) {
                let i = choose|i: int| 0 <= i < s.len() && s[i].token == tok;
                assert(s.contains(s[i]));
                assert(w.contains(s[i]));
                let j = choose|j: int| 0 <= j < w.len() && w[j] == s[i];
            } else {
                assert(w.contains(t));
                let j = choose|j: int| 0 <= j < w.len() && w[j] == t;
            }
        }
    }
}

pub proof fn lemma_merge_tokens_props(cur: Seq<TokenEntry>, inc: Seq<TokenEntry>)
    ensures
        forall|x: TokenEntry| cur.contains(x) ==> #[trigger] spec_merge_tokens(cur, inc).contains(x),
        forall|x: TokenEntry|
            #[trigger] spec_merge_tokens(cur, inc).contains(x) ==> cur.contains(x) || inc.contains(
                x,
            ),
        forall|tok: u64|
            #[trigger] has_token(spec_merge_tokens(cur, inc), tok) <==> (has_token(cur, tok)
                || has_token(inc, tok)),
        tokens_sorted(cur) ==> tokens_sorted(spec_merge_tokens(cur, inc)),
    decreases inc.len(),
{
    if inc.len() == 0 {
        assert forall|tok: u64| has_token(inc, tok) implies has_token(cur, tok) by {
            let i = choose|i: int| 0 <= i < inc.len() && inc[i].token == tok;
        }
    } else {
        let cur2 = spec_insert_token(cur, inc[0]);
        let it = inc.drop_first();
        lemma_insert_token_facts(cur, inc[0]);
        if !has_token(cur, inc[0].token) {
            lemma_sorted_insert_token_elems(cur, inc[0]);
            if tokens_sorted(cur) {
                lemma_sorted_insert_token_sorted(cur, inc[0]);
            }
        }
        lemma_merge_tokens_props(cur2, it);
        assert(forall|i: int| 0 <= i < it.len() ==> #[trigger] it[i] == inc[i + 1]);
        assert(inc.contains(inc[0]));
        assert(forall|x: TokenEntry| it.contains(x) ==> #[trigger] inc.contains(x)) by {
            assert(forall|i: int|
                0 <= i < it.len() ==> #[trigger] it[i] == inc[i + 1] && inc.contains(inc[i + 1]));
        }
        assert forall|tok: u64| has_token(inc, tok) implies has_token(it, tok) || tok
            == inc[0].token by {
            let i = choose|i: int| 0 <= i < inc.len() && inc[i].token == tok;
            if i > 0 {
                assert(it[i - 1].token == tok);
            }
        }
        assert forall|tok: u64| has_token(it, tok) implies has_token(inc, tok) by {
            let i = choose|i: int| 0 <= i < it.len() && it[i].token == tok;
            assert(inc[i + 1].token == tok);
        }
    }
}

/// Merging tokens that are all present changes nothing.
pub proof fn lemma_merge_tokens_noop(cur: Seq<TokenEntry>, inc: Seq<TokenEntry>)
    requires
        forall|i: int| 0 <= i < inc.len() ==> has_token(cur, (#[trigger] inc[i]).token),
    ensures
        spec_merge_tokens(cur, inc) == cur,
    decreases inc.len(),
{
    if inc.len() > 0 {
        assert(has_token(cur, inc[0].token));
        assert(spec_insert_token(cur, inc[0]) == cur);
        let it = inc.drop_first();
        assert(forall|i: int| 0 <= i < it.len() ==> #[trigger] it[i] == inc[i + 1]);
        lemma_merge_tokens_noop(cur, it);
    }
}

/// Applying one reply's token list twice yields the same ring as once.
pub proof fn lemma_merge_tokens_idempotent(cur: Seq<TokenEntry>, inc: Seq<TokenEntry>)
    ensures
        spec_merge_tokens(spec_merge_tokens(cur, inc), inc) == spec_merge_tokens(cur, inc),
{
    let once = spec_merge_tokens(cur, inc);
    lemma_merge_tokens_props(cur, inc);
    assert(forall|i: int|
        0 <= i < inc.len() ==> #[trigger] has_token(once, inc[i].token)) by {
        assert(forall|i: int|
            0 <= i < inc.len() ==> #[trigger] inc.contains(inc[i]) && has_token(
                inc,
                inc[i].token,
            ));
    }
    lemma_merge_tokens_noop(once, inc);
}

pub proof fn lemma_insert_token_at(s: Seq<TokenEntry>, t: TokenEntry, idx: int)
    requires
        tokens_sorted(s),
        0 <= idx <= s.len(),
        forall|j: int| 0 <= j < idx ==> (#[trigger] s[j]).token < t.token,
        idx < s.len() ==> s[idx].token >= t.token,
    ensures
        has_token(s, t.token) <==> (idx < s.len() && s[idx].token == t.token),
        !has_token(s, t.token) ==> spec_sorted_insert_token(s, t) == s.insert(idx, t),
    decreases idx,
{
    assert(has_token(s, t.token) <==> (idx < s.len() && s[idx].token == t.token)) by {
        if idx < s.len() && s[idx].token == t.token {
        } else {
            if has_token(s, t.token) {
                let i = choose|i: int| 0 <= i < s.len() && s[i].token == t.token;
                if i < idx {
                } else if i > idx {
                    assert(s[idx].token < s[i].token);
                }
            }
        }
    }
    if !has_token(s, t.token) {
        if idx == 0 {
            if s.len() == 0 {
                assert(spec_sorted_insert_token(s, t) =~= s.insert(0, t));
            } else {
                assert(t.token < s[0].token);
                assert(spec_sorted_insert_token(s, t) =~= s.insert(0, t));
            }
        } else {
            assert(s[0].token < t.token);
            let st = s.drop_first();
            assert(tokens_sorted(st)) by {
                assert(forall|i: int, j: int|
                    0 <= i < j < st.len() ==> st[i] == s[i + 1] && st[j] == s[j + 1]);
            }
            assert(forall|j: int| 0 <= j < st.len() ==> #[trigger] st[j] == s[j + 1]);
            assert(!has_token(st, t.token)) by {
                if has_token(st, t.token) {
                    let i = choose|i: int| 0 <= i < st.len() && st[i].token == t.token;
                    assert(s[i + 1].token == t.token);
                }
            }
            lemma_insert_token_at(st, t, idx - 1);
            assert(spec_sorted_insert_token(s, t) =~= s.insert(idx, t));
        }
    }
}

/// Insert a token into a sorted ring, keeping it sorted; a token already
/// present is discarded, its first owner retained.
pub fn insert_token_vec(tokens: &mut Vec<TokenEntry>, t: TokenEntry) -> (r: bool)
    requires
        tokens_sorted(old(tokens)@),
    ensures
        final(tokens)@ == spec_insert_token(old(tokens)@, t),
        r == !has_token(old(tokens)@, t.token),
{
    let n = tokens.len();
    let mut idx: usize = 0;
    while idx < n && tokens[idx].token < t.token
        invariant
            idx <= n,
            n == tokens@.len(),
            forall|j: int| 0 <= j < idx ==> (#[trigger] tokens@[j]).token < t.token,
            *tokens == *old(tokens),
        decreases n - idx,
    {
        idx = idx + 1;
    }
    proof {
        lemma_insert_token_at(tokens@, t, idx as int);
    }
    if idx < n && tokens[idx].token == t.token {
        false
    } else {
        tokens.insert(idx, t);
        true
    }
}

/// Hash stability for rings: two sorted rings holding the same entries
/// are the same ring and produce the identical token digest.
pub proof fn lemma_tokens_digest_stability(a: Seq<TokenEntry>, b: Seq<TokenEntry>)
    requires
        tokens_sorted(a),
        tokens_sorted(b),
        forall|x: TokenEntry| a.contains(x) <==> b.contains(x),
    ensures
        a == b,
        crate::dht::spec_hash_tokens(a) == crate::dht::spec_hash_tokens(b),
{
    crate::seq_order::lemma_sorted_unique_equal(a, b, |t: TokenEntry| t.token as int);
}

// ---------------------------------------------------------------------------
// Ring lookup.
// ---------------------------------------------------------------------------

/// Owner of the first token strictly greater than `k`, scanning the ring in
/// ascending order.
pub open spec fn spec_first_greater_owner(s: Seq<TokenEntry>, k: u64) -> Option<u32>
    decreases s.len(),
{
    if s.len() == 0 {
        None
    } else if s[0].token > k {
        Some(s[0].id)
    } else {
        spec_first_greater_owner(s.drop_first(), k)
    }
}

/// Owner of the ring range holding `k`: the owner of the smallest token
/// strictly greater than `k`, or of the smallest token when none is greater
/// (wrap-around). `None` exactly when the ring is empty.
pub open spec fn spec_ring_owner(s: Seq<TokenEntry>, k: u64) -> Option<u32> {
    if s.len() == 0 {
        None
    } else {
        match spec_first_greater_owner(s, k) {
            Some(o) => Some(o),
            None => Some(s[0].id),
        }
    }
}

/// What the ring owner is, spelled out over the ring's entries: `None` iff
/// the ring is empty; the first entry above `k` where one exists; the first
/// entry of the ring where none is.
pub proof fn lemma_ring_owner_characterization(s: Seq<TokenEntry>, k: u64)
    ensures
        (spec_ring_owner(s, k) is None) <==> s.len() == 0,
        forall|i: int|
            0 <= i < s.len() && (#[trigger] s[i]).token > k && (forall|j: int|
                0 <= j < i ==> (#[trigger] s[j]).token <= k) ==> spec_ring_owner(s, k) == Some(
                s[i].id,
            ),
        (s.len() > 0 && (forall|j: int| 0 <= j < s.len() ==> (#[trigger] s[j]).token <= k))
            ==> spec_ring_owner(s, k) == Some(s[0].id),
    decreases s.len(),
{
    if s.len() > 0 {
        let st = s.drop_first();
        lemma_ring_owner_characterization(st, k);
        assert(forall|i: int| 0 <= i < st.len() ==> #[trigger] st[i] == s[i + 1]);
        if s[0].token > k {
        } else {
            assert forall|i: int|
                0 <= i < s.len() && (#[trigger] s[i]).token > k && (forall|j: int|
                    0 <= j < i ==> (#[trigger] s[j]).token <= k) implies spec_ring_owner(s, k)
                == Some(s[i].id) by {
                assert(i > 0);
                assert(st[i - 1].token > k);
                assert(forall|j: int| 0 <= j < i - 1 ==> (#[trigger] st[j]).token <= k);
                assert(spec_ring_owner(st, k) == Some(st[i - 1].id));
                lemma_first_greater_some(st, k);
                assert(spec_first_greater_owner(st, k) == Some(st[i - 1].id));
                assert(spec_first_greater_owner(s, k) == spec_first_greater_owner(st, k));
            }
            if s.len() > 0 && (forall|j: int| 0 <= j < s.len() ==> (#[trigger] s[j]).token <= k) {
                assert(forall|j: int| 0 <= j < st.len() ==> (#[trigger] st[j]).token <= k);
                assert(spec_first_greater_owner(s, k) is None) by {
                    if st.len() == 0 {
                    } else {
                        assert(spec_ring_owner(st, k) == Some(st[0].id));
                        if spec_first_greater_owner(st, k) is Some {
                            lemma_first_greater_is_greater(st, k);
                        }
                    }
                }
            }
        }
    }
}

/// Some token above `k` makes the first-greater scan find one.
pub proof fn lemma_first_greater_some(s: Seq<TokenEntry>, k: u64)
    requires
        exists|i: int| 0 <= i < s.len() && (#[trigger] s[i]).token > k,
    ensures
        spec_first_greater_owner(s, k) is Some,
    decreases s.len(),
{
    let i = choose|i: int| 0 <= i < s.len() && (#[trigger] s[i]).token > k;
    if s[0].token > k {
    } else {
        assert(i > 0);
        assert(s.drop_first()[i - 1].token > k);
        lemma_first_greater_some(s.drop_first(), k);
    }
}

/// A found first-greater owner really sits above `k`.
pub proof fn lemma_first_greater_is_greater(s: Seq<TokenEntry>, k: u64)
    requires
        spec_first_greater_owner(s, k) is Some,
    ensures
        exists|i: int| 0 <= i < s.len() && (#[trigger] s[i]).token > k,
    decreases s.len(),
{
    if s.len() > 0 {
        if s[0].token > k {
        } else {
            lemma_first_greater_is_greater(s.drop_first(), k);
            let i = choose|i: int|
                0 <= i < s.drop_first().len() && (#[trigger] s.drop_first()[i]).token > k;
            assert(s[i + 1].token > k);
        }
    }
}

} // verus!
