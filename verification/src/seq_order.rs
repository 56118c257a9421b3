//! Orders used by the stores: lexicographic order on byte strings for
//! metadata keys, and strict sortedness by an integer key for the membership
//! table and the token ring. A strictly sorted sequence is a canonical form:
//! two of them holding the same elements are equal, which is what lets two
//! gossiping nodes reach bit-identical snapshots.

use vstd::prelude::*;

verus! {

// ---------------------------------------------------------------------------
// Lexicographic order on byte strings.
// ---------------------------------------------------------------------------

/// Strict lexicographic order: a proper prefix comes first, otherwise the
/// first differing byte decides.
pub open spec fn lex_lt(a: Seq<u8>, b: Seq<u8>) -> bool
    decreases a.len(),
{
    if b.len() == 0 {
        false
    } else if a.len() == 0 {
        true
    } else if a[0] < b[0] {
        true
    } else if a[0] > b[0] {
        false
    } else {
        lex_lt(a.drop_first(), b.drop_first())
    }
}

pub proof fn lemma_lex_lt_irreflexive(a: Seq<u8>)
    ensures
        !lex_lt(a, a),
    decreases a.len(),
{
    if a.len() > 0 {
        lemma_lex_lt_irreflexive(a.drop_first());
    }
}

pub proof fn lemma_lex_lt_asymmetric(a: Seq<u8>, b: Seq<u8>)
    requires
        lex_lt(a, b),
    ensures
        !lex_lt(b, a),
    decreases a.len(),
{
    if a.len() > 0 && b.len() > 0 && a[0] == b[0] {
        lemma_lex_lt_asymmetric(a.drop_first(), b.drop_first());
    }
}

pub proof fn lemma_lex_lt_transitive(a: Seq<u8>, b: Seq<u8>, c: Seq<u8>)
    requires
        lex_lt(a, b),
        lex_lt(b, c),
    ensures
        lex_lt(a, c),
    decreases a.len(),
{
    if a.len() > 0 && b.len() > 0 && c.len() > 0 && a[0] == b[0] && b[0] == c[0] {
        lemma_lex_lt_transitive(a.drop_first(), b.drop_first(), c.drop_first());
    }
}

/// Any two byte strings are ordered or equal.
pub proof fn lemma_lex_lt_total(a: Seq<u8>, b: Seq<u8>)
    ensures
        lex_lt(a, b) || lex_lt(b, a) || a == b,
    decreases a.len(),
{
    if a.len() == 0 && b.len() == 0 {
        assert(a =~= b);
    } else if a.len() > 0 && b.len() > 0 && a[0] == b[0] {
        lemma_lex_lt_total(a.drop_first(), b.drop_first());
        if !lex_lt(a, b) && !lex_lt(b, a) {
            assert(a.drop_first() == b.drop_first());
            assert(a =~= b) by {
                assert(forall|i: int|
                    1 <= i < a.len() ==> a[i] == a.drop_first()[i - 1] && b[i] == b.drop_first()[i
                        - 1]);
            }
        }
    }
}

/// Equal prefixes do not affect the order of what follows.
pub proof fn lemma_lex_lt_skip(a: Seq<u8>, b: Seq<u8>, i: int)
    requires
        0 <= i <= a.len(),
        i <= b.len(),
        a.subrange(0, i) == b.subrange(0, i),
    ensures
        lex_lt(a, b) == lex_lt(a.skip(i), b.skip(i)),
    decreases i,
{
    if i > 0 {
        assert(a[0] == b[0]) by {
            assert(a.subrange(0, i)[0] == a[0] && b.subrange(0, i)[0] == b[0]);
        }
        assert(a.len() > 0 && b.len() > 0);
        assert(lex_lt(a, b) == lex_lt(a.drop_first(), b.drop_first()));
        assert(a.drop_first().subrange(0, i - 1) =~= b.drop_first().subrange(0, i - 1)) by {
            assert(forall|j: int|
                0 <= j < i - 1 ==> a.drop_first()[j] == a.subrange(0, i)[j + 1]
                    && b.drop_first()[j] == b.subrange(0, i)[j + 1]);
        }
        lemma_lex_lt_skip(a.drop_first(), b.drop_first(), i - 1);
        assert(a.drop_first().skip(i - 1) =~= a.skip(i));
        assert(b.drop_first().skip(i - 1) =~= b.skip(i));
    } else {
        assert(a.skip(0) =~= a);
        assert(b.skip(0) =~= b);
    }
}

/// Executable test for equality of two byte strings.
pub fn bytes_eq(a: &Vec<u8>, b: &Vec<u8>) -> (r: bool)
    ensures
        r == (a@ == b@),
{
    if a.len() != b.len() {
        proof {
            assert(a@ != b@);
        }
        return false;
    }
    let n = a.len();
    let mut i: usize = 0;
    while i < n
        invariant
            i <= n,
            n == a@.len(),
            n == b@.len(),
            a@.subrange(0, i as int) == b@.subrange(0, i as int),
        decreases n - i,
    {
        if a[i] != b[i] {
            proof {
                assert(a@[i as int] != b@[i as int]);
            }
            return false;
        }
        proof {
            assert(a@.subrange(0, i + 1) =~= b@.subrange(0, i + 1)) by {
                assert(forall|j: int|
                    0 <= j < i + 1 ==> a@.subrange(0, i + 1)[j] == a@[j] && b@.subrange(
                        0,
                        i + 1,
                    )[j] == b@[j]);
                assert(forall|j: int|
                    0 <= j < i ==> a@[j] == a@.subrange(0, i as int)[j] && b@[j] == b@.subrange(
                        0,
                        i as int,
                    )[j]);
            }
        }
        i = i + 1;
    }
    proof {
        assert(a@ =~= b@) by {
            assert(a@.subrange(0, n as int) =~= a@);
            assert(b@.subrange(0, n as int) =~= b@);
        }
    }
    true
}

/// Executable strict lexicographic comparison.
pub fn bytes_lt(a: &Vec<u8>, b: &Vec<u8>) -> (r: bool)
    ensures
        r == lex_lt(a@, b@),
{
    let an = a.len();
    let bn = b.len();
    let n = if an < bn {
        an
    } else {
        bn
    };
    let mut i: usize = 0;
    while i < n
        invariant
            i <= n,
            an == a@.len(),
            bn == b@.len(),
            n == if an < bn {
                an
            } else {
                bn
            },
            a@.subrange(0, i as int) == b@.subrange(0, i as int),
        decreases n - i,
    {
        if a[i] < b[i] {
            proof {
                lemma_lex_lt_skip(a@, b@, i as int);
                assert(lex_lt(a@.skip(i as int), b@.skip(i as int)));
            }
            return true;
        }
        if a[i] > b[i] {
            proof {
                lemma_lex_lt_skip(a@, b@, i as int);
                assert(!lex_lt(a@.skip(i as int), b@.skip(i as int)));
            }
            return false;
        }
        proof {
            assert(a@.subrange(0, i + 1) =~= b@.subrange(0, i + 1)) by {
                assert(forall|j: int|
                    0 <= j < i ==> a@[j] == a@.subrange(0, i as int)[j] && b@[j] == b@.subrange(
                        0,
                        i as int,
                    )[j]);
            }
        }
        i = i + 1;
    }
    proof {
        lemma_lex_lt_skip(a@, b@, n as int);
    }
    an < bn
}

// ---------------------------------------------------------------------------
// Strict sortedness by an integer key, and canonicity.
// ---------------------------------------------------------------------------

/// The key is strictly increasing along the sequence.
pub open spec fn sorted_strict_by<T>(s: Seq<T>, key: spec_fn(T) -> int) -> bool {
    forall|i: int, j: int| 0 <= i < j < s.len() ==> key(s[i]) < key(s[j])
}

/// In a strictly sorted sequence the first element has the least key.
pub proof fn lemma_sorted_first_min<T>(s: Seq<T>, key: spec_fn(T) -> int)
    requires
        sorted_strict_by(s, key),
        s.len() > 0,
    ensures
        forall|i: int| 0 <= i < s.len() ==> key(s[0]) <= key(#[trigger] s[i]),
{
}

/// Two strictly sorted sequences holding the same elements are equal:
/// sortedness is a canonical form.
pub proof fn lemma_sorted_unique_equal<T>(a: Seq<T>, b: Seq<T>, key: spec_fn(T) -> int)
    requires
        sorted_strict_by(a, key),
        sorted_strict_by(b, key),
        forall|x: T| a.contains(x) <==> b.contains(x),
    ensures
        a == b,
    decreases a.len(),
{
    if a.len() == 0 {
        if b.len() > 0 {
            assert(b.contains(b[0]));
            assert(a.contains(b[0]));
        }
        assert(a =~= b);
    } else {
        assert(a.contains(a[0]));
        assert(b.contains(a[0]));
        assert(b.len() > 0);
        assert(b.contains(b[0]));
        assert(a.contains(b[0]));
        let ia = choose|i: int| 0 <= i < a.len() && a[i] == b[0];
        let ib = choose|i: int| 0 <= i < b.len() && b[i] == a[0];
        lemma_sorted_first_min(a, key);
        lemma_sorted_first_min(b, key);
        assert(key(a[0]) <= key(a[ia]) && key(b[0]) <= key(b[ib]));
        assert(key(a[0]) == key(b[0]));
        assert(ia == 0) by {
            if ia > 0 {
                assert(key(a[0]) < key(a[ia]));
            }
        }
        assert(a[0] == b[0]);
        let at = a.drop_first();
        let bt = b.drop_first();
        assert(sorted_strict_by(at, key) && sorted_strict_by(bt, key)) by {
            assert(forall|i: int, j: int|
                0 <= i < j < at.len() ==> at[i] == a[i + 1] && at[j] == a[j + 1]);
            assert(forall|i: int, j: int|
                0 <= i < j < bt.len() ==> bt[i] == b[i + 1] && bt[j] == b[j + 1]);
        }
        assert(forall|x: T| at.contains(x) <==> bt.contains(x)) by {
            assert(forall|x: T| #[trigger] at.contains(x) ==> a.contains(x) && key(x) != key(a[0]))
                by {
                assert(forall|i: int|
                    0 <= i < at.len() ==> #[trigger] at[i] == a[i + 1] && key(a[i + 1]) > key(
                        a[0],
                    ));
            }
            assert(forall|x: T| #[trigger] bt.contains(x) ==> b.contains(x) && key(x) != key(b[0]))
                by {
                assert(forall|i: int|
                    0 <= i < bt.len() ==> #[trigger] bt[i] == b[i + 1] && key(b[i + 1]) > key(
                        b[0],
                    ));
            }
            assert(forall|x: T|
                a.contains(x) && key(x) != key(a[0]) ==> #[trigger] at.contains(x)) by {
                assert(forall|i: int|
                    0 < i < a.len() ==> #[trigger] a[i] == at[i - 1] && at.contains(at[i - 1]));
            }
            assert(forall|x: T|
                b.contains(x) && key(x) != key(b[0]) ==> #[trigger] bt.contains(x)) by {
                assert(forall|i: int|
                    0 < i < b.len() ==> #[trigger] b[i] == bt[i - 1] && bt.contains(bt[i - 1]));
            }
        }
        lemma_sorted_unique_equal(at, bt, key);
        assert(a =~= b) by {
            assert(a.len() == b.len());
            assert(forall|i: int| 0 < i < a.len() ==> a[i] == at[i - 1] && b[i] == bt[i - 1]);
        }
    }
}

} // verus!
