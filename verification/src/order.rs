//! Byte-lexicographic order on byte strings.
//!
//! Every key of the store is a byte string, and the store hands its entries
//! out in ascending byte-lexicographic order. This module states that order
//! and proves the facts about it that the codec, the key builder and the
//! query planner rest on.

use vstd::prelude::*;

verus! {

/// `a` and `b` agree on their first `n` bytes.
pub open spec fn common_prefix(a: Seq<u8>, b: Seq<u8>, n: int) -> bool {
    &&& 0 <= n <= a.len()
    &&& n <= b.len()
    &&& forall|j: int| 0 <= j < n ==> a[j] == b[j]
}

/// `a` sorts strictly before `b`, and position `i` decides it: the two agree
/// before `i`, and at `i` either `a` has ended or holds the smaller byte.
pub open spec fn lex_lt_at(a: Seq<u8>, b: Seq<u8>, i: int) -> bool {
    &&& common_prefix(a, b, i)
    &&& i < b.len()
    &&& (i == a.len() || a[i] < b[i])
}

/// Strict byte-lexicographic order.
pub open spec fn lex_lt(a: Seq<u8>, b: Seq<u8>) -> bool {
    exists|i: int| lex_lt_at(a, b, i)
}

/// Non-strict byte-lexicographic order.
pub open spec fn lex_le(a: Seq<u8>, b: Seq<u8>) -> bool {
    a == b || lex_lt(a, b)
}

/// The position that decides `lex_lt(a, b)` is unique.
pub proof fn lemma_decider_unique(a: Seq<u8>, b: Seq<u8>, i: int, j: int)
    requires
        lex_lt_at(a, b, i),
        lex_lt_at(a, b, j),
    ensures
        i == j,
{
    if i < j {
        assert(a[i] == b[i]);
    } else if j < i {
        assert(a[j] == b[j]);
    }
}

/// No byte string sorts before itself.
pub proof fn lemma_lex_irreflexive(a: Seq<u8>)
    ensures
        !lex_lt(a, a),
{
}

/// Two byte strings cannot sort before each other.
pub proof fn lemma_lex_asymmetric(a: Seq<u8>, b: Seq<u8>)
    requires
        lex_lt(a, b),
    ensures
        !lex_lt(b, a),
        a != b,
{
    let i = choose|i: int| lex_lt_at(a, b, i);
    if lex_lt(b, a) {
        let j = choose|j: int| lex_lt_at(b, a, j);
        if i < j {
            assert(b[i] == a[i]);
        } else if j < i {
            assert(a[j] == b[j]);
        }
    }
}

/// The length of the longest common prefix of `a` and `b`, counted from
/// position `from`, up to which they are known to agree.
spec fn first_difference(a: Seq<u8>, b: Seq<u8>, from: int) -> int
    decreases a.len() - from,
{
    if 0 <= from < a.len() && from < b.len() && a[from] == b[from] {
        first_difference(a, b, from + 1)
    } else {
        from
    }
}

proof fn lemma_first_difference(a: Seq<u8>, b: Seq<u8>, from: int)
    requires
        common_prefix(a, b, from),
    ensures
        common_prefix(a, b, first_difference(a, b, from)),
        from <= first_difference(a, b, from),
        ({
            let d = first_difference(a, b, from);
            d == a.len() || d == b.len() || a[d] != b[d]
        }),
    decreases a.len() - from,
{
    if from < a.len() && from < b.len() && a[from] == b[from] {
        lemma_first_difference(a, b, from + 1);
    }
}

/// Any two byte strings are equal, or one sorts before the other.
pub proof fn lemma_lex_total(a: Seq<u8>, b: Seq<u8>)
    ensures
        lex_lt(a, b) || a == b || lex_lt(b, a),
{
    lemma_first_difference(a, b, 0);
    let d = first_difference(a, b, 0);
    if d == a.len() && d == b.len() {
        assert(a =~= b);
    } else if d == a.len() {
        assert(lex_lt_at(a, b, d));
    } else if d == b.len() {
        assert(lex_lt_at(b, a, d));
    } else if a[d] < b[d] {
        assert(lex_lt_at(a, b, d));
    } else {
        assert(lex_lt_at(b, a, d));
    }
}

/// The order is transitive.
pub proof fn lemma_lex_transitive(a: Seq<u8>, b: Seq<u8>, c: Seq<u8>)
    requires
        lex_lt(a, b),
        lex_lt(b, c),
    ensures
        lex_lt(a, c),
{
    let i = choose|i: int| lex_lt_at(a, b, i);
    let j = choose|j: int| lex_lt_at(b, c, j);
    if i <= j {
        if i < j {
            assert(b[i] == c[i]);
        }
        assert(lex_lt_at(a, c, i));
    } else {
        assert(a[j] == b[j]);
        assert(lex_lt_at(a, c, j));
    }
}

/// Mixed transitivity: `a <= b < c` gives `a < c`.
pub proof fn lemma_lex_le_lt(a: Seq<u8>, b: Seq<u8>, c: Seq<u8>)
    requires
        lex_le(a, b),
        lex_lt(b, c),
    ensures
        lex_lt(a, c),
{
    if a != b {
        lemma_lex_transitive(a, b, c);
    }
}

/// Mixed transitivity: `a < b <= c` gives `a < c`.
pub proof fn lemma_lex_lt_le(a: Seq<u8>, b: Seq<u8>, c: Seq<u8>)
    requires
        lex_lt(a, b),
        lex_le(b, c),
    ensures
        lex_lt(a, c),
{
    if b != c {
        lemma_lex_transitive(a, b, c);
    }
}

/// A strict prefix sorts before every one of its extensions.
pub proof fn lemma_prefix_sorts_first(a: Seq<u8>, tail: Seq<u8>)
    requires
        tail.len() > 0,
    ensures
        lex_lt(a, a + tail),
{
    assert(lex_lt_at(a, a + tail, a.len() as int));
}

/// A common front does not change the order of what follows it.
pub proof fn lemma_lex_common_front(p: Seq<u8>, a: Seq<u8>, b: Seq<u8>)
    ensures
        lex_lt(p + a, p + b) <==> lex_lt(a, b),
{
    let n = p.len() as int;
    if lex_lt(a, b) {
        let i = choose|i: int| lex_lt_at(a, b, i);
        assert forall|j: int| 0 <= j < n + i implies (p + a)[j] == (p + b)[j] by {
            if j >= n {
                assert(a[j - n] == b[j - n]);
            }
        }
        assert(lex_lt_at(p + a, p + b, n + i));
    }
    if lex_lt(p + a, p + b) {
        let k = choose|k: int| lex_lt_at(p + a, p + b, k);
        if k < n {
            assert((p + a)[k] == p[k]);
            assert((p + b)[k] == p[k]);
        }
        assert forall|j: int| 0 <= j < k - n implies a[j] == b[j] by {
            assert((p + a)[n + j] == (p + b)[n + j]);
        }
        if k - n < a.len() {
            assert((p + a)[k] == a[k - n]);
        }
        assert((p + b)[k] == b[k - n]);
        assert(lex_lt_at(a, b, k - n));
    }
}

/// Between byte strings of one length, the last byte decides only where all
/// bytes before it agree.
pub proof fn lemma_lex_push(a: Seq<u8>, x: u8, b: Seq<u8>, y: u8)
    requires
        a.len() == b.len(),
    ensures
        lex_lt(a.push(x), b.push(y)) <==> (lex_lt(a, b) || (a == b && x < y)),
        a.push(x) == b.push(y) <==> (a == b && x == y),
{
    let n = a.len() as int;
    let ax = a.push(x);
    let by = b.push(y);
    if lex_lt(a, b) {
        let i = choose|i: int| lex_lt_at(a, b, i);
        assert(i < n);
        assert(lex_lt_at(ax, by, i));
    }
    if a == b && x < y {
        assert(lex_lt_at(ax, by, n));
    }
    if lex_lt(ax, by) {
        let k = choose|k: int| lex_lt_at(ax, by, k);
        if k < n {
            assert(ax[k] == a[k]);
            assert(by[k] == b[k]);
            assert forall|j: int| 0 <= j < k implies a[j] == b[j] by {
                assert(ax[j] == by[j]);
            }
            assert(lex_lt_at(a, b, k));
        } else {
            assert forall|j: int| 0 <= j < n implies a[j] == b[j] by {
                assert(ax[j] == by[j]);
            }
            assert(a =~= b);
            assert(ax[n] == x && by[n] == y);
        }
    }
    if ax == by {
        assert(ax[n] == by[n]);
        assert forall|j: int| 0 <= j < n implies a[j] == b[j] by {
            assert(ax[j] == by[j]);
        }
        assert(a =~= b);
    }
}

/// Whether `a` sorts strictly before `b`.
pub fn bytes_lt(a: &[u8], b: &[u8]) -> (r: bool)
    ensures
        r == lex_lt(a@, b@),
{
    let mut i: usize = 0;
    while i < a.len() && i < b.len()
        invariant
            common_prefix(a@, b@, i as int),
        decreases a.len() - i,
    {
        if a[i] != b[i] {
            proof {
                if a[i as int] < b[i as int] {
                    assert(lex_lt_at(a@, b@, i as int));
                } else {
                    assert(lex_lt_at(b@, a@, i as int));
                    lemma_lex_asymmetric(b@, a@);
                }
            }
            return a[i] < b[i];
        }
        i += 1;
    }
    proof {
        if i < b.len() {
            assert(lex_lt_at(a@, b@, i as int));
        } else if i < a.len() {
            assert(lex_lt_at(b@, a@, i as int));
            lemma_lex_asymmetric(b@, a@);
        } else {
            assert(a@ =~= b@);
            lemma_lex_irreflexive(a@);
        }
    }
    i < b.len()
}

/// Whether `a` and `b` hold the same bytes.
pub fn bytes_eq(a: &[u8], b: &[u8]) -> (r: bool)
    ensures
        r == (a@ == b@),
{
    if a.len() != b.len() {
        return false;
    }
    let mut i: usize = 0;
    while i < a.len()
        invariant
            a.len() == b.len(),
            common_prefix(a@, b@, i as int),
        decreases a.len() - i,
    {
        if a[i] != b[i] {
            return false;
        }
        i += 1;
    }
    assert(a@ =~= b@);
    true
}

/// Whether `a` sorts before `b` or equals it.
pub fn bytes_le(a: &[u8], b: &[u8]) -> (r: bool)
    ensures
        r == lex_le(a@, b@),
{
    proof {
        lemma_lex_total(a@, b@);
        if lex_lt(b@, a@) {
            lemma_lex_asymmetric(b@, a@);
        }
        if lex_lt(a@, b@) {
            lemma_lex_asymmetric(a@, b@);
        }
        lemma_lex_irreflexive(a@);
    }
    !bytes_lt(b, a)
}

} // verus!
