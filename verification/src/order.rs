//! The order of keys: byte strings compared left to right by unsigned byte
//! value, a proper prefix coming before each of its extensions.

use vstd::prelude::*;
use vstd::relations::total_ordering;

verus! {

/// `a` and `b` hold the same bytes at every position before `n`.
pub open spec fn agree_before(a: Seq<u8>, b: Seq<u8>, n: int) -> bool {
    forall|j: int| 0 <= j < n ==> a[j] == b[j]
}

/// Position `i` decides `a < b`: the two agree before `i`, and at `i` either
/// `a` ends while `b` goes on, or `a` holds the smaller byte.
pub open spec fn decides_at(a: Seq<u8>, b: Seq<u8>, i: int) -> bool {
    &&& 0 <= i <= a.len()
    &&& i < b.len()
    &&& agree_before(a, b, i)
    &&& (i == a.len() || a[i] < b[i])
}

/// `a` comes strictly before `b` in lexicographic order.
pub open spec fn lex_lt(a: Seq<u8>, b: Seq<u8>) -> bool {
    exists|i: int| decides_at(a, b, i)
}

/// `a` comes before `b` or is `b`.
pub open spec fn lex_le(a: Seq<u8>, b: Seq<u8>) -> bool {
    a == b || lex_lt(a, b)
}

/// No byte string comes before itself.
pub proof fn lemma_lt_irreflexive(a: Seq<u8>)
    ensures
        !lex_lt(a, a),
{
}

/// The order is transitive.
pub proof fn lemma_lt_transitive(a: Seq<u8>, b: Seq<u8>, c: Seq<u8>)
    requires
        lex_lt(a, b),
        lex_lt(b, c),
    ensures
        lex_lt(a, c),
{
    let i = choose|i: int| decides_at(a, b, i);
    let j = choose|j: int| decides_at(b, c, j);
    let k = if i <= j { i } else { j };
    assert(decides_at(a, c, k));
}

/// Two byte strings that agree before `n`, where `n` is within both, are
/// equal or one comes before the other.
proof fn lemma_total_from(a: Seq<u8>, b: Seq<u8>, n: int)
    requires
        0 <= n <= a.len(),
        n <= b.len(),
        agree_before(a, b, n),
    ensures
        lex_lt(a, b) || a == b || lex_lt(b, a),
    decreases a.len() - n,
{
    if n == a.len() || n == b.len() {
        if a.len() < b.len() {
            assert(decides_at(a, b, n));
        } else if b.len() < a.len() {
            assert(decides_at(b, a, n));
        } else {
            assert(a =~= b);
        }
    } else if a[n] < b[n] {
        assert(decides_at(a, b, n));
    } else if b[n] < a[n] {
        assert(decides_at(b, a, n));
    } else {
        lemma_total_from(a, b, n + 1);
    }
}

/// The order is total: of two distinct byte strings one comes before the other.
pub proof fn lemma_lt_total(a: Seq<u8>, b: Seq<u8>)
    ensures
        lex_lt(a, b) || a == b || lex_lt(b, a),
{
    lemma_total_from(a, b, 0);
}

/// At most one of `a < b` and `b < a` holds.
pub proof fn lemma_lt_asymmetric(a: Seq<u8>, b: Seq<u8>)
    requires
        lex_lt(a, b),
    ensures
        !lex_lt(b, a),
        a != b,
{
}

/// `lex_le` is antisymmetric.
pub proof fn lemma_le_antisymmetric(a: Seq<u8>, b: Seq<u8>)
    requires
        lex_le(a, b),
        lex_le(b, a),
    ensures
        a == b,
{
}

/// `a <= b` is the negation of `b < a`.
pub proof fn lemma_le_iff_not_gt(a: Seq<u8>, b: Seq<u8>)
    ensures
        lex_le(a, b) <==> !lex_lt(b, a),
{
    lemma_lt_total(a, b);
}

/// `lex_le` is transitive.
pub proof fn lemma_le_transitive(a: Seq<u8>, b: Seq<u8>, c: Seq<u8>)
    requires
        lex_le(a, b),
        lex_le(b, c),
    ensures
        lex_le(a, c),
{
    if a != b && b != c {
        lemma_lt_transitive(a, b, c);
    }
}

/// `lex_le` orders the byte strings totally: it is reflexive, antisymmetric
/// and transitive, and it relates any two byte strings one way or the other.
pub proof fn lemma_le_is_total_ordering()
    ensures
        total_ordering(|a: Seq<u8>, b: Seq<u8>| lex_le(a, b)),
{
    let r = |a: Seq<u8>, b: Seq<u8>| lex_le(a, b);
    assert forall|x: Seq<u8>, y: Seq<u8>, z: Seq<u8>| #[trigger] r(x, y) && #[trigger] r(
        y,
        z,
    ) implies r(x, z) by {
        lemma_le_transitive(x, y, z);
    }
    assert forall|x: Seq<u8>, y: Seq<u8>| #[trigger] r(x, y) || #[trigger] r(y, x) by {
        lemma_lt_total(x, y);
    }
}

/// The empty byte string comes before every other one.
pub proof fn lemma_empty_is_least(a: Seq<u8>)
    ensures
        lex_le(Seq::<u8>::empty(), a),
{
    if a.len() > 0 {
        assert(decides_at(Seq::<u8>::empty(), a, 0));
    } else {
        assert(a =~= Seq::<u8>::empty());
    }
}

/// Whether `a` comes strictly before `b`.
pub fn less(a: &[u8], b: &[u8]) -> (r: bool)
    ensures
        r == lex_lt(a@, b@),
{
    let mut i: usize = 0;
    while i < a.len() && i < b.len()
        invariant
            i <= a.len(),
            i <= b.len(),
            agree_before(a@, b@, i as int),
        decreases a.len() - i,
    {
        if a[i] != b[i] {
            proof {
                if a[i as int] < b[i as int] {
                    assert(decides_at(a@, b@, i as int));
                } else {
                    assert(decides_at(b@, a@, i as int));
                }
            }
            return a[i] < b[i];
        }
        i += 1;
    }
    proof {
        if i < b.len() {
            assert(decides_at(a@, b@, i as int));
        }
    }
    i < b.len()
}

} // verus!
