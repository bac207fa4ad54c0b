//! Fixed-width byte strings: equality and lexicographic order.

use vstd::prelude::*;

verus! {

/// The position at which `a` is smaller than `b` after a common prefix.
pub open spec fn lex_lt_at(a: Seq<u8>, b: Seq<u8>, i: int) -> bool {
    0 <= i < a.len() && i < b.len() && a.subrange(0, i) == b.subrange(0, i) && a[i] < b[i]
}

/// Lexicographic "less than" on byte strings of equal length: the strings
/// agree up to some position, where `a` holds the smaller byte.
pub open spec fn lex_lt(a: Seq<u8>, b: Seq<u8>) -> bool {
    exists|i: int| lex_lt_at(a, b, i)
}

/// Whether two byte arrays hold the same bytes.
pub fn array_eq<const N: usize>(a: &[u8; N], b: &[u8; N]) -> (same: bool)
    ensures
        same == (*a == *b),
{
    let mut i: usize = 0;
    while i < N
        invariant
            i <= N,
            forall|j: int| 0 <= j < i ==> a[j] == b[j],
        decreases N - i,
    {
        if a[i] != b[i] {
            return false;
        }
        i += 1;
    }
    assert(*a =~= *b);
    true
}

/// Whether `a` comes before `b` in lexicographic order.
pub fn array_lt<const N: usize>(a: &[u8; N], b: &[u8; N]) -> (less: bool)
    ensures
        less == lex_lt(a@, b@),
{
    let mut i: usize = 0;
    while i < N
        invariant
            i <= N,
            forall|j: int| 0 <= j < i ==> a[j] == b[j],
        decreases N - i,
    {
        if a[i] != b[i] {
            let less = a[i] < b[i];
            proof {
                if less {
                    assert(a@.subrange(0, i as int) =~= b@.subrange(0, i as int));
                    assert(lex_lt_at(a@, b@, i as int));
                } else {
                    assert forall|k: int| !lex_lt_at(a@, b@, k) by {
                        if lex_lt_at(a@, b@, k) && k > i {
                            assert(a@.subrange(0, k)[i as int] == b@.subrange(0, k)[i as int]);
                        }
                    }
                }
            }
            return less;
        }
        i += 1;
    }
    proof {
        assert forall|k: int| !lex_lt_at(a@, b@, k) by {}
    }
    false
}

/// No byte string comes before itself.
pub proof fn lemma_lex_lt_irreflexive(a: Seq<u8>)
    ensures
        !lex_lt(a, a),
{
}

/// Of two byte strings at most one comes before the other.
pub proof fn lemma_lex_lt_asymmetric(a: Seq<u8>, b: Seq<u8>)
    requires
        lex_lt(a, b),
    ensures
        !lex_lt(b, a),
{
    let i = choose|i: int| lex_lt_at(a, b, i);
    assert(lex_lt_at(a, b, i));
    assert forall|j: int| !lex_lt_at(b, a, j) by {
        if lex_lt_at(b, a, j) {
            if j < i {
                assert(a.subrange(0, i)[j] == b.subrange(0, i)[j]);
            } else if i < j {
                assert(b.subrange(0, j)[i] == a.subrange(0, j)[i]);
            }
        }
    }
    assert(!lex_lt(b, a)) by {
        if lex_lt(b, a) {
            let j = choose|j: int| lex_lt_at(b, a, j);
            assert(lex_lt_at(b, a, j));
        }
    }
}

/// The lexicographic order is transitive.
pub proof fn lemma_lex_lt_transitive(a: Seq<u8>, b: Seq<u8>, c: Seq<u8>)
    requires
        lex_lt(a, b),
        lex_lt(b, c),
    ensures
        lex_lt(a, c),
{
    let i = choose|i: int| lex_lt_at(a, b, i);
    let j = choose|j: int| lex_lt_at(b, c, j);
    assert(lex_lt_at(a, b, i));
    assert(lex_lt_at(b, c, j));
    let k = if i <= j {
        i
    } else {
        j
    };
    assert forall|m: int| 0 <= m < k implies a.subrange(0, k)[m] == c.subrange(0, k)[m] by {
        assert(a.subrange(0, i)[m] == b.subrange(0, i)[m]);
        assert(b.subrange(0, j)[m] == c.subrange(0, j)[m]);
    }
    assert(a.subrange(0, k) =~= c.subrange(0, k));
    if i < j {
        assert(b.subrange(0, j)[i] == c.subrange(0, j)[i]);
    } else if j < i {
        assert(a.subrange(0, i)[j] == b.subrange(0, i)[j]);
    }
    assert(lex_lt_at(a, c, k));
}

/// Two different byte strings of one length are ordered one way or the other.
pub proof fn lemma_lex_lt_total(a: Seq<u8>, b: Seq<u8>)
    requires
        a.len() == b.len(),
        a != b,
    ensures
        lex_lt(a, b) || lex_lt(b, a),
{
    assert(a.subrange(0, 0) =~= b.subrange(0, 0));
    lemma_first_difference(a, b, 0);
}

proof fn lemma_first_difference(a: Seq<u8>, b: Seq<u8>, from: int)
    requires
        a.len() == b.len(),
        0 <= from <= a.len(),
        a.subrange(0, from) == b.subrange(0, from),
        a != b,
    ensures
        lex_lt(a, b) || lex_lt(b, a),
    decreases a.len() - from,
{
    if from == a.len() {
        assert(a.subrange(0, from) =~= a);
        assert(b.subrange(0, from) =~= b);
    } else if a[from] < b[from] {
        assert(lex_lt_at(a, b, from));
    } else if b[from] < a[from] {
        assert(lex_lt_at(b, a, from));
    } else {
        let next = from + 1;
        assert forall|m: int| 0 <= m < next implies #[trigger] a.subrange(0, next)[m] == b.subrange(
            0,
            next,
        )[m] by {
            if m < from {
                assert(a.subrange(0, from)[m] == b.subrange(0, from)[m]);
            }
        }
        assert(a.subrange(0, next) =~= b.subrange(0, next));
        lemma_first_difference(a, b, next);
    }
}

} // verus!
