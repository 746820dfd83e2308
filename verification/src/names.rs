//! The order in which names are kept: lexicographic, by code point.

use vstd::prelude::*;
use vstd::std_specs::iter::IteratorSpec;

verus! {

/// How one name stands to another in the order of names.
#[derive(Clone, Copy, Debug, PartialEq, Eq, Structural)]
pub enum Rank {
    Before,
    Same,
    After,
}

/// `a` precedes `b` when both are read from position `i` on.
pub open spec fn precedes_from(a: Seq<char>, b: Seq<char>, i: int) -> bool
    decreases a.len() - i,
{
    if i < 0 || i >= b.len() {
        false
    } else if i >= a.len() {
        true
    } else if a[i] != b[i] {
        (a[i] as u32) < (b[i] as u32)
    } else {
        precedes_from(a, b, i + 1)
    }
}

/// `a` comes strictly before `b`: at the first position where they differ
/// `a` has the smaller code point, or `a` is a proper prefix of `b`.
pub open spec fn precedes(a: Seq<char>, b: Seq<char>) -> bool {
    precedes_from(a, b, 0)
}

/// The rank of `a` relative to `b`.
pub open spec fn rank(a: Seq<char>, b: Seq<char>) -> Rank {
    if precedes(a, b) {
        Rank::Before
    } else if a == b {
        Rank::Same
    } else {
        Rank::After
    }
}

/// The two names agree on every position below `i`.
pub open spec fn agree_below(a: Seq<char>, b: Seq<char>, i: int) -> bool {
    &&& 0 <= i <= a.len()
    &&& i <= b.len()
    &&& forall|j: int| 0 <= j < i ==> a[j] == b[j]
}

/// Position `i` decides that `a` comes before `b`: the names agree below
/// it, and there `a` ends while `b` goes on, or `a` has the smaller code
/// point.
pub open spec fn decided_at(a: Seq<char>, b: Seq<char>, i: int) -> bool {
    &&& agree_below(a, b, i)
    &&& i < b.len()
    &&& i == a.len() || (a[i] as u32) < (b[i] as u32)
}

proof fn lemma_code_point_determines(x: char, y: char)
    requires
        x as u32 == y as u32,
    ensures
        x == y,
{
}

proof fn lemma_not_both_from(a: Seq<char>, b: Seq<char>, i: int)
    requires
        0 <= i,
    ensures
        !(precedes_from(a, b, i) && precedes_from(b, a, i)),
    decreases a.len() - i,
{
    if i < a.len() && i < b.len() && a[i] == b[i] {
        lemma_not_both_from(a, b, i + 1);
    }
}

proof fn lemma_neither_from(a: Seq<char>, b: Seq<char>, i: int)
    requires
        agree_below(a, b, i),
        !precedes_from(a, b, i),
        !precedes_from(b, a, i),
    ensures
        a == b,
    decreases a.len() - i,
{
    if i < a.len() && i < b.len() {
        lemma_code_point_determines(a[i], b[i]);
        lemma_neither_from(a, b, i + 1);
    } else {
        assert(a.len() == b.len());
        assert(a =~= b);
    }
}

proof fn lemma_chain_from(a: Seq<char>, b: Seq<char>, c: Seq<char>, i: int)
    requires
        0 <= i,
        precedes_from(a, b, i),
        precedes_from(b, c, i),
    ensures
        precedes_from(a, c, i),
    decreases a.len() - i,
{
    if i < a.len() && a[i] == b[i] && b[i] == c[i] {
        lemma_chain_from(a, b, c, i + 1);
    }
}

proof fn lemma_decided_from(a: Seq<char>, b: Seq<char>, k: int)
    requires
        agree_below(a, b, k),
        precedes_from(a, b, k),
    ensures
        exists|i: int| decided_at(a, b, i),
    decreases a.len() - k,
{
    if k < a.len() && a[k] == b[k] {
        lemma_decided_from(a, b, k + 1);
    } else {
        assert(decided_at(a, b, k));
    }
}

proof fn lemma_precedes_from_decided(a: Seq<char>, b: Seq<char>, i: int, k: int)
    requires
        decided_at(a, b, i),
        0 <= k <= i,
    ensures
        precedes_from(a, b, k),
    decreases i - k,
{
    if k < i {
        lemma_precedes_from_decided(a, b, i, k + 1);
    }
}

/// One name precedes another exactly where some position decides it.
pub proof fn lemma_precedes_decided(a: Seq<char>, b: Seq<char>)
    ensures
        precedes(a, b) <==> exists|i: int| decided_at(a, b, i),
{
    if precedes(a, b) {
        lemma_decided_from(a, b, 0);
    }
    if exists|i: int| decided_at(a, b, i) {
        let i = choose|i: int| decided_at(a, b, i);
        lemma_precedes_from_decided(a, b, i, 0);
    }
}

/// No name precedes itself, and of two names at most one precedes the other.
pub proof fn lemma_precedes_asymmetric(a: Seq<char>, b: Seq<char>)
    ensures
        !(precedes(a, b) && precedes(b, a)),
        !precedes(a, a),
{
    lemma_not_both_from(a, b, 0);
    lemma_not_both_from(a, a, 0);
}

/// Two distinct names are ordered one way or the other.
pub proof fn lemma_precedes_total(a: Seq<char>, b: Seq<char>)
    ensures
        precedes(a, b) || a == b || precedes(b, a),
{
    if !precedes(a, b) && !precedes(b, a) {
        lemma_neither_from(a, b, 0);
    }
}

/// The order is transitive.
pub proof fn lemma_precedes_transitive(a: Seq<char>, b: Seq<char>, c: Seq<char>)
    requires
        precedes(a, b),
        precedes(b, c),
    ensures
        precedes(a, c),
{
    lemma_chain_from(a, b, c, 0);
}

/// Compares two names in one pass over their characters.
pub fn compare(a: &str, b: &str) -> (r: Rank)
    ensures
        r == rank(a@, b@),
{
    let mut left = a.chars();
    let mut right = b.chars();
    let ghost mut i: int = 0;
    loop
        invariant
            agree_below(a@, b@, i),
            left.remaining() == a@.skip(i),
            right.remaining() == b@.skip(i),
            precedes(a@, b@) == precedes_from(a@, b@, i),
            precedes(b@, a@) == precedes_from(b@, a@, i),
        decreases a@.len() - i,
    {
        let x = left.next();
        let y = right.next();
        match (x, y) {
            (None, None) => {
                proof {
                    lemma_neither_from(a@, b@, i);
                }
                return Rank::Same;
            },
            (None, Some(_)) => {
                return Rank::Before;
            },
            (Some(_), None) => {
                proof {
                    lemma_not_both_from(a@, b@, i);
                }
                return Rank::After;
            },
            (Some(p), Some(q)) => {
                assert(p == a@[i] && q == b@[i]);
                if p != q {
                    let before = (p as u32) < (q as u32);
                    proof {
                        lemma_not_both_from(a@, b@, i);
                    }
                    if before {
                        return Rank::Before;
                    } else {
                        return Rank::After;
                    }
                }
                proof {
                    assert(a@.skip(i).drop_first() =~= a@.skip(i + 1));
                    assert(b@.skip(i).drop_first() =~= b@.skip(i + 1));
                    i = i + 1;
                }
            },
        }
    }
}

} // verus!
