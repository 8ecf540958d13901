//! The order of station names: byte by byte, a proper prefix first.

use vstd::prelude::*;
use std::cmp::Ordering;

verus! {

/// The first index at or behind `i` where `a` and `b` differ or one of them
/// ends.
pub open spec fn differ_from(a: Seq<u8>, b: Seq<u8>, i: int) -> int
    decreases a.len() - i,
{
    if i >= a.len() || i >= b.len() || a[i] != b[i] {
        i
    } else {
        differ_from(a, b, i + 1)
    }
}

/// `a` comes before `b`: at the first index where they differ `a` holds the
/// smaller byte, or `a` ends there and `b` goes on.
pub open spec fn precedes(a: Seq<u8>, b: Seq<u8>) -> bool {
    let d = differ_from(a, b, 0);
    if d < a.len() && d < b.len() {
        a[d] < b[d]
    } else {
        a.len() < b.len()
    }
}

/// Up to `differ_from` the two agree, and there they differ unless one ends.
pub proof fn lemma_differ(a: Seq<u8>, b: Seq<u8>, i: int)
    requires
        0 <= i <= a.len(),
        i <= b.len(),
    ensures
        i <= differ_from(a, b, i) <= a.len(),
        differ_from(a, b, i) <= b.len(),
        forall|j: int| i <= j < differ_from(a, b, i) ==> a[j] == b[j],
        differ_from(a, b, i) < a.len() && differ_from(a, b, i) < b.len() ==> a[differ_from(a, b, i)]
            != b[differ_from(a, b, i)],
    decreases a.len() - i,
{
    if i < a.len() && i < b.len() && a[i] == b[i] {
        lemma_differ(a, b, i + 1);
    }
}

/// No other index has the two agree before it and differ at it unless one
/// ends.
pub proof fn lemma_differ_unique(a: Seq<u8>, b: Seq<u8>, i: int, d: int)
    requires
        0 <= i <= d <= a.len(),
        d <= b.len(),
        forall|j: int| i <= j < d ==> a[j] == b[j],
        d < a.len() && d < b.len() ==> a[d] != b[d],
    ensures
        differ_from(a, b, i) == d,
    decreases d - i,
{
    if i < d {
        lemma_differ_unique(a, b, i + 1, d);
    }
}

/// No name comes before itself.
pub proof fn precedes_irreflexive(a: Seq<u8>)
    ensures
        !precedes(a, a),
{
}

/// Of two names at most one comes before the other.
pub proof fn precedes_asymmetric(a: Seq<u8>, b: Seq<u8>)
    ensures
        !(precedes(a, b) && precedes(b, a)),
{
    lemma_differ(a, b, 0);
    lemma_differ_unique(b, a, 0, differ_from(a, b, 0));
}

/// Of two names that differ one comes before the other.
pub proof fn precedes_total(a: Seq<u8>, b: Seq<u8>)
    ensures
        a == b || precedes(a, b) || precedes(b, a),
{
    lemma_differ(a, b, 0);
    lemma_differ_unique(b, a, 0, differ_from(a, b, 0));
}

/// What comes before a name comes before all that the name comes before.
pub proof fn precedes_transitive(a: Seq<u8>, b: Seq<u8>, c: Seq<u8>)
    requires
        precedes(a, b),
        precedes(b, c),
    ensures
        precedes(a, c),
{
    lemma_differ(a, b, 0);
    lemma_differ(b, c, 0);
    let ab = differ_from(a, b, 0);
    let bc = differ_from(b, c, 0);
    let first = if ab <= bc { ab } else { bc };
    lemma_differ_unique(a, c, 0, first);
}

/// The number of leading bytes that `a` and `b` share.
fn shared_prefix(a: &[u8], b: &[u8]) -> (d: usize)
    ensures
        d == differ_from(a@, b@, 0),
        d == differ_from(b@, a@, 0),
        d <= a@.len(),
        d <= b@.len(),
        d < a@.len() && d < b@.len() ==> a@[d as int] != b@[d as int],
        (a@ == b@) == (d == a@.len() && d == b@.len()),
{
    let mut d: usize = 0;
    while d < a.len() && d < b.len() && a[d] == b[d]
        invariant
            d <= a@.len(),
            d <= b@.len(),
            differ_from(a@, b@, d as int) == differ_from(a@, b@, 0),
        decreases a@.len() - d,
    {
        d = d + 1;
    }
    proof {
        lemma_differ(a@, b@, 0);
        lemma_differ_unique(b@, a@, 0, d as int);
        if a@.len() == b@.len() && d == a@.len() {
            assert(a@ =~= b@);
        }
    }
    d
}

/// Compares two names: `Less` where `a` comes before `b`, `Greater` where `b`
/// comes before `a`, `Equal` where they hold the same bytes.
pub fn key_order(a: &[u8], b: &[u8]) -> (o: Ordering)
    ensures
        (o is Less) == precedes(a@, b@),
        (o is Greater) == precedes(b@, a@),
        (o is Equal) == (a@ == b@),
{
    let d = shared_prefix(a, b);
    if d < a.len() && d < b.len() {
        if a[d] < b[d] {
            Ordering::Less
        } else {
            Ordering::Greater
        }
    } else if a.len() < b.len() {
        Ordering::Less
    } else if b.len() < a.len() {
        Ordering::Greater
    } else {
        Ordering::Equal
    }
}

} // verus!
