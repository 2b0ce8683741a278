//! Fan-in aggregation: sorting the collected ports.
//!
//! Workers report open ports in an arbitrary interleaving; the collector
//! sorts what arrived, which makes the final sequence a function of the set
//! of discovered ports alone.

use vstd::prelude::*;

verus! {

/// An ascending sequence of ports.
pub open spec fn sorted(s: Seq<u16>) -> bool {
    forall|i: int, j: int| 0 <= i < j < s.len() ==> s[i] <= s[j]
}

/// Sorts the collected ports ascending, keeping exactly the collected values.
pub fn sort_ports(v: &mut Vec<u16>)
    ensures
        sorted(final(v)@),
        final(v)@.to_multiset() == old(v)@.to_multiset(),
{
    let n = v.len();
    if n < 2 {
        return ;
    }
    let mut i: usize = 1;
    while i < n
        invariant
            1 <= i <= n,
            n == v@.len(),
            forall|a: int, b: int| 0 <= a < b < i ==> v@[a] <= v@[b],
            v@.to_multiset() == old(v)@.to_multiset(),
        decreases n - i,
    {
        let mut j: usize = i;
        while j > 0 && v[j - 1] > v[j]
            invariant
                0 <= j <= i < n == v@.len(),
                v@.to_multiset() == old(v)@.to_multiset(),
                forall|a: int, b: int| 0 <= a < b <= i && b != j ==> v@[a] <= v@[b],
            decreases j,
        {
            proof {
                lemma_swap_keeps_multiset(v@, j - 1, j as int);
            }
            let lower = v[j - 1];
            let upper = v[j];
            v[j - 1] = upper;
            v[j] = lower;
            j = j - 1;
        }
        i = i + 1;
    }
}

/// Swapping two elements of a sequence keeps its multiset of values.
proof fn lemma_swap_keeps_multiset(s: Seq<u16>, a: int, b: int)
    requires
        0 <= a < s.len(),
        0 <= b < s.len(),
        a != b,
    ensures
        s.update(a, s[b]).update(b, s[a]).to_multiset() == s.to_multiset(),
{
    broadcast use vstd::seq_lib::group_to_multiset_ensures;
    broadcast use vstd::multiset::group_multiset_axioms;

    let s1 = s.update(a, s[b]);
    let t = s1.update(b, s[a]);
    assert(s.contains(s[a]));
    assert(s1.contains(s1[b]));
    assert(t.to_multiset() =~= s.to_multiset());
}

/// A sequence sorted ascending is determined by its multiset of values: two
/// sorted sequences holding the same values in the same quantities are equal.
/// The reported result is therefore a function of the set of discovered open
/// ports alone, whatever interleaving the workers delivered them in.
pub proof fn lemma_sorted_result_unique(a: Seq<u16>, b: Seq<u16>)
    requires
        sorted(a),
        sorted(b),
        a.to_multiset() == b.to_multiset(),
    ensures
        a == b,
{
    let leq = |x: u16, y: u16| x <= y;
    assert(vstd::relations::total_ordering(leq));
    vstd::seq_lib::lemma_sorted_unique(a, b, leq);
    assert(a =~= b);
}

/// Sorting is idempotent: a sort whose input is already sorted hands the
/// input back unchanged. `before` is the already-sorted input and `after`
/// any sequence the sort may return for it, so the two sides of the sort
/// contract are all this law needs.
pub proof fn lemma_sort_idempotent(before: Seq<u16>, after: Seq<u16>)
    requires
        sorted(before),
        sorted(after),
        after.to_multiset() == before.to_multiset(),
    ensures
        after == before,
{
    lemma_sorted_result_unique(after, before);
}

} // verus!
