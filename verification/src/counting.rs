//! Counting the members of a finite set of integers by walking a range.

use vstd::prelude::*;

verus! {

/// The members of `s` that are smaller than `n`.
pub open spec fn below(s: Set<int>, n: int) -> Set<int> {
    Set::new(|x: int| s.contains(x) && x < n)
}

/// Nothing of `s` lies below a lower bound of `s`.
pub proof fn lemma_below_start(s: Set<int>, lo: int)
    requires
        forall|x: int| s.contains(x) ==> lo <= x,
    ensures
        below(s, lo) == Set::<int>::empty(),
        below(s, lo).finite(),
        below(s, lo).len() == 0,
{
    assert(below(s, lo) =~= Set::<int>::empty());
}

/// Walking one number further adds that number if it is in `s`.
pub proof fn lemma_below_step(s: Set<int>, n: int)
    requires
        below(s, n).finite(),
    ensures
        below(s, n + 1).finite(),
        below(s, n + 1).len() == below(s, n).len() + if s.contains(n) {
            1int
        } else {
            0int
        },
{
    if s.contains(n) {
        assert(below(s, n + 1) =~= below(s, n).insert(n));
    } else {
        assert(below(s, n + 1) =~= below(s, n));
    }
}

/// Past an upper bound of `s` the walk has seen all of `s`.
pub proof fn lemma_below_end(s: Set<int>, hi: int)
    requires
        forall|x: int| s.contains(x) ==> x < hi,
    ensures
        below(s, hi) == s,
{
    assert(below(s, hi) =~= s);
}

/// A set of integers within `lo..hi` is finite and has at most `hi - lo` members.
pub proof fn lemma_bounded_set_finite(s: Set<int>, lo: int, hi: int)
    requires
        lo <= hi,
        forall|x: int| s.contains(x) ==> lo <= x < hi,
    ensures
        s.finite(),
        s.len() <= hi - lo,
{
    lemma_below_range(s, lo, hi);
    lemma_below_end(s, hi);
}

proof fn lemma_below_range(s: Set<int>, lo: int, n: int)
    requires
        lo <= n,
        forall|x: int| s.contains(x) ==> lo <= x,
    ensures
        below(s, n).finite(),
        below(s, n).len() <= n - lo,
    decreases n - lo,
{
    if n == lo {
        lemma_below_start(s, lo);
    } else {
        lemma_below_range(s, lo, n - 1);
        lemma_below_step(s, n - 1);
    }
}

/// In a set with one member, any two members are the same.
pub proof fn lemma_singleton_members(s: Set<int>, a: int, b: int)
    requires
        s.finite(),
        s.len() == 1,
        s.contains(a),
        s.contains(b),
    ensures
        a == b,
{
    if a != b {
        assert(s.remove(a).contains(b));
        assert(s.remove(a).len() == 0);
    }
}

/// The least member of a non-empty set of integers that has one.
pub open spec fn least(s: Set<int>) -> int {
    choose|m: int| is_least(s, m)
}

pub open spec fn is_least(s: Set<int>, m: int) -> bool {
    s.contains(m) && forall|x: int| s.contains(x) ==> m <= x
}

/// A least member is the least member.
pub proof fn lemma_least_unique(s: Set<int>, m: int)
    requires
        is_least(s, m),
    ensures
        least(s) == m,
{
    let l = least(s);
    assert(is_least(s, l));
}

} // verus!
