//! Result lists: the numbers of a range that satisfy a predicate, in
//! ascending order.

use vstd::prelude::*;

use crate::NiceNumberSimple;

verus! {

/// Whether `n` is one of the results.
pub open spec fn contains_number(results: Seq<NiceNumberSimple>, n: int) -> bool {
    exists|i: int| 0 <= i < results.len() && (#[trigger] results[i]).number == n
}

/// Whether `results` ascends and credits every entry with `base` digits.
pub open spec fn is_ascending(results: Seq<NiceNumberSimple>, base: u32) -> bool {
    &&& forall|i: int, j: int|
        0 <= i < j < results.len() ==> (#[trigger] results[i]).number < (
        #[trigger] results[j]).number
    &&& forall|i: int| 0 <= i < results.len() ==> (#[trigger] results[i]).num_uniques == base
}

/// Whether `results` lists exactly the numbers from `lo` up to `hi` that
/// satisfy `pred`, in ascending order and with `base` distinct digits each.
pub open spec fn lists(
    results: Seq<NiceNumberSimple>,
    base: u32,
    lo: int,
    hi: int,
    pred: spec_fn(int) -> bool,
) -> bool {
    &&& is_ascending(results, base)
    &&& forall|n: int| #[trigger]
        contains_number(results, n) <==> (lo <= n < hi && pred(n))
}

/// A range and a predicate determine the list.
pub proof fn lemma_lists_unique(
    r: Seq<NiceNumberSimple>,
    s: Seq<NiceNumberSimple>,
    base: u32,
    lo: int,
    hi: int,
    p: spec_fn(int) -> bool,
    q: spec_fn(int) -> bool,
)
    requires
        lists(r, base, lo, hi, p),
        lists(s, base, lo, hi, q),
        forall|n: int| lo <= n < hi ==> #[trigger] p(n) == #[trigger] q(n),
    ensures
        r == s,
{
    assert forall|n: int| contains_number(r, n) == #[trigger] contains_number(s, n) by {
        assert(lo <= n < hi ==> p(n) == q(n));
    }
    assert forall|i: int| 0 <= i < r.len() implies i < s.len() && r[i].number
        == s[i].number by {
        lemma_same_entry(r, s, base, i);
    }
    if r.len() > s.len() {
        lemma_same_entry(r, s, base, s.len() as int);
    }
    if s.len() > r.len() {
        lemma_same_entry(s, r, base, r.len() as int);
    }
    assert forall|i: int| 0 <= i < r.len() implies r[i] == s[i] by {
        assert(r[i].num_uniques == s[i].num_uniques);
    }
    assert(r =~= s);
}

/// Two ascending lists of the same numbers agree entry by entry.
proof fn lemma_same_entry(
    r: Seq<NiceNumberSimple>,
    s: Seq<NiceNumberSimple>,
    base: u32,
    i: int,
)
    requires
        is_ascending(r, base),
        is_ascending(s, base),
        forall|n: int| contains_number(r, n) == #[trigger] contains_number(s, n),
        0 <= i < r.len(),
    ensures
        i < s.len(),
        r[i].number == s[i].number,
    decreases i,
{
    if i > 0 {
        lemma_same_entry(r, s, base, i - 1);
    }
    assert(contains_number(r, r[i].number as int));
    assert(contains_number(s, r[i].number as int));
    let j = choose|j: int| 0 <= j < s.len() && (#[trigger] s[j]).number == r[i].number;
    if j < i {
        assert(s[j].number <= s[i - 1].number) by {
            if j < i - 1 {
                assert(s[j].number < s[i - 1].number);
            }
        }
        assert(r[i - 1].number < r[i].number);
    }
    if j > i {
        assert(contains_number(s, s[i].number as int));
        assert(contains_number(r, s[i].number as int));
        let l = choose|l: int| 0 <= l < r.len() && (#[trigger] r[l]).number == s[i].number;
        assert(s[i].number < s[j].number);
        if l > i {
            assert(r[i].number < r[l].number);
        } else if l < i {
            if l < i - 1 {
                assert(r[l].number < r[i - 1].number);
            }
            assert(s[i - 1].number < s[i].number);
        }
    }
}

/// Appending a number above all others.
pub proof fn lemma_push_number(results: Seq<NiceNumberSimple>, base: u32, n: u128)
    requires
        is_ascending(results, base),
        forall|x: int| #[trigger] contains_number(results, x) ==> x < n,
    ensures
        ({
            let t = results.push(NiceNumberSimple { number: n, num_uniques: base });
            &&& is_ascending(t, base)
            &&& forall|x: int| #[trigger]
                contains_number(t, x) <==> (contains_number(results, x) || x == n)
        }),
{
    let t = results.push(NiceNumberSimple { number: n, num_uniques: base });
    assert forall|x: int| #[trigger] contains_number(t, x) <==> (contains_number(results, x)
        || x == n) by {
        if contains_number(results, x) {
            let i = choose|i: int| 0 <= i < results.len() && (#[trigger] results[i]).number == x;
            assert(t[i].number == x);
        }
        if x == n {
            assert(t[results.len() as int].number == x);
        }
        if contains_number(t, x) && x != n {
            let i = choose|i: int| 0 <= i < t.len() && (#[trigger] t[i]).number == x;
            assert(results[i].number == x);
        }
    }
    assert forall|i: int, j: int| 0 <= i < j < t.len() implies (#[trigger] t[i]).number < (
    #[trigger] t[j]).number by {
        if j == results.len() {
            assert(contains_number(results, results[i].number as int));
        } else {
            assert(results[i].number < results[j].number);
        }
    }
    assert forall|i: int| 0 <= i < t.len() implies (#[trigger] t[i]).num_uniques == base by {
        if i < results.len() {
            assert(results[i].num_uniques == base);
        }
    }
}

} // verus!
