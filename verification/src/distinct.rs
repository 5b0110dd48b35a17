//! Lists of distinct values.

use vstd::prelude::*;

verus! {

/// The values of a list, as integers.
pub open spec fn ints(s: Seq<u32>) -> Seq<int> {
    s.map_values(|d: u32| d as int)
}

/// What a longer list contains.
pub proof fn lemma_push_contains(s: Seq<int>, c: int, d: int)
    ensures
        s.push(c).contains(d) <==> (s.contains(d) || d == c),
{
    let t = s.push(c);
    if s.contains(d) {
        let i = choose|i: int| 0 <= i < s.len() && s[i] == d;
        assert(t[i] == d);
    }
    if d == c {
        assert(t[s.len() as int] == d);
    }
    if t.contains(d) && d != c {
        let i = choose|i: int| 0 <= i < t.len() && t[i] == d;
        assert(s[i] == d);
    }
}

/// A longer list is free of repeats when the list was and the value is new.
pub proof fn lemma_push_distinct(s: Seq<int>, c: int)
    ensures
        s.push(c).no_duplicates() <==> (s.no_duplicates() && !s.contains(c)),
{
    let t = s.push(c);
    assert(forall|i: int| 0 <= i < s.len() ==> s[i] == t[i]);
    if t.no_duplicates() && s.contains(c) {
        let i = choose|i: int| 0 <= i < s.len() && s[i] == c;
        assert(t[i] == t[s.len() as int]);
    }
    if s.no_duplicates() && !s.contains(c) {
        assert forall|i: int, j: int| 0 <= i < t.len() && 0 <= j < t.len() && i != j implies t[i]
            != t[j] by {
            if i < s.len() {
                assert(s.contains(s[i]));
            }
            if j < s.len() {
                assert(s.contains(s[j]));
            }
        }
    }
}

/// A piece of a list without repeats has none.
pub proof fn lemma_prefix_distinct(s: Seq<int>, t: Seq<int>)
    requires
        (s + t).no_duplicates(),
    ensures
        s.no_duplicates(),
        t.no_duplicates(),
{
    let u = s + t;
    assert(forall|i: int| 0 <= i < s.len() ==> s[i] == u[i]);
    assert(forall|i: int| 0 <= i < t.len() ==> t[i] == u[s.len() + i]);
}

/// Append `d` to a list unless it is there already; tell whether it was new.
pub fn push_new(seen: &mut Vec<u32>, d: u32) -> (r: bool)
    ensures
        r <==> !ints(old(seen)@).contains(d as int),
        r ==> ints(final(seen)@) == ints(old(seen)@).push(d as int),
        !r ==> final(seen)@ == old(seen)@,
{
    let mut i: usize = 0;
    while i < seen.len()
        invariant
            i <= seen@.len(),
            seen@ == old(seen)@,
            forall|j: int| 0 <= j < i ==> seen@[j] != d,
        decreases seen@.len() - i,
    {
        if seen[i] == d {
            proof {
                assert(ints(seen@)[i as int] == d);
            }
            return false;
        }
        i = i + 1;
    }
    seen.push(d);
    proof {
        let t = ints(old(seen)@);
        if t.contains(d as int) {
            let j = choose|j: int| 0 <= j < t.len() && t[j] == d as int;
            assert(old(seen)@[j] == d);
        }
        assert(ints(seen@) =~= t.push(d as int));
    }
    true
}

} // verus!
