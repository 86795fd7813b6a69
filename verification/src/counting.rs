use vstd::prelude::*;

verus! {

/// How many entries of `s` equal `v`.
pub open spec fn count_of<T>(s: Seq<T>, v: T) -> nat
    decreases s.len(),
{
    if s.len() == 0 {
        0
    } else {
        count_of(s.drop_last(), v) + if s.last() == v {
            1nat
        } else {
            0nat
        }
    }
}

/// Appending an entry adds it to the count, if it is the one counted.
pub proof fn lemma_count_push<T>(s: Seq<T>, v: T, x: T)
    ensures
        count_of(s.push(x), v) == count_of(s, v) + if x == v {
            1nat
        } else {
            0nat
        },
{
    assert(s.push(x).drop_last() =~= s);
}

/// Overwriting a counted entry with another takes one off the count.
pub proof fn lemma_count_update<T>(s: Seq<T>, v: T, i: int, x: T)
    requires
        0 <= i < s.len(),
        s[i] == v,
        x != v,
    ensures
        count_of(s.update(i, x), v) + 1 == count_of(s, v),
    decreases s.len(),
{
    if i == s.len() - 1 {
        assert(s.update(i, x).drop_last() =~= s.drop_last());
    } else {
        lemma_count_update(s.drop_last(), v, i, x);
        assert(s.update(i, x).drop_last() =~= s.drop_last().update(i, x));
    }
}

/// The count is at most the length; it is positive exactly if the entry
/// occurs.
pub proof fn lemma_count_bounds<T>(s: Seq<T>, v: T)
    ensures
        count_of(s, v) <= s.len(),
        count_of(s, v) > 0 ==> exists|i: int| 0 <= i < s.len() && s[i] == v,
        count_of(s, v) == 0 ==> forall|i: int| 0 <= i < s.len() ==> s[i] != v,
    decreases s.len(),
{
    if s.len() > 0 {
        lemma_count_bounds(s.drop_last(), v);
        if count_of(s, v) > 0 {
            if s.last() == v {
                assert(s[s.len() - 1] == v);
            } else {
                let i = choose|i: int| 0 <= i < s.drop_last().len() && s.drop_last()[i] == v;
                assert(s[i] == v);
            }
        } else {
            assert forall|i: int| 0 <= i < s.len() implies s[i] != v by {
                if i < s.len() - 1 {
                    assert(s.drop_last()[i] != v);
                }
            }
        }
    }
}

} // verus!
