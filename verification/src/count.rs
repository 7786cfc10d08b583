use vstd::prelude::*;

verus! {

/// The number of elements of `s` equal to `x`.
pub open spec fn count_eq<T>(s: Seq<T>, x: T) -> nat
    decreases s.len(),
{
    if s.len() == 0 {
        0
    } else {
        count_eq(s.drop_last(), x) + if s.last() == x {
            1nat
        } else {
            0nat
        }
    }
}

/// A count is at most the length.
pub proof fn lemma_count_bound<T>(s: Seq<T>, x: T)
    ensures
        count_eq(s, x) <= s.len(),
    decreases s.len(),
{
    if s.len() > 0 {
        lemma_count_bound(s.drop_last(), x);
    }
}

/// Where every `x` of `t` stands at a place where `s` also holds `x`, `t` holds no
/// more `x` than `s`; fewer if some place of `s` holding `x` does not hold it in `t`.
pub proof fn lemma_count_mono<T>(s: Seq<T>, t: Seq<T>, x: T)
    requires
        s.len() == t.len(),
        forall|i: int| 0 <= i < t.len() && t[i] == x ==> s[i] == x,
    ensures
        count_eq(t, x) <= count_eq(s, x),
        (exists|i: int| 0 <= i < t.len() && s[i] == x && t[i] != x) ==> count_eq(t, x) < count_eq(
            s,
            x,
        ),
    decreases s.len(),
{
    if s.len() > 0 {
        let s2 = s.drop_last();
        let t2 = t.drop_last();
        assert forall|i: int| 0 <= i < t2.len() && t2[i] == x implies s2[i] == x by {
            assert(t[i] == x);
        }
        lemma_count_mono(s2, t2, x);
        if exists|i: int| 0 <= i < t.len() && s[i] == x && t[i] != x {
            let i = choose|i: int| 0 <= i < t.len() && s[i] == x && t[i] != x;
            if i < t.len() - 1 {
                assert(0 <= i < t2.len() && s2[i] == x && t2[i] != x);
            }
        }
    }
}

/// Overwriting an `x` with something else removes exactly one `x`.
pub proof fn lemma_count_update<T>(s: Seq<T>, i: int, v: T, x: T)
    requires
        0 <= i < s.len(),
        s[i] == x,
        v != x,
    ensures
        count_eq(s.update(i, v), x) + 1 == count_eq(s, x),
    decreases s.len(),
{
    let t = s.update(i, v);
    if i == s.len() - 1 {
        assert(t.drop_last() =~= s.drop_last());
    } else {
        assert(t.drop_last() =~= s.drop_last().update(i, v));
        lemma_count_update(s.drop_last(), i, v, x);
    }
}

} // verus!

verus! {

/// A sequence made only of `x` counts all its entries.
pub proof fn lemma_count_all<T>(s: Seq<T>, x: T)
    requires
        forall|i: int| 0 <= i < s.len() ==> s[i] == x,
    ensures
        count_eq(s, x) == s.len(),
    decreases s.len(),
{
    if s.len() > 0 {
        lemma_count_all(s.drop_last(), x);
    }
}

} // verus!
