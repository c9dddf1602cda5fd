//! Strictly ordered lists of slot handles and of pairs of them.
use vstd::prelude::*;

verus! {

/// Each entry is larger than the one before it.
pub open spec fn rising(s: Seq<usize>) -> bool {
    forall|a: int, b: int| 0 <= a < b < s.len() ==> s[a] < s[b]
}

/// Pairs in dictionary order, each larger than the one before it.
pub open spec fn pairs_rising(pairs: Seq<(usize, usize)>) -> bool {
    forall|x: int, y: int|
        0 <= x < y < pairs.len() ==> pairs[x].0 < pairs[y].0 || (pairs[x].0 == pairs[y].0
            && pairs[x].1 < pairs[y].1)
}

/// A rising list names no slot twice.
pub proof fn lemma_rising_no_repeat(s: Seq<usize>)
    requires
        rising(s),
    ensures
        s.no_duplicates(),
{
    assert forall|a: int, b: int| 0 <= a < s.len() && 0 <= b < s.len() && a != b implies s[a]
        != s[b] by {
        if a < b {
            assert(s[a] < s[b]);
        } else {
            assert(s[b] < s[a]);
        }
    }
}

/// A rising list of pairs names no pair twice.
pub proof fn lemma_pairs_rising_no_repeat(pairs: Seq<(usize, usize)>)
    requires
        pairs_rising(pairs),
    ensures
        pairs.no_duplicates(),
{
    assert forall|x: int, y: int|
        0 <= x < pairs.len() && 0 <= y < pairs.len() && x != y implies pairs[x] != pairs[y] by {
        if x < y {
            assert(pairs[x].0 < pairs[y].0 || (pairs[x].0 == pairs[y].0 && pairs[x].1
                < pairs[y].1));
        } else {
            assert(pairs[y].0 < pairs[x].0 || (pairs[y].0 == pairs[x].0 && pairs[y].1
                < pairs[x].1));
        }
    }
}

/// Two rising lists with the same entries are the same list: the order in
/// which slots come out is fixed by which slots come out.
pub proof fn lemma_rising_unique(s: Seq<usize>, t: Seq<usize>)
    requires
        rising(s),
        rising(t),
        forall|x: usize| s.contains(x) <==> t.contains(x),
    ensures
        s == t,
    decreases s.len(),
{
    if s.len() == 0 {
        if t.len() > 0 {
            assert(t.contains(t[0]));
        }
        assert(s =~= t);
    } else {
        let top = s.last();
        assert(s.contains(top));
        assert(t.contains(top));
        let k = choose|k: int| 0 <= k < t.len() && t[k] == top;
        if k < t.len() - 1 {
            assert(t.contains(t.last()));
            assert(s.contains(t.last()));
            let j = choose|j: int| 0 <= j < s.len() && s[j] == t.last();
            assert(t[k] < t.last());
            if j < s.len() - 1 {
                assert(s[j] < s.last());
            }
        }
        let s0 = s.drop_last();
        let t0 = t.drop_last();
        assert forall|x: usize| s0.contains(x) <==> t0.contains(x) by {
            if s0.contains(x) {
                let j = choose|j: int| 0 <= j < s0.len() && s0[j] == x;
                assert(s[j] == x);
                assert(s[j] < s.last());
                assert(s.contains(x));
                let m = choose|m: int| 0 <= m < t.len() && t[m] == x;
                assert(t0[m] == x);
            }
            if t0.contains(x) {
                let j = choose|j: int| 0 <= j < t0.len() && t0[j] == x;
                assert(t[j] == x);
                assert(t[j] < t.last());
                assert(t.contains(x));
                let m = choose|m: int| 0 <= m < s.len() && s[m] == x;
                assert(s0[m] == x);
            }
        }
        lemma_rising_unique(s0, t0);
        assert(s =~= s0.push(top));
        assert(t =~= t0.push(top));
    }
}

} // verus!
