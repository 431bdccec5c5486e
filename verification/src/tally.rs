//! Counting the marked entries of a sequence of flags.

use vstd::prelude::*;

verus! {

/// How many entries of `s` are `true`.
pub open spec fn count_true(s: Seq<bool>) -> nat
    decreases s.len(),
{
    if s.len() == 0 {
        0
    } else {
        count_true(s.drop_last()) + if s.last() {
            1nat
        } else {
            0nat
        }
    }
}

/// `s` with every position listed in `idxs` set to `true`.
pub open spec fn mark_all(s: Seq<bool>, idxs: Seq<int>) -> Seq<bool>
    decreases idxs.len(),
{
    if idxs.len() == 0 {
        s
    } else {
        mark_all(s, idxs.drop_last()).update(idxs.last(), true)
    }
}

pub proof fn lemma_count_bound(s: Seq<bool>)
    ensures
        count_true(s) <= s.len(),
    decreases s.len(),
{
    if s.len() > 0 {
        lemma_count_bound(s.drop_last());
    }
}

pub proof fn lemma_count_none(s: Seq<bool>)
    requires
        forall|i: int| 0 <= i < s.len() ==> !s[i],
    ensures
        count_true(s) == 0,
    decreases s.len(),
{
    if s.len() > 0 {
        lemma_count_none(s.drop_last());
    }
}

/// Marking one unmarked position raises the count by one.
pub proof fn lemma_count_mark(s: Seq<bool>, i: int)
    requires
        0 <= i < s.len(),
        !s[i],
    ensures
        count_true(s.update(i, true)) == count_true(s) + 1,
    decreases s.len(),
{
    let t = s.update(i, true);
    if i == s.len() - 1 {
        assert(t.drop_last() =~= s.drop_last());
    } else {
        lemma_count_mark(s.drop_last(), i);
        assert(t.drop_last() =~= s.drop_last().update(i, true));
    }
}

/// Marking distinct unmarked positions raises the count by their number.
pub proof fn lemma_mark_all(s: Seq<bool>, idxs: Seq<int>)
    requires
        idxs.no_duplicates(),
        forall|k: int| 0 <= k < idxs.len() ==> 0 <= #[trigger] idxs[k] < s.len() && !s[idxs[k]],
    ensures
        mark_all(s, idxs).len() == s.len(),
        count_true(mark_all(s, idxs)) == count_true(s) + idxs.len(),
        forall|i: int|
            0 <= i < s.len() ==> #[trigger] mark_all(s, idxs)[i] == (s[i] || idxs.contains(i)),
    decreases idxs.len(),
{
    if idxs.len() > 0 {
        let front = idxs.drop_last();
        let last = idxs.last();
        lemma_mark_all(s, front);
        let m = mark_all(s, front);
        if front.contains(last) {
            let k = choose|k: int| 0 <= k < front.len() && front[k] == last;
            assert(idxs[k] == idxs[idxs.len() - 1]);
        }
        assert(!m[last]);
        lemma_count_mark(m, last);
        assert forall|i: int| 0 <= i < s.len() implies #[trigger] mark_all(s, idxs)[i] == (s[i]
            || idxs.contains(i)) by {
            if idxs.contains(i) {
                let k = choose|k: int| 0 <= k < idxs.len() && idxs[k] == i;
                if k < idxs.len() - 1 {
                    assert(front[k] == i);
                }
            } else if front.contains(i) {
                let k = choose|k: int| 0 <= k < front.len() && front[k] == i;
                assert(idxs[k] == i);
            }
        }
    }
}

} // verus!
