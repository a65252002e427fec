//! Slot arrays: arrays whose entries may be empty.
use vstd::prelude::*;
use super::model::IndexType;

verus! {
/// Number of occupied slots in a slot array.
pub open spec fn count_live<T>(s: Seq<Option<T>>) -> nat
    decreases s.len(),
{
    if s.len() == 0 {
        0
    } else {
        count_live(s.drop_last()) + if s.last() is Some { 1nat } else { 0nat }
    }
}

/// There are no more occupied slots than slots.
pub proof fn lemma_count_live_bound<T>(s: Seq<Option<T>>)
    ensures
        count_live(s) <= s.len(),
    decreases s.len(),
{
    if s.len() > 0 {
        lemma_count_live_bound(s.drop_last());
    }
}

/// Appending a slot adds one to the count if the slot is occupied.
pub proof fn lemma_count_live_push<T>(s: Seq<Option<T>>, x: Option<T>)
    ensures
        count_live(s.push(x)) == count_live(s) + if x is Some { 1nat } else { 0nat },
{
    assert(s.push(x).drop_last() =~= s);
}

/// Writing a slot changes the count by what the slot gains or loses.
pub proof fn lemma_count_live_update<T>(s: Seq<Option<T>>, i: int, x: Option<T>)
    requires
        0 <= i < s.len(),
    ensures
        count_live(s.update(i, x)) + (if s[i] is Some { 1nat } else { 0nat }) == count_live(s) + (if x is Some { 1nat } else { 0nat }),
    decreases s.len(),
{
    let t = s.update(i, x);
    if i == s.len() - 1 {
        assert(t.drop_last() =~= s.drop_last());
    } else {
        assert(t.drop_last() =~= s.drop_last().update(i, x));
        lemma_count_live_update(s.drop_last(), i, x);
    }
}

/// The occupied slots among the first `i` are among the first `j`, for `i <= j`.
pub proof fn lemma_count_live_take<T>(s: Seq<Option<T>>, i: int, j: int)
    requires
        0 <= i <= j <= s.len(),
    ensures
        count_live(s.take(i)) <= count_live(s.take(j)),
        i < j && s[i] is Some ==> count_live(s.take(i)) < count_live(s.take(j)),
    decreases j - i,
{
    if i < j {
        assert(s.take(j).drop_last() =~= s.take(j - 1));
        lemma_count_live_take(s, i, j - 1);
        if i == j - 1 {
            assert(s.take(j).last() == s[i]);
        }
    }
}

/// A slot array without empty slots has as many live slots as slots.
pub proof fn lemma_count_all_live<T>(s: Seq<Option<T>>)
    requires
        forall|i: int| 0 <= i < s.len() ==> (#[trigger] s[i]) is Some,
    ensures
        count_live(s) == s.len(),
    decreases s.len(),
{
    if s.len() > 0 {
        assert forall|i: int| 0 <= i < s.drop_last().len() implies (#[trigger] s.drop_last()[i]) is Some by {
            assert(s[i] is Some);
        }
        lemma_count_all_live(s.drop_last());
    }
}

/// The least index from `start` on whose slot is occupied, if there is one.
pub open spec fn first_live_from<T>(s: Seq<Option<T>>, start: int, r: Option<IndexType>) -> bool {
    match r {
        Some(i) => {
            &&& start <= i < s.len()
            &&& s[i as int] is Some
            &&& forall|j: int| start <= j < i ==> s[j] is None
        },
        None => forall|j: int| start <= j < s.len() ==> s[j] is None,
    }
}

/// The least index from `start` on whose slot is occupied, if there is one.
pub(crate) fn get_at<T>(start: usize, vals: &Vec<Option<T>>) -> (r: Option<IndexType>)
    requires
        vals@.len() <= u32::MAX,
    ensures
        first_live_from(vals@, start as int, r),
{
    let mut check: usize = start;
    while check < vals.len()
        invariant
            start <= check,
            vals@.len() <= u32::MAX,
            forall|j: int| start <= j < check && j < vals@.len() ==> vals@[j] is None,
        decreases vals.len() - check,
    {
        if vals[check].is_some() {
            return Some(check as IndexType);
        }
        check = check + 1;
    }
    None
}

/// The indices of the occupied slots, ascending.
pub open spec fn live_indices<T>(s: Seq<Option<T>>) -> Seq<int>
    decreases s.len(),
{
    if s.len() == 0 {
        Seq::empty()
    } else if s.last() is Some {
        live_indices(s.drop_last()).push(s.len() - 1)
    } else {
        live_indices(s.drop_last())
    }
}

/// The live indices are as many as the occupied slots, and each is the
/// index of an occupied slot.
pub proof fn lemma_live_indices<T>(s: Seq<Option<T>>)
    ensures
        live_indices(s).len() == count_live(s),
        forall|i: int| 0 <= i < live_indices(s).len() ==> 0 <= #[trigger] live_indices(s)[i] < s.len() && s[live_indices(
            s,
        )[i]] is Some,
    decreases s.len(),
{
    if s.len() > 0 {
        lemma_live_indices(s.drop_last());
    }
}

/// The live indices among the first `k` slots are the first live indices of
/// all.
pub proof fn lemma_live_prefix<T>(s: Seq<Option<T>>, k: int)
    requires
        0 <= k <= s.len(),
    ensures
        live_indices(s.take(k)).len() <= live_indices(s).len(),
        forall|j: int| 0 <= j < live_indices(s.take(k)).len() ==> #[trigger] live_indices(s.take(k))[j] == live_indices(s)[j],
    decreases s.len() - k,
{
    if k < s.len() {
        lemma_live_prefix(s, k + 1);
        assert(s.take(k + 1).drop_last() =~= s.take(k));
        let a = live_indices(s.take(k));
        let b = live_indices(s.take(k + 1));
        assert forall|j: int| 0 <= j < a.len() implies #[trigger] a[j] == live_indices(s)[j] by {
            assert(a[j] == b[j]);
        }
    } else {
        assert(s.take(k) =~= s);
    }
}

/// The live indices ascend.
pub proof fn lemma_live_ascending<T>(s: Seq<Option<T>>, i: int, j: int)
    requires
        0 <= i < j < live_indices(s).len(),
    ensures
        live_indices(s)[i] < live_indices(s)[j],
    decreases s.len(),
{
    let rest = s.drop_last();
    lemma_live_indices(rest);
    lemma_live_indices(s);
    if s.last() is Some && j == live_indices(rest).len() {
    } else {
        lemma_live_ascending(rest, i, j);
    }
}

/// The live index with `r` live indices below it is the one at place `r`
/// among the live indices.
pub proof fn lemma_rank<T>(s: Seq<Option<T>>, i: int)
    requires
        0 <= i < s.len(),
        s[i] is Some,
    ensures
        count_live(s.take(i)) < live_indices(s).len(),
        live_indices(s)[count_live(s.take(i)) as int] == i,
    decreases s.len(),
{
    let rest = s.drop_last();
    lemma_live_indices(rest);
    if i == s.len() - 1 {
        assert(s.take(i) =~= rest);
    } else {
        assert(s.take(i) =~= rest.take(i));
        lemma_rank(rest, i);
    }
}

/// The index at place `j` among the live indices has `j` live indices
/// below it.
pub proof fn lemma_rank_at<T>(s: Seq<Option<T>>, j: int)
    requires
        0 <= j < live_indices(s).len(),
    ensures
        0 <= live_indices(s)[j] < s.len(),
        s[live_indices(s)[j]] is Some,
        count_live(s.take(live_indices(s)[j])) == j,
    decreases s.len(),
{
    let rest = s.drop_last();
    lemma_live_indices(rest);
    lemma_live_indices(s);
    if s.last() is Some && j == live_indices(rest).len() {
        assert(s.take(s.len() - 1) =~= rest);
    } else {
        lemma_rank_at(rest, j);
        assert(s.take(live_indices(rest)[j]) =~= rest.take(live_indices(rest)[j]));
    }
}

/// The number of occupied slots.
pub fn count_occupied<T>(slots: &Vec<Option<T>>) -> (r: usize)
    ensures
        r == count_live(slots@),
{
    let mut r: usize = 0;
    let mut i: usize = 0;
    proof {
        assert(slots@.take(0) =~= Seq::empty());
    }
    while i < slots.len()
        invariant
            i <= slots@.len(),
            r <= i,
            r == count_live(slots@.take(i as int)),
        decreases slots.len() - i,
    {
        proof {
            assert(slots@.take(i + 1).drop_last() =~= slots@.take(i as int));
        }
        if slots[i].is_some() {
            r = r + 1;
        }
        i = i + 1;
    }
    proof {
        assert(slots@.take(slots@.len() as int) =~= slots@);
    }
    r
}

} // verus!
