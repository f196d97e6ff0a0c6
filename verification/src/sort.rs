//! Sorting by index: what the sorted sequence is, what holds of it, and the
//! merge sort that computes it.
use vstd::prelude::*;

use crate::{views, Subtitle, SubtitleView};

verus! {

/// `sorted` with `x` put in behind every record whose index is not greater
/// than that of `x`.
pub open spec fn insert_by_index(sorted: Seq<SubtitleView>, x: SubtitleView) -> Seq<SubtitleView>
    decreases sorted.len(),
{
    if sorted.len() > 0 && sorted.last().idx > x.idx {
        insert_by_index(sorted.drop_last(), x).push(sorted.last())
    } else {
        sorted.push(x)
    }
}

/// The records of `subs` by ascending index, records of equal index in the
/// order in which they stand in `subs`.
pub open spec fn sorted_by_index(subs: Seq<SubtitleView>) -> Seq<SubtitleView>
    decreases subs.len(),
{
    if subs.len() == 0 {
        subs
    } else {
        insert_by_index(sorted_by_index(subs.drop_last()), subs.last())
    }
}

/// Whether no record of `subs` has a smaller index than one before it.
pub open spec fn is_ordered_by_index(subs: Seq<SubtitleView>) -> bool {
    forall|i: int, j: int| 0 <= i <= j < subs.len() ==> subs[i].idx <= subs[j].idx
}

/// The test for a record to have the index `idx`.
pub open spec fn has_index(idx: u32) -> spec_fn(SubtitleView) -> bool {
    |v: SubtitleView| v.idx == idx
}

/// Putting a record into a sequence makes it one longer, and no index in it
/// greater than the greatest there was.
pub proof fn lemma_insert_bounded(sorted: Seq<SubtitleView>, x: SubtitleView, bound: u32)
    requires
        x.idx <= bound,
        forall|i: int| 0 <= i < sorted.len() ==> (#[trigger] sorted[i]).idx <= bound,
    ensures
        insert_by_index(sorted, x).len() == sorted.len() + 1,
        forall|i: int|
            0 <= i < sorted.len() + 1 ==> (#[trigger] insert_by_index(sorted, x)[i]).idx <= bound,
    decreases sorted.len(),
{
    if sorted.len() > 0 && sorted.last().idx > x.idx {
        assert forall|i: int| 0 <= i < sorted.drop_last().len() implies (
        #[trigger] sorted.drop_last()[i]).idx <= bound by {
            assert(sorted.drop_last()[i] == sorted[i]);
        }
        lemma_insert_bounded(sorted.drop_last(), x, bound);
    }
}

/// Putting a record into an ordered sequence leaves it ordered.
pub proof fn lemma_insert_keeps_order(sorted: Seq<SubtitleView>, x: SubtitleView)
    requires
        is_ordered_by_index(sorted),
    ensures
        is_ordered_by_index(insert_by_index(sorted, x)),
    decreases sorted.len(),
{
    if sorted.len() > 0 && sorted.last().idx > x.idx {
        let front = sorted.drop_last();
        let last = sorted.last();
        assert(is_ordered_by_index(front)) by {
            assert forall|i: int, j: int| 0 <= i <= j < front.len() implies front[i].idx
                <= front[j].idx by {
                assert(front[i] == sorted[i] && front[j] == sorted[j]);
            }
        }
        lemma_insert_keeps_order(front, x);
        assert forall|i: int| 0 <= i < front.len() implies (#[trigger] front[i]).idx
            <= last.idx by {
            assert(front[i] == sorted[i]);
        }
        lemma_insert_bounded(front, x, last.idx);
    }
}

/// Putting a record into a sequence puts it behind the records of its own
/// index and adds nothing to those of another.
pub proof fn lemma_insert_filter(sorted: Seq<SubtitleView>, x: SubtitleView, idx: u32)
    ensures
        insert_by_index(sorted, x).filter(has_index(idx)) == if x.idx == idx {
            sorted.filter(has_index(idx)).push(x)
        } else {
            sorted.filter(has_index(idx))
        },
    decreases sorted.len(),
{
    let p = has_index(idx);
    if sorted.len() > 0 && sorted.last().idx > x.idx {
        let front = sorted.drop_last();
        let last = sorted.last();
        lemma_insert_filter(front, x, idx);
        insert_by_index(front, x).lemma_filter_push(last, p);
        front.lemma_filter_push(last, p);
        assert(front.push(last) =~= sorted);
    } else {
        sorted.lemma_filter_push(x, p);
    }
}

/// Sorting keeps the number of records and puts them in the order of their
/// indices.
pub proof fn lemma_sort_orders(subs: Seq<SubtitleView>)
    ensures
        sorted_by_index(subs).len() == subs.len(),
        is_ordered_by_index(sorted_by_index(subs)),
    decreases subs.len(),
{
    if subs.len() > 0 {
        lemma_sort_orders(subs.drop_last());
        lemma_insert_keeps_order(sorted_by_index(subs.drop_last()), subs.last());
        lemma_insert_bounded(sorted_by_index(subs.drop_last()), subs.last(), u32::MAX);
    }
}

/// Sorting is stable: for each index, the records that carry it are the same
/// after sorting as before, and in the same order.
pub proof fn lemma_sort_is_stable(subs: Seq<SubtitleView>, idx: u32)
    ensures
        sorted_by_index(subs).filter(has_index(idx)) == subs.filter(has_index(idx)),
    decreases subs.len(),
{
    if subs.len() > 0 {
        let front = subs.drop_last();
        lemma_sort_is_stable(front, idx);
        lemma_insert_filter(sorted_by_index(front), subs.last(), idx);
        front.lemma_filter_push(subs.last(), has_index(idx));
        assert(front.push(subs.last()) =~= subs);
    }
}

/// Sorting leaves an ordered sequence as it is.
pub proof fn lemma_sort_keeps_ordered(subs: Seq<SubtitleView>)
    requires
        is_ordered_by_index(subs),
    ensures
        sorted_by_index(subs) == subs,
    decreases subs.len(),
{
    if subs.len() > 0 {
        let front = subs.drop_last();
        assert(is_ordered_by_index(front)) by {
            assert forall|i: int, j: int| 0 <= i <= j < front.len() implies front[i].idx
                <= front[j].idx by {
                assert(front[i] == subs[i] && front[j] == subs[j]);
            }
        }
        lemma_sort_keeps_ordered(front);
        if front.len() > 0 {
            assert(front.last() == subs[subs.len() - 2]);
        }
        assert(front.push(subs.last()) =~= subs);
    }
}

/// Sorting twice gives what sorting once gives.
pub proof fn lemma_sort_is_idempotent(subs: Seq<SubtitleView>)
    ensures
        sorted_by_index(sorted_by_index(subs)) == sorted_by_index(subs),
{
    lemma_sort_orders(subs);
    lemma_sort_keeps_ordered(sorted_by_index(subs));
}

/// Two sequences joined into one, from their ends: the last record of the
/// result is the last of `a` where its index is greater than that of the
/// last of `b`, or `b` is empty, and the last of `b` otherwise.
pub open spec fn merged(a: Seq<SubtitleView>, b: Seq<SubtitleView>) -> Seq<SubtitleView>
    decreases a.len() + b.len(),
{
    if a.len() == 0 && b.len() == 0 {
        a
    } else if b.len() == 0 || (a.len() > 0 && a.last().idx > b.last().idx) {
        merged(a.drop_last(), b).push(a.last())
    } else {
        merged(a, b.drop_last()).push(b.last())
    }
}

/// Joined with nothing, a sequence stays as it is.
pub proof fn lemma_merged_with_nothing(a: Seq<SubtitleView>)
    ensures
        merged(a, Seq::empty()) == a,
        merged(Seq::empty(), a) == a,
    decreases a.len(),
{
    if a.len() > 0 {
        lemma_merged_with_nothing(a.drop_last());
        assert(a.drop_last().push(a.last()) =~= a);
    }
}

/// To put a record into the second of two sequences and join them is to join
/// them and put the record in.
pub proof fn lemma_merged_insert(a: Seq<SubtitleView>, b: Seq<SubtitleView>, x: SubtitleView)
    ensures
        merged(a, insert_by_index(b, x)) == insert_by_index(merged(a, b), x),
    decreases a.len() + b.len(),
{
    let joined = merged(a, b);
    let put = insert_by_index(b, x);
    if a.len() == 0 {
        assert(a =~= Seq::<SubtitleView>::empty());
        lemma_merged_with_nothing(b);
        lemma_merged_with_nothing(put);
    } else if b.len() == 0 || b.last().idx <= x.idx {
        // the record goes to the end of `b`
        assert(put == b.push(x));
        assert(put.last() == x);
        assert(put.drop_last() =~= b);
        if a.last().idx > x.idx {
            // and the last of `a` stands behind it, as behind all of `b`
            assert(merged(a, put) == merged(a.drop_last(), put).push(a.last()));
            assert(joined == merged(a.drop_last(), b).push(a.last()));
            assert(joined.last() == a.last());
            assert(joined.drop_last() =~= merged(a.drop_last(), b));
            lemma_merged_insert(a.drop_last(), b, x);
            assert(insert_by_index(joined, x) == insert_by_index(joined.drop_last(), x).push(
                joined.last(),
            ));
        } else {
            // and is the last of all
            assert(merged(a, put) == merged(a, put.drop_last()).push(put.last()));
            if b.len() == 0 {
                assert(joined == merged(a.drop_last(), b).push(a.last()));
                assert(joined.last() == a.last());
            } else if a.last().idx > b.last().idx {
                assert(joined == merged(a.drop_last(), b).push(a.last()));
                assert(joined.last() == a.last());
            } else {
                assert(joined == merged(a, b.drop_last()).push(b.last()));
                assert(joined.last() == b.last());
            }
            assert(insert_by_index(joined, x) == joined.push(x));
        }
    } else {
        // the record goes in front of the last of `b`
        assert(put == insert_by_index(b.drop_last(), x).push(b.last()));
        assert(put.last() == b.last());
        assert(put.drop_last() =~= insert_by_index(b.drop_last(), x));
        if a.last().idx > b.last().idx {
            assert(merged(a, put) == merged(a.drop_last(), put).push(a.last()));
            assert(joined == merged(a.drop_last(), b).push(a.last()));
            assert(joined.last() == a.last());
            assert(joined.drop_last() =~= merged(a.drop_last(), b));
            lemma_merged_insert(a.drop_last(), b, x);
        } else {
            assert(merged(a, put) == merged(a, put.drop_last()).push(put.last()));
            assert(joined == merged(a, b.drop_last()).push(b.last()));
            assert(joined.last() == b.last());
            assert(joined.drop_last() =~= merged(a, b.drop_last()));
            lemma_merged_insert(a, b.drop_last(), x);
        }
        assert(insert_by_index(joined, x) == insert_by_index(joined.drop_last(), x).push(
            joined.last(),
        ));
    }
}

/// Two sorted halves joined are the whole sorted.
pub proof fn lemma_merged_sorts(a: Seq<SubtitleView>, b: Seq<SubtitleView>)
    ensures
        merged(sorted_by_index(a), sorted_by_index(b)) == sorted_by_index(a + b),
    decreases b.len(),
{
    if b.len() == 0 {
        assert(b =~= Seq::<SubtitleView>::empty());
        lemma_merged_with_nothing(sorted_by_index(a));
        assert(a + b =~= a);
    } else {
        lemma_merged_sorts(a, b.drop_last());
        lemma_merged_insert(sorted_by_index(a), sorted_by_index(b.drop_last()), b.last());
        assert((a + b).drop_last() =~= a + b.drop_last());
        assert((a + b).last() == b.last());
    }
}

/// Where each record has no smaller index than the one in front of it, the
/// records are ordered.
pub proof fn lemma_ordered_by_neighbours(subs: Seq<SubtitleView>)
    requires
        forall|i: int| 0 < i < subs.len() ==> subs[i - 1].idx <= (#[trigger] subs[i]).idx,
    ensures
        is_ordered_by_index(subs),
    decreases subs.len(),
{
    if subs.len() > 0 {
        let front = subs.drop_last();
        assert forall|i: int| 0 < i < front.len() implies front[i - 1].idx <= (
        #[trigger] front[i]).idx by {
            assert(front[i] == subs[i] && front[i - 1] == subs[i - 1]);
        }
        lemma_ordered_by_neighbours(front);
        assert forall|i: int, j: int| 0 <= i <= j < subs.len() implies subs[i].idx
            <= subs[j].idx by {
            if j < subs.len() - 1 {
                assert(front[i] == subs[i] && front[j] == subs[j]);
            } else if i < j {
                assert(front[i] == subs[i] && front[j - 1] == subs[j - 1]);
                assert(subs[j - 1].idx <= subs[j].idx);
            }
        }
    }
}

/// Tells whether no record has a smaller index than one before it.
pub fn is_sorted(subs: &[Subtitle]) -> (r: bool)
    ensures
        r == is_ordered_by_index(views(subs@)),
{
    let ghost all = views(subs@);
    let mut i: usize = 1;
    while i < subs.len()
        invariant
            1 <= i,
            all == views(subs@),
            forall|k: int| 0 < k < i && k < all.len() ==> all[k - 1].idx <= (#[trigger] all[k]).idx,
        decreases subs@.len() - i,
    {
        if subs[i - 1].idx > subs[i].idx {
            assert(!(all[i - 1].idx <= all[i as int].idx));
            return false;
        }
        i += 1;
    }
    proof {
        lemma_ordered_by_neighbours(all);
    }
    true
}

/// A record with nothing in it, to stand where one was taken away.
fn blank() -> (r: Subtitle)
    ensures
        r@ == blank_view(),
{
    let r = Subtitle { idx: 0, start: 0, end: 0, text: String::new() };
    assert(vstd::utf8::encode_utf8(r.text@) =~= Seq::<u8>::empty());
    r
}

/// The model of a record with nothing in it: index and timestamps are zero,
/// and the caption is empty.
pub open spec fn blank_view() -> SubtitleView {
    SubtitleView { idx: 0, start: 0, end: 0, text: Seq::empty() }
}

/// Moves the records out of `subs` into a vector, in their order.
pub(crate) fn take_all(subs: &mut [Subtitle]) -> (taken: Vec<Subtitle>)
    ensures
        views(taken@) == views(old(subs)@),
        final(subs)@.len() == old(subs)@.len(),
{
    let ghost all = views(subs@);
    let n = subs.len();
    let mut taken: Vec<Subtitle> = Vec::with_capacity(n);
    let mut i: usize = 0;
    while i < n
        invariant
            i <= n,
            n == subs@.len(),
            n == all.len(),
            taken@.len() == i,
            forall|k: int| 0 <= k < i ==> (#[trigger] taken@[k])@ == all[k],
            forall|k: int| i <= k < n ==> (#[trigger] subs@[k])@ == all[k],
        decreases n - i,
    {
        let mut sub = blank();
        core::mem::swap(&mut subs[i], &mut sub);
        taken.push(sub);
        i += 1;
    }
    proof {
        assert(views(taken@) =~= all);
    }
    taken
}

/// Moves the records of `sorted` into `subs`, in their order.
pub(crate) fn put_all(subs: &mut [Subtitle], sorted: Vec<Subtitle>)
    requires
        sorted@.len() == old(subs)@.len(),
    ensures
        views(final(subs)@) == views(sorted@),
{
    let ghost all = views(sorted@);
    let mut sorted = sorted;
    let n = subs.len();
    let mut i: usize = n;
    while i > 0
        invariant
            i <= n,
            n == subs@.len(),
            n == all.len(),
            sorted@.len() == i,
            forall|k: int| 0 <= k < i ==> (#[trigger] sorted@[k])@ == all[k],
            forall|k: int| i <= k < n ==> (#[trigger] subs@[k])@ == all[k],
        decreases i,
    {
        let mut sub = sorted.pop().unwrap();
        i -= 1;
        core::mem::swap(&mut subs[i], &mut sub);
    }
    proof {
        assert(views(subs@) =~= all);
    }
}

/// Joins two vectors into one, taking their records from their ends.
fn merge(a: Vec<Subtitle>, b: Vec<Subtitle>) -> (joined: Vec<Subtitle>)
    requires
        a@.len() + b@.len() <= usize::MAX,
    ensures
        views(joined@) == merged(views(a@), views(b@)),
{
    let ghost target = merged(views(a@), views(b@));
    let mut a = a;
    let mut b = b;
    let mut backwards: Vec<Subtitle> = Vec::with_capacity(a.len() + b.len());
    let ghost mut tail: Seq<SubtitleView> = Seq::empty();
    proof {
        assert(merged(views(a@), views(b@)) + tail =~= target);
    }
    while a.len() > 0 || b.len() > 0
        invariant
            target == merged(views(a@), views(b@)) + tail,
            tail.len() == backwards@.len(),
            forall|k: int|
                0 <= k < tail.len() ==> (#[trigger] backwards@[k])@ == tail[tail.len() - 1 - k],
        decreases a@.len() + b@.len(),
    {
        let ghost va = views(a@);
        let ghost vb = views(b@);
        let from_first = b.len() == 0 || (a.len() > 0 && a[a.len() - 1].idx > b[b.len() - 1].idx);
        let sub = if from_first {
            a.pop().unwrap()
        } else {
            b.pop().unwrap()
        };
        proof {
            if from_first {
                assert(va.last() == sub@);
                assert(views(a@) =~= va.drop_last());
            } else {
                assert(vb.last() == sub@);
                assert(views(b@) =~= vb.drop_last());
            }
            let rest = merged(views(a@), views(b@));
            assert(merged(va, vb) == rest.push(sub@));
            assert(rest.push(sub@) + tail =~= rest + (seq![sub@] + tail));
            tail = seq![sub@] + tail;
        }
        backwards.push(sub);
    }
    let n = backwards.len();
    let mut joined: Vec<Subtitle> = Vec::with_capacity(n);
    proof {
        assert(merged(views(a@), views(b@)) =~= Seq::<SubtitleView>::empty());
        assert(target =~= tail);
    }
    while backwards.len() > 0
        invariant
            target == tail,
            tail.len() == n,
            joined@.len() + backwards@.len() == n,
            forall|k: int|
                0 <= k < backwards@.len() ==> (#[trigger] backwards@[k])@ == tail[n - 1 - k],
            forall|k: int| 0 <= k < joined@.len() ==> (#[trigger] joined@[k])@ == tail[k],
        decreases backwards@.len(),
    {
        let sub = backwards.pop().unwrap();
        joined.push(sub);
    }
    proof {
        assert(views(joined@) =~= target);
    }
    joined
}

/// Sorts a vector of records by index, records of equal index in the order
/// they had: each half is sorted, and the halves are joined.
pub(crate) fn merge_sort(subs: Vec<Subtitle>) -> (sorted: Vec<Subtitle>)
    ensures
        views(sorted@) == sorted_by_index(views(subs@)),
    decreases subs@.len(),
{
    let ghost all = views(subs@);
    let n = subs.len();
    if n <= 1 {
        proof {
            if n == 1 {
                assert(all.drop_last() =~= Seq::<SubtitleView>::empty());
                assert(sorted_by_index(all.drop_last()) =~= Seq::<SubtitleView>::empty());
                assert(Seq::<SubtitleView>::empty().push(all.last()) =~= all);
            }
        }
        return subs;
    }
    let mut first = subs;
    let second = first.split_off(n / 2);
    proof {
        assert(views(first@) + views(second@) =~= all);
        lemma_merged_sorts(views(first@), views(second@));
        lemma_sort_orders(views(first@));
        lemma_sort_orders(views(second@));
    }
    let first = merge_sort(first);
    let second = merge_sort(second);
    merge(first, second)
}

} // verus!
