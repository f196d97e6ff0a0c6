//! Helpers for common work on subtitles that were read or put together:
//! sorting by index, finding records out of order, shifting timestamps.
use vstd::prelude::*;

use crate::sort::{
    is_sorted, lemma_sort_keeps_ordered, lemma_sort_orders, merge_sort, put_all, sorted_by_index,
    take_all,
};
use crate::{ref_views, views, Error, Subtitle, SubtitleView};

verus! {

/// Sorts the records by index, in place. The sort is stable: records of equal
/// index keep the order they had.
pub fn sort_subtitles(subs: &mut [Subtitle])
    ensures
        views(final(subs)@) == sorted_by_index(views(old(subs)@)),
        final(subs)@.len() == old(subs)@.len(),
{
    proof {
        lemma_sort_orders(views(subs@));
    }
    if is_sorted(subs) {
        proof {
            lemma_sort_keeps_ordered(views(subs@));
        }
        return;
    }
    let taken = take_all(subs);
    proof {
        lemma_sort_orders(views(taken@));
    }
    let sorted = merge_sort(taken);
    put_all(subs, sorted);
}

/// Whether the record at `i` is out of order: it starts before the record
/// in front of it starts, or it ends before it starts.
pub open spec fn is_out_of_order(subs: Seq<SubtitleView>, i: int) -> bool {
    (i > 0 && subs[i].start < subs[i - 1].start) || subs[i].end < subs[i].start
}

/// The records of `subs` that are out of order, in the order of `subs`.
pub open spec fn out_of_order(subs: Seq<SubtitleView>) -> Seq<SubtitleView>
    decreases subs.len(),
{
    if subs.len() == 0 {
        subs
    } else if is_out_of_order(subs, subs.len() - 1) {
        out_of_order(subs.drop_last()).push(subs.last())
    } else {
        out_of_order(subs.drop_last())
    }
}

/// Whether a record is out of order depends on it and on the record in front
/// of it alone.
proof fn lemma_out_of_order_front(subs: Seq<SubtitleView>, i: int)
    requires
        0 <= i < subs.len() - 1,
    ensures
        is_out_of_order(subs.drop_last(), i) == is_out_of_order(subs, i),
{
    assert(subs.drop_last()[i] == subs[i]);
    if i > 0 {
        assert(subs.drop_last()[i - 1] == subs[i - 1]);
    }
}

/// Where every record starts no earlier than the one in front of it and ends
/// no earlier than it starts, no record is out of order.
pub proof fn lemma_in_order_finds_nothing(subs: Seq<SubtitleView>)
    requires
        forall|i: int| 0 <= i < subs.len() ==> (#[trigger] subs[i]).start <= subs[i].end,
        forall|i: int| 0 < i < subs.len() ==> subs[i - 1].start <= (#[trigger] subs[i]).start,
    ensures
        out_of_order(subs) == Seq::<SubtitleView>::empty(),
    decreases subs.len(),
{
    if subs.len() > 0 {
        let front = subs.drop_last();
        assert forall|i: int| 0 <= i < front.len() implies (#[trigger] front[i]).start
            <= front[i].end by {
            assert(front[i] == subs[i]);
        }
        assert forall|i: int| 0 < i < front.len() implies front[i - 1].start <= (
        #[trigger] front[i]).start by {
            assert(front[i] == subs[i] && front[i - 1] == subs[i - 1]);
        }
        lemma_in_order_finds_nothing(front);
    }
}

/// Where no record is out of order, none is found.
pub proof fn lemma_none_out_of_order(subs: Seq<SubtitleView>)
    requires
        forall|i: int| 0 <= i < subs.len() ==> !is_out_of_order(subs, i),
    ensures
        out_of_order(subs) == Seq::<SubtitleView>::empty(),
    decreases subs.len(),
{
    if subs.len() > 0 {
        let front = subs.drop_last();
        assert forall|i: int| 0 <= i < front.len() implies !is_out_of_order(front, i) by {
            lemma_out_of_order_front(subs, i);
        }
        lemma_none_out_of_order(front);
    }
}

/// Where one record alone is out of order, that record is found and no
/// other.
pub proof fn lemma_one_out_of_order(subs: Seq<SubtitleView>, at: int)
    requires
        0 <= at < subs.len(),
        forall|i: int| 0 <= i < subs.len() ==> (is_out_of_order(subs, i) <==> i == at),
    ensures
        out_of_order(subs) == seq![subs[at]],
    decreases subs.len(),
{
    let front = subs.drop_last();
    if at == subs.len() - 1 {
        assert forall|i: int| 0 <= i < front.len() implies !is_out_of_order(front, i) by {
            lemma_out_of_order_front(subs, i);
        }
        lemma_none_out_of_order(front);
        assert(Seq::<SubtitleView>::empty().push(subs.last()) =~= seq![subs[at]]);
    } else {
        assert forall|i: int| 0 <= i < front.len() implies (is_out_of_order(front, i) <==> i
            == at) by {
            lemma_out_of_order_front(subs, i);
        }
        lemma_one_out_of_order(front, at);
        assert(front[at] == subs[at]);
    }
}

/// Finds the records that are out of order, as they stand in `subs`: each
/// record that starts before the one in front of it, or ends before it
/// starts. Nothing is sorted and nothing is changed.
pub fn out_of_order_subs<'a>(subs: &'a [Subtitle]) -> (found: Vec<&'a Subtitle>)
    ensures
        ref_views(found@) == out_of_order(views(subs@)),
{
    let ghost all = views(subs@);
    let mut found: Vec<&'a Subtitle> = Vec::new();
    let mut last_start: u64 = 0;
    let mut i: usize = 0;
    proof {
        assert(ref_views(found@) =~= out_of_order(all.take(0)));
    }
    while i < subs.len()
        invariant
            i <= subs@.len(),
            all == views(subs@),
            i > 0 ==> last_start == all[i - 1].start,
            i == 0 ==> last_start == 0,
            ref_views(found@) == out_of_order(all.take(i as int)),
        decreases subs@.len() - i,
    {
        let sub = &subs[i];
        let bad_order = sub.start < last_start || sub.end < sub.start;
        last_start = sub.start;
        let ghost before = ref_views(found@);
        if bad_order {
            found.push(sub);
        }
        proof {
            let upto = all.take(i + 1);
            assert(upto.drop_last() =~= all.take(i as int));
            assert(upto.last() == subs@[i as int]@);
            assert(bad_order == is_out_of_order(upto, i as int));
            if bad_order {
                assert(ref_views(found@) =~= before.push(subs@[i as int]@));
            }
        }
        i += 1;
    }
    proof {
        assert(all.take(i as int) =~= all);
    }
    found
}

/// The delay that was asked for, or none.
pub open spec fn delay_of(delay_start: Option<u64>) -> u64 {
    match delay_start {
        Some(delay) => delay,
        None => 0,
    }
}

/// By how much the records are shifted: the start of the first record less
/// the delay.
pub open spec fn shift_of(subs: Seq<SubtitleView>, delay_start: Option<u64>) -> int {
    subs[0].start - delay_of(delay_start)
}

/// Whether the records can be shifted: the delay is not beyond the start of
/// the first record, no record starts or ends before the amount of the shift,
/// and every position fits an index.
pub open spec fn can_offset(subs: Seq<SubtitleView>, delay_start: Option<u64>) -> bool {
    subs.len() > 0 ==> {
        &&& shift_of(subs, delay_start) >= 0
        &&& subs.len() <= u32::MAX + 1
        &&& forall|i: int|
            0 <= i < subs.len() ==> shift_of(subs, delay_start) <= (#[trigger] subs[i]).start
                && shift_of(subs, delay_start) <= subs[i].end
    }
}

/// The record `v` at `position`, shifted by `shift` and numbered anew.
pub open spec fn offset_one(v: SubtitleView, position: int, shift: int) -> SubtitleView {
    SubtitleView {
        idx: position as u32,
        start: (v.start - shift) as u64,
        end: (v.end - shift) as u64,
        text: v.text,
    }
}

/// The records shifted so that the first one starts at the delay, each with
/// its position in the sequence as its index.
pub open spec fn offset_all(subs: Seq<SubtitleView>, delay_start: Option<u64>) -> Seq<
    SubtitleView,
> {
    Seq::new(subs.len(), |i: int| offset_one(subs[i], i, shift_of(subs, delay_start)))
}

/// Where there is no record, there is nothing to shift, whatever the delay.
pub proof fn lemma_offset_of_nothing(delay_start: Option<u64>)
    ensures
        can_offset(Seq::<SubtitleView>::empty(), delay_start),
        offset_all(Seq::<SubtitleView>::empty(), delay_start) == Seq::<SubtitleView>::empty(),
{
    assert(offset_all(Seq::<SubtitleView>::empty(), delay_start) =~= Seq::<SubtitleView>::empty());
}

/// Shifting moves the first record to the delay, keeps the length of every
/// record and the distance between any two, and numbers the records by their
/// positions.
pub proof fn lemma_offset_keeps_distances(subs: Seq<SubtitleView>, delay_start: Option<u64>)
    requires
        can_offset(subs, delay_start),
        subs.len() > 0,
    ensures
        offset_all(subs, delay_start).len() == subs.len(),
        offset_all(subs, delay_start)[0].start == delay_of(delay_start),
        forall|i: int|
            0 <= i < subs.len() ==> {
                let moved = #[trigger] offset_all(subs, delay_start)[i];
                &&& moved.idx == i
                &&& moved.text == subs[i].text
                &&& moved.end - moved.start == subs[i].end - subs[i].start
                &&& moved.start - delay_of(delay_start) == subs[i].start - subs[0].start
            },
{
    assert(subs[0].start >= shift_of(subs, delay_start));
    assert forall|i: int| 0 <= i < subs.len() implies {
        let moved = #[trigger] offset_all(subs, delay_start)[i];
        &&& moved.idx == i
        &&& moved.text == subs[i].text
        &&& moved.end - moved.start == subs[i].end - subs[i].start
        &&& moved.start - delay_of(delay_start) == subs[i].start - subs[0].start
    } by {
        assert(subs[i].start >= shift_of(subs, delay_start));
    }
}

/// Shifts the timestamps of `subs` so that the first record starts at
/// `delay_start`, or at zero where no delay is given, and numbers the records
/// anew from zero.
///
/// This is of use where a segment is cut out of a video and the subtitles are
/// to start with it. Every start and end is reduced by the same amount, the
/// start of the first record less the delay; the captions are kept. Where
/// that would take a timestamp below zero, or there are more records than
/// indices, nothing is shifted and the result is [`Error::OutOfRange`].
pub fn offset_subs(subs: &[Subtitle], delay_start: Option<u64>) -> (r: Result<
    Vec<Subtitle>,
    Error,
>)
    ensures
        match r {
            Ok(shifted) => can_offset(views(subs@), delay_start) && views(shifted@) == offset_all(
                views(subs@),
                delay_start,
            ) && shifted@.len() == subs@.len(),
            Err(e) => !can_offset(views(subs@), delay_start) && e is OutOfRange,
        },
{
    let ghost all = views(subs@);
    let mut shifted: Vec<Subtitle> = Vec::new();
    if subs.len() == 0 {
        proof {
            assert(views(shifted@) =~= offset_all(all, delay_start));
        }
        return Ok(shifted);
    }
    let delay: u64 = match delay_start {
        Some(delay) => delay,
        None => 0,
    };
    let first: u64 = subs[0].start;
    assert(all[0].start == first);
    if first < delay {
        return Err(Error::OutOfRange);
    }
    let base: u64 = first - delay;
    let mut i: usize = 0;
    while i < subs.len()
        invariant
            i <= subs@.len(),
            all == views(subs@),
            subs@.len() > 0,
            base == shift_of(all, delay_start),
            i <= u32::MAX + 1,
            shifted@.len() == i,
            forall|k: int|
                0 <= k < i ==> base <= (#[trigger] all[k]).start && base <= all[k].end,
            forall|k: int| 0 <= k < i ==> (#[trigger] shifted@[k])@ == offset_one(all[k], k, base as int),
        decreases subs@.len() - i,
    {
        let sub = &subs[i];
        assert(all[i as int] == sub@);
        if i > u32::MAX as usize || sub.start < base || sub.end < base {
            return Err(Error::OutOfRange);
        }
        let moved = Subtitle {
            idx: i as u32,
            start: sub.start - base,
            end: sub.end - base,
            text: sub.text.clone(),
        };
        shifted.push(moved);
        i += 1;
    }
    proof {
        assert(views(shifted@) =~= offset_all(all, delay_start));
    }
    Ok(shifted)
}

} // verus!
