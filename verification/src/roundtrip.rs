//! What is written is read back: the grammar reads the text of a timestamp,
//! of a block and of a whole file as the values they were written from.
use vstd::prelude::*;

use crate::format::{
    arrow_text, block_text, digit_byte, hours_in, millis_in, minutes_in, padded_decimal,
    seconds_in, timespan_text, timestamp_text,
};
use crate::grammar::{
    blocks_end, blocks_from, decimal_value, file_start, has_arrow, has_bom, in_class, is_digit,
    is_text_line, lemma_run_end, lemma_run_end_is, line_ending_len, millis_of, run_end,
    skip_boms, skip_line_endings, spec_ascii_u32, spec_field_after, spec_subtitle,
    spec_timespan, spec_timestamp, text_end, text_of, ByteClass, COLON, COMMA, CR, LF, SPACE,
};
use crate::parser::{parse_result, ParseView};
use crate::sort::{lemma_sort_orders, sorted_by_index};
use crate::SubtitleView;

verus! {

/// Whether `text` is a caption as the grammar reads one: lines of one byte or
/// more, each closed by a line feed, and no carriage return anywhere.
pub open spec fn is_caption(text: Seq<u8>) -> bool {
    &&& forall|i: int| 0 <= i < text.len() ==> text[i] != CR
    &&& text.len() > 0 ==> text[0] != LF && text.last() == LF
    &&& forall|i: int| 0 < i < text.len() ==> !(text[i - 1] == LF && #[trigger] text[i] == LF)
}

/// Whether a timestamp can be written and read back: its hours fit a field
/// of the grammar.
pub open spec fn is_writable(millis: u64) -> bool {
    hours_in(millis) <= u32::MAX
}

/// Where `a + b` stands at `pos`, `a` stands at `pos` and `b` behind it.
proof fn lemma_split_concat(s: Seq<u8>, pos: int, a: Seq<u8>, b: Seq<u8>)
    requires
        0 <= pos,
        pos + a.len() + b.len() <= s.len(),
        s.subrange(pos, pos + a.len() + b.len()) == a + b,
    ensures
        s.subrange(pos, pos + a.len()) == a,
        s.subrange(pos + a.len(), pos + a.len() + b.len()) == b,
{
    let whole = s.subrange(pos, pos + a.len() + b.len());
    assert forall|i: int| 0 <= i < a.len() implies #[trigger] s.subrange(pos, pos + a.len())[i]
        == a[i] by {
        assert(whole[i] == (a + b)[i]);
    }
    assert(s.subrange(pos, pos + a.len()) =~= a);
    assert forall|i: int| 0 <= i < b.len() implies #[trigger] s.subrange(
        pos + a.len(),
        pos + a.len() + b.len(),
    )[i] == b[i] by {
        assert(whole[a.len() + i] == (a + b)[a.len() + i]);
    }
    assert(s.subrange(pos + a.len(), pos + a.len() + b.len()) =~= b);
}

/// Where `a` with `last` behind it stands at `pos`, `a` stands at `pos` and
/// `last` behind it.
proof fn lemma_split_push(s: Seq<u8>, pos: int, a: Seq<u8>, last: u8)
    requires
        0 <= pos,
        pos + a.len() + 1 <= s.len(),
        s.subrange(pos, pos + a.len() + 1) == a.push(last),
    ensures
        s.subrange(pos, pos + a.len()) == a,
        s[pos + a.len()] == last,
{
    assert(a.push(last) =~= a + seq![last]);
    lemma_split_concat(s, pos, a, seq![last]);
    assert(s.subrange(pos + a.len(), pos + a.len() + 1)[0] == last);
}

/// A written number is made of digits, at least one and at least as many as
/// were asked for, and they write that number.
pub proof fn lemma_padded_decimal(n: nat, width: nat)
    ensures
        padded_decimal(n, width).len() >= 1,
        padded_decimal(n, width).len() >= width,
        forall|i: int|
            0 <= i < padded_decimal(n, width).len() ==> is_digit(
                #[trigger] padded_decimal(n, width)[i],
            ),
        decimal_value(padded_decimal(n, width)) == n,
    decreases n + width,
{
    let digits = padded_decimal(n, width);
    if n < 10 && width <= 1 {
        assert(digits.drop_last() =~= Seq::<u8>::empty());
        assert(decimal_value(digits.drop_last()) == 0);
    } else {
        let rest: nat = if width > 0 {
            (width - 1) as nat
        } else {
            0
        };
        lemma_padded_decimal(n / 10, rest);
        let front = padded_decimal(n / 10, rest);
        assert(digits == front.push(digit_byte(n % 10)));
        assert(digits.drop_last() =~= front);
        assert(digits.last() == digit_byte(n % 10));
        assert forall|i: int| 0 <= i < digits.len() implies is_digit(#[trigger] digits[i]) by {
            if i < front.len() {
                assert(digits[i] == front[i]);
            }
        }
    }
}

/// A written number is read back: where its digits stand at `pos` and no
/// digit follows them, the grammar reads the number there.
pub proof fn lemma_number_reads_back(s: Seq<u8>, pos: int, n: nat, width: nat)
    requires
        n <= u32::MAX,
        0 <= pos,
        pos + padded_decimal(n, width).len() <= s.len(),
        s.subrange(pos, pos + padded_decimal(n, width).len()) == padded_decimal(n, width),
        pos + padded_decimal(n, width).len() < s.len() ==> !is_digit(
            s[pos + padded_decimal(n, width).len()],
        ),
    ensures
        spec_ascii_u32(s, pos) == Some((n as u32, pos + padded_decimal(n, width).len())),
{
    let digits = padded_decimal(n, width);
    let end = pos + digits.len();
    lemma_padded_decimal(n, width);
    assert forall|k: int| pos <= k < end implies in_class(ByteClass::Digit, #[trigger] s[k]) by {
        assert(s.subrange(pos, end)[k - pos] == digits[k - pos]);
    }
    lemma_run_end_is(s, pos, end, ByteClass::Digit);
}

/// The fields of a timestamp amount to the milliseconds they were taken
/// from.
pub proof fn lemma_fields_amount(millis: u64)
    requires
        is_writable(millis),
    ensures
        minutes_in(millis) < 60,
        seconds_in(millis) < 60,
        millis_in(millis) < 1000,
        millis_of(
            hours_in(millis) as u32,
            minutes_in(millis) as u32,
            seconds_in(millis) as u32,
            millis_in(millis) as u32,
        ) == millis,
{
}

/// A written timestamp is read back: where its text stands at `pos` and no
/// digit follows it, the grammar reads the timestamp there.
pub proof fn lemma_timestamp_reads_back(s: Seq<u8>, pos: int, millis: u64)
    requires
        is_writable(millis),
        0 <= pos,
        pos + timestamp_text(millis).len() <= s.len(),
        s.subrange(pos, pos + timestamp_text(millis).len()) == timestamp_text(millis),
        pos + timestamp_text(millis).len() < s.len() ==> !is_digit(
            s[pos + timestamp_text(millis).len()],
        ),
    ensures
        spec_timestamp(s, pos) == Some((millis, pos + timestamp_text(millis).len())),
{
    let h = padded_decimal(hours_in(millis), 2);
    let m = padded_decimal(minutes_in(millis), 2);
    let sec = padded_decimal(seconds_in(millis), 2);
    let r = padded_decimal(millis_in(millis), 3);
    lemma_fields_amount(millis);
    let pos1 = pos + h.len();
    let pos2 = pos1 + 1 + m.len();
    let pos3 = pos2 + 1 + sec.len();
    let pos4 = pos3 + 1 + r.len();
    assert(timestamp_text(millis) == ((h.push(COLON) + m.push(COLON)) + sec.push(COMMA)) + r) by {
        reveal(timestamp_text);
    }
    lemma_split_concat(s, pos, (h.push(COLON) + m.push(COLON)) + sec.push(COMMA), r);
    lemma_split_concat(s, pos, h.push(COLON) + m.push(COLON), sec.push(COMMA));
    lemma_split_concat(s, pos, h.push(COLON), m.push(COLON));
    lemma_split_push(s, pos, h, COLON);
    lemma_split_push(s, pos1 + 1, m, COLON);
    lemma_split_push(s, pos2 + 1, sec, COMMA);
    lemma_number_reads_back(s, pos, hours_in(millis), 2);
    lemma_number_reads_back(s, pos1 + 1, minutes_in(millis), 2);
    lemma_number_reads_back(s, pos2 + 1, seconds_in(millis), 2);
    lemma_number_reads_back(s, pos3 + 1, millis_in(millis), 3);
    assert(spec_field_after(s, pos1, COLON) == Some((minutes_in(millis) as u32, pos2)));
    assert(spec_field_after(s, pos2, COLON) == Some((seconds_in(millis) as u32, pos3)));
    assert(spec_field_after(s, pos3, COMMA) == Some((millis_in(millis) as u32, pos4)));
}

/// A timestamp that is written and read gives the duration it was written
/// from.
pub proof fn lemma_timestamp_round_trip(millis: u64)
    requires
        is_writable(millis),
    ensures
        spec_timestamp(timestamp_text(millis), 0) == Some(
            (millis, timestamp_text(millis).len() as int),
        ),
{
    let text = timestamp_text(millis);
    assert(text.subrange(0, text.len() as int) =~= text);
    lemma_timestamp_reads_back(text, 0, millis);
}

/// A caption is read back: where lines of one byte or more, each closed by a
/// line feed and none holding a carriage return, stand between `pos` and
/// `end`, and no line of text starts at `end`, the grammar reads the text
/// there as it stands.
pub proof fn lemma_caption_reads_back(s: Seq<u8>, pos: int, end: int)
    requires
        0 <= pos <= end <= s.len(),
        is_caption(s.subrange(pos, end)),
        !is_text_line(s, end),
    ensures
        text_end(s, pos) == end,
        text_of(s, pos) == s.subrange(pos, end),
    decreases end - pos,
{
    let text = s.subrange(pos, end);
    if pos == end {
        assert(text_of(s, pos) =~= text);
    } else {
        let k = run_end(s, pos, ByteClass::LineContent);
        lemma_run_end(s, pos, ByteClass::LineContent);
        assert(text[0] == s[pos]);
        assert(text.last() == s[end - 1]);
        assert(in_class(ByteClass::LineContent, s[pos]));
        if k >= end {
            assert(in_class(ByteClass::LineContent, s[end - 1]));
        }
        assert(pos < k < end);
        assert(text[k - pos] == s[k]);
        assert(s[k] == LF);
        assert(line_ending_len(s, k) == 1);
        assert(is_text_line(s, pos));
        let rest = s.subrange(k + 1, end);
        assert(is_caption(rest)) by {
            assert forall|i: int| 0 <= i < rest.len() implies rest[i] != CR by {
                assert(rest[i] == text[k + 1 - pos + i]);
            }
            if rest.len() > 0 {
                assert(rest[0] == text[k + 1 - pos]);
                assert(text[k - pos] == LF);
                assert(rest.last() == text.last());
            }
            assert forall|i: int| 0 < i < rest.len() implies !(rest[i - 1] == LF
                && #[trigger] rest[i] == LF) by {
                assert(rest[i] == text[k + 1 - pos + i]);
                assert(rest[i - 1] == text[k + 1 - pos + i - 1]);
            }
        }
        lemma_caption_reads_back(s, k + 1, end);
        assert(s.subrange(pos, k).push(LF) + rest =~= text);
    }
}

/// A written timespan is read back: where its text stands at `pos` and no
/// digit follows it, the grammar reads the timespan there.
pub proof fn lemma_timespan_reads_back(s: Seq<u8>, pos: int, start: u64, end: u64)
    requires
        is_writable(start),
        is_writable(end),
        0 <= pos,
        pos + timespan_text(start, end).len() <= s.len(),
        s.subrange(pos, pos + timespan_text(start, end).len()) == timespan_text(start, end),
        pos + timespan_text(start, end).len() < s.len() ==> !is_digit(
            s[pos + timespan_text(start, end).len()],
        ),
    ensures
        spec_timespan(s, pos) == Some(((start, end), pos + timespan_text(start, end).len())),
{
    let t1 = timestamp_text(start);
    let a = arrow_text();
    let t2 = timestamp_text(end);
    let q1 = pos + t1.len();
    let q2 = q1 + 5;
    let q3 = q2 + t2.len();
    assert(timespan_text(start, end) == (t1 + a) + t2) by {
        reveal(timespan_text);
    }
    lemma_split_concat(s, pos, t1 + a, t2);
    lemma_split_concat(s, pos, t1, a);
    assert forall|i: int| 0 <= i < 5 implies s[q1 + i] == #[trigger] a[i] by {
        assert(s.subrange(q1, q2)[i] == a[i]);
    }
    assert(a[0] == SPACE && a[1] == 0x2d && a[2] == 0x2d && a[3] == 0x3e && a[4] == SPACE);
    lemma_timestamp_reads_back(s, pos, start);
    lemma_run_end_is(s, q1, q1 + 1, ByteClass::Space);
    assert(has_arrow(s, q1 + 1));
    lemma_timestamp_starts_with_digit(end);
    assert(s[q2] == s.subrange(q2, q3)[0]);
    lemma_run_end_is(s, q1 + 4, q2, ByteClass::Space);
    lemma_timestamp_reads_back(s, q2, end);
}

/// The text of a timestamp starts with a digit.
pub proof fn lemma_timestamp_starts_with_digit(millis: u64)
    ensures
        timestamp_text(millis).len() > 0,
        is_digit(timestamp_text(millis)[0]),
{
    reveal(timestamp_text);
    lemma_padded_decimal(hours_in(millis), 2);
    assert(timestamp_text(millis)[0] == padded_decimal(hours_in(millis), 2)[0]);
}

/// What stands behind the timespan of a written block is read back: where a
/// line feed, a caption and two line feeds stand at `pos`, no line ending
/// follows them and, if the caption is empty, no line of text either, the
/// grammar reads the caption and stops behind the last line feed.
pub proof fn lemma_lines_read_back(s: Seq<u8>, pos: int, text: Seq<u8>)
    requires
        is_caption(text),
        0 <= pos,
        pos + text.len() + 3 <= s.len(),
        s[pos] == LF,
        s.subrange(pos + 1, pos + 1 + text.len()) == text,
        s[pos + 1 + text.len()] == LF,
        s[pos + 2 + text.len()] == LF,
        line_ending_len(s, pos + text.len() + 3) == 0,
        text.len() == 0 ==> !is_text_line(s, pos + text.len() + 3),
    ensures
        text_of(s, skip_line_endings(s, pos)) == text,
        skip_line_endings(s, text_end(s, skip_line_endings(s, pos))) == pos + text.len() + 3,
{
    let q1 = pos + 1;
    let q2 = q1 + text.len();
    let q3 = q2 + 2;
    assert(line_ending_len(s, pos) == 1);
    assert(line_ending_len(s, q2) == 1);
    assert(line_ending_len(s, q2 + 1) == 1);
    assert(skip_line_endings(s, q3) == q3);
    assert(skip_line_endings(s, q2 + 1) == q3);
    assert(skip_line_endings(s, q2) == q3);
    if text.len() == 0 {
        assert(skip_line_endings(s, pos) == q3);
        assert(text_end(s, q3) == q3);
        assert(text_of(s, q3) =~= text);
    } else {
        assert(s[q1] == s.subrange(q1, q2)[0]);
        assert(line_ending_len(s, q1) == 0);
        assert(skip_line_endings(s, q1) == q1);
        assert(skip_line_endings(s, pos) == q1);
        assert(!is_text_line(s, q2)) by {
            assert(run_end(s, q2, ByteClass::LineContent) == q2);
        }
        lemma_caption_reads_back(s, q1, q2);
    }
}

/// A written block is read back: where its text stands at `pos`, no line
/// ending follows it and, if its caption is empty, no line of text either,
/// the grammar reads the record there.
pub proof fn lemma_block_reads_back(s: Seq<u8>, pos: int, v: SubtitleView)
    requires
        is_writable(v.start),
        is_writable(v.end),
        is_caption(v.text),
        0 <= pos,
        pos + block_text(v).len() <= s.len(),
        s.subrange(pos, pos + block_text(v).len()) == block_text(v),
        line_ending_len(s, pos + block_text(v).len()) == 0,
        v.text.len() == 0 ==> !is_text_line(s, pos + block_text(v).len()),
    ensures
        spec_subtitle(s, pos) == Some((v, pos + block_text(v).len())),
{
    let d = padded_decimal(v.idx as nat, 1);
    let span = timespan_text(v.start, v.end);
    let tail = v.text.push(LF).push(LF);
    let q1 = pos + d.len();
    let q2 = q1 + 1;
    let q3 = q2 + span.len();
    let q4 = q3 + 1;
    let q5 = q4 + v.text.len();
    assert(block_text(v) == (d.push(LF) + span.push(LF)) + tail) by {
        reveal(block_text);
    }
    lemma_split_concat(s, pos, d.push(LF) + span.push(LF), tail);
    lemma_split_concat(s, pos, d.push(LF), span.push(LF));
    lemma_split_push(s, pos, d, LF);
    lemma_split_push(s, q2, span, LF);
    assert(tail =~= v.text + seq![LF, LF]);
    lemma_split_concat(s, q4, v.text, seq![LF, LF]);
    assert(s.subrange(q5, q5 + 2)[0] == LF);
    assert(s.subrange(q5, q5 + 2)[1] == LF);
    lemma_number_reads_back(s, pos, v.idx as nat, 1);
    assert(line_ending_len(s, q1) == 1);
    lemma_timespan_reads_back(s, q2, v.start, v.end);
    lemma_lines_read_back(s, q3, v.text);
}

/// Nothing is read at the end of a text.
pub proof fn lemma_nothing_at_end(s: Seq<u8>)
    ensures
        line_ending_len(s, s.len() as int) == 0,
        !is_text_line(s, s.len() as int),
        spec_subtitle(s, s.len() as int) is None,
        blocks_from(s, s.len() as int) == Seq::<SubtitleView>::empty(),
        blocks_end(s, s.len() as int) == s.len(),
{
    let len = s.len() as int;
    assert(run_end(s, len, ByteClass::LineContent) == len);
    assert(run_end(s, len, ByteClass::Digit) == len);
}

/// The text of a block starts with a digit.
pub proof fn lemma_block_starts_with_digit(v: SubtitleView)
    ensures
        block_text(v).len() > 0,
        is_digit(block_text(v)[0]),
{
    reveal(block_text);
    lemma_padded_decimal(v.idx as nat, 1);
    assert(block_text(v)[0] == padded_decimal(v.idx as nat, 1)[0]);
}

/// A text that starts with a digit and is one block from its start to its end
/// is the file of that one record.
pub proof fn lemma_file_of_one_block(s: Seq<u8>, v: SubtitleView)
    requires
        s.len() > 0,
        is_digit(s[0]),
        spec_subtitle(s, 0) == Some((v, s.len() as int)),
    ensures
        parse_result(s) == ParseView::Complete(seq![v]),
{
    let len = s.len() as int;
    assert(!has_bom(s, 0));
    assert(skip_boms(s, 0) == 0);
    assert(line_ending_len(s, 0) == 0);
    assert(file_start(s) == 0);
    lemma_nothing_at_end(s);
    assert(blocks_from(s, 0) =~= seq![v]);
    assert(blocks_end(s, 0) == len);
    assert(sorted_by_index(seq![v]) =~= seq![v]) by {
        assert(seq![v].drop_last() =~= Seq::<SubtitleView>::empty());
        assert(sorted_by_index(seq![v].drop_last()) =~= Seq::<SubtitleView>::empty());
    }
}

/// A record that is written and read comes back as it was: the grammar
/// reads the text of a block as the record it was written from.
pub proof fn lemma_block_round_trip(v: SubtitleView)
    requires
        is_writable(v.start),
        is_writable(v.end),
        is_caption(v.text),
    ensures
        spec_subtitle(block_text(v), 0) == Some((v, block_text(v).len() as int)),
{
    let s = block_text(v);
    assert(s.subrange(0, s.len() as int) == s) by {
        assert(s.subrange(0, s.len() as int) =~= s);
    }
    lemma_nothing_at_end(s);
    lemma_block_reads_back(s, 0, v);
}

/// The text of a block is a file of one record: [`crate::parse`] reads all
/// of it and gives the record that it was written from.
pub proof fn lemma_block_is_a_file(v: SubtitleView)
    requires
        is_writable(v.start),
        is_writable(v.end),
        is_caption(v.text),
    ensures
        parse_result(block_text(v)) == ParseView::Complete(seq![v]),
{
    lemma_block_round_trip(v);
    lemma_block_starts_with_digit(v);
    lemma_file_of_one_block(block_text(v), v);
}

/// The text of a file: the blocks of the records, one behind the other.
pub open spec fn file_text(subs: Seq<SubtitleView>) -> Seq<u8>
    decreases subs.len(),
{
    if subs.len() == 0 {
        Seq::empty()
    } else {
        block_text(subs[0]) + file_text(subs.drop_first())
    }
}

/// Whether a record can be written into a file and read back from it: its
/// timestamps can be written, and its caption is one line or more.
pub open spec fn is_readable(v: SubtitleView) -> bool {
    is_writable(v.start) && is_writable(v.end) && is_caption(v.text) && v.text.len() > 0
}

/// Whether `b` can start what the grammar does not read behind a block: it
/// is no digit and no part of a line ending.
pub open spec fn is_junk_start(b: u8) -> bool {
    !is_digit(b) && b != LF && b != CR
}

/// The text of a file of one record or more starts with a digit.
pub proof fn lemma_file_starts_with_digit(subs: Seq<SubtitleView>)
    requires
        subs.len() > 0,
    ensures
        file_text(subs).len() > 0,
        is_digit(file_text(subs)[0]),
{
    lemma_block_starts_with_digit(subs[0]);
    assert(file_text(subs)[0] == block_text(subs[0])[0]);
}

/// The first block of a written file is read back, and the text of the other
/// blocks stands behind it.
proof fn lemma_first_block_reads_back(s: Seq<u8>, pos: int, subs: Seq<SubtitleView>)
    requires
        subs.len() > 0,
        forall|i: int| 0 <= i < subs.len() ==> is_readable(#[trigger] subs[i]),
        0 <= pos,
        pos + file_text(subs).len() <= s.len(),
        s.subrange(pos, pos + file_text(subs).len()) == file_text(subs),
        pos + file_text(subs).len() < s.len() ==> is_junk_start(s[pos + file_text(subs).len()]),
    ensures
        ({
            let next = pos + block_text(subs[0]).len();
            let rest = subs.drop_first();
            &&& pos < next
            &&& next + file_text(rest).len() == pos + file_text(subs).len()
            &&& spec_subtitle(s, pos) == Some((subs[0], next))
            &&& s.subrange(next, next + file_text(rest).len()) == file_text(rest)
        }),
{
    let v = subs[0];
    let rest = subs.drop_first();
    let block = block_text(v);
    let next = pos + block.len();
    assert(file_text(subs) == block + file_text(rest));
    lemma_split_concat(s, pos, block, file_text(rest));
    lemma_block_starts_with_digit(v);
    assert(is_readable(v));
    if rest.len() > 0 {
        lemma_file_starts_with_digit(rest);
        assert(s[next] == s.subrange(next, next + file_text(rest).len())[0]);
    } else {
        assert(file_text(rest).len() == 0);
    }
    assert(next < s.len() ==> is_digit(s[next]) || is_junk_start(s[next]));
    assert(line_ending_len(s, next) == 0);
    lemma_block_reads_back(s, pos, v);
}

/// Written blocks are read back: where the text of a file stands at `pos`
/// and the text ends behind it, or goes on with what starts no block and no
/// line ending, the grammar reads the records there and stops behind them.
pub proof fn lemma_blocks_read_back(s: Seq<u8>, pos: int, subs: Seq<SubtitleView>)
    requires
        forall|i: int| 0 <= i < subs.len() ==> is_readable(#[trigger] subs[i]),
        0 <= pos,
        pos + file_text(subs).len() <= s.len(),
        s.subrange(pos, pos + file_text(subs).len()) == file_text(subs),
        pos + file_text(subs).len() < s.len() ==> is_junk_start(s[pos + file_text(subs).len()]),
    ensures
        blocks_from(s, pos) == subs,
        blocks_end(s, pos) == pos + file_text(subs).len(),
    decreases subs.len(),
{
    if subs.len() == 0 {
        assert(run_end(s, pos, ByteClass::Digit) == pos);
        assert(spec_ascii_u32(s, pos) is None);
        assert(blocks_from(s, pos) =~= subs);
    } else {
        let rest = subs.drop_first();
        let next = pos + block_text(subs[0]).len();
        lemma_first_block_reads_back(s, pos, subs);
        assert forall|i: int| 0 <= i < rest.len() implies is_readable(#[trigger] rest[i]) by {
            assert(rest[i] == subs[i + 1]);
        }
        lemma_blocks_read_back(s, next, rest);
        assert(seq![subs[0]] + rest =~= subs);
    }
}

/// A text that starts with its blocks reads from its first byte.
proof fn lemma_starts_at_blocks(s: Seq<u8>)
    requires
        s.len() > 0 ==> is_digit(s[0]) || is_junk_start(s[0]) && s[0] != 0xef,
    ensures
        file_start(s) == 0,
{
    assert(!has_bom(s, 0));
    assert(skip_boms(s, 0) == 0);
    assert(line_ending_len(s, 0) == 0);
}

/// A file that is written and read comes back sorted: [`crate::parse`] reads
/// all of the text of a file and gives the records that it was written
/// from, sorted by index.
pub proof fn lemma_file_round_trip(subs: Seq<SubtitleView>)
    requires
        forall|i: int| 0 <= i < subs.len() ==> is_readable(#[trigger] subs[i]),
    ensures
        parse_result(file_text(subs)) == ParseView::Complete(sorted_by_index(subs)),
{
    let s = file_text(subs);
    assert(s.subrange(0, s.len() as int) =~= s);
    if subs.len() > 0 {
        lemma_file_starts_with_digit(subs);
    }
    lemma_starts_at_blocks(s);
    lemma_blocks_read_back(s, 0, subs);
}

/// Junk behind a written file is found where it starts: where bytes that
/// start no block and no line ending follow the text of a file,
/// [`crate::parse`] gives the records of the file, sorted by index, and the
/// position of the first of those bytes; or, where the file holds no record,
/// it fails.
pub proof fn lemma_junk_is_found(subs: Seq<SubtitleView>, junk: Seq<u8>)
    requires
        forall|i: int| 0 <= i < subs.len() ==> is_readable(#[trigger] subs[i]),
        junk.len() > 0,
        is_junk_start(junk[0]),
        junk[0] != 0xef,
    ensures
        parse_result(file_text(subs) + junk) == if subs.len() == 0 {
            ParseView::Failed
        } else {
            ParseView::Incomplete(sorted_by_index(subs), file_text(subs).len() as int)
        },
{
    let file = file_text(subs);
    let s = file + junk;
    assert(s.subrange(0, file.len() as int) =~= file);
    assert(s[file.len() as int] == junk[0]);
    if subs.len() > 0 {
        lemma_file_starts_with_digit(subs);
        assert(s[0] == file[0]);
    }
    lemma_starts_at_blocks(s);
    lemma_blocks_read_back(s, 0, subs);
    assert(sorted_by_index(subs).len() == 0 ==> subs.len() == 0) by {
        lemma_sort_orders(subs);
    }
}

} // verus!
