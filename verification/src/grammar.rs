//! The grammar of a subtitle file, as functions on byte sequences.
//!
//! Every function here reads `s` from a position `pos` onward and says where
//! the thing it recognizes ends. Repetition is greedy and never steps back:
//! a run of digits takes every digit, a block takes every line of text.
use vstd::prelude::*;

use crate::SubtitleView;

verus! {

/// Line feed.
pub const LF: u8 = 0x0a;

/// Carriage return.
pub const CR: u8 = 0x0d;

/// The space between a timestamp and the arrow.
pub const SPACE: u8 = 0x20;

/// Separates hours from minutes and minutes from seconds.
pub const COLON: u8 = 0x3a;

/// Separates seconds from milliseconds.
pub const COMMA: u8 = 0x2c;

/// The digit zero; the other digits follow it.
pub const ZERO: u8 = 0x30;

/// The kinds of byte of which the grammar reads runs.
#[derive(Clone, Copy, Debug)]
pub enum ByteClass {
    /// An ASCII decimal digit.
    Digit,
    /// A space.
    Space,
    /// Any byte but a line feed or a carriage return.
    LineContent,
}

/// True for the ASCII decimal digits `0` to `9`.
pub open spec fn is_digit(b: u8) -> bool {
    0x30 <= b <= 0x39
}

/// Whether `b` belongs to `class`.
pub open spec fn in_class(class: ByteClass, b: u8) -> bool {
    match class {
        ByteClass::Digit => is_digit(b),
        ByteClass::Space => b == SPACE,
        ByteClass::LineContent => b != LF && b != CR,
    }
}

/// Whether the byte at `pos` is `b`.
pub open spec fn has_byte(s: Seq<u8>, pos: int, b: u8) -> bool {
    0 <= pos < s.len() && s[pos] == b
}

/// Where the longest run of bytes of `class` that starts at `pos` ends.
pub open spec fn run_end(s: Seq<u8>, pos: int, class: ByteClass) -> int
    decreases s.len() - pos,
{
    if 0 <= pos < s.len() && in_class(class, s[pos]) {
        run_end(s, pos + 1, class)
    } else {
        pos
    }
}

/// The number that a sequence of digits writes in base ten.
pub open spec fn decimal_value(digits: Seq<u8>) -> nat
    decreases digits.len(),
{
    if digits.len() == 0 {
        0
    } else {
        (decimal_value(digits.drop_last()) * 10 + (digits.last() - ZERO)) as nat
    }
}

/// A number: one or more digits whose value fits in 32 bits. Yields the
/// value and the position behind the last digit.
pub open spec fn spec_ascii_u32(s: Seq<u8>, pos: int) -> Option<(u32, int)> {
    let end = run_end(s, pos, ByteClass::Digit);
    let value = decimal_value(s.subrange(pos, end));
    if 0 <= pos < end && value <= u32::MAX {
        Some((value as u32, end))
    } else {
        None
    }
}

/// The separator `sep` at `pos`, then a number.
pub open spec fn spec_field_after(s: Seq<u8>, pos: int, sep: u8) -> Option<(u32, int)> {
    if has_byte(s, pos, sep) {
        spec_ascii_u32(s, pos + 1)
    } else {
        None
    }
}

/// The milliseconds that the four fields of a timestamp amount to.
pub open spec fn millis_of(hours: u32, minutes: u32, seconds: u32, millis: u32) -> int {
    ((hours * 60 + minutes) * 60 + seconds) * 1000 + millis
}

/// A timestamp, `hours:minutes:seconds,milliseconds`, each field a number of
/// any width. Yields the duration in milliseconds and the position behind
/// the timestamp.
pub open spec fn spec_timestamp(s: Seq<u8>, pos: int) -> Option<(u64, int)> {
    match spec_ascii_u32(s, pos) {
        None => None,
        Some((hours, pos1)) => match spec_field_after(s, pos1, COLON) {
            None => None,
            Some((minutes, pos2)) => match spec_field_after(s, pos2, COLON) {
                None => None,
                Some((seconds, pos3)) => match spec_field_after(s, pos3, COMMA) {
                    None => None,
                    Some((millis, pos4)) => Some(
                        (millis_of(hours, minutes, seconds, millis) as u64, pos4),
                    ),
                },
            },
        },
    }
}

/// Whether the arrow `-->` stands at `pos`.
pub open spec fn has_arrow(s: Seq<u8>, pos: int) -> bool {
    has_byte(s, pos, 0x2d) && has_byte(s, pos + 1, 0x2d) && has_byte(s, pos + 2, 0x3e)
}

/// A timespan: a timestamp, one or more spaces, the arrow, one or more
/// spaces, a timestamp. Yields start and end in milliseconds and the position
/// behind the second timestamp.
pub open spec fn spec_timespan(s: Seq<u8>, pos: int) -> Option<((u64, u64), int)> {
    match spec_timestamp(s, pos) {
        None => None,
        Some((start, pos1)) => {
            let pos2 = run_end(s, pos1, ByteClass::Space);
            let pos3 = pos2 + 3;
            let pos4 = run_end(s, pos3, ByteClass::Space);
            if pos1 < pos2 && has_arrow(s, pos2) && pos3 < pos4 {
                match spec_timestamp(s, pos4) {
                    None => None,
                    Some((end, pos5)) => Some(((start, end), pos5)),
                }
            } else {
                None
            }
        },
    }
}

/// The length of the line ending at `pos`: 1 for a line feed, 2 for a
/// carriage return and a line feed, 0 where there is neither.
pub open spec fn line_ending_len(s: Seq<u8>, pos: int) -> int {
    if has_byte(s, pos, LF) {
        1
    } else if has_byte(s, pos, CR) && has_byte(s, pos + 1, LF) {
        2
    } else {
        0
    }
}

/// The position behind all the line endings that follow one another from
/// `pos`.
pub open spec fn skip_line_endings(s: Seq<u8>, pos: int) -> int
    decreases s.len() - pos,
{
    let n = line_ending_len(s, pos);
    if n > 0 {
        skip_line_endings(s, pos + n)
    } else {
        pos
    }
}

/// Where the text of the line that starts at `pos` ends and its line ending
/// begins.
pub open spec fn line_content_end(s: Seq<u8>, pos: int) -> int {
    run_end(s, pos, ByteClass::LineContent)
}

/// Whether a line of caption text starts at `pos`: one byte or more that are
/// neither line feed nor carriage return, then a line ending.
pub open spec fn is_text_line(s: Seq<u8>, pos: int) -> bool {
    let k = line_content_end(s, pos);
    0 <= pos < k && line_ending_len(s, k) > 0
}

/// The position behind the line of text that starts at `pos`, its line
/// ending included.
pub open spec fn next_line(s: Seq<u8>, pos: int) -> int {
    let k = line_content_end(s, pos);
    k + line_ending_len(s, k)
}

/// The position behind the lines of caption text that follow one another
/// from `pos`.
pub open spec fn text_end(s: Seq<u8>, pos: int) -> int
    decreases s.len() - pos,
{
    if is_text_line(s, pos) {
        text_end(s, next_line(s, pos))
    } else {
        pos
    }
}

/// The caption made of the lines of text from `pos`: each line as it stands
/// in `s`, closed by a single line feed whatever its line ending was.
pub open spec fn text_of(s: Seq<u8>, pos: int) -> Seq<u8>
    decreases s.len() - pos,
{
    if is_text_line(s, pos) {
        s.subrange(pos, line_content_end(s, pos)).push(LF) + text_of(s, next_line(s, pos))
    } else {
        Seq::empty()
    }
}

/// One block: the index and a line ending; the timespan; any number of line
/// endings; the lines of text; any number of line endings. Yields the record
/// and the position behind the block.
pub open spec fn spec_subtitle(s: Seq<u8>, pos: int) -> Option<(SubtitleView, int)> {
    match spec_ascii_u32(s, pos) {
        None => None,
        Some((idx, pos1)) => {
            let n = line_ending_len(s, pos1);
            if n > 0 {
                match spec_timespan(s, pos1 + n) {
                    None => None,
                    Some(((start, end), pos2)) => {
                        let pos3 = skip_line_endings(s, pos2);
                        let pos4 = text_end(s, pos3);
                        let pos5 = skip_line_endings(s, pos4);
                        Some((SubtitleView { idx, start, end, text: text_of(s, pos3) }, pos5))
                    },
                }
            } else {
                None
            }
        },
    }
}

/// The records of the blocks that follow one another from `pos`.
pub open spec fn blocks_from(s: Seq<u8>, pos: int) -> Seq<SubtitleView>
    decreases s.len() - pos,
{
    match spec_subtitle(s, pos) {
        Some((block, next)) if pos < next <= s.len() => seq![block] + blocks_from(s, next),
        _ => Seq::empty(),
    }
}

/// The position behind the blocks that follow one another from `pos`.
pub open spec fn blocks_end(s: Seq<u8>, pos: int) -> int
    decreases s.len() - pos,
{
    match spec_subtitle(s, pos) {
        Some((block, next)) if pos < next <= s.len() => blocks_end(s, next),
        _ => pos,
    }
}

/// Whether a byte-order mark, in its UTF-8 form, stands at `pos`.
pub open spec fn has_bom(s: Seq<u8>, pos: int) -> bool {
    has_byte(s, pos, 0xef) && has_byte(s, pos + 1, 0xbb) && has_byte(s, pos + 2, 0xbf)
}

/// The position behind all the byte-order marks that follow one another from
/// `pos`.
pub open spec fn skip_boms(s: Seq<u8>, pos: int) -> int
    decreases s.len() - pos,
{
    if has_bom(s, pos) {
        skip_boms(s, pos + 3)
    } else {
        pos
    }
}

/// Where the blocks of a file begin: behind any byte-order marks and any
/// line endings after them.
pub open spec fn file_start(s: Seq<u8>) -> int {
    skip_line_endings(s, skip_boms(s, 0))
}

/// The records of a file, in the order of the text.
pub open spec fn file_blocks(s: Seq<u8>) -> Seq<SubtitleView> {
    blocks_from(s, file_start(s))
}

/// How many bytes of a file the grammar reads: the position at which what is
/// left, if anything, is no block.
pub open spec fn file_end(s: Seq<u8>) -> int {
    blocks_end(s, file_start(s))
}

/// A run ends inside the text, behind bytes of its class, and before a byte
/// that is not of it.
pub proof fn lemma_run_end(s: Seq<u8>, pos: int, class: ByteClass)
    requires
        0 <= pos <= s.len(),
    ensures
        pos <= run_end(s, pos, class) <= s.len(),
        forall|k: int| pos <= k < run_end(s, pos, class) ==> in_class(class, #[trigger] s[k]),
        run_end(s, pos, class) < s.len() ==> !in_class(class, s[run_end(s, pos, class)]),
    decreases s.len() - pos,
{
    if pos < s.len() && in_class(class, s[pos]) {
        lemma_run_end(s, pos + 1, class);
    }
}

/// A run that starts inside another one ends where that one ends.
pub proof fn lemma_run_end_from_inside(s: Seq<u8>, pos: int, mid: int, class: ByteClass)
    requires
        0 <= pos <= mid <= s.len(),
        forall|k: int| pos <= k < mid ==> in_class(class, #[trigger] s[k]),
    ensures
        run_end(s, pos, class) == run_end(s, mid, class),
    decreases mid - pos,
{
    if pos < mid {
        assert(in_class(class, s[pos]));
        lemma_run_end_from_inside(s, pos + 1, mid, class);
    }
}

/// The position at which a run ends is the one behind bytes of the class at
/// which the text ends or a byte of another kind stands.
pub proof fn lemma_run_end_is(s: Seq<u8>, pos: int, end: int, class: ByteClass)
    requires
        0 <= pos <= end <= s.len(),
        forall|k: int| pos <= k < end ==> in_class(class, #[trigger] s[k]),
        end < s.len() ==> !in_class(class, s[end]),
    ensures
        run_end(s, pos, class) == end,
{
    lemma_run_end_from_inside(s, pos, end, class);
}

/// One more digit never makes the number smaller.
pub proof fn lemma_decimal_value_grows(s: Seq<u8>, pos: int, mid: int, end: int)
    requires
        0 <= pos <= mid <= end <= s.len(),
        forall|k: int| pos <= k < end ==> is_digit(#[trigger] s[k]),
    ensures
        decimal_value(s.subrange(pos, mid)) <= decimal_value(s.subrange(pos, end)),
    decreases end - mid,
{
    if mid < end {
        lemma_decimal_value_grows(s, pos, mid, end - 1);
        assert(s.subrange(pos, end).drop_last() =~= s.subrange(pos, end - 1));
        assert(s.subrange(pos, end).last() == s[end - 1]);
        assert(is_digit(s[end - 1]));
    }
}

/// A number ends behind its start, inside the text, on a digit, and before
/// anything but a digit.
pub proof fn lemma_ascii_u32_end(s: Seq<u8>, pos: int)
    requires
        spec_ascii_u32(s, pos) is Some,
    ensures
        ({
            let end = spec_ascii_u32(s, pos).unwrap().1;
            &&& 0 <= pos < end <= s.len()
            &&& is_digit(s[end - 1])
            &&& end < s.len() ==> !is_digit(s[end])
        }),
{
    if pos <= s.len() {
        lemma_run_end(s, pos, ByteClass::Digit);
        let end = run_end(s, pos, ByteClass::Digit);
        assert(in_class(ByteClass::Digit, s[end - 1]));
    }
}

/// A timestamp ends behind its start, inside the text, and on a digit.
pub proof fn lemma_timestamp_end(s: Seq<u8>, pos: int)
    requires
        spec_timestamp(s, pos) is Some,
    ensures
        ({
            let end = spec_timestamp(s, pos).unwrap().1;
            &&& 0 <= pos < end <= s.len()
            &&& is_digit(s[end - 1])
            &&& end < s.len() ==> !is_digit(s[end])
        }),
{
    lemma_ascii_u32_end(s, pos);
    let pos1 = spec_ascii_u32(s, pos).unwrap().1;
    lemma_ascii_u32_end(s, pos1 + 1);
    let pos2 = spec_ascii_u32(s, pos1 + 1).unwrap().1;
    lemma_ascii_u32_end(s, pos2 + 1);
    let pos3 = spec_ascii_u32(s, pos2 + 1).unwrap().1;
    lemma_ascii_u32_end(s, pos3 + 1);
}

/// A timespan ends behind its start, inside the text, and on a digit.
pub proof fn lemma_timespan_end(s: Seq<u8>, pos: int)
    requires
        spec_timespan(s, pos) is Some,
    ensures
        ({
            let end = spec_timespan(s, pos).unwrap().1;
            &&& 0 <= pos < end <= s.len()
            &&& is_digit(s[end - 1])
        }),
{
    lemma_timestamp_end(s, pos);
    let pos1 = spec_timestamp(s, pos).unwrap().1;
    lemma_run_end(s, pos1, ByteClass::Space);
    let pos3 = run_end(s, pos1, ByteClass::Space) + 3;
    lemma_run_end(s, pos3, ByteClass::Space);
    lemma_timestamp_end(s, run_end(s, pos3, ByteClass::Space));
}

/// Skipping line endings stays inside the text, and where it moves at all it
/// stops behind a line feed.
pub proof fn lemma_skip_line_endings(s: Seq<u8>, pos: int)
    requires
        0 <= pos <= s.len(),
    ensures
        pos <= skip_line_endings(s, pos) <= s.len(),
        line_ending_len(s, skip_line_endings(s, pos)) == 0,
        pos < skip_line_endings(s, pos) ==> s[skip_line_endings(s, pos) - 1] == LF,
    decreases s.len() - pos,
{
    let n = line_ending_len(s, pos);
    if n > 0 {
        lemma_skip_line_endings(s, pos + n);
    }
}

/// A line of text ends inside the text, behind a line feed, and holds a byte
/// or more before its line ending.
pub proof fn lemma_text_line(s: Seq<u8>, pos: int)
    requires
        is_text_line(s, pos),
    ensures
        pos < line_content_end(s, pos) < next_line(s, pos) <= s.len(),
        s[next_line(s, pos) - 1] == LF,
        s[line_content_end(s, pos)] == LF || s[line_content_end(s, pos)] == CR,
        forall|k: int|
            pos <= k < line_content_end(s, pos) ==> (#[trigger] s[k]) != LF && s[k] != CR,
{
    if pos <= s.len() {
        lemma_run_end(s, pos, ByteClass::LineContent);
        assert forall|k: int| pos <= k < line_content_end(s, pos) implies (#[trigger] s[k]) != LF
            && s[k] != CR by {
            assert(in_class(ByteClass::LineContent, s[k]));
        }
    }
}

/// The lines of text end inside the text, and where there is any, behind a
/// line feed.
pub proof fn lemma_text_end(s: Seq<u8>, pos: int)
    requires
        0 <= pos <= s.len(),
    ensures
        pos <= text_end(s, pos) <= s.len(),
        !is_text_line(s, text_end(s, pos)),
        pos < text_end(s, pos) ==> s[text_end(s, pos) - 1] == LF,
    decreases s.len() - pos,
{
    if is_text_line(s, pos) {
        lemma_text_line(s, pos);
        lemma_text_end(s, next_line(s, pos));
    }
}

/// `text` with every carriage return and line feed in a row replaced by a
/// line feed alone.
pub open spec fn normalized(text: Seq<u8>) -> Seq<u8>
    decreases text.len(),
{
    if text.len() == 0 {
        text
    } else if text.len() >= 2 && text[0] == CR && text[1] == LF {
        seq![LF] + normalized(text.skip(2))
    } else {
        seq![text[0]] + normalized(text.skip(1))
    }
}

/// Bytes among which there is no carriage return stay as they are when what
/// they stand in front of is normalized.
pub proof fn lemma_normalized_behind_plain(plain: Seq<u8>, rest: Seq<u8>)
    requires
        forall|i: int| 0 <= i < plain.len() ==> plain[i] != CR,
    ensures
        normalized(plain + rest) == plain + normalized(rest),
    decreases plain.len(),
{
    if plain.len() == 0 {
        assert(plain + rest =~= rest);
        assert(plain + normalized(rest) =~= normalized(rest));
    } else {
        let whole = plain + rest;
        assert(whole[0] == plain[0]);
        assert(whole.skip(1) =~= plain.skip(1) + rest);
        assert forall|i: int| 0 <= i < plain.skip(1).len() implies plain.skip(1)[i] != CR by {
            assert(plain.skip(1)[i] == plain[i + 1]);
        }
        lemma_normalized_behind_plain(plain.skip(1), rest);
        assert(seq![plain[0]] + (plain.skip(1) + normalized(rest)) =~= plain + normalized(rest));
    }
}

/// The caption that a block holds is its text as it stands in the file, each
/// carriage return and line feed in a row replaced by a line feed alone.
pub proof fn lemma_text_is_normalized(s: Seq<u8>, pos: int)
    requires
        0 <= pos <= s.len(),
    ensures
        text_of(s, pos) == normalized(s.subrange(pos, text_end(s, pos))),
    decreases s.len() - pos,
{
    let end = text_end(s, pos);
    lemma_text_end(s, pos);
    if is_text_line(s, pos) {
        lemma_text_line(s, pos);
        let k = line_content_end(s, pos);
        let next = next_line(s, pos);
        lemma_text_end(s, next);
        lemma_text_is_normalized(s, next);
        let line = s.subrange(pos, k);
        let closed = s.subrange(k, end);
        let rest = s.subrange(next, end);
        assert(s.subrange(pos, end) =~= line + closed);
        assert forall|i: int| 0 <= i < line.len() implies line[i] != CR by {
            assert(line[i] == s[pos + i]);
        }
        lemma_normalized_behind_plain(line, closed);
        assert(normalized(closed) == seq![LF] + normalized(rest)) by {
            assert(closed[0] == s[k]);
            if s[k] == CR {
                assert(closed[1] == s[k + 1]);
                assert(closed.skip(2) =~= rest);
            } else {
                assert(closed.skip(1) =~= rest);
            }
        }
        assert(line.push(LF) + normalized(rest) =~= line + (seq![LF] + normalized(rest)));
    } else {
        assert(s.subrange(pos, end) =~= Seq::<u8>::empty());
    }
}

/// A block ends behind its start and inside the text, on a digit or a line
/// feed.
pub proof fn lemma_subtitle_end(s: Seq<u8>, pos: int)
    requires
        spec_subtitle(s, pos) is Some,
    ensures
        ({
            let end = spec_subtitle(s, pos).unwrap().1;
            &&& 0 <= pos < end <= s.len()
            &&& is_digit(s[end - 1]) || s[end - 1] == LF
        }),
{
    lemma_ascii_u32_end(s, pos);
    let pos1 = spec_ascii_u32(s, pos).unwrap().1;
    let n = line_ending_len(s, pos1);
    lemma_timespan_end(s, pos1 + n);
    let pos2 = spec_timespan(s, pos1 + n).unwrap().1;
    lemma_skip_line_endings(s, pos2);
    let pos3 = skip_line_endings(s, pos2);
    lemma_text_end(s, pos3);
    lemma_skip_line_endings(s, text_end(s, pos3));
}

/// The blocks end inside the text, where no further block begins.
pub proof fn lemma_blocks_end(s: Seq<u8>, pos: int)
    requires
        0 <= pos <= s.len(),
    ensures
        pos <= blocks_end(s, pos) <= s.len(),
        spec_subtitle(s, blocks_end(s, pos)) is None,
    decreases s.len() - pos,
{
    if spec_subtitle(s, pos) is Some {
        lemma_subtitle_end(s, pos);
        lemma_blocks_end(s, spec_subtitle(s, pos).unwrap().1);
    }
}

/// Skipping byte-order marks stays inside the text.
pub proof fn lemma_skip_boms(s: Seq<u8>, pos: int)
    requires
        0 <= pos <= s.len(),
    ensures
        pos <= skip_boms(s, pos) <= s.len(),
        !has_bom(s, skip_boms(s, pos)),
    decreases s.len() - pos,
{
    if has_bom(s, pos) {
        lemma_skip_boms(s, pos + 3);
    }
}

/// The grammar reads a file from its start and stops inside it.
pub proof fn lemma_file_end(s: Seq<u8>)
    ensures
        0 <= file_start(s) <= file_end(s) <= s.len(),
        spec_subtitle(s, file_end(s)) is None,
{
    lemma_skip_boms(s, 0);
    lemma_skip_line_endings(s, skip_boms(s, 0));
    lemma_blocks_end(s, file_start(s));
}

} // verus!
