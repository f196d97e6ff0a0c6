//! Reading subtitle files: one function for each rule of the grammar, and
//! [`parse`], which runs the grammar over a whole text and sorts what it
//! found.
use vstd::prelude::*;
use vstd::slice::*;
use vstd::string::*;
use vstd::utf8::*;

use crate::encoding::{
    is_ascii_byte, lemma_boundary_after_ascii, lemma_boundary_after_scalar,
    lemma_boundary_at_ascii, push_newline, push_str, str_slice,
};
use crate::grammar::{
    blocks_end, blocks_from, file_blocks, file_end, file_start, has_arrow, has_bom, in_class,
    is_digit, lemma_decimal_value_grows, lemma_file_end, lemma_run_end, lemma_run_end_from_inside,
    lemma_run_end_is, lemma_skip_boms, lemma_skip_line_endings, lemma_subtitle_end,
    lemma_text_line, lemma_timespan_end, lemma_timestamp_end, line_ending_len, run_end,
    skip_boms, skip_line_endings, spec_ascii_u32, spec_field_after, spec_subtitle, spec_timespan,
    spec_timestamp, text_end, text_of, decimal_value, ByteClass, COLON, COMMA, CR, LF, SPACE, ZERO,
};
use crate::sort::sorted_by_index;
use crate::utils::sort_subtitles;
use crate::{views, Error, Subtitle, SubtitleView};

verus! {

/// Tells whether `b` belongs to `class`.
pub fn class_holds(class: ByteClass, b: u8) -> (r: bool)
    ensures
        r == in_class(class, b),
{
    match class {
        ByteClass::Digit => b >= 0x30 && b <= 0x39,
        ByteClass::Space => b == SPACE,
        ByteClass::LineContent => b != LF && b != CR,
    }
}

/// Finds the end of the longest run of bytes of `class` that starts at `pos`.
pub fn scan_run(input: &[u8], pos: usize, class: ByteClass) -> (end: usize)
    ensures
        end == run_end(input@, pos as int, class),
        pos <= end,
        pos <= input@.len() ==> end <= input@.len(),
{
    let mut i: usize = pos;
    while i < input.len() && class_holds(class, input[i])
        invariant
            pos <= i,
            pos <= input@.len() ==> i <= input@.len(),
            run_end(input@, pos as int, class) == run_end(input@, i as int, class),
        decreases input@.len() - i,
    {
        i += 1;
    }
    i
}

/// Reads a number at `pos`: one or more digits, whose value must fit in 32
/// bits. Gives the value and the position behind the last digit.
pub fn ascii_u32(input: &[u8], pos: usize) -> (r: Option<(u32, usize)>)
    ensures
        match r {
            Some((value, end)) => spec_ascii_u32(input@, pos as int) == Some((value, end as int)),
            None => spec_ascii_u32(input@, pos as int) is None,
        },
{
    let ghost s = input@;
    if pos >= input.len() {
        return None;
    }
    let mut i: usize = pos;
    let mut acc: u64 = 0;
    while i < input.len() && class_holds(ByteClass::Digit, input[i])
        invariant
            s == input@,
            pos <= i <= s.len(),
            forall|k: int| pos <= k < i ==> is_digit(#[trigger] s[k]),
            acc == decimal_value(s.subrange(pos as int, i as int)),
            acc <= u32::MAX,
        decreases s.len() - i,
    {
        let digit: u64 = (input[i] - ZERO) as u64;
        let next: u64 = acc * 10 + digit;
        proof {
            let longer = s.subrange(pos as int, i + 1);
            assert(longer.drop_last() =~= s.subrange(pos as int, i as int));
            assert(longer.last() == s[i as int]);
            assert(next == decimal_value(longer));
        }
        if next > u32::MAX as u64 {
            proof {
                let end = run_end(s, pos as int, ByteClass::Digit);
                assert forall|k: int| pos <= k < i + 1 implies in_class(
                    ByteClass::Digit,
                    #[trigger] s[k],
                ) by {
                    assert(is_digit(s[k]));
                }
                lemma_run_end_from_inside(s, pos as int, i + 1, ByteClass::Digit);
                lemma_run_end(s, i + 1, ByteClass::Digit);
                assert forall|k: int| pos <= k < end implies is_digit(#[trigger] s[k]) by {
                    if k > i {
                        assert(in_class(ByteClass::Digit, s[k]));
                    }
                }
                lemma_decimal_value_grows(s, pos as int, i + 1, end);
            }
            return None;
        }
        acc = next;
        i += 1;
    }
    if i == pos {
        return None;
    }
    proof {
        assert forall|k: int| pos <= k < i implies in_class(ByteClass::Digit, #[trigger] s[k]) by {
            assert(is_digit(s[k]));
        }
        lemma_run_end_is(s, pos as int, i as int, ByteClass::Digit);
    }
    Some((acc as u32, i))
}

/// Reads the separator `sep` at `pos` and a number behind it.
pub fn field_after(input: &[u8], pos: usize, sep: u8) -> (r: Option<(u32, usize)>)
    ensures
        match r {
            Some((value, end)) => spec_field_after(input@, pos as int, sep) == Some(
                (value, end as int),
            ),
            None => spec_field_after(input@, pos as int, sep) is None,
        },
{
    if pos < input.len() && input[pos] == sep {
        ascii_u32(input, pos + 1)
    } else {
        None
    }
}

/// Reads a timestamp at `pos`, `hours:minutes:seconds,milliseconds`. Gives
/// the duration in milliseconds and the position behind the timestamp.
pub fn timestamp(input: &[u8], pos: usize) -> (r: Option<(u64, usize)>)
    ensures
        match r {
            Some((millis, end)) => spec_timestamp(input@, pos as int) == Some(
                (millis, end as int),
            ),
            None => spec_timestamp(input@, pos as int) is None,
        },
{
    let (hours, pos1) = match ascii_u32(input, pos) {
        Some(field) => field,
        None => { return None; },
    };
    let (minutes, pos2) = match field_after(input, pos1, COLON) {
        Some(field) => field,
        None => { return None; },
    };
    let (seconds, pos3) = match field_after(input, pos2, COLON) {
        Some(field) => field,
        None => { return None; },
    };
    let (millis, pos4) = match field_after(input, pos3, COMMA) {
        Some(field) => field,
        None => { return None; },
    };
    let total: u64 = ((hours as u64 * 60 + minutes as u64) * 60 + seconds as u64) * 1000
        + millis as u64;
    Some((total, pos4))
}

/// Tells whether the arrow `-->` stands at `pos`.
pub fn arrow_at(input: &[u8], pos: usize) -> (r: bool)
    ensures
        r == has_arrow(input@, pos as int),
        r ==> pos + 3 <= input@.len() <= usize::MAX,
{
    pos < input.len() && input.len() - pos >= 3 && input[pos] == 0x2d && input[pos + 1] == 0x2d
        && input[pos + 2] == 0x3e
}

/// Reads a timespan at `pos`: two timestamps with the arrow between them, and
/// one or more spaces on each side of the arrow. Gives start and end in
/// milliseconds and the position behind the second timestamp.
pub fn timespan(input: &[u8], pos: usize) -> (r: Option<((u64, u64), usize)>)
    ensures
        match r {
            Some((span, end)) => spec_timespan(input@, pos as int) == Some((span, end as int)),
            None => spec_timespan(input@, pos as int) is None,
        },
{
    let (start, pos1) = match timestamp(input, pos) {
        Some(stamp) => stamp,
        None => { return None; },
    };
    proof {
        lemma_timestamp_end(input@, pos as int);
    }
    let pos2 = scan_run(input, pos1, ByteClass::Space);
    if pos2 == pos1 || !arrow_at(input, pos2) {
        return None;
    }
    let pos3 = pos2 + 3;
    let pos4 = scan_run(input, pos3, ByteClass::Space);
    if pos4 == pos3 {
        return None;
    }
    match timestamp(input, pos4) {
        Some((end, pos5)) => Some(((start, end), pos5)),
        None => None,
    }
}

/// Measures the line ending at `pos`: 1 for a line feed, 2 for a carriage
/// return and a line feed, 0 where there is neither.
pub fn line_ending(input: &[u8], pos: usize) -> (n: usize)
    ensures
        n == line_ending_len(input@, pos as int),
        n > 0 ==> pos + n <= input@.len() <= usize::MAX,
{
    if pos >= input.len() {
        0
    } else if input[pos] == LF {
        1
    } else if input[pos] == CR && input.len() - pos >= 2 && input[pos + 1] == LF {
        2
    } else {
        0
    }
}

/// Finds the position behind all the line endings that follow one another
/// from `pos`.
pub fn skip_line_ends(input: &[u8], pos: usize) -> (end: usize)
    ensures
        end == skip_line_endings(input@, pos as int),
        pos <= end,
{
    let mut i: usize = pos;
    loop
        invariant
            pos <= i,
            skip_line_endings(input@, pos as int) == skip_line_endings(input@, i as int),
        decreases input@.len() - i,
    {
        let n = line_ending(input, i);
        if n == 0 {
            return i;
        }
        i += n;
    }
}

/// Finds the position behind the lines of caption text that follow one
/// another from `pos`: each line one byte or more that are neither line feed
/// nor carriage return, then a line ending.
pub fn text(input: &[u8], pos: usize) -> (end: usize)
    ensures
        end == text_end(input@, pos as int),
        pos <= end,
{
    let mut i: usize = pos;
    loop
        invariant
            pos <= i,
            text_end(input@, pos as int) == text_end(input@, i as int),
        decreases input@.len() - i,
    {
        let k = scan_run(input, i, ByteClass::LineContent);
        let n = line_ending(input, k);
        if k == i || n == 0 {
            return i;
        }
        i = k + n;
    }
}

/// Copies the lines of caption text that start at `pos`, closing each with a
/// single line feed. Gives the caption and the position behind its last line.
fn caption(input: &str, pos: usize) -> (r: (String, usize))
    requires
        0 < pos <= input.spec_bytes().len(),
        is_ascii_byte(input.spec_bytes()[pos - 1]),
    ensures
        encode_utf8(r.0@) == text_of(input.spec_bytes(), pos as int),
        r.1 == text_end(input.spec_bytes(), pos as int),
{
    let bytes = input.as_bytes();
    let ghost s = input.spec_bytes();
    let mut out = String::new();
    let mut i: usize = pos;
    proof {
        encode_utf8_valid_utf8(input@);
        assert(text_of(s, pos as int) =~= encode_utf8(out@) + text_of(s, pos as int));
    }
    loop
        invariant
            s == input.spec_bytes(),
            s == bytes@,
            valid_utf8(s),
            0 < pos <= i <= s.len(),
            is_ascii_byte(s[i - 1]),
            text_end(s, pos as int) == text_end(s, i as int),
            text_of(s, pos as int) == encode_utf8(out@) + text_of(s, i as int),
        decreases s.len() - i,
    {
        let k = scan_run(bytes, i, ByteClass::LineContent);
        let n = line_ending(bytes, k);
        if k == i || n == 0 {
            proof {
                assert(text_of(s, i as int) =~= Seq::<u8>::empty());
                assert(encode_utf8(out@) + text_of(s, i as int) =~= encode_utf8(out@));
            }
            return (out, i);
        }
        proof {
            lemma_text_line(s, i as int);
            lemma_boundary_after_ascii(s, i - 1);
            lemma_boundary_at_ascii(s, k as int);
        }
        let ghost before = encode_utf8(out@);
        push_str(&mut out, str_slice(input, i, k));
        push_newline(&mut out);
        proof {
            let line = s.subrange(i as int, k as int);
            assert(encode_utf8(out@) =~= before + line.push(LF));
            assert(before + (line.push(LF) + text_of(s, k + n)) =~= (before + line.push(LF))
                + text_of(s, k + n));
        }
        i = k + n;
    }
}

/// Reads one block at `pos`: the index and a line ending; the timespan; any
/// number of line endings; the lines of text; any number of line endings.
/// Gives the record and the position behind the block.
pub fn subtitle(input: &str, pos: usize) -> (r: Option<(Subtitle, usize)>)
    ensures
        match r {
            Some((sub, end)) => spec_subtitle(input.spec_bytes(), pos as int) == Some(
                (sub@, end as int),
            ),
            None => spec_subtitle(input.spec_bytes(), pos as int) is None,
        },
{
    let bytes = input.as_bytes();
    let ghost s = input.spec_bytes();
    let (idx, pos1) = match ascii_u32(bytes, pos) {
        Some(number) => number,
        None => { return None; },
    };
    let n = line_ending(bytes, pos1);
    if n == 0 {
        return None;
    }
    let ((start, end), pos2) = match timespan(bytes, pos1 + n) {
        Some(span) => span,
        None => { return None; },
    };
    proof {
        lemma_timespan_end(s, pos1 + n);
        lemma_skip_line_endings(s, pos2 as int);
    }
    let pos3 = skip_line_ends(bytes, pos2);
    let (text, pos4) = caption(input, pos3);
    let pos5 = skip_line_ends(bytes, pos4);
    Some((Subtitle { idx, start, end, text }, pos5))
}

/// Tells whether a byte-order mark, in its UTF-8 form, stands at `pos`.
pub fn bom_at(input: &[u8], pos: usize) -> (r: bool)
    ensures
        r == has_bom(input@, pos as int),
        r ==> pos + 3 <= input@.len() <= usize::MAX,
{
    pos < input.len() && input.len() - pos >= 3 && input[pos] == 0xef && input[pos + 1] == 0xbb
        && input[pos + 2] == 0xbf
}

/// Runs the grammar of a file over `input`: any number of byte-order marks,
/// any number of line endings, then blocks for as long as one follows
/// another. Gives the records in the order of the text, and the position at
/// which the grammar stopped.
pub fn srt_file(input: &str) -> (r: (Vec<Subtitle>, usize))
    ensures
        views(r.0@) == file_blocks(input.spec_bytes()),
        r.1 == file_end(input.spec_bytes()),
        r.1 <= input.spec_bytes().len(),
{
    let bytes = input.as_bytes();
    let ghost s = input.spec_bytes();
    let mut pos: usize = 0;
    while bom_at(bytes, pos)
        invariant
            s == bytes@,
            skip_boms(s, 0) == skip_boms(s, pos as int),
        decreases s.len() - pos,
    {
        pos += 3;
    }
    pos = skip_line_ends(bytes, pos);
    let mut subs: Vec<Subtitle> = Vec::new();
    proof {
        lemma_file_end(s);
        assert(file_blocks(s) =~= views(subs@) + blocks_from(s, pos as int));
    }
    loop
        invariant
            s == input.spec_bytes(),
            pos <= s.len(),
            file_blocks(s) == views(subs@) + blocks_from(s, pos as int),
            file_end(s) == blocks_end(s, pos as int),
        decreases s.len() - pos,
    {
        match subtitle(input, pos) {
            None => {
                proof {
                    assert(views(subs@) + blocks_from(s, pos as int) =~= views(subs@));
                }
                return (subs, pos);
            },
            Some((sub, next)) => {
                proof {
                    lemma_subtitle_end(s, pos as int);
                }
                let ghost before = views(subs@);
                subs.push(sub);
                proof {
                    assert(views(subs@) =~= before.push(sub@));
                    assert(before + (seq![sub@] + blocks_from(s, next as int)) =~= before.push(
                        sub@,
                    ) + blocks_from(s, next as int));
                }
                pos = next;
            },
        }
    }
}

/// Byte-order marks end where a character begins.
pub proof fn lemma_skip_boms_is_boundary(s: Seq<u8>, pos: int)
    requires
        valid_utf8(s),
        0 <= pos <= s.len(),
        is_char_boundary(s, pos),
    ensures
        is_char_boundary(s, skip_boms(s, pos)),
    decreases s.len() - pos,
{
    if has_bom(s, pos) {
        lemma_boundary_after_scalar(s, pos);
        let tail = s.subrange(pos, s.len() as int);
        assert(tail[0] == s[pos]);
        assert(is_leading_byte_width_3(tail[0]));
        lemma_skip_boms_is_boundary(s, pos + 3);
    }
}

/// Blocks end where a character begins.
pub proof fn lemma_blocks_end_is_boundary(s: Seq<u8>, pos: int)
    requires
        valid_utf8(s),
        0 <= pos <= s.len(),
        is_char_boundary(s, pos),
    ensures
        is_char_boundary(s, blocks_end(s, pos)),
    decreases s.len() - pos,
{
    if spec_subtitle(s, pos) is Some {
        lemma_subtitle_end(s, pos);
        let next = spec_subtitle(s, pos).unwrap().1;
        lemma_boundary_after_ascii(s, next - 1);
        lemma_blocks_end_is_boundary(s, next);
    }
}

/// The grammar stops where a character begins.
pub proof fn lemma_file_end_is_boundary(s: Seq<u8>)
    requires
        valid_utf8(s),
    ensures
        is_char_boundary(s, file_end(s)),
{
    lemma_skip_boms_is_boundary(s, 0);
    let pos0 = skip_boms(s, 0);
    lemma_skip_boms(s, 0);
    lemma_skip_line_endings(s, pos0);
    let pos1 = file_start(s);
    if pos0 < pos1 {
        lemma_boundary_after_ascii(s, pos1 - 1);
    }
    lemma_blocks_end_is_boundary(s, pos1);
}

/// The model of what [`parse`] gives.
pub enum ParseView {
    /// The grammar read every byte of the text: the records.
    Complete(Seq<SubtitleView>),
    /// The text is not empty and the grammar read not one byte of it.
    Failed,
    /// The grammar stopped inside the text: the records that it read, and the
    /// position at which it stopped.
    Incomplete(Seq<SubtitleView>, int),
}

/// What is made of the records `blocks` that the grammar found in a text of
/// `len` bytes, where it stopped at `end`: the records are sorted by index,
/// and the outcome goes by how much of the text was read.
pub open spec fn conclusion(blocks: Seq<SubtitleView>, end: int, len: int) -> ParseView {
    if end == len {
        ParseView::Complete(sorted_by_index(blocks))
    } else if end == 0 {
        ParseView::Failed
    } else {
        ParseView::Incomplete(sorted_by_index(blocks), end)
    }
}

/// What [`parse`] gives for the text `s`.
pub open spec fn parse_result(s: Seq<u8>) -> ParseView {
    conclusion(file_blocks(s), file_end(s), s.len() as int)
}

/// Whether `r` is the result that stands for `expected`.
pub open spec fn is_result(r: Result<Vec<Subtitle>, Error>, expected: ParseView) -> bool {
    match r {
        Ok(subs) => expected == ParseView::Complete(views(subs@)),
        Err(Error::ParseError) => expected == ParseView::Failed,
        Err(Error::ParseIncomplete(subs, offset)) => expected == ParseView::Incomplete(
            views(subs@),
            offset as int,
        ),
        Err(_) => false,
    }
}

/// An empty text is an empty file: the grammar reads all of it and finds no
/// record.
pub proof fn lemma_empty_text_is_an_empty_file()
    ensures
        parse_result(Seq::<u8>::empty()) == ParseView::Complete(Seq::<SubtitleView>::empty()),
{
    let s = Seq::<u8>::empty();
    lemma_file_end(s);
    assert(file_start(s) == 0);
    assert(run_end(s, 0, ByteClass::Digit) == 0);
    assert(file_blocks(s) =~= Seq::<SubtitleView>::empty());
}

/// Sorts what the grammar found and decides how reading ended: `subs` are
/// the records of a text of `len` bytes, `end` the position at which the
/// grammar stopped.
pub fn conclude(subs: Vec<Subtitle>, end: usize, len: usize) -> (r: Result<Vec<Subtitle>, Error>)
    requires
        end <= len,
    ensures
        is_result(r, conclusion(views(subs@), end as int, len as int)),
{
    if end == 0 && len > 0 {
        return Err(Error::ParseError);
    }
    let mut subs = subs;
    sort_subtitles(subs.as_mut_slice());
    if end == len {
        Ok(subs)
    } else {
        Err(Error::ParseIncomplete(subs, end))
    }
}

/// Parses the text of a subtitle file.
///
/// The grammar is run over the whole text. Where it reads all of it, the
/// records come back sorted by index, records of equal index in the order of
/// the text. Where the text is not empty and the grammar reads nothing of it,
/// the result is [`Error::ParseError`]. Where the grammar stops inside the
/// text, the result is [`Error::ParseIncomplete`] with the records read so
/// far, sorted in the same way, and the byte offset at which the rest of the
/// text begins; a character begins at that offset.
pub fn parse(input: &str) -> (r: Result<Vec<Subtitle>, Error>)
    ensures
        is_result(r, parse_result(input.spec_bytes())),
        r is Ok <==> file_end(input.spec_bytes()) == input.spec_bytes().len(),
        r matches Err(Error::ParseError) <==> file_end(input.spec_bytes()) == 0
            && input.spec_bytes().len() > 0,
        r matches Err(Error::ParseIncomplete(_, _)) <==> 0 < file_end(input.spec_bytes())
            < input.spec_bytes().len(),
        r matches Err(Error::ParseIncomplete(_, offset)) ==> is_char_boundary(
            input.spec_bytes(),
            offset as int,
        ),
{
    let (subs, end) = srt_file(input);
    proof {
        encode_utf8_valid_utf8(input@);
        lemma_file_end_is_boundary(input.spec_bytes());
    }
    conclude(subs, end, input.as_bytes().len())
}

} // verus!
