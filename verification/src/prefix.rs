//! What the grammar reads does not depend on what follows: cut off behind
//! the position at which the grammar stopped, a text reads as before, and
//! reads to its end.
use vstd::prelude::*;

use crate::grammar::{
    blocks_end, blocks_from, file_blocks, file_end, file_start, has_arrow, has_bom, in_class,
    is_text_line, lemma_ascii_u32_end, lemma_blocks_end, lemma_file_end, lemma_run_end,
    lemma_run_end_is, lemma_skip_boms, lemma_skip_line_endings, lemma_subtitle_end,
    lemma_text_end, lemma_text_line, lemma_timespan_end, lemma_timestamp_end, line_content_end,
    line_ending_len, next_line, run_end, skip_boms, skip_line_endings, spec_ascii_u32,
    spec_field_after, spec_subtitle, spec_timespan, spec_timestamp, text_end, text_of, ByteClass,
    COLON, COMMA,
};
use crate::parser::{parse_result, ParseView};
use crate::sort::sorted_by_index;

verus! {

/// A run in the first `cut` bytes of a text ends where it ends in the text,
/// or at the cut where that comes first.
pub proof fn lemma_run_end_in_prefix(s: Seq<u8>, cut: int, pos: int, class: ByteClass)
    requires
        0 <= pos <= cut <= s.len(),
    ensures
        run_end(s.take(cut), pos, class) == if run_end(s, pos, class) <= cut {
            run_end(s, pos, class)
        } else {
            cut
        },
{
    let t = s.take(cut);
    let end = run_end(s, pos, class);
    lemma_run_end(s, pos, class);
    let stop = if end <= cut {
        end
    } else {
        cut
    };
    assert forall|k: int| pos <= k < stop implies in_class(class, #[trigger] t[k]) by {
        assert(t[k] == s[k]);
    }
    if stop < cut {
        assert(t[stop] == s[stop]);
    }
    lemma_run_end_is(t, pos, stop, class);
}

/// A line ending in the first `cut` bytes of a text is one of the text, and
/// a line ending of the text that ends before the cut is one of them.
pub proof fn lemma_line_ending_in_prefix(s: Seq<u8>, cut: int, pos: int)
    requires
        0 <= cut <= s.len(),
    ensures
        line_ending_len(s.take(cut), pos) > 0 ==> line_ending_len(s.take(cut), pos)
            == line_ending_len(s, pos),
        pos + line_ending_len(s, pos) <= cut ==> line_ending_len(s.take(cut), pos)
            == line_ending_len(s, pos),
{
    let t = s.take(cut);
    if 0 <= pos < cut {
        assert(t[pos] == s[pos]);
    }
    if 0 <= pos + 1 < cut {
        assert(t[pos + 1] == s[pos + 1]);
    }
}

/// A number that ends before the cut is read alike in the first `cut` bytes.
pub proof fn lemma_ascii_u32_in_prefix(s: Seq<u8>, cut: int, pos: int)
    requires
        0 <= cut <= s.len(),
        spec_ascii_u32(s, pos) is Some,
        spec_ascii_u32(s, pos).unwrap().1 <= cut,
    ensures
        spec_ascii_u32(s.take(cut), pos) == spec_ascii_u32(s, pos),
{
    let end = spec_ascii_u32(s, pos).unwrap().1;
    lemma_ascii_u32_end(s, pos);
    lemma_run_end_in_prefix(s, cut, pos, ByteClass::Digit);
    assert(s.take(cut).subrange(pos, end) =~= s.subrange(pos, end));
}

/// A separator and a number that end before the cut are read alike in the
/// first `cut` bytes.
pub proof fn lemma_field_in_prefix(s: Seq<u8>, cut: int, pos: int, sep: u8)
    requires
        0 <= cut <= s.len(),
        spec_field_after(s, pos, sep) is Some,
        spec_field_after(s, pos, sep).unwrap().1 <= cut,
    ensures
        spec_field_after(s.take(cut), pos, sep) == spec_field_after(s, pos, sep),
{
    lemma_ascii_u32_end(s, pos + 1);
    lemma_ascii_u32_in_prefix(s, cut, pos + 1);
    assert(s.take(cut)[pos] == s[pos]);
}

/// A timestamp that ends before the cut is read alike in the first `cut`
/// bytes.
pub proof fn lemma_timestamp_in_prefix(s: Seq<u8>, cut: int, pos: int)
    requires
        0 <= cut <= s.len(),
        spec_timestamp(s, pos) is Some,
        spec_timestamp(s, pos).unwrap().1 <= cut,
    ensures
        spec_timestamp(s.take(cut), pos) == spec_timestamp(s, pos),
{
    let pos1 = spec_ascii_u32(s, pos).unwrap().1;
    let pos2 = spec_field_after(s, pos1, COLON).unwrap().1;
    let pos3 = spec_field_after(s, pos2, COLON).unwrap().1;
    lemma_ascii_u32_end(s, pos);
    lemma_ascii_u32_end(s, pos1 + 1);
    lemma_ascii_u32_end(s, pos2 + 1);
    lemma_ascii_u32_end(s, pos3 + 1);
    lemma_ascii_u32_in_prefix(s, cut, pos);
    lemma_field_in_prefix(s, cut, pos1, COLON);
    lemma_field_in_prefix(s, cut, pos2, COLON);
    lemma_field_in_prefix(s, cut, pos3, COMMA);
}

/// A timespan that ends before the cut is read alike in the first `cut`
/// bytes.
pub proof fn lemma_timespan_in_prefix(s: Seq<u8>, cut: int, pos: int)
    requires
        0 <= cut <= s.len(),
        spec_timespan(s, pos) is Some,
        spec_timespan(s, pos).unwrap().1 <= cut,
    ensures
        spec_timespan(s.take(cut), pos) == spec_timespan(s, pos),
{
    let t = s.take(cut);
    let pos1 = spec_timestamp(s, pos).unwrap().1;
    let pos2 = run_end(s, pos1, ByteClass::Space);
    let pos3 = pos2 + 3;
    let pos4 = run_end(s, pos3, ByteClass::Space);
    lemma_timestamp_end(s, pos);
    lemma_run_end(s, pos1, ByteClass::Space);
    lemma_run_end(s, pos3, ByteClass::Space);
    lemma_timestamp_end(s, pos4);
    lemma_timestamp_in_prefix(s, cut, pos);
    lemma_run_end_in_prefix(s, cut, pos1, ByteClass::Space);
    assert(t[pos2] == s[pos2] && t[pos2 + 1] == s[pos2 + 1] && t[pos2 + 2] == s[pos2 + 2]);
    assert(has_arrow(t, pos2));
    lemma_run_end_in_prefix(s, cut, pos3, ByteClass::Space);
    lemma_timestamp_in_prefix(s, cut, pos4);
}

/// Line endings that end before the cut are skipped alike in the first `cut`
/// bytes.
pub proof fn lemma_skip_line_endings_in_prefix(s: Seq<u8>, cut: int, pos: int)
    requires
        0 <= pos <= s.len(),
        skip_line_endings(s, pos) <= cut <= s.len(),
    ensures
        skip_line_endings(s.take(cut), pos) == skip_line_endings(s, pos),
    decreases s.len() - pos,
{
    let n = line_ending_len(s, pos);
    lemma_skip_line_endings(s, pos);
    if n > 0 {
        lemma_skip_line_endings(s, pos + n);
        lemma_line_ending_in_prefix(s, cut, pos);
        lemma_skip_line_endings_in_prefix(s, cut, pos + n);
    } else {
        lemma_line_ending_in_prefix(s, cut, pos);
    }
}

/// Where no line of text starts in a text, none starts in its first `cut`
/// bytes.
pub proof fn lemma_no_text_line_in_prefix(s: Seq<u8>, cut: int, pos: int)
    requires
        0 <= pos <= cut <= s.len(),
        !is_text_line(s, pos),
    ensures
        !is_text_line(s.take(cut), pos),
{
    let t = s.take(cut);
    lemma_run_end_in_prefix(s, cut, pos, ByteClass::LineContent);
    let k = run_end(t, pos, ByteClass::LineContent);
    lemma_line_ending_in_prefix(s, cut, k);
}

/// A line of text that ends before the cut is one of the first `cut` bytes.
pub proof fn lemma_text_line_in_prefix(s: Seq<u8>, cut: int, pos: int)
    requires
        0 <= cut <= s.len(),
        is_text_line(s, pos),
        next_line(s, pos) <= cut,
    ensures
        is_text_line(s.take(cut), pos),
        line_content_end(s.take(cut), pos) == line_content_end(s, pos),
        next_line(s.take(cut), pos) == next_line(s, pos),
{
    lemma_text_line(s, pos);
    lemma_run_end_in_prefix(s, cut, pos, ByteClass::LineContent);
    lemma_line_ending_in_prefix(s, cut, line_content_end(s, pos));
}

/// Lines of text that end before the cut are read alike in the first `cut`
/// bytes.
pub proof fn lemma_text_in_prefix(s: Seq<u8>, cut: int, pos: int)
    requires
        0 <= pos <= s.len(),
        text_end(s, pos) <= cut <= s.len(),
    ensures
        text_end(s.take(cut), pos) == text_end(s, pos),
        text_of(s.take(cut), pos) == text_of(s, pos),
    decreases s.len() - pos,
{
    let t = s.take(cut);
    lemma_text_end(s, pos);
    if is_text_line(s, pos) {
        lemma_text_line(s, pos);
        let next = next_line(s, pos);
        lemma_text_end(s, next);
        lemma_text_line_in_prefix(s, cut, pos);
        lemma_text_in_prefix(s, cut, next);
        assert(t.subrange(pos, line_content_end(s, pos)) =~= s.subrange(
            pos,
            line_content_end(s, pos),
        ));
    } else {
        lemma_no_text_line_in_prefix(s, cut, pos);
    }
}

/// A block that ends before the cut is read alike in the first `cut` bytes.
pub proof fn lemma_subtitle_in_prefix(s: Seq<u8>, cut: int, pos: int)
    requires
        0 <= cut <= s.len(),
        spec_subtitle(s, pos) is Some,
        spec_subtitle(s, pos).unwrap().1 <= cut,
    ensures
        spec_subtitle(s.take(cut), pos) == spec_subtitle(s, pos),
{
    let pos1 = spec_ascii_u32(s, pos).unwrap().1;
    let n = line_ending_len(s, pos1);
    let pos2 = spec_timespan(s, pos1 + n).unwrap().1;
    let pos3 = skip_line_endings(s, pos2);
    let pos4 = text_end(s, pos3);
    lemma_ascii_u32_end(s, pos);
    lemma_timespan_end(s, pos1 + n);
    lemma_skip_line_endings(s, pos2);
    lemma_text_end(s, pos3);
    lemma_skip_line_endings(s, pos4);
    lemma_ascii_u32_in_prefix(s, cut, pos);
    lemma_line_ending_in_prefix(s, cut, pos1);
    lemma_timespan_in_prefix(s, cut, pos1 + n);
    lemma_skip_line_endings_in_prefix(s, cut, pos2);
    lemma_text_in_prefix(s, cut, pos3);
    lemma_skip_line_endings_in_prefix(s, cut, pos4);
}

/// The blocks of a text are those of its bytes up to the position at which
/// the blocks end, and there they end too.
pub proof fn lemma_blocks_in_prefix(s: Seq<u8>, cut: int, pos: int)
    requires
        0 <= pos <= s.len(),
        cut == blocks_end(s, pos),
    ensures
        pos <= cut <= s.len(),
        blocks_from(s.take(cut), pos) == blocks_from(s, pos),
        blocks_end(s.take(cut), pos) == cut,
    decreases s.len() - pos,
{
    let t = s.take(cut);
    lemma_blocks_end(s, pos);
    if spec_subtitle(s, pos) is Some {
        lemma_subtitle_end(s, pos);
        let next = spec_subtitle(s, pos).unwrap().1;
        lemma_blocks_end(s, next);
        lemma_subtitle_in_prefix(s, cut, pos);
        lemma_blocks_in_prefix(s, cut, next);
    } else {
        assert(run_end(t, pos, ByteClass::Digit) == pos);
        assert(spec_ascii_u32(t, pos) is None);
    }
}

/// Byte-order marks that end before the cut are skipped alike in the first
/// `cut` bytes.
pub proof fn lemma_skip_boms_in_prefix(s: Seq<u8>, cut: int, pos: int)
    requires
        0 <= pos <= s.len(),
        skip_boms(s, pos) <= cut <= s.len(),
    ensures
        skip_boms(s.take(cut), pos) == skip_boms(s, pos),
    decreases s.len() - pos,
{
    let t = s.take(cut);
    lemma_skip_boms(s, pos);
    if 0 <= pos < cut {
        assert(t[pos] == s[pos]);
    }
    if 0 <= pos + 1 < cut {
        assert(t[pos + 1] == s[pos + 1]);
    }
    if 0 <= pos + 2 < cut {
        assert(t[pos + 2] == s[pos + 2]);
    }
    if has_bom(s, pos) {
        lemma_skip_boms(s, pos + 3);
        lemma_skip_boms_in_prefix(s, cut, pos + 3);
    }
}

/// What the grammar read of a text is a file of its own: the bytes in front
/// of the position at which the grammar stopped hold the same records, and
/// the grammar reads them to their end.
pub proof fn lemma_read_part_is_a_file(s: Seq<u8>)
    ensures
        0 <= file_end(s) <= s.len(),
        file_blocks(s.take(file_end(s))) == file_blocks(s),
        file_end(s.take(file_end(s))) == file_end(s),
        parse_result(s.take(file_end(s))) == ParseView::Complete(sorted_by_index(file_blocks(s))),
{
    let cut = file_end(s);
    lemma_file_end(s);
    lemma_skip_boms(s, 0);
    let pos0 = skip_boms(s, 0);
    lemma_skip_line_endings(s, pos0);
    lemma_skip_boms_in_prefix(s, cut, 0);
    lemma_skip_line_endings_in_prefix(s, cut, pos0);
    lemma_blocks_in_prefix(s, cut, file_start(s));
}

} // verus!
