//! Facts about UTF-8 that let the grammar work on bytes and still hand out
//! text: where characters begin, and how encoding distributes over
//! concatenation.
use vstd::prelude::*;
use vstd::string::*;
use vstd::utf8::*;

verus! {

/// A byte below `0x80` stands for a whole character.
pub open spec fn is_ascii_byte(b: u8) -> bool {
    b < 0x80
}

/// In valid UTF-8 a character begins at every ASCII byte.
pub proof fn lemma_boundary_at_ascii(bytes: Seq<u8>, i: int)
    requires
        valid_utf8(bytes),
        0 <= i < bytes.len(),
        is_ascii_byte(bytes[i]),
    ensures
        is_char_boundary(bytes, i),
{
    is_char_boundary_iff_not_is_continuation_byte(bytes, i);
}

/// In valid UTF-8 a character, or the end of the text, follows every ASCII
/// byte.
pub proof fn lemma_boundary_after_ascii(bytes: Seq<u8>, i: int)
    requires
        valid_utf8(bytes),
        0 <= i < bytes.len(),
        is_ascii_byte(bytes[i]),
    ensures
        is_char_boundary(bytes, i + 1),
{
    lemma_boundary_at_ascii(bytes, i);
    lemma_boundary_after_scalar(bytes, i);
    let tail = bytes.subrange(i, bytes.len() as int);
    assert(tail[0] == bytes[i]);
    assert(is_leading_byte_width_1(tail[0]));
}

/// In valid UTF-8 a character, or the end of the text, follows the character
/// that begins at a boundary.
pub proof fn lemma_boundary_after_scalar(bytes: Seq<u8>, i: int)
    requires
        valid_utf8(bytes),
        0 <= i < bytes.len(),
        is_char_boundary(bytes, i),
    ensures
        i + length_of_first_scalar(bytes.subrange(i, bytes.len() as int)) <= bytes.len(),
        is_char_boundary(
            bytes,
            i + length_of_first_scalar(bytes.subrange(i, bytes.len() as int)),
        ),
{
    valid_utf8_split(bytes, i);
    let tail = bytes.subrange(i, bytes.len() as int);
    let width = length_of_first_scalar(tail);
    assert(valid_first_scalar(tail));
    let rest = pop_first_scalar(tail);
    assert(rest =~= bytes.subrange(i + width, bytes.len() as int));
    assert(valid_utf8(rest));
    if i + width == bytes.len() {
        is_char_boundary_start_end_of_seq(bytes);
    } else {
        assert(rest[0] == bytes[i + width]);
        assert(valid_first_scalar(rest));
        assert(!is_continuation_byte(bytes[i + width]));
        is_char_boundary_iff_not_is_continuation_byte(bytes, i + width);
    }
}

/// A character boundary of a text is one of each prefix that ends on a
/// boundary behind it.
pub proof fn lemma_boundary_in_prefix(bytes: Seq<u8>, from: int, to: int)
    requires
        valid_utf8(bytes),
        0 <= from <= to <= bytes.len(),
        is_char_boundary(bytes, from),
        is_char_boundary(bytes, to),
    ensures
        valid_utf8(bytes.subrange(0, to)),
        is_char_boundary(bytes.subrange(0, to), from),
{
    valid_utf8_split(bytes, to);
    let head = bytes.subrange(0, to);
    if from == to {
        is_char_boundary_start_end_of_seq(head);
    } else {
        is_char_boundary_iff_not_is_continuation_byte(bytes, from);
        assert(head[from] == bytes[from]);
        is_char_boundary_iff_not_is_continuation_byte(head, from);
    }
}

/// Encoding distributes over concatenation.
pub proof fn lemma_encode_concat(a: Seq<char>, b: Seq<char>)
    ensures
        encode_utf8(a + b) == encode_utf8(a) + encode_utf8(b),
    decreases a.len(),
{
    if a.len() == 0 {
        assert(a + b =~= b);
        assert(encode_utf8(a) + encode_utf8(b) =~= encode_utf8(b));
    } else {
        lemma_encode_concat(a.drop_first(), b);
        assert((a + b).drop_first() =~= a.drop_first() + b);
        assert((a + b)[0] == a[0]);
        assert(encode_utf8(a + b) =~= encode_utf8(a) + encode_utf8(b));
    }
}

/// The part of `input` between two character boundaries.
pub(crate) fn str_slice<'a>(input: &'a str, from: usize, to: usize) -> (part: &'a str)
    requires
        from <= to <= input.spec_bytes().len(),
        is_char_boundary(input.spec_bytes(), from as int),
        is_char_boundary(input.spec_bytes(), to as int),
    ensures
        part.spec_bytes() == input.spec_bytes().subrange(from as int, to as int),
{
    proof {
        encode_utf8_valid_utf8(input@);
        lemma_boundary_in_prefix(input.spec_bytes(), from as int, to as int);
    }
    let (head, _) = input.split_at(to);
    let (_, part) = head.split_at(from);
    assert(part.spec_bytes() =~= input.spec_bytes().subrange(from as int, to as int));
    part
}

/// Appends `piece` to `out`; the bytes of the result are those of `out`
/// followed by those of `piece`.
pub(crate) fn push_str(out: &mut String, piece: &str)
    ensures
        encode_utf8(final(out)@) == encode_utf8(old(out)@) + piece.spec_bytes(),
{
    proof {
        lemma_encode_concat(out@, piece@);
    }
    out.append(piece);
}

/// Appends a line feed to `out`.
pub(crate) fn push_newline(out: &mut String)
    ensures
        encode_utf8(final(out)@) == encode_utf8(old(out)@).push(0x0a),
{
    let ghost before = encode_utf8(out@);
    proof {
        reveal_strlit("\n");
        is_ascii_spec_bytes("\n");
        assert("\n".spec_bytes() =~= seq![0x0au8]);
    }
    push_str(out, "\n");
    assert(before + seq![0x0au8] =~= before.push(0x0a));
}

} // verus!
