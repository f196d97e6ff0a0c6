//! A toolkit for parsing, checking and writing SubRip (`.srt`) subtitle files.
//!
//! The grammar works on the UTF-8 bytes of the input, and every contract is
//! stated over byte sequences: the model of a [`Subtitle`] is a
//! [`SubtitleView`], whose `text` holds the bytes of the caption.
use vstd::prelude::*;
use vstd::std_specs::cmp::PartialEqSpecImpl;
use vstd::utf8::*;

pub mod encoding;
pub mod format;
pub mod grammar;
pub mod parser;
pub mod prefix;
pub mod roundtrip;
pub mod sort;
pub mod utils;

pub use format::fmt_duration_srt;
pub use parser::parse;

verus! {

/// The mathematical model of a [`Subtitle`]: its fields as plain values, the
/// caption as a sequence of UTF-8 bytes.
pub struct SubtitleView {
    /// The index written above the block.
    pub idx: u32,
    /// Milliseconds from the start of the media to the caption's appearance.
    pub start: u64,
    /// Milliseconds from the start of the media to the caption's removal.
    pub end: u64,
    /// The caption, every line closed by a single line feed.
    pub text: Seq<u8>,
}

/// A single subtitle record with timing and text information.
///
/// Nothing is enforced of the fields: `end` may precede `start`, and indices
/// need not increase through a file. See [`utils::out_of_order_subs`].
#[derive(Debug, Clone)]
pub struct Subtitle {
    /// The index within the file. It should increase through the file, but
    /// this is not to be relied upon.
    pub idx: u32,
    /// When the caption appears on screen, in milliseconds from the start of
    /// the media.
    pub start: u64,
    /// When the caption leaves the screen, in milliseconds from the start of
    /// the media.
    pub end: u64,
    /// The caption. It may hold formatting tags such as `<b>...</b>`, which
    /// are kept as they are.
    pub text: String,
}

impl View for Subtitle {
    type V = SubtitleView;

    open spec fn view(&self) -> SubtitleView {
        SubtitleView {
            idx: self.idx,
            start: self.start,
            end: self.end,
            text: encode_utf8(self.text@),
        }
    }
}

impl PartialEq for Subtitle {
    fn eq(&self, other: &Subtitle) -> (r: bool) {
        proof {
            encode_utf8_decode_utf8(self.text@);
            encode_utf8_decode_utf8(other.text@);
        }
        self.idx == other.idx && self.start == other.start && self.end == other.end && self.text
            == other.text
    }
}

impl PartialEqSpecImpl for Subtitle {
    open spec fn obeys_eq_spec() -> bool {
        true
    }

    open spec fn eq_spec(&self, other: &Subtitle) -> bool {
        self@ == other@
    }
}

/// The models of a sequence of records, in the same order.
pub open spec fn views(subs: Seq<Subtitle>) -> Seq<SubtitleView> {
    Seq::new(subs.len(), |i: int| subs[i]@)
}

/// The models of a sequence of borrowed records, in the same order.
pub open spec fn ref_views(subs: Seq<&Subtitle>) -> Seq<SubtitleView> {
    Seq::new(subs.len(), |i: int| (*subs[i])@)
}

/// What can go wrong in this crate.
#[derive(Debug)]
#[non_exhaustive]
pub enum Error {
    /// Nothing at the start of the text could be read as a subtitle file.
    ParseError,
    /// Parsing stopped before the end of the text.
    ///
    /// Existing tools are forgiving with subtitle files, so junk at the bottom
    /// of a file is common. The variant holds the records that were read, and
    /// the byte offset at which the unread rest of the text begins.
    ParseIncomplete(Vec<Subtitle>, usize),
    /// A record cannot be shifted or renumbered: a timestamp would fall before
    /// zero, or a position does not fit an index.
    OutOfRange,
}

} // verus!
