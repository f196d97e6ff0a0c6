//! Writing subtitles: timestamps in their canonical form, two digits for
//! hours, minutes and seconds and three for milliseconds, and records as
//! blocks that the grammar reads back.
use vstd::prelude::*;
use vstd::string::*;
use vstd::utf8::*;

use crate::encoding::{push_newline, push_str};
use crate::grammar::{COLON, COMMA, LF, ZERO};
use crate::{Subtitle, SubtitleView};

verus! {

/// The milliseconds in a second.
pub const MILLIS_PER_SECOND: u64 = 1000;

/// The milliseconds in a minute.
pub const MILLIS_PER_MINUTE: u64 = 60000;

/// The milliseconds in an hour.
pub const MILLIS_PER_HOUR: u64 = 3600000;

/// The digit that writes `d`, for `d` below ten.
pub open spec fn digit_byte(d: nat) -> u8 {
    (ZERO + d) as u8
}

/// `n` in base ten, in `width` digits or more: zeros stand in front where
/// `n` has fewer digits than `width`.
pub open spec fn padded_decimal(n: nat, width: nat) -> Seq<u8>
    decreases n + width,
{
    if n < 10 && width <= 1 {
        seq![digit_byte(n)]
    } else {
        padded_decimal(n / 10, if width > 0 { (width - 1) as nat } else { 0 }).push(
            digit_byte(n % 10),
        )
    }
}

/// The whole hours in `millis` milliseconds.
pub open spec fn hours_in(millis: u64) -> nat {
    (millis / MILLIS_PER_HOUR) as nat
}

/// The whole minutes in `millis` milliseconds that make no whole hour.
pub open spec fn minutes_in(millis: u64) -> nat {
    ((millis / MILLIS_PER_MINUTE) % 60) as nat
}

/// The whole seconds in `millis` milliseconds that make no whole minute.
pub open spec fn seconds_in(millis: u64) -> nat {
    ((millis / MILLIS_PER_SECOND) % 60) as nat
}

/// The milliseconds in `millis` that make no whole second.
pub open spec fn millis_in(millis: u64) -> nat {
    (millis % MILLIS_PER_SECOND) as nat
}

/// The canonical text of a timestamp: hours, minutes and seconds in two
/// digits each, or more where the hours need them, and milliseconds in three.
#[verifier::opaque]
pub open spec fn timestamp_text(millis: u64) -> Seq<u8> {
    padded_decimal(hours_in(millis), 2).push(COLON) + padded_decimal(minutes_in(millis), 2).push(
        COLON,
    ) + padded_decimal(seconds_in(millis), 2).push(COMMA) + padded_decimal(millis_in(millis), 3)
}

/// The arrow between the two timestamps of a block, a space on each side.
pub open spec fn arrow_text() -> Seq<u8> {
    seq![0x20u8, 0x2d, 0x2d, 0x3e, 0x20]
}

/// The text of a timespan: the start, the arrow, the end.
#[verifier::opaque]
pub open spec fn timespan_text(start: u64, end: u64) -> Seq<u8> {
    timestamp_text(start) + arrow_text() + timestamp_text(end)
}

/// The text of a block: the index and a line feed; the timespan and a line
/// feed; the caption and a line feed; an empty line.
#[verifier::opaque]
pub open spec fn block_text(v: SubtitleView) -> Seq<u8> {
    padded_decimal(v.idx as nat, 1).push(LF) + timespan_text(v.start, v.end).push(LF)
        + v.text.push(LF).push(LF)
}

/// The text of one digit.
fn digit_str(d: u64) -> (r: &'static str)
    requires
        d < 10,
    ensures
        r.spec_bytes() == seq![digit_byte(d as nat)],
{
    proof {
        reveal_strlit("0");
        reveal_strlit("1");
        reveal_strlit("2");
        reveal_strlit("3");
        reveal_strlit("4");
        reveal_strlit("5");
        reveal_strlit("6");
        reveal_strlit("7");
        reveal_strlit("8");
        reveal_strlit("9");
    }
    let r = if d == 0 {
        "0"
    } else if d == 1 {
        "1"
    } else if d == 2 {
        "2"
    } else if d == 3 {
        "3"
    } else if d == 4 {
        "4"
    } else if d == 5 {
        "5"
    } else if d == 6 {
        "6"
    } else if d == 7 {
        "7"
    } else if d == 8 {
        "8"
    } else {
        "9"
    };
    proof {
        is_ascii_spec_bytes(r);
        assert(r.spec_bytes() =~= seq![digit_byte(d as nat)]);
    }
    r
}

/// Appends `n` in base ten, in `width` digits or more.
fn push_decimal(out: &mut String, n: u64, width: usize)
    ensures
        encode_utf8(final(out)@) == encode_utf8(old(out)@) + padded_decimal(n as nat, width as nat),
    decreases n + width,
{
    let ghost before = encode_utf8(out@);
    if n >= 10 || width > 1 {
        let rest: usize = if width > 0 {
            width - 1
        } else {
            0
        };
        push_decimal(out, n / 10, rest);
        push_str(out, digit_str(n % 10));
        proof {
            let front = padded_decimal((n / 10) as nat, rest as nat);
            assert((before + front) + seq![digit_byte((n % 10) as nat)] =~= before + front.push(
                digit_byte((n % 10) as nat),
            ));
        }
    } else {
        push_str(out, digit_str(n));
    }
}

/// Appends a colon or a comma.
fn push_separator(out: &mut String, sep: u8)
    requires
        sep == COLON || sep == COMMA,
    ensures
        encode_utf8(final(out)@) == encode_utf8(old(out)@).push(sep),
{
    let ghost before = encode_utf8(out@);
    proof {
        reveal_strlit(":");
        reveal_strlit(",");
    }
    let text = if sep == COLON {
        ":"
    } else {
        ","
    };
    proof {
        is_ascii_spec_bytes(text);
        assert(text.spec_bytes() =~= seq![sep]);
        assert(before + seq![sep] =~= before.push(sep));
    }
    push_str(out, text);
}

/// Appends the arrow, a space on each side.
fn push_arrow(out: &mut String)
    ensures
        encode_utf8(final(out)@) == encode_utf8(old(out)@) + arrow_text(),
{
    proof {
        reveal_strlit(" --> ");
        is_ascii_spec_bytes(" --> ");
        assert(" --> ".spec_bytes() =~= arrow_text());
    }
    push_str(out, " --> ");
}

/// Appends the canonical text of the timestamp `millis` to `out`: hours,
/// minutes and seconds in two digits each, milliseconds in three.
pub fn fmt_duration_srt(millis: u64, out: &mut String)
    ensures
        encode_utf8(final(out)@) == encode_utf8(old(out)@) + timestamp_text(millis),
{
    let ghost before = encode_utf8(out@);
    let hours = millis / MILLIS_PER_HOUR;
    let minutes = (millis / MILLIS_PER_MINUTE) % 60;
    let seconds = (millis / MILLIS_PER_SECOND) % 60;
    let rest = millis % MILLIS_PER_SECOND;
    push_decimal(out, hours, 2);
    push_separator(out, COLON);
    push_decimal(out, minutes, 2);
    push_separator(out, COLON);
    push_decimal(out, seconds, 2);
    push_separator(out, COMMA);
    push_decimal(out, rest, 3);
    proof {
        reveal(timestamp_text);
        let h = padded_decimal(hours_in(millis), 2);
        let m = padded_decimal(minutes_in(millis), 2);
        let s = padded_decimal(seconds_in(millis), 2);
        let r = padded_decimal(millis_in(millis), 3);
        assert((((((before + h).push(COLON) + m).push(COLON)) + s).push(COMMA)) + r =~= before + (
        h.push(COLON) + m.push(COLON) + s.push(COMMA) + r));
    }
}

impl Subtitle {
    /// The record as a block of a subtitle file: the index; the start, the
    /// arrow and the end; the caption; an empty line.
    pub fn to_string(&self) -> (r: String)
        ensures
            encode_utf8(r@) == block_text(self@),
    {
        let mut out = String::new();
        assert(encode_utf8(out@) =~= Seq::<u8>::empty());
        push_decimal(&mut out, self.idx as u64, 1);
        push_newline(&mut out);
        fmt_duration_srt(self.start, &mut out);
        push_arrow(&mut out);
        fmt_duration_srt(self.end, &mut out);
        push_newline(&mut out);
        push_str(&mut out, self.text.as_str());
        push_newline(&mut out);
        push_newline(&mut out);
        proof {
            reveal(timespan_text);
            reveal(block_text);
            let v = self@;
            let e = Seq::<u8>::empty();
            assert(((((e + padded_decimal(v.idx as nat, 1)).push(LF) + timestamp_text(v.start))
                + arrow_text() + timestamp_text(v.end)).push(LF) + v.text).push(LF).push(LF)
                =~= padded_decimal(v.idx as nat, 1).push(LF) + timespan_text(
                v.start,
                v.end,
            ).push(LF) + v.text.push(LF).push(LF));
        }
        out
    }
}

} // verus!
