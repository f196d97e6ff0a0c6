use subrip::parser::{ascii_u32, srt_file, subtitle, text, timespan, timestamp};
use subrip::{parse, Error, Subtitle};

fn sub(idx: u32, start: u64, end: u64, text: &str) -> Subtitle {
    Subtitle {
        idx,
        start,
        end,
        text: text.to_string(),
    }
}

#[test]
fn empty_input_is_an_empty_file() {
    assert_eq!(parse("").unwrap(), Vec::<Subtitle>::new());
}

#[test]
fn marks_and_blank_lines_alone_are_an_empty_file() {
    assert_eq!(parse("\u{feff}\u{feff}\n\r\n\n").unwrap(), Vec::<Subtitle>::new());
}

#[test]
fn text_that_is_no_subtitle_file_fails() {
    assert!(matches!(parse("hello"), Err(Error::ParseError)));
    assert!(matches!(parse("x1\n00:00:01,000 --> 00:00:02,000\n"), Err(Error::ParseError)));
    assert!(matches!(parse(" "), Err(Error::ParseError)));
}

#[test]
fn junk_behind_blocks_is_reported_with_its_offset() {
    let good = "1\n00:00:01,000 --> 00:00:02,000\nfirst\n\n2\n00:00:03,000 --> 00:00:04,000\nsecond\n\n";
    let junk = "Subtitles by nobody";
    let input = format!("{}{}", good, junk);
    match parse(&input) {
        Err(Error::ParseIncomplete(subs, offset)) => {
            assert_eq!(offset, good.len());
            assert_eq!(&input[offset..], junk);
            assert_eq!(
                subs,
                vec![sub(1, 1000, 2000, "first\n"), sub(2, 3000, 4000, "second\n")]
            );
        }
        other => panic!("unexpected result: {:?}", other),
    }
}

#[test]
fn junk_behind_blank_lines_is_reported_with_no_records() {
    match parse("\n\njunk") {
        Err(Error::ParseIncomplete(subs, offset)) => {
            assert_eq!(offset, 2);
            assert!(subs.is_empty());
        }
        other => panic!("unexpected result: {:?}", other),
    }
}

#[test]
fn junk_behind_a_mark_starts_at_a_character() {
    let input = "\u{feff}\u{e9}t\u{e9}";
    match parse(input) {
        Err(Error::ParseIncomplete(subs, offset)) => {
            assert_eq!(offset, 3);
            assert!(input.is_char_boundary(offset));
            assert_eq!(&input[offset..], "\u{e9}t\u{e9}");
            assert!(subs.is_empty());
        }
        other => panic!("unexpected result: {:?}", other),
    }
}

#[test]
fn a_malformed_block_ends_the_records() {
    let input = "1\n00:00:01,000 --> 00:00:02,000\nfirst\n\n2\n00:00:03,000 -> 00:00:04,000\nsecond\n";
    match parse(input) {
        Err(Error::ParseIncomplete(subs, offset)) => {
            assert_eq!(&input[offset..], "2\n00:00:03,000 -> 00:00:04,000\nsecond\n");
            assert_eq!(subs, vec![sub(1, 1000, 2000, "first\n")]);
        }
        other => panic!("unexpected result: {:?}", other),
    }
}

#[test]
fn a_last_line_without_line_ending_is_left_over() {
    let input = "1\n00:00:01,000 --> 00:00:02,000\nfirst\nsecond";
    match parse(input) {
        Err(Error::ParseIncomplete(subs, offset)) => {
            assert_eq!(&input[offset..], "second");
            assert_eq!(subs, vec![sub(1, 1000, 2000, "first\n")]);
        }
        other => panic!("unexpected result: {:?}", other),
    }
}

#[test]
fn records_come_back_sorted_by_index() {
    let input = "3\n00:00:05,000 --> 00:00:06,000\nc\n\n1\n00:00:01,000 --> 00:00:02,000\na\n\n3\n00:00:03,000 --> 00:00:04,000\nb\n\n";
    assert_eq!(
        parse(input).unwrap(),
        vec![
            sub(1, 1000, 2000, "a\n"),
            sub(3, 5000, 6000, "c\n"),
            sub(3, 3000, 4000, "b\n"),
        ]
    );
    let (as_written, end) = srt_file(input);
    assert_eq!(end, input.len());
    assert_eq!(
        as_written,
        vec![
            sub(3, 5000, 6000, "c\n"),
            sub(1, 1000, 2000, "a\n"),
            sub(3, 3000, 4000, "b\n"),
        ]
    );
}

#[test]
fn partial_records_come_back_sorted_too() {
    let input = "2\n00:00:03,000 --> 00:00:04,000\nb\n\n1\n00:00:01,000 --> 00:00:02,000\na\n\n???";
    match parse(input) {
        Err(Error::ParseIncomplete(subs, offset)) => {
            assert_eq!(&input[offset..], "???");
            assert_eq!(subs, vec![sub(1, 1000, 2000, "a\n"), sub(2, 3000, 4000, "b\n")]);
        }
        other => panic!("unexpected result: {:?}", other),
    }
}

#[test]
fn a_mark_and_blank_lines_may_stand_in_front() {
    let input = "\u{feff}\r\n\n1\n00:00:01,000 --> 00:00:02,000\nhi\n";
    assert_eq!(parse(input).unwrap(), vec![sub(1, 1000, 2000, "hi\n")]);
}

#[test]
fn line_endings_may_be_mixed() {
    let input = "1\r\n00:00:01,000 --> 00:00:02,000\n\r\n\nline one\r\nline two\n\r\n\n2\n00:00:03,000 --> 00:00:04,000\r\nlast\r\n";
    assert_eq!(
        parse(input).unwrap(),
        vec![
            sub(1, 1000, 2000, "line one\nline two\n"),
            sub(2, 3000, 4000, "last\n"),
        ]
    );
}

#[test]
fn a_block_may_have_no_text() {
    let input = "7\n00:00:01,000 --> 00:00:02,000\n";
    assert_eq!(parse(input).unwrap(), vec![sub(7, 1000, 2000, "")]);
    let input = "7\n00:00:01,000 --> 00:00:02,000";
    assert_eq!(parse(input).unwrap(), vec![sub(7, 1000, 2000, "")]);
}

#[test]
fn captions_keep_their_characters_and_tags() {
    let input = "1\n00:00:01,000 --> 00:00:02,000\n<b>\u{c7}a va?</b> \u{1f600}\n\u{65e5}\u{672c}\u{8a9e}\r\n\n";
    assert_eq!(
        parse(input).unwrap(),
        vec![sub(1, 1000, 2000, "<b>\u{c7}a va?</b> \u{1f600}\n\u{65e5}\u{672c}\u{8a9e}\n")]
    );
}

#[test]
fn a_lone_carriage_return_ends_the_text() {
    let input = "1\n00:00:01,000 --> 00:00:02,000\nfirst\nbro\rken\n";
    match parse(input) {
        Err(Error::ParseIncomplete(subs, offset)) => {
            assert_eq!(&input[offset..], "bro\rken\n");
            assert_eq!(subs, vec![sub(1, 1000, 2000, "first\n")]);
        }
        other => panic!("unexpected result: {:?}", other),
    }
}

#[test]
fn numbers_need_a_digit_and_must_fit_32_bits() {
    assert_eq!(ascii_u32(b"", 0), None);
    assert_eq!(ascii_u32(b"x1", 0), None);
    assert_eq!(ascii_u32(b"x1", 1), Some((1, 2)));
    assert_eq!(ascii_u32(b"12", 5), None);
    assert_eq!(ascii_u32(b"0042abc", 0), Some((42, 4)));
    assert_eq!(ascii_u32(b"4294967295", 0), Some((4294967295, 10)));
    assert_eq!(ascii_u32(b"4294967296", 0), None);
    assert_eq!(ascii_u32(b"00000000000000000001,", 0), Some((1, 20)));
    assert_eq!(ascii_u32(b"99999999999999999999999", 0), None);
}

#[test]
fn timestamp_fields_may_have_any_width() {
    assert_eq!(timestamp(b"1:2:3,4", 0), Some((3_723_004, 7)));
    assert_eq!(timestamp(b"001:002:003,004 ", 0), Some((3_723_004, 15)));
    assert_eq!(timestamp(b"0:0:0,5000", 0), Some((5000, 10)));
    assert_eq!(timestamp(b"00:90:00,000", 0), Some((5_400_000, 12)));
    assert_eq!(
        timestamp(b"4294967295:4294967295:4294967295,4294967295", 0),
        Some((4294967295u64 * 3_661_001, 43))
    );
}

#[test]
fn timestamps_need_every_field_and_separator() {
    assert_eq!(timestamp(b"", 0), None);
    assert_eq!(timestamp(b"00:00:00", 0), None);
    assert_eq!(timestamp(b"00:00:00,", 0), None);
    assert_eq!(timestamp(b"00:00:00.000", 0), None);
    assert_eq!(timestamp(b"00:00,000", 0), None);
    assert_eq!(timestamp(b"00::00,000", 0), None);
    assert_eq!(timestamp(b":00:00,000", 0), None);
    assert_eq!(timestamp(b"00:0a:00,000", 0), None);
    assert_eq!(timestamp(b"00 :00:00,000", 0), None);
    assert_eq!(timestamp(b"4294967296:00:00,000", 0), None);
}

#[test]
fn the_arrow_needs_spaces_and_takes_many() {
    assert_eq!(
        timespan(b"00:00:01,000 --> 00:00:02,000", 0),
        Some(((1000, 2000), 29))
    );
    assert_eq!(
        timespan(b"00:00:01,000    -->  00:00:02,000", 0),
        Some(((1000, 2000), 33))
    );
    assert_eq!(timespan(b"00:00:01,000--> 00:00:02,000", 0), None);
    assert_eq!(timespan(b"00:00:01,000 -->00:00:02,000", 0), None);
    assert_eq!(timespan(b"00:00:01,000 \t--> 00:00:02,000", 0), None);
    assert_eq!(timespan(b"00:00:01,000 -> 00:00:02,000", 0), None);
    assert_eq!(timespan(b"00:00:01,000 --> ", 0), None);
    assert_eq!(timespan(b"00:00:01,000 --", 0), None);
}

#[test]
fn a_timespan_may_run_backwards() {
    assert_eq!(
        timespan(b"00:00:02,000 --> 00:00:01,000", 0),
        Some(((2000, 1000), 29))
    );
}

#[test]
fn text_ends_at_a_blank_line_or_an_unfinished_line() {
    assert_eq!(text(b"one\ntwo\r\n\nthree\n", 0), 9);
    assert_eq!(text(b"one\ntwo", 0), 4);
    assert_eq!(text(b"\none\n", 0), 0);
    assert_eq!(text(b"one\n", 4), 4);
    assert_eq!(text(b"one\n", 9), 9);
}

#[test]
fn a_block_is_read_where_it_starts() {
    let input = "junk\n5\n00:00:01,000 --> 00:00:02,000\nhi\n\n\n6\n";
    let (found, end) = subtitle(input, 5).unwrap();
    assert_eq!(found, sub(5, 1000, 2000, "hi\n"));
    assert_eq!(&input[end..], "6\n");
    assert_eq!(subtitle(input, 0), None);
    assert_eq!(subtitle(input, end), None);
    assert_eq!(subtitle(input, 400), None);
}

#[test]
fn a_block_without_text_takes_the_lines_that_follow() {
    let input = "1\n00:00:01,000 --> 00:00:02,000\n\n2\n00:00:03,000 --> 00:00:04,000\nb\n";
    assert_eq!(
        parse(input).unwrap(),
        vec![sub(1, 1000, 2000, "2\n00:00:03,000 --> 00:00:04,000\nb\n")]
    );
}
