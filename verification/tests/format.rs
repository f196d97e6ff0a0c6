use subrip::parser::timestamp;
use subrip::{fmt_duration_srt, parse, Subtitle};

fn written(millis: u64) -> String {
    let mut out = String::new();
    fmt_duration_srt(millis, &mut out);
    out
}

#[test]
fn timestamps_are_padded_with_zeros() {
    assert_eq!(written(0), "00:00:00,000");
    assert_eq!(written(50), "00:00:00,050");
    assert_eq!(written(8000), "00:00:08,000");
    assert_eq!(written(840000), "00:14:00,000");
    assert_eq!(written(7200000), "02:00:00,000");
    assert_eq!(written(((2 * 60 + 14) * 60 + 8) * 1000 + 50), "02:14:08,050");
    assert_eq!(written(3_723_004), "01:02:03,004");
    assert_eq!(written(359_999_999), "99:59:59,999");
}

#[test]
fn hours_take_the_digits_they_need() {
    assert_eq!(written(360_000_000), "100:00:00,000");
    assert_eq!(written(u64::MAX), "5124095576030:25:51,615");
}

#[test]
fn timestamps_are_appended() {
    let mut out = String::from("at ");
    fmt_duration_srt(1500, &mut out);
    assert_eq!(out, "at 00:00:01,500");
}

#[test]
fn written_timestamps_are_read_back() {
    let mut samples: Vec<u64> = vec![0, 1, 9, 10, 999, 1000, 59_999, 60_000, 3_599_999, 3_600_000];
    samples.push(4294967295u64 * 3_600_000 + 3_599_999);
    let mut seed: u64 = 12345;
    for _ in 0..500 {
        seed = seed.wrapping_mul(6364136223846793005).wrapping_add(1442695040888963407);
        samples.push((seed >> 20) % (4294967296u64 * 3_600_000));
    }
    for millis in samples {
        let text = written(millis);
        assert_eq!(timestamp(text.as_bytes(), 0), Some((millis, text.len())));
    }
}

#[test]
fn hours_beyond_a_field_are_not_read_back() {
    let text = written(4294967296u64 * 3_600_000);
    assert_eq!(text, "4294967296:00:00,000");
    assert_eq!(timestamp(text.as_bytes(), 0), None);
}

#[test]
fn a_record_is_written_as_a_block() {
    let sub = Subtitle {
        idx: 12,
        start: 2002,
        end: 5403,
        text: "<i>Now the story</i>\nof a family\n".to_string(),
    };
    assert_eq!(
        sub.to_string(),
        "12\n00:00:02,002 --> 00:00:05,403\n<i>Now the story</i>\nof a family\n\n\n"
    );
    let bare = Subtitle {
        idx: 0,
        start: 0,
        end: 0,
        text: String::new(),
    };
    assert_eq!(bare.to_string(), "0\n00:00:00,000 --> 00:00:00,000\n\n\n");
}

#[test]
fn a_written_record_is_read_back() {
    let subs = vec![
        Subtitle {
            idx: 1,
            start: 2002,
            end: 5403,
            text: "one line\n".to_string(),
        },
        Subtitle {
            idx: 4294967295,
            start: 3_600_000,
            end: 3_600_001,
            text: "two\nlines \u{2014} and a dash\n".to_string(),
        },
        Subtitle {
            idx: 9,
            start: 7000,
            end: 1000,
            text: String::new(),
        },
    ];
    for sub in &subs {
        assert_eq!(parse(&sub.to_string()).unwrap(), vec![sub.clone()]);
    }
}

#[test]
fn a_written_file_is_read_back() {
    let subs = vec![
        Subtitle {
            idx: 1,
            start: 2002,
            end: 5403,
            text: "one line\n".to_string(),
        },
        Subtitle {
            idx: 2,
            start: 5505,
            end: 7496,
            text: "two\nlines\n".to_string(),
        },
        Subtitle {
            idx: 3,
            start: 7607,
            end: 9598,
            text: String::new(),
        },
    ];
    let mut file = String::new();
    for sub in &subs {
        file.push_str(&sub.to_string());
    }
    assert_eq!(parse(&file).unwrap(), subs);
}

#[test]
fn text_without_a_closing_line_feed_comes_back_with_one() {
    let sub = Subtitle {
        idx: 1,
        start: 0,
        end: 1,
        text: "hello".to_string(),
    };
    let back = parse(&sub.to_string()).unwrap();
    assert_eq!(back.len(), 1);
    assert_eq!(back[0].text, "hello\n");
    assert_eq!(back[0].start, 0);
    assert_eq!(back[0].end, 1);
}

#[test]
fn records_compare_by_their_fields() {
    let a = Subtitle {
        idx: 1,
        start: 2,
        end: 3,
        text: "x\n".to_string(),
    };
    assert_eq!(a, a.clone());
    assert_ne!(a, Subtitle { idx: 2, ..a.clone() });
    assert_ne!(a, Subtitle { start: 3, ..a.clone() });
    assert_ne!(a, Subtitle { end: 4, ..a.clone() });
    assert_ne!(a, Subtitle { text: "y\n".to_string(), ..a.clone() });
}
