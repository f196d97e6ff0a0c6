use subrip::utils::{offset_subs, out_of_order_subs, sort_subtitles};
use subrip::{Error, Subtitle};

fn sub(idx: u32, start: u64, end: u64, text: &str) -> Subtitle {
    Subtitle {
        idx,
        start,
        end,
        text: text.to_string(),
    }
}

#[test]
fn sorting_is_by_index_and_stable() {
    let mut subs = vec![
        sub(3, 0, 0, "a"),
        sub(1, 0, 0, "b"),
        sub(3, 0, 0, "c"),
        sub(2, 0, 0, "d"),
        sub(1, 0, 0, "e"),
        sub(0, 0, 0, "f"),
        sub(3, 0, 0, "g"),
    ];
    sort_subtitles(&mut subs);
    let order: Vec<(u32, &str)> = subs.iter().map(|s| (s.idx, s.text.as_str())).collect();
    assert_eq!(
        order,
        vec![(0, "f"), (1, "b"), (1, "e"), (2, "d"), (3, "a"), (3, "c"), (3, "g")]
    );
}

#[test]
fn sorting_again_changes_nothing() {
    let mut subs = vec![
        sub(5, 1, 2, "a"),
        sub(4, 3, 4, "b"),
        sub(5, 5, 6, "c"),
        sub(4, 7, 8, "d"),
    ];
    sort_subtitles(&mut subs);
    let once = subs.clone();
    sort_subtitles(&mut subs);
    assert_eq!(subs, once);
}

#[test]
fn sorting_agrees_with_the_standard_stable_sort() {
    let mut seed: u64 = 99;
    for round in 0..50 {
        let mut subs = Vec::new();
        for position in 0..(round % 17) {
            seed = seed.wrapping_mul(6364136223846793005).wrapping_add(1442695040888963407);
            subs.push(sub(((seed >> 33) % 5) as u32, position, position, "x"));
        }
        let mut expected = subs.clone();
        expected.sort_by_key(|s| s.idx);
        sort_subtitles(&mut subs);
        assert_eq!(subs, expected);
    }
}

#[test]
fn sorting_takes_long_sequences() {
    let mut seed: u64 = 4;
    let mut subs = Vec::new();
    for position in 0..20000u64 {
        seed = seed.wrapping_mul(6364136223846793005).wrapping_add(1442695040888963407);
        subs.push(sub(((seed >> 33) % 1000) as u32, position, position, "x"));
    }
    let mut expected = subs.clone();
    expected.sort_by_key(|s| s.idx);
    sort_subtitles(&mut subs);
    assert_eq!(subs, expected);
    let mut backwards: Vec<Subtitle> = (0..20000u32).rev().map(|i| sub(i / 3, 0, 0, "y")).collect();
    for (position, s) in backwards.iter_mut().enumerate() {
        s.start = position as u64;
    }
    let mut expected = backwards.clone();
    expected.sort_by_key(|s| s.idx);
    sort_subtitles(&mut backwards);
    assert_eq!(backwards, expected);
}

#[test]
fn sorting_a_part_leaves_the_rest() {
    let mut subs = vec![
        sub(9, 0, 0, "a"),
        sub(3, 0, 0, "b"),
        sub(2, 0, 0, "c"),
        sub(1, 0, 0, "d"),
        sub(0, 0, 0, "e"),
    ];
    sort_subtitles(&mut subs[1..4]);
    let order: Vec<u32> = subs.iter().map(|s| s.idx).collect();
    assert_eq!(order, vec![9, 1, 2, 3, 0]);
}

#[test]
fn sorting_takes_empty_and_single_sequences() {
    let mut none: Vec<Subtitle> = Vec::new();
    sort_subtitles(&mut none);
    assert!(none.is_empty());
    let mut one = vec![sub(9, 1, 2, "a")];
    sort_subtitles(&mut one);
    assert_eq!(one, vec![sub(9, 1, 2, "a")]);
}

#[test]
fn records_in_order_are_not_reported() {
    let subs = vec![
        sub(1, 2002, 5403, "a"),
        sub(2, 5505, 7496, "b"),
        sub(3, 7607, 9598, "c"),
    ];
    assert!(out_of_order_subs(&subs).is_empty());
    assert!(out_of_order_subs(&[]).is_empty());
}

#[test]
fn a_record_that_starts_too_early_is_reported() {
    let subs = vec![
        sub(1, 2002, 5403, "a"),
        sub(2, 1000, 7496, "b"),
        sub(3, 7607, 9598, "c"),
    ];
    let found = out_of_order_subs(&subs);
    assert_eq!(found.len(), 1);
    assert!(std::ptr::eq(found[0], &subs[1]));
}

#[test]
fn the_cursor_moves_with_every_record() {
    let subs = vec![
        sub(1, 5000, 6000, "a"),
        sub(2, 1000, 2000, "b"),
        sub(3, 3000, 4000, "c"),
        sub(4, 2000, 2500, "d"),
    ];
    let found = out_of_order_subs(&subs);
    assert_eq!(found, vec![&subs[1], &subs[3]]);
}

#[test]
fn a_record_that_ends_before_it_starts_is_reported() {
    let subs = vec![
        sub(1, 3000, 2999, "a"),
        sub(2, 3000, 3000, "b"),
        sub(3, 4000, 1, "c"),
    ];
    let found = out_of_order_subs(&subs);
    assert_eq!(found, vec![&subs[0], &subs[2]]);
}

#[test]
fn overlapping_records_are_not_reported() {
    let subs = vec![sub(1, 1000, 5000, "a"), sub(2, 1000, 3000, "b")];
    assert!(out_of_order_subs(&subs).is_empty());
}

#[test]
fn shifting_moves_the_first_record_to_zero() {
    let subs = vec![
        sub(1, 2002, 5403, "a\n"),
        sub(2, 5505, 7496, "b\n"),
        sub(3, 7607, 9598, "c\n"),
    ];
    let shifted = offset_subs(&subs, None).unwrap();
    assert_eq!(
        shifted,
        vec![
            sub(0, 0, 3401, "a\n"),
            sub(1, 3503, 5494, "b\n"),
            sub(2, 5605, 7596, "c\n"),
        ]
    );
    assert_eq!(subs[0], sub(1, 2002, 5403, "a\n"));
}

#[test]
fn shifting_keeps_the_delay() {
    let subs = vec![sub(7, 2002, 5403, "a\n"), sub(9, 5505, 7496, "b\n")];
    let shifted = offset_subs(&subs, Some(500)).unwrap();
    assert_eq!(shifted, vec![sub(0, 500, 3901, "a\n"), sub(1, 4003, 5994, "b\n")]);
    let same = offset_subs(&subs, Some(2002)).unwrap();
    assert_eq!(same, vec![sub(0, 2002, 5403, "a\n"), sub(1, 5505, 7496, "b\n")]);
    let zero = offset_subs(&subs, Some(0)).unwrap();
    assert_eq!(zero, offset_subs(&subs, None).unwrap());
}

#[test]
fn shifting_nothing_gives_nothing() {
    assert_eq!(offset_subs(&[], None).unwrap(), Vec::<Subtitle>::new());
    assert_eq!(offset_subs(&[], Some(1000)).unwrap(), Vec::<Subtitle>::new());
}

#[test]
fn a_delay_beyond_the_first_start_is_refused() {
    let subs = vec![sub(1, 2002, 5403, "a\n")];
    assert!(matches!(offset_subs(&subs, Some(2003)), Err(Error::OutOfRange)));
}

#[test]
fn a_record_before_the_shift_is_refused() {
    let early_start = vec![sub(1, 2002, 5403, "a\n"), sub(2, 2001, 7496, "b\n")];
    assert!(matches!(offset_subs(&early_start, None), Err(Error::OutOfRange)));
    let early_end = vec![sub(1, 2002, 5403, "a\n"), sub(2, 5505, 2001, "b\n")];
    assert!(matches!(offset_subs(&early_end, None), Err(Error::OutOfRange)));
    let first_end = vec![sub(1, 2002, 100, "a\n")];
    assert!(matches!(offset_subs(&first_end, None), Err(Error::OutOfRange)));
    assert_eq!(
        offset_subs(&first_end, Some(1902)).unwrap(),
        vec![sub(0, 1902, 0, "a\n")]
    );
}
