use gorillas::game::shot::{
    get_num_key, launch, next_tosser, probe_offsets, prompt_columns, survivor, Entry,
};

#[test]
fn the_launch_point_differs_by_player() {
    assert_eq!(launch(100, 200, 1), (100, 193));
    assert_eq!(launch(100, 200, 2), (125, 193));
}

#[test]
fn the_probe_takes_two_samples_across_the_leading_edge() {
    assert_eq!(
        probe_offsets(1),
        vec![(8, 0), (4, 6)],
        "player 1 probes left"
    );
    assert_eq!(
        probe_offsets(2),
        vec![(0, 0), (4, 6)],
        "player 2 probes right"
    );
}

#[test]
fn a_probe_for_any_other_player_takes_one_sample() {
    assert_eq!(probe_offsets(0), vec![(16, 0)]);
    assert_eq!(probe_offsets(3), vec![(-8, 0)]);
}

#[test]
fn each_player_prompts_on_their_own_side() {
    assert_eq!(prompt_columns(1), (1, 8, 11));
    assert_eq!(prompt_columns(2), (66, 73, 76));
}

#[test]
fn players_alternate_starting_with_player_one() {
    let mut j = 1;
    let order: Vec<usize> = (0..5).map(|_| next_tosser(&mut j)).collect();
    assert_eq!(order, vec![1, 2, 1, 2, 1]);
}

#[test]
fn hitting_the_other_gorilla_leaves_the_thrower_standing() {
    assert_eq!(survivor(1, 2), 1);
    assert_eq!(survivor(2, 1), 2);
    assert_eq!(survivor(1, 1), 2);
    assert_eq!(survivor(2, 2), 1);
}

#[test]
fn a_miss_leaves_the_thrower_standing() {
    assert_eq!(survivor(1, 0), 1);
    assert_eq!(survivor(2, 0), 2);
}

#[test]
fn an_angle_over_360_is_rejected_and_entry_starts_again() {
    let mut buf = String::new();
    for c in "400".chars() {
        assert_eq!(get_num_key(&mut buf, c), Entry::Continue);
    }
    assert_eq!(buf, "400");
    assert_eq!(
        get_num_key(&mut buf, '\r'),
        Entry::Continue,
        "400 is over 360"
    );
    assert_eq!(buf, "", "a rejected value clears the buffer");
    for c in "45".chars() {
        get_num_key(&mut buf, c);
    }
    assert_eq!(get_num_key(&mut buf, '\r'), Entry::Done);
    assert_eq!(buf.parse::<f64>().unwrap(), 45.0);
}

#[test]
fn exactly_360_is_accepted() {
    let mut buf = String::new();
    for c in "360".chars() {
        get_num_key(&mut buf, c);
    }
    assert_eq!(get_num_key(&mut buf, '\r'), Entry::Done);
}

#[test]
fn entry_takes_one_decimal_point_and_handles_backspace() {
    let mut buf = String::new();
    for c in "12..5".chars() {
        get_num_key(&mut buf, c);
    }
    assert_eq!(buf, "12.5", "the second point should be ignored");
    assert_eq!(get_num_key(&mut buf, 'x'), Entry::Beep);
    assert_eq!(
        buf, "12.5",
        "a key that is not a digit, point, Enter or backspace does nothing"
    );
    get_num_key(&mut buf, '\u{8}');
    assert_eq!(buf, "12.", "backspace removes the 5");
    assert_eq!(get_num_key(&mut buf, '\r'), Entry::Done);
    assert_eq!(buf.parse::<f64>().unwrap_or(0.0), 12.0);
}

#[test]
fn backspace_on_an_empty_buffer_does_nothing() {
    let mut buf = String::new();
    assert_eq!(get_num_key(&mut buf, '\u{8}'), Entry::Continue);
    assert_eq!(buf, "");
}

fn enter(text: &str) -> (Entry, String) {
    let mut buf = String::new();
    for c in text.chars() {
        assert_eq!(get_num_key(&mut buf, c), Entry::Continue);
    }
    let e = get_num_key(&mut buf, '\r');
    (e, buf)
}

#[test]
fn the_limit_is_where_the_double_read_passes_360() {
    // 360 + 2^-45 is half way between 360 and the next double up, and a tie
    // reads as 360 because 360 is the even one.
    let limit = "360.000000000000028421709430404007434844970703125";
    assert_eq!(limit.parse::<f64>().unwrap(), 360.0);
    assert_eq!(enter(limit).0, Entry::Done);
    let above = "360.0000000000000284217094304040074348449707031251";
    assert!(above.parse::<f64>().unwrap() > 360.0);
    assert_eq!(enter(above), (Entry::Continue, String::new()));
    assert_eq!(enter("360.00000000000002").0, Entry::Done);
    assert_eq!(enter("360.00000000000003").0, Entry::Continue);
    assert_eq!(enter("360.0001").0, Entry::Continue);
    assert_eq!(enter("361").0, Entry::Continue);
    assert_eq!(enter("0360").0, Entry::Done);
    assert_eq!(enter("0000361.").0, Entry::Continue);
    assert_eq!(enter("359.9999999").0, Entry::Done);
    assert_eq!(enter("1000").0, Entry::Continue);
}

#[test]
fn an_entry_with_no_digits_reads_as_zero_and_is_accepted() {
    assert_eq!(enter("").0, Entry::Done);
    assert_eq!(enter(".").0, Entry::Done);
    assert_eq!(enter(".5").0, Entry::Done);
}

#[test]
fn only_the_listed_keys_do_anything() {
    let mut buf = String::from("7");
    for k in ['a', ' ', '-', '\u{1b}', 'é'] {
        assert_eq!(get_num_key(&mut buf, k), Entry::Beep);
        assert_eq!(buf, "7");
    }
}

#[test]
fn get_num_key_edits_any_buffer() {
    let mut s = String::from("ab");
    assert_eq!(get_num_key(&mut s, '5'), Entry::Continue);
    assert_eq!(s, "ab5");
    assert_eq!(get_num_key(&mut s, 'x'), Entry::Beep);
    assert_eq!(s, "ab5");
    assert_eq!(get_num_key(&mut s, '\u{8}'), Entry::Continue);
    assert_eq!(s, "ab");
    assert_eq!(get_num_key(&mut s, '.'), Entry::Continue);
    assert_eq!(s, "ab.");
    assert_eq!(get_num_key(&mut s, '.'), Entry::Continue);
    assert_eq!(s, "ab.");
}
