use gorillas::qb::sound::{parse_mml, try_parse_mml, Count, Tone};

/// The frequency of QBasic note `n`, with middle C as note 37.
fn freq(n: i32) -> f64 {
    261.625_565_3 * 2f64.powf((n - 37) as f64 / 12.0)
}

/// A tempo or length as a double; none of these tests writes one too long
/// for 64 bits.
fn val(c: Count) -> f64 {
    match c {
        Count::Value(v) => v as f64,
        Count::Digits(..) => panic!("a number past 64 bits"),
    }
}

/// How long a tone lasts in milliseconds.
fn ms(t: &Tone) -> f64 {
    let mut ms = 240_000.0 / val(t.tempo) / val(t.length);
    for _ in 0..t.dots {
        ms *= 1.5;
    }
    ms
}

fn freqs(s: &str) -> Vec<i64> {
    parse_mml(s)
        .0
        .iter()
        .map(|t| match t.pitch {
            Some(n) => freq(n).round() as i64,
            None => 0,
        })
        .collect()
}

#[test]
fn the_note_numbering_matches_the_measured_range() {
    assert_eq!(parse_mml("O0C").0[0].pitch, Some(1));
    assert_eq!(parse_mml("O6B").0[0].pitch, Some(84));
    assert_eq!(freqs("O0C"), vec![33]);
    assert_eq!(freqs("O6B"), vec![3951]);
}

#[test]
fn notes_map_to_the_frequencies_the_anchor_implies() {
    assert_eq!(freqs("O3C"), vec![262]);
    assert_eq!(freqs("O2C"), vec![131]);
    assert_eq!(freqs("O1C"), vec![65]);
    assert_eq!(freqs("O3A"), vec![440]);
    assert_eq!(freqs("O3A+"), vec![466]);
    assert_eq!(freqs("O3A#"), vec![466]);
    assert_eq!(freqs("O3B-"), vec![466]);
}

#[test]
fn mb_is_background_and_mf_is_foreground() {
    assert!(!parse_mml("MBO0L32EFGEFDC").1);
    assert!(parse_mml("MFO0L32EFGEFDC").1);
    assert!(parse_mml("O0L32E").1);
}

#[test]
fn note_number_zero_is_a_rest() {
    let notes = parse_mml("T120O1L16BN0B").0;
    assert_eq!(notes.len(), 3);
    assert_eq!(notes[1].pitch, None);
    assert!(ms(&notes[1]) > 0.0);
}

#[test]
fn tempo_and_length_set_the_duration() {
    let notes = parse_mml("T120L16C").0;
    assert!((ms(&notes[0]) - 125.0).abs() < 0.5, "got {}", ms(&notes[0]));
    let notes = parse_mml("T120L16C4").0;
    assert!((ms(&notes[0]) - 500.0).abs() < 0.5, "got {}", ms(&notes[0]));
}

#[test]
fn every_tune_produces_the_note_count_qbasic_produces() {
    let cases = [
        ("MBO0L32EFGEFDC", 7),
        ("MBO0L16EFGEFDC", 7),
        ("MBo0L32A-L64CL16BL64A+", 4),
        ("MFO0L32EFGEFDC", 7),
        ("T160O0L32EFGEFDC", 7),
        ("MBT160O1L8CDEDCDL4ECC", 9),
        ("t120o1l16b9n0baan0bn0bn0baaan0b9n0baan0b", 22),
        ("o2l16e-9n0e-d-d-n0e-n0e-n0e-d-d-d-n0e-9n0e-d-d-n0e-", 22),
        ("o2l16g-9n0g-een0g-n0g-n0g-eeen0g-9n0g-een0g-", 22),
        ("o2l16b9n0baan0g-n0g-n0g-eeen0o1b9n0baan0b", 22),
    ];
    for (mml, want) in cases {
        let (notes, _) = parse_mml(mml);
        assert_eq!(notes.len(), want, "wrong note count for {mml}");
    }
}

#[test]
fn every_tune_in_the_listing_parses_without_panicking() {
    let tunes = [
        "MBO0L32EFGEFDC",
        "MBO0L16EFGEFDC",
        "MBo0L32A-L64CL16BL64A+",
        "MFO0L32EFGEFDC",
        "T160O0L32EFGEFDC",
        "MBT160O1L8CDEDCDL4ECC",
        "t120o1l16b9n0baan0bn0bn0baaan0b9n0baan0b",
        "o2l16e-9n0e-d-d-n0e-n0e-n0e-d-d-d-n0e-9n0e-d-d-n0e-",
        "o2l16g-9n0g-een0g-n0g-n0g-eeen0g-9n0g-een0g-",
        "o2l16b9n0baan0g-n0g-n0g-eeen0o1b9n0baan0b",
    ];
    for t in tunes {
        let (notes, _) = parse_mml(t);
        assert!(!notes.is_empty(), "{t} produced no notes");
        assert!(notes.iter().all(|n| ms(n) > 0.0), "{t} has a zero length note");
        assert!(
            notes.iter().all(|n| n.pitch.is_none_or(|p| freq(p) > 0.0)),
            "{t} has a negative frequency"
        );
    }
}

#[test]
fn every_letter_maps_to_its_semitone() {
    let (notes, _) = parse_mml("O4CDEFGAB");
    let first = notes[0].pitch.unwrap();
    let semis: Vec<i32> = notes.iter().map(|n| n.pitch.unwrap() - first).collect();
    assert_eq!(semis, vec![0, 2, 4, 5, 7, 9, 11]);
}

#[test]
fn sharps_and_flats_move_one_semitone() {
    let (notes, _) = parse_mml("O4CC#C-");
    let p: Vec<i32> = notes.iter().map(|n| n.pitch.unwrap()).collect();
    assert_eq!(p[1] - p[0], 1, "C# is a semitone above C");
    assert_eq!(p[2] - p[0], -1, "C- is a semitone below C");
}

#[test]
fn dots_and_octave_steps_are_recorded() {
    let (notes, fg) = parse_mml("T90L8O2C..>D<<E P2 R");
    assert!(fg);
    assert_eq!(notes.len(), 5);
    assert_eq!(notes[0], Tone { pitch: Some(25), tempo: Count::Value(90), length: Count::Value(8), dots: 2 });
    assert_eq!(notes[1].pitch, Some(3 * 12 + 2 + 1));
    assert_eq!(notes[2].pitch, Some(12 + 4 + 1));
    assert_eq!(notes[3], Tone { pitch: None, tempo: Count::Value(90), length: Count::Value(2), dots: 0 });
    assert_eq!(notes[4], Tone { pitch: None, tempo: Count::Value(90), length: Count::Value(8), dots: 0 });
    assert!((ms(&notes[0]) - 240_000.0 / 90.0 / 8.0 * 2.25).abs() < 1e-9);
}

#[test]
fn a_command_without_its_number_takes_the_default() {
    let (notes, _) = parse_mml("T200TO3OC L2LC");
    assert_eq!(notes[0], Tone { pitch: Some(4 * 12 + 1), tempo: Count::Value(120), length: Count::Value(4), dots: 0 });
    assert_eq!(notes[1].length, Count::Value(4));
    let (notes, fg) = parse_mml("MN X M");
    assert!(fg);
    assert!(notes.is_empty());
}

#[test]
fn a_huge_number_is_read_as_the_largest_it_can_hold() {
    // A length past 64 bits is kept as its digits, for the player to read
    // as a double; one that fits is kept as its value.
    let (notes, _) = parse_mml("L99999999999999999999999C");
    assert_eq!(notes[0].length, Count::Digits(1, 24));
    let (notes, _) = parse_mml("t18446744073709551615L18446744073709551616C");
    assert_eq!(notes[0].tempo, Count::Value(u64::MAX));
    assert_eq!(notes[0].length, Count::Digits(22, 42));
    let (notes, _) = parse_mml("N99999999999");
    assert_eq!(notes[0].pitch, Some(i32::MAX));
}

#[test]
fn an_octave_past_32_bits_does_not_parse() {
    assert!(try_parse_mml("O2147483647>C").is_none());
    assert!(try_parse_mml("O2147483647C").is_none());
    let (tones, fg) = try_parse_mml("MBT200L8O3C#D").unwrap();
    assert_eq!((tones, fg), parse_mml("MBT200L8O3C#D"));
    assert!(!fg);
}
