//! PLAY strings: QBasic's music macro language, read into the tones it asks
//! for. How long a tone lasts and how high it sounds are worked out by the
//! player from what is recorded here.

use vstd::prelude::*;
use vstd::string::StrSliceExecFns;
use crate::game::decimal::is_digit;

verus! {

/// A tempo or a length as a PLAY string gives it, which QBasic reads as a
/// double: its value when it fits in 64 bits, which converts to the same
/// double, or else where its digits stand in the string, as the positions
/// of the first digit and just past the last, counted in characters.
#[derive(Clone, Copy, Debug, PartialEq, Eq)]
pub enum Count {
    Value(u64),
    Digits(usize, usize),
}

/// One tone of a tune: the note number (QBasic's, where 1 is O0C), or
/// `None` for a rest, with the tempo in quarter notes per minute, the
/// length as a fraction of a whole note (4 is a quarter), and how many
/// dots follow it, each adding half again.
#[derive(Clone, Copy, Debug, PartialEq, Eq)]
pub struct Tone {
    pub pitch: Option<i32>,
    pub tempo: Count,
    pub length: Count,
    pub dots: u64,
}

/// Where the reading of a tune has got to.
pub struct MmlState {
    pub i: nat,
    pub tempo: Count,
    pub octave: int,
    pub length: Count,
    pub foreground: bool,
    pub tones: Seq<Tone>,
    /// A step where QBasic's 32-bit octave or note arithmetic, done in
    /// `i32`, overflows.
    pub broke: bool,
}

/// ASCII upper case, as `to_ascii_uppercase` does.
pub open spec fn upper(c: char) -> char {
    if 'a' <= c && c <= 'z' {
        ((c as u32) - 32) as char
    } else {
        c
    }
}

/// The first index from `i` on that is not a digit.
pub open spec fn digits_end(cs: Seq<char>, i: nat) -> nat
    decreases cs.len() - i,
{
    if i < cs.len() && is_digit(cs[i as int]) {
        digits_end(cs, i + 1)
    } else {
        i
    }
}

/// The number the digits in `cs[i..j]` spell.
pub open spec fn run_value(cs: Seq<char>, i: nat, j: nat) -> nat
    decreases j - i,
{
    if j <= i {
        0
    } else {
        run_value(cs, i, (j - 1) as nat) * 10 + ((cs[j - 1] as u32) - 48) as nat
    }
}

/// A count held in 64 bits, stopping at the top.
pub open spec fn sat(v: nat) -> u64 {
    if v > u64::MAX {
        u64::MAX
    } else {
        v as u64
    }
}

/// The number at `i`, if digits start there.
pub open spec fn number(cs: Seq<char>, i: nat) -> Option<u64> {
    let j = digits_end(cs, i);
    if j == i {
        None
    } else {
        Some(sat(run_value(cs, i, j)))
    }
}

/// The tempo or length at `i`, if digits start there.
pub open spec fn count(cs: Seq<char>, i: nat) -> Option<Count> {
    let j = digits_end(cs, i);
    if j == i {
        None
    } else if run_value(cs, i, j) <= u64::MAX {
        Some(Count::Value(run_value(cs, i, j) as u64))
    } else {
        Some(Count::Digits(i as usize, j as usize))
    }
}

/// A number given where a 32-bit integer is wanted, rounded into range.
pub open spec fn clamp_i32(v: u64) -> int {
    if v > i32::MAX {
        i32::MAX as int
    } else {
        v as int
    }
}

/// The first index from `i` on that is not a sharp or flat.
pub open spec fn signs_end(cs: Seq<char>, i: nat) -> nat
    decreases cs.len() - i,
{
    if i < cs.len() && (cs[i as int] == '+' || cs[i as int] == '#' || cs[i as int] == '-') {
        signs_end(cs, i + 1)
    } else {
        i
    }
}

/// The semitones the sharps and flats in `cs[i..j]` add.
pub open spec fn sign_sum(cs: Seq<char>, i: nat, j: nat) -> int
    decreases j - i,
{
    if j <= i {
        0
    } else {
        sign_sum(cs, i, (j - 1) as nat) + if cs[j - 1] == '-' {
            -1int
        } else {
            1int
        }
    }
}

/// The first index from `i` on that is not a dot.
pub open spec fn dots_end(cs: Seq<char>, i: nat) -> nat
    decreases cs.len() - i,
{
    if i < cs.len() && cs[i as int] == '.' {
        dots_end(cs, i + 1)
    } else {
        i
    }
}

/// The semitone of each note letter within an octave.
pub open spec fn base_semis(c: char) -> int {
    if c == 'C' {
        0
    } else if c == 'D' {
        2
    } else if c == 'E' {
        4
    } else if c == 'F' {
        5
    } else if c == 'G' {
        7
    } else if c == 'A' {
        9
    } else {
        11
    }
}

/// Whether a value is out of the 32-bit range.
pub open spec fn out_of_i32(v: int) -> bool {
    v < i32::MIN || v > i32::MAX
}

/// What one command does, the command being the character at `st.i`.
pub open spec fn mml_step(cs: Seq<char>, st: MmlState) -> MmlState {
    let c = cs[st.i as int];
    let i1 = st.i + 1;
    if c == 'M' {
        if i1 < cs.len() {
            let m = cs[i1 as int];
            MmlState {
                i: i1 + 1,
                foreground: if m == 'B' {
                    false
                } else if m == 'F' {
                    true
                } else {
                    st.foreground
                },
                ..st
            }
        } else {
            MmlState { i: i1, ..st }
        }
    } else if c == 'T' {
        MmlState {
            i: digits_end(cs, i1),
            tempo: match count(cs, i1) {
                Some(v) => v,
                None => Count::Value(120),
            },
            ..st
        }
    } else if c == 'O' {
        MmlState {
            i: digits_end(cs, i1),
            octave: clamp_i32(
                match number(cs, i1) {
                    Some(v) => v,
                    None => 4u64,
                },
            ),
            ..st
        }
    } else if c == 'L' {
        MmlState {
            i: digits_end(cs, i1),
            length: match count(cs, i1) {
                Some(v) => v,
                None => Count::Value(4),
            },
            ..st
        }
    } else if c == '>' {
        MmlState { i: i1, octave: st.octave + 1, broke: st.broke || st.octave + 1 > i32::MAX, ..st }
    } else if c == '<' {
        MmlState { i: i1, octave: st.octave - 1, broke: st.broke || st.octave - 1 < i32::MIN, ..st }
    } else if c == 'N' {
        let n = clamp_i32(
            match number(cs, i1) {
                Some(v) => v,
                None => 0u64,
            },
        );
        let tone = Tone {
            pitch: if n == 0 {
                None
            } else {
                Some(n as i32)
            },
            tempo: st.tempo,
            length: st.length,
            dots: 0,
        };
        MmlState { i: digits_end(cs, i1), tones: st.tones.push(tone), ..st }
    } else if c == 'P' || c == 'R' {
        let tone = Tone {
            pitch: None,
            tempo: st.tempo,
            length: match count(cs, i1) {
                Some(v) => v,
                None => st.length,
            },
            dots: 0,
        };
        MmlState { i: digits_end(cs, i1), tones: st.tones.push(tone), ..st }
    } else if 'A' <= c && c <= 'G' {
        let k = signs_end(cs, i1);
        let semis = base_semis(c) + sign_sum(cs, i1, k);
        let j = digits_end(cs, k);
        let d = dots_end(cs, j);
        let n = st.octave * 12 + semis + 1;
        let tone = Tone {
            pitch: Some(n as i32),
            tempo: st.tempo,
            length: match count(cs, k) {
                Some(v) => v,
                None => st.length,
            },
            dots: (d - j) as u64,
        };
        MmlState {
            i: d,
            tones: st.tones.push(tone),
            broke: st.broke || out_of_i32(st.octave * 12) || out_of_i32(st.octave * 12 + semis)
                || out_of_i32(n),
            ..st
        }
    } else {
        MmlState { i: i1, ..st }
    }
}

/// Reading the rest of the tune from `st`.
pub open spec fn mml_run(cs: Seq<char>, st: MmlState) -> MmlState
    decreases cs.len() - st.i,
{
    if st.i >= cs.len() {
        st
    } else {
        proof {
            lemma_step_advances(cs, st);
        }
        mml_run(cs, mml_step(cs, st))
    }
}

/// The state a tune starts in: T120, O4, L4, foreground.
pub open spec fn mml_start() -> MmlState {
    MmlState {
        i: 0,
        tempo: Count::Value(120),
        octave: 4,
        length: Count::Value(4),
        foreground: true,
        tones: Seq::empty(),
        broke: false,
    }
}

/// The whole tune read, upper-cased first.
pub open spec fn mml_spec(s: Seq<char>) -> MmlState {
    mml_run(s.map_values(|c: char| upper(c)), mml_start())
}

pub proof fn lemma_digits_end(cs: Seq<char>, i: nat)
    ensures
        i <= digits_end(cs, i),
        i <= cs.len() ==> digits_end(cs, i) <= cs.len(),
    decreases cs.len() - i,
{
    if i < cs.len() && is_digit(cs[i as int]) {
        lemma_digits_end(cs, i + 1);
    }
}

pub proof fn lemma_signs_end(cs: Seq<char>, i: nat)
    ensures
        i <= signs_end(cs, i),
        i <= cs.len() ==> signs_end(cs, i) <= cs.len(),
    decreases cs.len() - i,
{
    if i < cs.len() && (cs[i as int] == '+' || cs[i as int] == '#' || cs[i as int] == '-') {
        lemma_signs_end(cs, i + 1);
    }
}

pub proof fn lemma_dots_end(cs: Seq<char>, i: nat)
    ensures
        i <= dots_end(cs, i),
        i <= cs.len() ==> dots_end(cs, i) <= cs.len(),
    decreases cs.len() - i,
{
    if i < cs.len() && cs[i as int] == '.' {
        lemma_dots_end(cs, i + 1);
    }
}

pub proof fn lemma_step_advances(cs: Seq<char>, st: MmlState)
    requires
        st.i < cs.len(),
    ensures
        st.i < mml_step(cs, st).i <= cs.len(),
{
    let i1 = st.i + 1;
    lemma_digits_end(cs, i1);
    lemma_signs_end(cs, i1);
    lemma_digits_end(cs, signs_end(cs, i1));
    lemma_dots_end(cs, digits_end(cs, signs_end(cs, i1)));
}

/// Once a step has overflowed, the whole reading has.
pub proof fn lemma_broke_sticks(cs: Seq<char>, st: MmlState)
    requires
        st.broke,
    ensures
        mml_run(cs, st).broke,
    decreases cs.len() - st.i,
{
    if st.i < cs.len() {
        lemma_step_advances(cs, st);
        lemma_broke_sticks(cs, mml_step(cs, st));
    }
}

fn upper_char(c: char) -> (u: char)
    ensures
        u == upper(c),
{
    if 'a' <= c && c <= 'z' {
        let b: u8 = c as u8;
        assert(b == c as u32);
        ((b - 32) as u8) as char
    } else {
        c
    }
}

/// The tempo or length at `i`, and where its digits end.
fn scan_count(cs: &Vec<char>, i: usize) -> (r: (Option<Count>, usize))
    requires
        i <= cs@.len(),
    ensures
        r.0 == count(cs@, i as nat),
        r.1 == digits_end(cs@, i as nat),
{
    let mut j: usize = i;
    let mut v: u64 = 0;
    let mut over: bool = false;
    while j < cs.len() && '0' <= cs[j] && cs[j] <= '9'
        invariant
            i <= j <= cs@.len(),
            over == (run_value(cs@, i as nat, j as nat) > u64::MAX),
            !over ==> v == run_value(cs@, i as nat, j as nat),
            digits_end(cs@, j as nat) == digits_end(cs@, i as nat),
        decreases cs@.len() - j,
    {
        let d: u64 = ((cs[j] as u32) - 48) as u64;
        proof {
            let exact = run_value(cs@, i as nat, j as nat);
            assert(run_value(cs@, i as nat, (j + 1) as nat) == exact * 10 + d);
            if exact > u64::MAX {
                assert(exact * 10 + d > u64::MAX);
            }
        }
        if !over {
            let wide: u128 = v as u128 * 10 + d as u128;
            if wide > 0xFFFF_FFFF_FFFF_FFFFu128 {
                over = true;
            } else {
                v = wide as u64;
            }
        }
        j = j + 1;
    }
    if j == i {
        (None, j)
    } else if over {
        (Some(Count::Digits(i, j)), j)
    } else {
        (Some(Count::Value(v)), j)
    }
}

/// The number at `i`, and where its digits end.
fn scan_number(cs: &Vec<char>, i: usize) -> (r: (Option<u64>, usize))
    requires
        i <= cs@.len(),
    ensures
        r.0 == number(cs@, i as nat),
        r.1 == digits_end(cs@, i as nat),
{
    let mut j: usize = i;
    let mut v: u64 = 0;
    while j < cs.len() && '0' <= cs[j] && cs[j] <= '9'
        invariant
            i <= j <= cs@.len(),
            v == sat(run_value(cs@, i as nat, j as nat)),
            digits_end(cs@, j as nat) == digits_end(cs@, i as nat),
        decreases cs@.len() - j,
    {
        let d: u64 = ((cs[j] as u32) - 48) as u64;
        let wide: u128 = v as u128 * 10 + d as u128;
        proof {
            let exact = run_value(cs@, i as nat, j as nat);
            assert(run_value(cs@, i as nat, (j + 1) as nat) == exact * 10 + d);
            if exact > u64::MAX {
                assert(exact * 10 + d > u64::MAX);
            }
        }
        v = if wide > 0xFFFF_FFFF_FFFF_FFFFu128 {
            0xFFFF_FFFF_FFFF_FFFFu64
        } else {
            wide as u64
        };
        j = j + 1;
    }
    if j == i {
        (None, j)
    } else {
        (Some(v), j)
    }
}

/// The semitones the sharps and flats from `i` add, and where they end.
fn scan_signs(cs: &Vec<char>, i: usize) -> (r: (i64, usize))
    requires
        i <= cs@.len(),
        cs@.len() <= 0x7FFF_FFF0,
    ensures
        r.0 == sign_sum(cs@, i as nat, r.1 as nat),
        r.1 == signs_end(cs@, i as nat),
        -(r.1 - i) <= r.0 <= r.1 - i,
{
    let mut j: usize = i;
    let mut sum: i64 = 0;
    while j < cs.len() && (cs[j] == '+' || cs[j] == '#' || cs[j] == '-')
        invariant
            i <= j <= cs@.len(),
            cs@.len() <= 0x7FFF_FFF0,
            sum == sign_sum(cs@, i as nat, j as nat),
            -(j - i) <= sum <= j - i,
            signs_end(cs@, j as nat) == signs_end(cs@, i as nat),
        decreases cs@.len() - j,
    {
        if cs[j] == '-' {
            sum = sum - 1;
        } else {
            sum = sum + 1;
        }
        j = j + 1;
    }
    (sum, j)
}

/// Where the dots from `i` end.
fn scan_dots(cs: &Vec<char>, i: usize) -> (r: usize)
    requires
        i <= cs@.len(),
    ensures
        r == dots_end(cs@, i as nat),
{
    let mut j: usize = i;
    while j < cs.len() && cs[j] == '.'
        invariant
            i <= j <= cs@.len(),
            dots_end(cs@, j as nat) == dots_end(cs@, i as nat),
        decreases cs@.len() - j,
    {
        j = j + 1;
    }
    j
}

/// Parse a PLAY string. Returns the tones and whether the tune is
/// foreground.
///
/// MB means background and returns at once. MF means foreground and waits.
/// With neither, QBasic's default is foreground. Letters are read upper
/// case. An octave or note number written with more digits than 64 bits
/// hold is read as the largest 32-bit number, as converting QBasic's
/// double to an integer gives.
pub fn parse_mml(s: &str) -> (r: (Vec<Tone>, bool))
    requires
        s@.len() <= 0x7FFF_FFF0,
        !mml_spec(s@).broke,
    ensures
        r.0@ == mml_spec(s@).tones,
        r.1 == mml_spec(s@).foreground,
{
    match try_parse_mml(s) {
        Some(r) => r,
        None => (Vec::new(), true),
    }
}

/// Parse a PLAY string, or `None` where an octave or a note number runs
/// past 32 bits (`O2147483647>`, or a note that high), on which QBasic's
/// INTEGER arithmetic overflows.
pub fn try_parse_mml(s: &str) -> (r: Option<(Vec<Tone>, bool)>)
    requires
        s@.len() <= 0x7FFF_FFF0,
    ensures
        r is None <==> mml_spec(s@).broke,
        r matches Some(p) ==> p.0@ == mml_spec(s@).tones && p.1 == mml_spec(s@).foreground,
{
    let n: usize = s.unicode_len();
    let mut cs: Vec<char> = Vec::new();
    let mut k: usize = 0;
    while k < n
        invariant
            k <= n,
            n == s@.len(),
            cs@ == s@.take(k as int).map_values(|c: char| upper(c)),
        decreases n - k,
    {
        let c: char = upper_char(s.get_char(k));
        cs.push(c);
        k = k + 1;
        assert(cs@ =~= s@.take(k as int).map_values(|c: char| upper(c)));
    }
    assert(s@.take(n as int) =~= s@);
    let ghost seqc: Seq<char> = cs@;
    let mut i: usize = 0;
    let mut tempo: Count = Count::Value(120);
    let mut octave: i32 = 4;
    let mut length: Count = Count::Value(4);
    let mut foreground: bool = true;
    let mut tones: Vec<Tone> = Vec::new();
    assert(tones@ =~= Seq::<Tone>::empty());
    while i < n
        invariant
            cs@ == seqc,
            n == seqc.len(),
            i <= n,
            seqc.len() <= 0x7FFF_FFF0,
            seqc == s@.map_values(|c: char| upper(c)),
            mml_run(
                seqc,
                MmlState {
                    i: i as nat,
                    tempo,
                    octave: octave as int,
                    length,
                    foreground,
                    tones: tones@,
                    broke: false,
                },
            ) == mml_spec(s@),
        decreases n - i,
    {
        let ghost st = MmlState {
            i: i as nat,
            tempo,
            octave: octave as int,
            length,
            foreground,
            tones: tones@,
            broke: false,
        };
        let ghost next = mml_step(seqc, st);
        proof {
            lemma_step_advances(seqc, st);
            assert(mml_run(seqc, st) == mml_run(seqc, next));
            if next.broke {
                lemma_broke_sticks(seqc, next);
            }
        }
        let c: char = cs[i];
        let i1: usize = i + 1;
        if c == 'M' {
            if i1 < n {
                let m: char = cs[i1];
                if m == 'B' {
                    foreground = false;
                } else if m == 'F' {
                    foreground = true;
                }
                i = i1 + 1;
            } else {
                i = i1;
            }
        } else if c == 'T' {
            let (v, j) = scan_count(&cs, i1);
            tempo = match v {
                Some(t) => t,
                None => Count::Value(120),
            };
            i = j;
        } else if c == 'O' {
            let (v, j) = scan_number(&cs, i1);
            let o: u64 = match v {
                Some(t) => t,
                None => 4,
            };
            octave = if o > 0x7FFF_FFFF {
                0x7FFF_FFFF
            } else {
                o as i32
            };
            i = j;
        } else if c == 'L' {
            let (v, j) = scan_count(&cs, i1);
            length = match v {
                Some(t) => t,
                None => Count::Value(4),
            };
            i = j;
        } else if c == '>' {
            if octave == i32::MAX {
                return None;
            }
            octave = octave + 1;
            i = i1;
        } else if c == '<' {
            if octave == i32::MIN {
                return None;
            }
            octave = octave - 1;
            i = i1;
        } else if c == 'N' {
            let (v, j) = scan_number(&cs, i1);
            let raw: u64 = match v {
                Some(t) => t,
                None => 0,
            };
            let note: i32 = if raw > 0x7FFF_FFFF {
                0x7FFF_FFFF
            } else {
                raw as i32
            };
            let pitch: Option<i32> = if note == 0 {
                None
            } else {
                Some(note)
            };
            tones.push(Tone { pitch, tempo, length, dots: 0 });
            i = j;
        } else if c == 'P' || c == 'R' {
            let (v, j) = scan_count(&cs, i1);
            let len: Count = match v {
                Some(t) => t,
                None => length,
            };
            tones.push(Tone { pitch: None, tempo, length: len, dots: 0 });
            i = j;
        } else if 'A' <= c && c <= 'G' {
            let base: i64 = if c == 'C' {
                0
            } else if c == 'D' {
                2
            } else if c == 'E' {
                4
            } else if c == 'F' {
                5
            } else if c == 'G' {
                7
            } else if c == 'A' {
                9
            } else {
                11
            };
            let (sum, k2) = scan_signs(&cs, i1);
            let (v, j) = scan_count(&cs, k2);
            let d: usize = scan_dots(&cs, j);
            proof {
                lemma_dots_end(seqc, j as nat);
            }
            let len: Count = match v {
                Some(t) => t,
                None => length,
            };
            let semis: i64 = base + sum;
            let o12: i64 = (octave as i64) * 12;
            let note: i64 = o12 + semis + 1;
            if o12 < i32::MIN as i64 || o12 > i32::MAX as i64 || o12 + semis < i32::MIN as i64 || o12
                + semis > i32::MAX as i64 || note < i32::MIN as i64 || note > i32::MAX as i64 {
                return None;
            }
            tones.push(Tone { pitch: Some(note as i32), tempo, length: len, dots: (d - j) as u64 });
            i = d;
        } else {
            i = i1;
        }
        proof {
            let now = MmlState {
                i: i as nat,
                tempo,
                octave: octave as int,
                length,
                foreground,
                tones: tones@,
                broke: false,
            };
            assert(now == next);
        }
    }
    Some((tones, foreground))
}

/// L sets the length tones are played at: after `L` and a number that
/// fits in 64 bits the current length is that number, and after a bare `L`
/// it is 4, a quarter note. Nothing is played.
pub proof fn law_l_sets_the_length(cs: Seq<char>, st: MmlState)
    requires
        st.i < cs.len(),
        cs[st.i as int] == 'L',
    ensures
        mml_step(cs, st).tones == st.tones,
        digits_end(cs, st.i + 1) == st.i + 1 ==> mml_step(cs, st).length == Count::Value(4),
        digits_end(cs, st.i + 1) > st.i + 1 && run_value(cs, st.i + 1, digits_end(cs, st.i + 1))
            <= u64::MAX ==> mml_step(cs, st).length == Count::Value(
            run_value(cs, st.i + 1, digits_end(cs, st.i + 1)) as u64,
        ),
{
}

/// N plays at the current length and tempo: the one tone it adds lasts
/// as long as the last L set, exactly as a note letter with no length of
/// its own does, and the current length stays as it was.
pub proof fn law_n_uses_the_current_length(cs: Seq<char>, st: MmlState)
    requires
        st.i < cs.len(),
        cs[st.i as int] == 'N',
    ensures
        mml_step(cs, st).tones.len() == st.tones.len() + 1,
        mml_step(cs, st).tones.drop_last() == st.tones,
        mml_step(cs, st).tones.last().length == st.length,
        mml_step(cs, st).tones.last().tempo == st.tempo,
        mml_step(cs, st).tones.last().dots == 0,
        mml_step(cs, st).length == st.length,
{
    assert(mml_step(cs, st).tones.drop_last() =~= st.tones);
}

/// A note letter with no length of its own plays at the current length,
/// as N does.
pub proof fn law_bare_note_uses_the_current_length(cs: Seq<char>, st: MmlState)
    requires
        st.i < cs.len(),
        'A' <= cs[st.i as int] <= 'G',
        digits_end(cs, signs_end(cs, st.i + 1)) == signs_end(cs, st.i + 1),
    ensures
        mml_step(cs, st).tones.len() == st.tones.len() + 1,
        mml_step(cs, st).tones.last().length == st.length,
        mml_step(cs, st).length == st.length,
{
}

/// A rest, P or R, adds one silent tone at the current tempo: of the
/// length written after it when there is one that fits 64 bits, and of the
/// current length when there is none.
pub proof fn law_rest_length(cs: Seq<char>, st: MmlState)
    requires
        st.i < cs.len(),
        cs[st.i as int] == 'P' || cs[st.i as int] == 'R',
    ensures
        mml_step(cs, st).tones.len() == st.tones.len() + 1,
        mml_step(cs, st).tones.last().pitch is None,
        mml_step(cs, st).tones.last().tempo == st.tempo,
        digits_end(cs, st.i + 1) == st.i + 1 ==> mml_step(cs, st).tones.last().length == st.length,
        digits_end(cs, st.i + 1) > st.i + 1 && run_value(cs, st.i + 1, digits_end(cs, st.i + 1))
            <= u64::MAX ==> mml_step(cs, st).tones.last().length == Count::Value(
            run_value(cs, st.i + 1, digits_end(cs, st.i + 1)) as u64,
        ),
        mml_step(cs, st).length == st.length,
{
}

} // verus!
