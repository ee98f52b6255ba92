//! A throw: reading the angle and speed, where the banana leaves the hand,
//! where the flight looks for an impact, and whose turn it is.

use vstd::prelude::*;
use vstd::string::StrSliceExecFns;
use crate::game::decimal::{entry_text, exceeds_limit, is_digit, over_limit};

verus! {

/// What one keystroke does to the number being entered.
#[derive(Clone, Copy, Debug, PartialEq, Eq, Structural)]
pub enum Entry {
    /// Keep reading.
    Continue,
    /// Keep reading, and BEEP: the key meant nothing here.
    Beep,
    /// Enter was pressed on an acceptable value.
    Done,
}

/// What a sampled pixel means to a banana in flight.
#[derive(Clone, Copy, Debug, PartialEq, Eq, Structural)]
pub enum Sample {
    /// Nothing there.
    Sky,
    /// The sun, which the banana passes in front of.
    Sun,
    /// Something the banana hits.
    Impact,
}

/// The backspace key.
pub const BACKSPACE: char = '\u{8}';

/// The Enter key.
pub const ENTER: char = '\r';

/// Apply one keystroke to the entry buffer, the way `GetNum#` does.
///
/// Digits are appended, a point only when there is none yet, backspace
/// removes the last character, and Enter finishes unless VAL of the buffer
/// is over 360, in which case the buffer is cleared and entry starts again.
/// Any other key beeps. These hold whatever the buffer holds.
///
/// Enter is specified on a buffer of digits and at most one point only.
/// That is every buffer GetNum# can hold: it starts empty, only these keys
/// change it, and they keep it that way (the first clause below). Reading
/// any other text the way the parse of a double does would take the whole
/// float syntax, with signs, exponents, infinities and NaN, none of which
/// can reach this buffer.
pub fn get_num_key(result: &mut String, key: char) -> (e: Entry)
    requires
        key == ENTER ==> entry_text(old(result)@),
        4 * (old(result)@.len() + 1) <= isize::MAX,
    ensures
        entry_text(old(result)@) ==> entry_text(final(result)@),
        is_digit(key) ==> e == Entry::Continue && final(result)@ == old(result)@.push(key),
        key == '.' ==> e == Entry::Continue && final(result)@ == (if old(result)@.contains('.') {
            old(result)@
        } else {
            old(result)@.push('.')
        }),
        key == ENTER ==> (if over_limit(old(result)@) {
            e == Entry::Continue && final(result)@ == Seq::<char>::empty()
        } else {
            e == Entry::Done && final(result)@ == old(result)@
        }),
        key == BACKSPACE ==> e == Entry::Continue && final(result)@ == (if old(result)@.len() == 0 {
            old(result)@
        } else {
            old(result)@.drop_last()
        }),
        !is_digit(key) && key != '.' && key != ENTER && key != BACKSPACE ==> e == Entry::Beep
            && final(result)@ == old(result)@,
{
    let ghost before = result@;
    if '0' <= key && key <= '9' {
        result.push(key);
        proof {
            if entry_text(before) {
                assert forall|i: int, j: int|
                    0 <= i < result@.len() && 0 <= j < result@.len() && #[trigger] result@[i] == '.'
                        && #[trigger] result@[j] == '.' implies i == j by {
                    if i < before.len() && j < before.len() {
                        assert(before[i] == '.' && before[j] == '.');
                    }
                }
                assert forall|i: int| 0 <= i < result@.len() implies is_digit(#[trigger] result@[i])
                    || result@[i] == '.' by {
                    if i < before.len() {
                        assert(result@[i] == before[i]);
                    }
                }
            }
        }
        Entry::Continue
    } else if key == '.' {
        let has_point: bool = contains_point(result.as_str());
        if !has_point {
            result.push('.');
            proof {
                if entry_text(before) {
                    assert forall|i: int, j: int|
                        0 <= i < result@.len() && 0 <= j < result@.len() && #[trigger] result@[i]
                            == '.' && #[trigger] result@[j] == '.' implies i == j by {
                        if i < before.len() {
                            assert(before[i] == '.');
                            assert(before.contains('.'));
                        }
                        if j < before.len() {
                            assert(before[j] == '.');
                            assert(before.contains('.'));
                        }
                    }
                    assert forall|i: int| 0 <= i < result@.len() implies is_digit(
                        #[trigger] result@[i],
                    ) || result@[i] == '.' by {
                        if i < before.len() {
                            assert(result@[i] == before[i]);
                        }
                    }
                }
            }
        }
        Entry::Continue
    } else if key == ENTER {
        if exceeds_limit(result.as_str()) {
            *result = String::new();
            Entry::Continue
        } else {
            Entry::Done
        }
    } else if key == BACKSPACE {
        let _ = result.pop();
        proof {
            if entry_text(before) {
                assert forall|i: int, j: int|
                    0 <= i < result@.len() && 0 <= j < result@.len() && #[trigger] result@[i] == '.'
                        && #[trigger] result@[j] == '.' implies i == j by {
                    assert(before[i] == '.' && before[j] == '.');
                }
                assert forall|i: int| 0 <= i < result@.len() implies is_digit(#[trigger] result@[i])
                    || result@[i] == '.' by {
                    assert(result@[i] == before[i]);
                }
            }
        }
        Entry::Continue
    } else {
        Entry::Beep
    }
}

/// Whether the text holds a decimal point.
fn contains_point(s: &str) -> (found: bool)
    ensures
        found == s@.contains('.'),
{
    let n: usize = s.unicode_len();
    let mut i: usize = 0;
    while i < n
        invariant
            i <= n,
            n == s@.len(),
            forall|j: int| 0 <= j < i ==> s@[j] != '.',
        decreases n - i,
    {
        if s.get_char(i) == '.' {
            return true;
        }
        i = i + 1;
    }
    false
}

/// Where the banana leaves the hand.
///
/// `StartYPos = StartY - adjust - 3` with `adjust = Scl(4)`, and player 2
/// throws from `Scl(25)` to the right of their sprite's corner. In mode 9
/// Scl is the identity on these whole numbers.
pub fn launch(start_x: i32, start_y: i32, player: usize) -> (at: (i32, i32))
    requires
        player == 2 ==> start_x + 25 <= i32::MAX,
        start_y - 7 >= i32::MIN,
    ensures
        at.0 == (if player == 2 { start_x + 25 } else { start_x as int }),
        at.1 == start_y - 7,
{
    let adjust: i32 = 4;
    let x: i32 = if player == 2 {
        start_x + 25
    } else {
        start_x
    };
    (x, start_y - adjust - 3)
}

/// The first horizontal offset sampled: `Scl(8 * (2 - PlayerNum))`, the
/// player number taken as a 32-bit integer and the result rounded into
/// the 32-bit range.
pub open spec fn first_look_x(player: usize) -> int {
    let v = 8 * (2 - (player as i32));
    if v > i32::MAX {
        i32::MAX as int
    } else {
        v
    }
}

/// The step between samples: toward the other gorilla.
pub open spec fn look_step(player: usize) -> int {
    if player == 2 {
        4
    } else {
        -4
    }
}

/// The offsets sampled across the banana's leading edge, in order.
///
/// The first sample is at (`first_look_x`, 0); the loop then steps
/// `LookX` by the player's direction and `LookY` by `Scl(6)`, and the
/// game's `LOOP UNTIL Impact OR LookX <> Scl(4)` takes a second sample
/// only when the step landed on 4. For players 1 and 2 it always does.
pub fn probe_offsets(player: usize) -> (out: Vec<(i32, i32)>)
    requires
        (player as i32) < 268435458,
    ensures
        out@ == (if first_look_x(player) + look_step(player) == 4 {
            seq![(first_look_x(player) as i32, 0i32), (4i32, 6i32)]
        } else {
            seq![(first_look_x(player) as i32, 0i32)]
        }),
{
    let direction: i32 = if player == 2 {
        4
    } else {
        -4
    };
    let p: i64 = (player as i32) as i64;
    let wide: i64 = 8 * (2 - p);
    let mut look_x: i32 = if wide > 0x7FFF_FFFF {
        0x7FFF_FFFF
    } else {
        wide as i32
    };
    let mut look_y: i32 = 0;
    let mut out: Vec<(i32, i32)> = Vec::new();
    let mut round: u32 = 0;
    loop
        invariant
            round <= 1,
            round == 0 ==> look_x == first_look_x(player) && look_y == 0 && out@.len() == 0,
            round == 1 ==> look_x == 4 && look_y == 6 && first_look_x(player) + look_step(player)
                == 4 && out@ == seq![(first_look_x(player) as i32, 0i32)],
            direction == look_step(player),
            (player as i32) < 268435458,
        decreases 2 - round,
    {
        out.push((look_x, look_y));
        look_x = look_x + direction;
        look_y = look_y + 6;
        if look_x != 4 {
            return out;
        }
        round = round + 1;
    }
}

/// Where a player's shot prompts go: the label column, then the columns the
/// angle and velocity are typed into.
///
/// `LocateCol` is 1 for player 1 and 66 for player 2 in mode 9, and the two
/// numbers are echoed at `+7` and `+10` from it, which is just past
/// "Angle:" and "Velocity:".
pub fn prompt_columns(player: usize) -> (cols: (i32, i32, i32))
    ensures
        cols == (if player == 1 { (1i32, 8i32, 11i32) } else { (66i32, 73i32, 76i32) }),
{
    let col: i32 = if player == 1 {
        1
    } else {
        66
    };
    (col, col + 7, col + 10)
}

/// The player whose turn follows when the turn flag is `j`: the flag
/// flips, and the player is the new flag plus one.
pub open spec fn tosser_after(j: int) -> int {
    (1 - j) + 1
}

/// Whose turn it is. The game starts `J` at 1 and flips it at the top of
/// the loop, so player 1 throws first, and `J` lives outside the per game
/// loop so the alternation carries across games too.
pub fn next_tosser(j: &mut i32) -> (player: usize)
    requires
        *old(j) >= -2147483645,
    ensures
        *final(j) == 1 - *old(j),
        player == (*final(j) + 1) as usize,
{
    *j = 1 - *j;
    (*j + 1) as usize
}

/// The gorilla left standing: the thrower, unless he hit himself.
pub open spec fn survivor_spec(tosser: int, player_hit: int) -> int {
    if player_hit == tosser {
        3 - tosser
    } else {
        tosser
    }
}

/// The gorilla left standing after `player_hit` is struck on `tosser`'s
/// turn. It both dances and takes the point, so one function decides it.
///
/// In GORILLAS.BAS this is `DoShot`'s `PlayerNum = 3 - PlayerNum`, which
/// QBasic's by-reference passing writes back into the caller's `Tosser`.
pub fn survivor(tosser: usize, player_hit: usize) -> (standing: usize)
    requires
        player_hit == tosser ==> tosser <= 3,
    ensures
        standing == survivor_spec(tosser as int, player_hit as int),
{
    if player_hit == tosser {
        3 - tosser
    } else {
        tosser
    }
}

/// Turns alternate: with the flag at 0 or 1, two turns in a row go to the
/// two different players, each 1 or 2, and bring the flag back where it
/// started.
pub proof fn law_turns_alternate(j: int)
    requires
        j == 0 || j == 1,
    ensures
        tosser_after(j) == 1 || tosser_after(j) == 2,
        tosser_after(1 - j) == 1 || tosser_after(1 - j) == 2,
        tosser_after(j) != tosser_after(1 - j),
        1 - (1 - j) == j,
        j == 1 ==> tosser_after(j) == 1,
{
}

/// A gorilla is left standing: whoever was hit, the survivor of a throw
/// between players 1 and 2 is player 1 or 2, and is the thrower exactly
/// when the thrower did not hit himself.
pub proof fn law_someone_survives(tosser: int, player_hit: int)
    requires
        tosser == 1 || tosser == 2,
        player_hit == 1 || player_hit == 2,
    ensures
        ({
            let s = survivor_spec(tosser, player_hit);
            &&& s == 1 || s == 2
            &&& (s == tosser <==> player_hit != tosser)
            &&& s != player_hit
        }),
{
}

} // verus!
