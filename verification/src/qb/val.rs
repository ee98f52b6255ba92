//! VAL: the longest numeric prefix of a string, which BASIC reads as the
//! number and where Rust's `parse` would reject the whole string.

use vstd::prelude::*;
use vstd::string::StrSliceExecFns;
use crate::game::decimal::is_digit;
use crate::qb::sound::{digits_end, lemma_digits_end, run_value};

verus! {

/// White space as `char::is_whitespace` has it: the Unicode White_Space
/// characters.
pub open spec fn is_space(c: char) -> bool {
    let u = c as u32;
    ||| 0x09 <= u <= 0x0D
    ||| u == 0x20
    ||| u == 0x85
    ||| u == 0xA0
    ||| u == 0x1680
    ||| 0x2000 <= u <= 0x200A
    ||| u == 0x2028
    ||| u == 0x2029
    ||| u == 0x202F
    ||| u == 0x205F
    ||| u == 0x3000
}

/// The first index from `i` on that is not white space.
pub open spec fn space_end(s: Seq<char>, i: nat) -> nat
    decreases s.len() - i,
{
    if i < s.len() && is_space(s[i as int]) {
        space_end(s, i + 1)
    } else {
        i
    }
}

/// Whether index `i` holds one of `a` or `b`.
pub open spec fn at_either(s: Seq<char>, i: nat, a: char, b: char) -> bool {
    i < s.len() && (s[i as int] == a || s[i as int] == b)
}

/// Where the numeric prefix VAL reads starts and ends: after leading white
/// space, an optional sign, digits, optionally a point and more digits, and
/// at least one digit among them; then an exponent marker (E or D, either
/// case) counts only with at least one digit after its optional sign. With
/// no digit the prefix is empty.
pub open spec fn val_span(s: Seq<char>) -> (nat, nat) {
    let a = space_end(s, 0);
    let i1 = if at_either(s, a, '+', '-') {
        a + 1
    } else {
        a
    };
    let i2 = digits_end(s, i1);
    let i3 = if i2 < s.len() && s[i2 as int] == '.' {
        digits_end(s, i2 + 1)
    } else {
        i2
    };
    let frac_digits = i2 < s.len() && s[i2 as int] == '.' && i3 > i2 + 1;
    if i2 == i1 && !frac_digits {
        (a, a)
    } else if at_either(s, i3, 'e', 'E') || at_either(s, i3, 'd', 'D') {
        let j = if at_either(s, i3 + 1, '+', '-') {
            i3 + 2
        } else {
            i3 + 1
        };
        if j < s.len() && is_digit(s[j as int]) {
            (a, digits_end(s, j))
        } else {
            (a, i3)
        }
    } else {
        (a, i3)
    }
}

/// The text VAL reads, with a D exponent written as E so that Rust reads it.
pub open spec fn val_text_spec(s: Seq<char>) -> Seq<char> {
    let (a, e) = val_span(s);
    s.subrange(a as int, e as int).map_values(|c: char| if c == 'd' || c == 'D' { 'e' } else { c })
}

pub proof fn lemma_space_end(s: Seq<char>, i: nat)
    ensures
        i <= space_end(s, i),
        i <= s.len() ==> space_end(s, i) <= s.len(),
    decreases s.len() - i,
{
    if i < s.len() && is_space(s[i as int]) {
        lemma_space_end(s, i + 1);
    }
}

/// The prefix VAL reads lies within the string.
pub proof fn lemma_val_span(s: Seq<char>)
    ensures
        val_span(s).0 <= val_span(s).1 <= s.len(),
{
    let a = space_end(s, 0);
    lemma_space_end(s, 0);
    let i1 = if at_either(s, a, '+', '-') {
        a + 1
    } else {
        a
    };
    lemma_digits_end(s, i1);
    let i2 = digits_end(s, i1);
    lemma_digits_end(s, i2 + 1);
    let i3 = if i2 < s.len() && s[i2 as int] == '.' {
        digits_end(s, i2 + 1)
    } else {
        i2
    };
    let j = if at_either(s, i3 + 1, '+', '-') {
        i3 + 2
    } else {
        i3 + 1
    };
    lemma_digits_end(s, j);
}

fn space_char(c: char) -> (b: bool)
    ensures
        b == is_space(c),
{
    let u: u32 = c as u32;
    (0x09 <= u && u <= 0x0D) || u == 0x20 || u == 0x85 || u == 0xA0 || u == 0x1680 || (0x2000 <= u
        && u <= 0x200A) || u == 0x2028 || u == 0x2029 || u == 0x202F || u == 0x205F || u == 0x3000
}

fn skip_spaces(cs: &Vec<char>, i: usize) -> (j: usize)
    requires
        i <= cs@.len(),
    ensures
        j == space_end(cs@, i as nat),
        i <= j <= cs@.len(),
{
    let mut j: usize = i;
    while j < cs.len() && space_char(cs[j])
        invariant
            i <= j <= cs@.len(),
            space_end(cs@, j as nat) == space_end(cs@, i as nat),
        decreases cs@.len() - j,
    {
        j = j + 1;
    }
    j
}

fn skip_digits(cs: &Vec<char>, i: usize) -> (j: usize)
    requires
        i <= cs@.len(),
    ensures
        j == digits_end(cs@, i as nat),
        i <= j <= cs@.len(),
{
    let mut j: usize = i;
    while j < cs.len() && '0' <= cs[j] && cs[j] <= '9'
        invariant
            i <= j <= cs@.len(),
            digits_end(cs@, j as nat) == digits_end(cs@, i as nat),
        decreases cs@.len() - j,
    {
        j = j + 1;
    }
    j
}

fn either(cs: &Vec<char>, i: usize, a: char, b: char) -> (r: bool)
    ensures
        r == at_either(cs@, i as nat, a, b),
{
    i < cs.len() && (cs[i] == a || cs[i] == b)
}

/// The characters of a string, in order.
pub fn chars_of(s: &str) -> (cs: Vec<char>)
    ensures
        cs@ == s@,
{
    let n: usize = s.unicode_len();
    let mut cs: Vec<char> = Vec::new();
    let mut k: usize = 0;
    while k < n
        invariant
            k <= n,
            n == s@.len(),
            cs@ == s@.take(k as int),
        decreases n - k,
    {
        cs.push(s.get_char(k));
        k = k + 1;
        assert(cs@ =~= s@.take(k as int));
    }
    assert(s@.take(n as int) =~= s@);
    cs
}

/// The text VAL reads from `s`: its longest numeric prefix after leading
/// white space, with a D exponent written as E, or the empty string when
/// there is no digit to read. Parsed as a double it gives VAL's value, and
/// the empty string, which does not parse, stands for 0.
pub fn val_text(s: &str) -> (t: String)
    requires
        4 * (s@.len() + 1) <= isize::MAX,
    ensures
        t@ == val_text_spec(s@),
{
    let cs: Vec<char> = chars_of(s);
    let n: usize = cs.len();
    let a: usize = skip_spaces(&cs, 0);
    let i1: usize = if either(&cs, a, '+', '-') {
        a + 1
    } else {
        a
    };
    let i2: usize = skip_digits(&cs, i1);
    let point: bool = i2 < n && cs[i2] == '.';
    let i3: usize = if point {
        skip_digits(&cs, i2 + 1)
    } else {
        i2
    };
    let frac_digits: bool = point && i3 > i2 + 1;
    let e: usize = if i2 == i1 && !frac_digits {
        a
    } else if either(&cs, i3, 'e', 'E') || either(&cs, i3, 'd', 'D') {
        let j: usize = if either(&cs, i3 + 1, '+', '-') {
            i3 + 2
        } else {
            i3 + 1
        };
        if j < n && '0' <= cs[j] && cs[j] <= '9' {
            skip_digits(&cs, j)
        } else {
            i3
        }
    } else {
        i3
    };
    assert(val_span(s@) == (a as nat, e as nat));
    let mut t: String = String::new();
    let mut k: usize = a;
    while k < e
        invariant
            a <= k <= e,
            e <= n,
            n == s@.len(),
            cs@ == s@,
            4 * (n + 1) <= isize::MAX,
            t@ == s@.subrange(a as int, k as int).map_values(
                |c: char|
                    if c == 'd' || c == 'D' {
                        'e'
                    } else {
                        c
                    },
            ),
        decreases e - k,
    {
        let c: char = cs[k];
        let out: char = if c == 'd' || c == 'D' {
            'e'
        } else {
            c
        };
        t.push(out);
        k = k + 1;
        assert(t@ =~= s@.subrange(a as int, k as int).map_values(
            |c: char|
                if c == 'd' || c == 'D' {
                    'e'
                } else {
                    c
                },
        ));
    }
    t
}

} // verus!
