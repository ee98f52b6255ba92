//! The typed angle or speed, as the decimal the player entered, and the one
//! comparison GetNum# makes on it: whether VAL of it exceeds 360.

use vstd::prelude::*;
use vstd::string::StrSliceExecFns;

verus! {

/// A decimal digit.
pub open spec fn is_digit(c: char) -> bool {
    '0' <= c && c <= '9'
}

/// The value of a digit character.
pub open spec fn digit_of(c: char) -> u8 {
    ((c as u32) - 48) as u8
}

/// 10 to the power `n`.
pub open spec fn pow10(n: nat) -> nat
    decreases n,
{
    if n == 0 {
        1
    } else {
        10 * pow10((n - 1) as nat)
    }
}

/// The number a run of decimal digits spells, most significant first.
pub open spec fn digit_val(ds: Seq<u8>) -> nat
    decreases ds.len(),
{
    if ds.len() == 0 {
        0
    } else {
        digit_val(ds.drop_last()) * 10 + ds.last() as nat
    }
}

/// The digits of a typed number, with the decimal point left out.
pub open spec fn digits_of(s: Seq<char>) -> Seq<u8>
    decreases s.len(),
{
    if s.len() == 0 {
        Seq::empty()
    } else if s.last() == '.' {
        digits_of(s.drop_last())
    } else {
        digits_of(s.drop_last()).push(digit_of(s.last()))
    }
}

/// How many digits follow the decimal point.
pub open spec fn frac_len(s: Seq<char>) -> nat
    decreases s.len(),
{
    if s.len() == 0 {
        0
    } else if s.last() == '.' {
        0
    } else if s.drop_last().contains('.') {
        frac_len(s.drop_last()) + 1
    } else {
        0
    }
}

/// What GetNum# lets into its buffer: digits, and at most one point.
pub open spec fn entry_text(s: Seq<char>) -> bool {
    &&& forall|i: int| 0 <= i < s.len() ==> is_digit(#[trigger] s[i]) || s[i] == '.'
    &&& forall|i: int, j: int|
        0 <= i < s.len() && 0 <= j < s.len() && #[trigger] s[i] == '.' && #[trigger] s[j] == '.'
            ==> i == j
}

/// VAL of the typed text is over 360.
///
/// The text is read as the double nearest its decimal value, ties to even.
/// Doubles between 256 and 512 lie 2^-44 apart and 360 has an even last bit,
/// so the double read is above 360 exactly when the decimal value is above
/// 360 + 2^-45. The value is `digits / 10^frac_len`; text with no digit at
/// all, such as "" or ".", reads as 0.
pub open spec fn over_limit(s: Seq<char>) -> bool {
    digit_val(digits_of(s)) * 35184372088832 > (360 * 35184372088832 + 1) * pow10(frac_len(s))
}

/// `n` zero digits.
pub open spec fn zeros(n: nat) -> Seq<u8> {
    Seq::new(n, |i: int| 0u8)
}

/// Every entry is a decimal digit.
pub open spec fn all_digits(ds: Seq<u8>) -> bool {
    forall|i: int| 0 <= i < ds.len() ==> #[trigger] ds[i] < 10
}

/// 360 + 2^-45 with 45 places after the point, which is exact: 2^-45 is
/// 5^45 / 10^45.
pub const THRESHOLD: [u8; 48] = [3u8, 6u8, 0u8, 0u8, 0u8, 0u8, 0u8, 0u8, 0u8, 0u8, 0u8, 0u8, 0u8, 0u8, 0u8, 0u8, 2u8, 8u8, 4u8, 2u8, 1u8, 7u8, 0u8, 9u8, 4u8, 3u8, 0u8, 4u8, 0u8, 4u8, 0u8, 0u8, 7u8, 4u8, 3u8, 4u8, 8u8, 4u8, 4u8, 9u8, 7u8, 0u8, 7u8, 0u8, 3u8, 1u8, 2u8, 5u8];

proof fn lemma_pow10_add(a: nat, b: nat)
    ensures
        pow10(a + b) == pow10(a) * pow10(b),
    decreases b,
{
    if b > 0 {
        let b1 = (b - 1) as nat;
        lemma_pow10_add(a, b1);
        let x = pow10(a);
        let y = pow10(b1);
        let z = pow10(a + b1);
        assert(z == x * y);
        assert(pow10(a + b) == 10 * z);
        assert(pow10(b) == 10 * y);
        assert(x * (10 * y) == 10 * (x * y)) by (nonlinear_arith);
    } else {
        assert(pow10(b) == 1);
        assert(a + b == a);
        assert(pow10(a) * 1 == pow10(a));
    }
}

proof fn lemma_pow10_pos(n: nat)
    ensures
        pow10(n) >= 1,
    decreases n,
{
    if n > 0 {
        lemma_pow10_pos((n - 1) as nat);
    }
}

proof fn lemma_val_concat(x: Seq<u8>, y: Seq<u8>)
    ensures
        digit_val(x + y) == digit_val(x) * pow10(y.len()) + digit_val(y),
    decreases y.len(),
{
    if y.len() == 0 {
        assert(x + y =~= x);
        assert(digit_val(y) == 0);
        assert(pow10(y.len()) == 1);
        assert(digit_val(x) * 1 == digit_val(x));
    } else {
        assert((x + y).drop_last() =~= x + y.drop_last());
        lemma_val_concat(x, y.drop_last());
        assert((x + y).last() == y.last());
        let p = pow10((y.len() - 1) as nat);
        assert(digit_val(x) * pow10(y.len()) == (digit_val(x) * p) * 10) by (nonlinear_arith)
            requires
                pow10(y.len()) == 10 * p,
        ;
    }
}

proof fn lemma_val_zeros(n: nat)
    ensures
        digit_val(zeros(n)) == 0,
    decreases n,
{
    if n > 0 {
        assert(zeros(n).drop_last() =~= zeros((n - 1) as nat));
        lemma_val_zeros((n - 1) as nat);
    }
}

proof fn lemma_val_bound(x: Seq<u8>)
    requires
        all_digits(x),
    ensures
        digit_val(x) < pow10(x.len()),
    decreases x.len(),
{
    if x.len() > 0 {
        let y = x.drop_last();
        assert(all_digits(y)) by {
            assert forall|i: int| 0 <= i < y.len() implies #[trigger] y[i] < 10 by {
                assert(y[i] == x[i]);
            }
        }
        lemma_val_bound(y);
        assert(x.last() < 10) by {
            assert(x[x.len() - 1] < 10);
        }
    }
}

/// Where two equally long digit strings first differ decides which is
/// larger.
proof fn lemma_lex_gt(x: Seq<u8>, y: Seq<u8>, j: int)
    requires
        x.len() == y.len(),
        0 <= j < x.len(),
        x.take(j) == y.take(j),
        x[j] > y[j],
        all_digits(y),
    ensures
        digit_val(x) > digit_val(y),
{
    let r = (x.len() - j - 1) as nat;
    let xh = x.take(j + 1);
    let yh = y.take(j + 1);
    let xt = x.skip(j + 1);
    let yt = y.skip(j + 1);
    assert(x =~= xh + xt);
    assert(y =~= yh + yt);
    lemma_val_concat(xh, xt);
    lemma_val_concat(yh, yt);
    assert(xh.drop_last() =~= x.take(j));
    assert(yh.drop_last() =~= y.take(j));
    assert(digit_val(xh) >= digit_val(yh) + 1);
    assert(all_digits(yt)) by {
        assert forall|i: int| 0 <= i < yt.len() implies #[trigger] yt[i] < 10 by {
            assert(yt[i] == y[i + j + 1]);
        }
    }
    lemma_val_bound(yt);
    assert(xt.len() == r && yt.len() == r);
    let p = pow10(r);
    assert(digit_val(xh) * p + digit_val(xt) > digit_val(yh) * p + digit_val(yt)) by (nonlinear_arith)
        requires
            digit_val(xh) >= digit_val(yh) + 1,
            digit_val(yt) < p,
    ;
}

proof fn lemma_threshold_value()
    ensures
        digit_val(THRESHOLD@) == 360000000000000028421709430404007434844970703125nat,
        all_digits(THRESHOLD@),
{
    assert(THRESHOLD@.take(0) =~= Seq::<u8>::empty());
    assert(digit_val(THRESHOLD@.take(0)) == 0);
    assert(THRESHOLD@.take(1).drop_last() =~= THRESHOLD@.take(0));
    assert(THRESHOLD@.take(1).last() == THRESHOLD@[0]);
    assert(digit_val(THRESHOLD@.take(1)) == 3nat);
    assert(THRESHOLD@.take(2).drop_last() =~= THRESHOLD@.take(1));
    assert(THRESHOLD@.take(2).last() == THRESHOLD@[1]);
    assert(digit_val(THRESHOLD@.take(2)) == 36nat);
    assert(THRESHOLD@.take(3).drop_last() =~= THRESHOLD@.take(2));
    assert(THRESHOLD@.take(3).last() == THRESHOLD@[2]);
    assert(digit_val(THRESHOLD@.take(3)) == 360nat);
    assert(THRESHOLD@.take(4).drop_last() =~= THRESHOLD@.take(3));
    assert(THRESHOLD@.take(4).last() == THRESHOLD@[3]);
    assert(digit_val(THRESHOLD@.take(4)) == 3600nat);
    assert(THRESHOLD@.take(5).drop_last() =~= THRESHOLD@.take(4));
    assert(THRESHOLD@.take(5).last() == THRESHOLD@[4]);
    assert(digit_val(THRESHOLD@.take(5)) == 36000nat);
    assert(THRESHOLD@.take(6).drop_last() =~= THRESHOLD@.take(5));
    assert(THRESHOLD@.take(6).last() == THRESHOLD@[5]);
    assert(digit_val(THRESHOLD@.take(6)) == 360000nat);
    assert(THRESHOLD@.take(7).drop_last() =~= THRESHOLD@.take(6));
    assert(THRESHOLD@.take(7).last() == THRESHOLD@[6]);
    assert(digit_val(THRESHOLD@.take(7)) == 3600000nat);
    assert(THRESHOLD@.take(8).drop_last() =~= THRESHOLD@.take(7));
    assert(THRESHOLD@.take(8).last() == THRESHOLD@[7]);
    assert(digit_val(THRESHOLD@.take(8)) == 36000000nat);
    assert(THRESHOLD@.take(9).drop_last() =~= THRESHOLD@.take(8));
    assert(THRESHOLD@.take(9).last() == THRESHOLD@[8]);
    assert(digit_val(THRESHOLD@.take(9)) == 360000000nat);
    assert(THRESHOLD@.take(10).drop_last() =~= THRESHOLD@.take(9));
    assert(THRESHOLD@.take(10).last() == THRESHOLD@[9]);
    assert(digit_val(THRESHOLD@.take(10)) == 3600000000nat);
    assert(THRESHOLD@.take(11).drop_last() =~= THRESHOLD@.take(10));
    assert(THRESHOLD@.take(11).last() == THRESHOLD@[10]);
    assert(digit_val(THRESHOLD@.take(11)) == 36000000000nat);
    assert(THRESHOLD@.take(12).drop_last() =~= THRESHOLD@.take(11));
    assert(THRESHOLD@.take(12).last() == THRESHOLD@[11]);
    assert(digit_val(THRESHOLD@.take(12)) == 360000000000nat);
    assert(THRESHOLD@.take(13).drop_last() =~= THRESHOLD@.take(12));
    assert(THRESHOLD@.take(13).last() == THRESHOLD@[12]);
    assert(digit_val(THRESHOLD@.take(13)) == 3600000000000nat);
    assert(THRESHOLD@.take(14).drop_last() =~= THRESHOLD@.take(13));
    assert(THRESHOLD@.take(14).last() == THRESHOLD@[13]);
    assert(digit_val(THRESHOLD@.take(14)) == 36000000000000nat);
    assert(THRESHOLD@.take(15).drop_last() =~= THRESHOLD@.take(14));
    assert(THRESHOLD@.take(15).last() == THRESHOLD@[14]);
    assert(digit_val(THRESHOLD@.take(15)) == 360000000000000nat);
    assert(THRESHOLD@.take(16).drop_last() =~= THRESHOLD@.take(15));
    assert(THRESHOLD@.take(16).last() == THRESHOLD@[15]);
    assert(digit_val(THRESHOLD@.take(16)) == 3600000000000000nat);
    assert(THRESHOLD@.take(17).drop_last() =~= THRESHOLD@.take(16));
    assert(THRESHOLD@.take(17).last() == THRESHOLD@[16]);
    assert(digit_val(THRESHOLD@.take(17)) == 36000000000000002nat);
    assert(THRESHOLD@.take(18).drop_last() =~= THRESHOLD@.take(17));
    assert(THRESHOLD@.take(18).last() == THRESHOLD@[17]);
    assert(digit_val(THRESHOLD@.take(18)) == 360000000000000028nat);
    assert(THRESHOLD@.take(19).drop_last() =~= THRESHOLD@.take(18));
    assert(THRESHOLD@.take(19).last() == THRESHOLD@[18]);
    assert(digit_val(THRESHOLD@.take(19)) == 3600000000000000284nat);
    assert(THRESHOLD@.take(20).drop_last() =~= THRESHOLD@.take(19));
    assert(THRESHOLD@.take(20).last() == THRESHOLD@[19]);
    assert(digit_val(THRESHOLD@.take(20)) == 36000000000000002842nat);
    assert(THRESHOLD@.take(21).drop_last() =~= THRESHOLD@.take(20));
    assert(THRESHOLD@.take(21).last() == THRESHOLD@[20]);
    assert(digit_val(THRESHOLD@.take(21)) == 360000000000000028421nat);
    assert(THRESHOLD@.take(22).drop_last() =~= THRESHOLD@.take(21));
    assert(THRESHOLD@.take(22).last() == THRESHOLD@[21]);
    assert(digit_val(THRESHOLD@.take(22)) == 3600000000000000284217nat);
    assert(THRESHOLD@.take(23).drop_last() =~= THRESHOLD@.take(22));
    assert(THRESHOLD@.take(23).last() == THRESHOLD@[22]);
    assert(digit_val(THRESHOLD@.take(23)) == 36000000000000002842170nat);
    assert(THRESHOLD@.take(24).drop_last() =~= THRESHOLD@.take(23));
    assert(THRESHOLD@.take(24).last() == THRESHOLD@[23]);
    assert(digit_val(THRESHOLD@.take(24)) == 360000000000000028421709nat);
    assert(THRESHOLD@.take(25).drop_last() =~= THRESHOLD@.take(24));
    assert(THRESHOLD@.take(25).last() == THRESHOLD@[24]);
    assert(digit_val(THRESHOLD@.take(25)) == 3600000000000000284217094nat);
    assert(THRESHOLD@.take(26).drop_last() =~= THRESHOLD@.take(25));
    assert(THRESHOLD@.take(26).last() == THRESHOLD@[25]);
    assert(digit_val(THRESHOLD@.take(26)) == 36000000000000002842170943nat);
    assert(THRESHOLD@.take(27).drop_last() =~= THRESHOLD@.take(26));
    assert(THRESHOLD@.take(27).last() == THRESHOLD@[26]);
    assert(digit_val(THRESHOLD@.take(27)) == 360000000000000028421709430nat);
    assert(THRESHOLD@.take(28).drop_last() =~= THRESHOLD@.take(27));
    assert(THRESHOLD@.take(28).last() == THRESHOLD@[27]);
    assert(digit_val(THRESHOLD@.take(28)) == 3600000000000000284217094304nat);
    assert(THRESHOLD@.take(29).drop_last() =~= THRESHOLD@.take(28));
    assert(THRESHOLD@.take(29).last() == THRESHOLD@[28]);
    assert(digit_val(THRESHOLD@.take(29)) == 36000000000000002842170943040nat);
    assert(THRESHOLD@.take(30).drop_last() =~= THRESHOLD@.take(29));
    assert(THRESHOLD@.take(30).last() == THRESHOLD@[29]);
    assert(digit_val(THRESHOLD@.take(30)) == 360000000000000028421709430404nat);
    assert(THRESHOLD@.take(31).drop_last() =~= THRESHOLD@.take(30));
    assert(THRESHOLD@.take(31).last() == THRESHOLD@[30]);
    assert(digit_val(THRESHOLD@.take(31)) == 3600000000000000284217094304040nat);
    assert(THRESHOLD@.take(32).drop_last() =~= THRESHOLD@.take(31));
    assert(THRESHOLD@.take(32).last() == THRESHOLD@[31]);
    assert(digit_val(THRESHOLD@.take(32)) == 36000000000000002842170943040400nat);
    assert(THRESHOLD@.take(33).drop_last() =~= THRESHOLD@.take(32));
    assert(THRESHOLD@.take(33).last() == THRESHOLD@[32]);
    assert(digit_val(THRESHOLD@.take(33)) == 360000000000000028421709430404007nat);
    assert(THRESHOLD@.take(34).drop_last() =~= THRESHOLD@.take(33));
    assert(THRESHOLD@.take(34).last() == THRESHOLD@[33]);
    assert(digit_val(THRESHOLD@.take(34)) == 3600000000000000284217094304040074nat);
    assert(THRESHOLD@.take(35).drop_last() =~= THRESHOLD@.take(34));
    assert(THRESHOLD@.take(35).last() == THRESHOLD@[34]);
    assert(digit_val(THRESHOLD@.take(35)) == 36000000000000002842170943040400743nat);
    assert(THRESHOLD@.take(36).drop_last() =~= THRESHOLD@.take(35));
    assert(THRESHOLD@.take(36).last() == THRESHOLD@[35]);
    assert(digit_val(THRESHOLD@.take(36)) == 360000000000000028421709430404007434nat);
    assert(THRESHOLD@.take(37).drop_last() =~= THRESHOLD@.take(36));
    assert(THRESHOLD@.take(37).last() == THRESHOLD@[36]);
    assert(digit_val(THRESHOLD@.take(37)) == 3600000000000000284217094304040074348nat);
    assert(THRESHOLD@.take(38).drop_last() =~= THRESHOLD@.take(37));
    assert(THRESHOLD@.take(38).last() == THRESHOLD@[37]);
    assert(digit_val(THRESHOLD@.take(38)) == 36000000000000002842170943040400743484nat);
    assert(THRESHOLD@.take(39).drop_last() =~= THRESHOLD@.take(38));
    assert(THRESHOLD@.take(39).last() == THRESHOLD@[38]);
    assert(digit_val(THRESHOLD@.take(39)) == 360000000000000028421709430404007434844nat);
    assert(THRESHOLD@.take(40).drop_last() =~= THRESHOLD@.take(39));
    assert(THRESHOLD@.take(40).last() == THRESHOLD@[39]);
    assert(digit_val(THRESHOLD@.take(40)) == 3600000000000000284217094304040074348449nat);
    assert(THRESHOLD@.take(41).drop_last() =~= THRESHOLD@.take(40));
    assert(THRESHOLD@.take(41).last() == THRESHOLD@[40]);
    assert(digit_val(THRESHOLD@.take(41)) == 36000000000000002842170943040400743484497nat);
    assert(THRESHOLD@.take(42).drop_last() =~= THRESHOLD@.take(41));
    assert(THRESHOLD@.take(42).last() == THRESHOLD@[41]);
    assert(digit_val(THRESHOLD@.take(42)) == 360000000000000028421709430404007434844970nat);
    assert(THRESHOLD@.take(43).drop_last() =~= THRESHOLD@.take(42));
    assert(THRESHOLD@.take(43).last() == THRESHOLD@[42]);
    assert(digit_val(THRESHOLD@.take(43)) == 3600000000000000284217094304040074348449707nat);
    assert(THRESHOLD@.take(44).drop_last() =~= THRESHOLD@.take(43));
    assert(THRESHOLD@.take(44).last() == THRESHOLD@[43]);
    assert(digit_val(THRESHOLD@.take(44)) == 36000000000000002842170943040400743484497070nat);
    assert(THRESHOLD@.take(45).drop_last() =~= THRESHOLD@.take(44));
    assert(THRESHOLD@.take(45).last() == THRESHOLD@[44]);
    assert(digit_val(THRESHOLD@.take(45)) == 360000000000000028421709430404007434844970703nat);
    assert(THRESHOLD@.take(46).drop_last() =~= THRESHOLD@.take(45));
    assert(THRESHOLD@.take(46).last() == THRESHOLD@[45]);
    assert(digit_val(THRESHOLD@.take(46)) == 3600000000000000284217094304040074348449707031nat);
    assert(THRESHOLD@.take(47).drop_last() =~= THRESHOLD@.take(46));
    assert(THRESHOLD@.take(47).last() == THRESHOLD@[46]);
    assert(digit_val(THRESHOLD@.take(47)) == 36000000000000002842170943040400743484497070312nat);
    assert(THRESHOLD@.take(48).drop_last() =~= THRESHOLD@.take(47));
    assert(THRESHOLD@.take(48).last() == THRESHOLD@[47]);
    assert(digit_val(THRESHOLD@.take(48)) == 360000000000000028421709430404007434844970703125nat);
    assert(THRESHOLD@.take(48) =~= THRESHOLD@);
}

proof fn lemma_pow10_45()
    ensures
        pow10(45) == 1000000000000000000000000000000000000000000000nat,
{
    reveal_with_fuel(pow10, 46);
}

proof fn lemma_entry_text_prefix(s: Seq<char>)
    requires
        entry_text(s),
        s.len() > 0,
    ensures
        entry_text(s.drop_last()),
{
    let t = s.drop_last();
    assert forall|i: int| 0 <= i < t.len() implies is_digit(#[trigger] t[i]) || t[i] == '.' by {
        assert(t[i] == s[i]);
    }
    assert forall|i: int, j: int|
        0 <= i < t.len() && 0 <= j < t.len() && #[trigger] t[i] == '.' && #[trigger] t[j] == '.'
        implies i == j by {
        assert(t[i] == s[i] && t[j] == s[j]);
    }
}

proof fn lemma_digit_small(c: char)
    requires
        is_digit(c),
    ensures
        digit_of(c) < 10,
        digit_of(c) == (c as u32) - 48,
{
}

/// Text with no point: every character is a digit.
proof fn lemma_no_point(s: Seq<char>)
    requires
        entry_text(s),
        !s.contains('.'),
    ensures
        digits_of(s).len() == s.len(),
        frac_len(s) == 0,
        all_digits(digits_of(s)),
    decreases s.len(),
{
    if s.len() > 0 {
        let t = s.drop_last();
        lemma_entry_text_prefix(s);
        assert(!t.contains('.')) by {
            if t.contains('.') {
                let i = choose|i: int| 0 <= i < t.len() && t[i] == '.';
                assert(s[i] == '.');
            }
        }
        lemma_no_point(t);
        assert(s.last() != '.') by {
            if s.last() == '.' {
                assert(s[s.len() - 1] == '.');
            }
        }
        assert(is_digit(s[s.len() - 1]));
        lemma_digit_small(s.last());
        let d = digits_of(t).push(digit_of(s.last()));
        assert forall|i: int| 0 <= i < d.len() implies #[trigger] d[i] < 10 by {
            if i < digits_of(t).len() {
                assert(d[i] == digits_of(t)[i]);
            }
        }
    }
}

/// Text with its one point at `p`: `p` digits before it, the rest after.
proof fn lemma_point(s: Seq<char>, p: int)
    requires
        entry_text(s),
        0 <= p < s.len(),
        s[p] == '.',
    ensures
        digits_of(s).len() == s.len() - 1,
        frac_len(s) == s.len() - 1 - p,
        all_digits(digits_of(s)),
    decreases s.len(),
{
    let t = s.drop_last();
    lemma_entry_text_prefix(s);
    if p == s.len() - 1 {
        assert(!t.contains('.')) by {
            if t.contains('.') {
                let i = choose|i: int| 0 <= i < t.len() && t[i] == '.';
                assert(s[i] == '.');
            }
        }
        lemma_no_point(t);
    } else {
        assert(t[p] == '.');
        lemma_point(t, p);
        assert(s.last() != '.') by {
            if s.last() == '.' {
                assert(s[s.len() - 1] == '.');
            }
        }
        assert(is_digit(s[s.len() - 1]));
        lemma_digit_small(s.last());
        assert(t.contains('.'));
        let d = digits_of(t).push(digit_of(s.last()));
        assert forall|i: int| 0 <= i < d.len() implies #[trigger] d[i] < 10 by {
            if i < digits_of(t).len() {
                assert(d[i] == digits_of(t)[i]);
            }
        }
    }
}

/// The two padded strings compare as the typed value and the limit do.
proof fn lemma_padded_compare(s: Seq<char>, li: nat, lf: nat, p: nat, k: nat, a: Seq<u8>, b: Seq<u8>)
    requires
        digits_of(s).len() == p + k,
        frac_len(s) == k,
        li >= p,
        li >= 3,
        lf == if k < 45 { 45 } else { k },
        a == zeros((li - p) as nat) + digits_of(s) + zeros((lf - k) as nat),
        b == zeros((li - 3) as nat) + THRESHOLD@ + zeros((lf - 45) as nat),
    ensures
        digit_val(a) > digit_val(b) <==> over_limit(s),
        a.len() == b.len(),
{
    let d = digits_of(s);
    let za = zeros((li - p) as nat);
    let zb = zeros((li - 3) as nat);
    lemma_val_zeros((li - p) as nat);
    lemma_val_zeros((lf - k) as nat);
    lemma_val_zeros((li - 3) as nat);
    lemma_val_zeros((lf - 45) as nat);
    lemma_val_concat(za, d);
    lemma_val_concat(za + d, zeros((lf - k) as nat));
    lemma_val_concat(zb, THRESHOLD@);
    lemma_val_concat(zb + THRESHOLD@, zeros((lf - 45) as nat));
    lemma_threshold_value();
    lemma_pow10_45();
    let n = digit_val(d);
    let t = 360000000000000028421709430404007434844970703125nat;
    assert(digit_val(za + d) == n);
    assert(digit_val(zb + THRESHOLD@) == t);
    let m = (k + 45 - lf) as nat;
    lemma_pow10_add((lf - k) as nat, m);
    lemma_pow10_add((lf - 45) as nat, m);
    assert(((lf - k) as nat + m) as nat == 45);
    assert(((lf - 45) as nat + m) as nat == k);
    let pa = pow10((lf - k) as nat);
    let pb = pow10((lf - 45) as nat);
    let pm = pow10(m);
    let pk = pow10(k);
    lemma_pow10_pos(m);
    assert(digit_val(a) == n * pa);
    assert(digit_val(b) == t * pb);
    assert(pa * pm == 1000000000000000000000000000000000000000000000nat);
    assert(pb * pm == pk);
    assert(over_limit(s) <==> n * 35184372088832 > 12666373951979521 * pk);
    assert(n * 35184372088832 > 12666373951979521 * pk <==> n * pa > t * pb) by (nonlinear_arith)
        requires
            pa * pm == 1000000000000000000000000000000000000000000000nat,
            pb * pm == pk,
            pm >= 1,
            t == 360000000000000028421709430404007434844970703125nat,
    {
        assert(n * 35184372088832 * 28421709430404007434844970703125 == n * (pa * pm));
        assert(12666373951979521 * pk * 28421709430404007434844970703125 == t * (pb * pm));
        assert(n * (pa * pm) == (n * pa) * pm);
        assert(t * (pb * pm) == (t * pb) * pm);
    }
}

/// The digits of `s` with `li - p` zeros before and `lf - k` after.
fn padded_digits(s: &str, n: usize, p: usize, k: usize, li: usize, lf: usize) -> (a: Vec<u8>)
    requires
        entry_text(s@),
        n == s@.len(),
        p <= li,
        k <= lf,
    ensures
        a@ == zeros((li - p) as nat) + digits_of(s@) + zeros((lf - k) as nat),
{
    let mut a: Vec<u8> = Vec::new();
    let mut i: usize = 0;
    while i < li - p
        invariant
            i <= li - p,
            a@ == zeros(i as nat),
        decreases li - p - i,
    {
        a.push(0u8);
        i = i + 1;
        assert(a@ =~= zeros(i as nat));
    }
    let mut j: usize = 0;
    while j < n
        invariant
            j <= n,
            n == s@.len(),
            entry_text(s@),
            a@ == zeros((li - p) as nat) + digits_of(s@.take(j as int)),
        decreases n - j,
    {
        let c: char = s.get_char(j);
        proof {
            assert(s@.take(j as int + 1).drop_last() =~= s@.take(j as int));
            assert(s@.take(j as int + 1).last() == c);
        }
        if c != '.' {
            assert(is_digit(c));
            let d: u8 = ((c as u32) - 48) as u8;
            a.push(d);
        }
        j = j + 1;
        assert(a@ =~= zeros((li - p) as nat) + digits_of(s@.take(j as int)));
    }
    assert(s@.take(n as int) =~= s@);
    i = 0;
    while i < lf - k
        invariant
            i <= lf - k,
            a@ == zeros((li - p) as nat) + digits_of(s@) + zeros(i as nat),
        decreases lf - k - i,
    {
        a.push(0u8);
        i = i + 1;
        assert(a@ =~= zeros((li - p) as nat) + digits_of(s@) + zeros(i as nat));
    }
    a
}

/// The threshold's digits with `li - 3` zeros before and `lf - 45` after.
fn padded_threshold(li: usize, lf: usize) -> (b: Vec<u8>)
    requires
        3 <= li,
        45 <= lf,
    ensures
        b@ == zeros((li - 3) as nat) + THRESHOLD@ + zeros((lf - 45) as nat),
{
    let mut b: Vec<u8> = Vec::new();
    let mut i: usize = 0;
    while i < li - 3
        invariant
            i <= li - 3,
            b@ == zeros(i as nat),
        decreases li - 3 - i,
    {
        b.push(0u8);
        i = i + 1;
        assert(b@ =~= zeros(i as nat));
    }
    i = 0;
    while i < 48
        invariant
            i <= 48,
            b@ == zeros((li - 3) as nat) + THRESHOLD@.take(i as int),
        decreases 48 - i,
    {
        b.push(THRESHOLD[i]);
        i = i + 1;
        assert(b@ =~= zeros((li - 3) as nat) + THRESHOLD@.take(i as int));
    }
    assert(THRESHOLD@.take(48) =~= THRESHOLD@);
    i = 0;
    while i < lf - 45
        invariant
            i <= lf - 45,
            b@ == zeros((li - 3) as nat) + THRESHOLD@ + zeros(i as nat),
        decreases lf - 45 - i,
    {
        b.push(0u8);
        i = i + 1;
        assert(b@ =~= zeros((li - 3) as nat) + THRESHOLD@ + zeros(i as nat));
    }
    b
}

/// Of two equally long digit strings, whether the first spells the larger
/// number.
fn digits_greater(a: &Vec<u8>, b: &Vec<u8>) -> (gt: bool)
    requires
        a@.len() == b@.len(),
        all_digits(a@),
        all_digits(b@),
    ensures
        gt == (digit_val(a@) > digit_val(b@)),
{
    let mut q: usize = 0;
    while q < a.len()
        invariant
            q <= a@.len(),
            a@.len() == b@.len(),
            a@.take(q as int) == b@.take(q as int),
            all_digits(a@),
            all_digits(b@),
        decreases a@.len() - q,
    {
        if a[q] != b[q] {
            proof {
                if a@[q as int] > b@[q as int] {
                    lemma_lex_gt(a@, b@, q as int);
                } else {
                    lemma_lex_gt(b@, a@, q as int);
                }
            }
            return a[q] > b[q];
        }
        q = q + 1;
        assert(a@.take(q as int) =~= b@.take(q as int)) by {
            assert(a@.take(q as int - 1) == b@.take(q as int - 1));
            assert forall|r: int| 0 <= r < q implies a@.take(q as int)[r] == b@.take(q as int)[r] by {
                if r < q - 1 {
                    assert(a@.take(q as int - 1)[r] == b@.take(q as int - 1)[r]);
                }
            }
        }
    }
    assert(a@ =~= b@) by {
        assert(a@.take(a@.len() as int) =~= a@);
        assert(b@.take(b@.len() as int) =~= b@);
    }
    false
}

/// The digits of typed text, padded, are all decimal digits.
proof fn lemma_padded_all_digits(s: Seq<char>, z1: nat, z2: nat)
    requires
        all_digits(digits_of(s)),
    ensures
        all_digits(zeros(z1) + digits_of(s) + zeros(z2)),
{
    let d = digits_of(s);
    let ga = zeros(z1) + d + zeros(z2);
    assert forall|q: int| 0 <= q < ga.len() implies #[trigger] ga[q] < 10 by {
        if q < z1 {
            assert(ga[q] == zeros(z1)[q]);
        } else if q < z1 + d.len() {
            assert(ga[q] == d[q - z1]);
        } else {
            assert(ga[q] == zeros(z2)[q - z1 - d.len()]);
        }
    }
}

/// The padded threshold is all decimal digits.
proof fn lemma_threshold_all_digits(z1: nat, z2: nat)
    ensures
        all_digits(zeros(z1) + THRESHOLD@ + zeros(z2)),
{
    lemma_threshold_value();
    let gb = zeros(z1) + THRESHOLD@ + zeros(z2);
    assert forall|q: int| 0 <= q < gb.len() implies #[trigger] gb[q] < 10 by {
        if q < z1 {
            assert(gb[q] == zeros(z1)[q]);
        } else if q < z1 + 48 {
            assert(gb[q] == THRESHOLD@[q - z1]);
        } else {
            assert(gb[q] == zeros(z2)[q - z1 - 48]);
        }
    }
}

/// VAL of the typed text is over 360.
pub fn exceeds_limit(s: &str) -> (over: bool)
    requires
        entry_text(s@),
        s@.len() + 100 <= usize::MAX,
    ensures
        over == over_limit(s@),
{
    let n: usize = s.unicode_len();
    let mut p: usize = 0;
    while p < n && s.get_char(p) != '.'
        invariant
            p <= n,
            n == s@.len(),
            forall|i: int| 0 <= i < p ==> s@[i] != '.',
        decreases n - p,
    {
        p = p + 1;
    }
    let has_point: bool = p < n;
    let k: usize = if has_point {
        n - p - 1
    } else {
        0
    };
    proof {
        if has_point {
            lemma_point(s@, p as int);
        } else {
            assert(!s@.contains('.'));
            lemma_no_point(s@);
        }
    }
    let li: usize = if p < 3 {
        3
    } else {
        p
    };
    let lf: usize = if k < 45 {
        45
    } else {
        k
    };
    let a: Vec<u8> = padded_digits(s, n, p, k, li, lf);
    let b: Vec<u8> = padded_threshold(li, lf);
    proof {
        lemma_padded_compare(s@, li as nat, lf as nat, p as nat, k as nat, a@, b@);
        lemma_padded_all_digits(s@, (li - p) as nat, (lf - k) as nat);
        lemma_threshold_all_digits((li - 3) as nat, (lf - 45) as nat);
    }
    digits_greater(&a, &b)
}

} // verus!
