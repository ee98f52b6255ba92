//! The game's seeded random numbers.

use vstd::prelude::*;

verus! {

/// 2 to the 53rd, the number of distinct values a double holds in [0, 1).
pub const TWO_POW_53: u64 = 0x20_0000_0000_0000;

/// One step of the xorshift64* state.
pub open spec fn xorshift(x: u64) -> u64 {
    let a = x ^ (x >> 12u64);
    let b = a ^ (a << 25u64);
    b ^ (b >> 27u64)
}

/// What xorshift64* outputs from a state it has just stepped to.
pub open spec fn scramble(x: u64) -> u64 {
    ((x as nat * 0x2545_F491_4F6C_DD1Dnat) % 0x1_0000_0000_0000_0000nat) as u64
}

/// The state a seed starts the generator in: never zero, which would stick.
pub open spec fn seeded(seed: u64) -> u64 {
    (((seed as nat * 0x9E37_79B9_7F4A_7C15nat) % 0x1_0000_0000_0000_0000nat) as u64) | 1u64
}

/// The power of two that a product must be divided by to leave at most 53
/// significant bits: the spacing of the doubles around `p`.
pub open spec fn double_unit(p: nat) -> nat
    decreases p,
{
    if p < TWO_POW_53 {
        1
    } else {
        2 * double_unit(p / 2)
    }
}

/// `p` rounded to the nearest value with at most 53 significant bits, ties
/// to the even neighbour: what a double holds for the integer `p`.
pub open spec fn round_to_double(p: nat) -> nat {
    let unit = double_unit(p);
    let q = p / unit;
    let r = p % unit;
    let half = unit / 2;
    if unit == 1 {
        p
    } else if r > half || (r == half && q % 2 == 1) {
        (q + 1) * unit
    } else {
        q * unit
    }
}

/// FnRan(x) from the 53 random bits `m`: `INT(RND(1) * x) + 1`, with RND(1)
/// the double m / 2^53 and the product rounded to a double before the
/// integer part is taken (towards zero).
pub open spec fn fn_ran_spec(m: nat, x: int) -> int {
    let ax: nat = if x < 0 { (-x) as nat } else { x as nat };
    let v: int = round_to_double(m * ax) as int / (TWO_POW_53 as int);
    (if x < 0 { -v } else { v }) + 1
}

/// A small seeded generator, xorshift64*. A fixed seed reproduces the same
/// game, for the playthrough test.
pub struct Rng(u64);

impl View for Rng {
    type V = u64;

    closed spec fn view(&self) -> u64 {
        self.0
    }
}

proof fn lemma_double_unit(p: nat)
    ensures
        double_unit(p) >= 1,
        p / double_unit(p) < TWO_POW_53,
        double_unit(p) > 1 ==> double_unit(p) % 2 == 0 && p >= (double_unit(p) / 2)
            * TWO_POW_53,
    decreases p,
{
    if p >= TWO_POW_53 {
        lemma_double_unit(p / 2);
        let u = double_unit(p / 2);
        vstd::arithmetic::div_mod::lemma_div_denominator(p as int, 2, u as int);
        if u > 1 {
            assert(p / 2 >= (u / 2) * TWO_POW_53);
            assert((2 * u) / 2 == u);
            assert(p >= u * TWO_POW_53) by (nonlinear_arith)
                requires
                    p / 2 >= (u / 2) * TWO_POW_53,
                    u % 2 == 0,
                    u > 1,
            {
                vstd::arithmetic::div_mod::lemma_fundamental_div_mod(p as int, 2);
                vstd::arithmetic::div_mod::lemma_fundamental_div_mod(u as int, 2);
            }
        } else {
            assert((2 * u) / 2 == u);
            assert(p >= u * TWO_POW_53);
        }
    }
}

/// Rounding never moves a value up by more than half the spacing.
proof fn lemma_round_to_double_bound(p: nat)
    ensures
        round_to_double(p) <= p + double_unit(p) / 2,
        double_unit(p) > 1 ==> p >= (double_unit(p) / 2) * TWO_POW_53,
{
    lemma_double_unit(p);
    let unit = double_unit(p);
    if unit > 1 {
        let q = p / unit;
        let r = p % unit;
        vstd::arithmetic::div_mod::lemma_fundamental_div_mod(p as int, unit as int);
        vstd::arithmetic::div_mod::lemma_mod_pos_bound(p as int, unit as int);
        assert((q + 1) * unit == q * unit + unit) by (nonlinear_arith);
        assert(q * unit == unit * q) by (nonlinear_arith);
    }
}

impl Rng {
    /// A generator seeded with `seed`.
    pub fn new(seed: u64) -> (r: Rng)
        ensures
            r@ == seeded(seed),
    {
        Rng(seed.wrapping_mul(0x9E37_79B9_7F4A_7C15u64) | 1u64)
    }

    /// The next 64 random bits.
    pub fn next_u64(&mut self) -> (v: u64)
        ensures
            final(self)@ == xorshift(old(self)@),
            v == scramble(xorshift(old(self)@)),
    {
        let mut x: u64 = self.0;
        x = x ^ (x >> 12u64);
        x = x ^ (x << 25u64);
        x = x ^ (x >> 27u64);
        self.0 = x;
        x.wrapping_mul(0x2545_F491_4F6C_DD1Du64)
    }

    /// FnRan(x) = INT(RND(1) * x) + 1, so the result is 1 to x inclusive.
    ///
    /// RND(1) is the top 53 bits of the next output as a double in [0, 1),
    /// and the product with x is rounded to a double before its integer
    /// part is taken. That rounding is computed exactly here, so the
    /// results are the ones the double arithmetic gives.
    pub fn fn_ran(&mut self, x: i32) -> (v: i32)
        ensures
            final(self)@ == xorshift(old(self)@),
            v == fn_ran_spec((scramble(xorshift(old(self)@)) >> 11u64) as nat, x as int),
            1 <= x ==> 1 <= v <= x,
    {
        let raw: u64 = self.next_u64();
        let m: u64 = raw >> 11u64;
        assert(m < 0x20_0000_0000_0000u64) by (bit_vector)
            requires
                m == raw >> 11u64,
        ;
        let ax: u64 = if x < 0 {
            (-(x as i64)) as u64
        } else {
            x as u64
        };
        assert(m * ax <= 0x20_0000_0000_0000 * 0x8000_0000) by (nonlinear_arith)
            requires
                m < 0x20_0000_0000_0000,
                ax <= 0x8000_0000,
        ;
        let p: u128 = m as u128 * ax as u128;
        let mut unit: u128 = 1;
        let mut t: u128 = p;
        while t >= 0x20_0000_0000_0000u128
            invariant
                unit >= 1,
                t as nat == p as nat / unit as nat,
                double_unit(p as nat) == unit * double_unit(t as nat),
                unit * 0x20_0000_0000_0000 <= 2 * p + 0x20_0000_0000_0000,
                p <= 0x20_0000_0000_0000 * 0x8000_0000,
            decreases t,
        {
            proof {
                vstd::arithmetic::div_mod::lemma_div_denominator(p as int, unit as int, 2);
                vstd::arithmetic::div_mod::lemma_fundamental_div_mod(p as int, unit as int);
                vstd::arithmetic::div_mod::lemma_mod_pos_bound(p as int, unit as int);
                assert(unit * t <= p);
                assert(unit * 0x20_0000_0000_0000 <= unit * t) by (nonlinear_arith)
                    requires
                        t >= 0x20_0000_0000_0000,
                        unit >= 1,
                ;
                let half_unit = double_unit((t / 2) as nat);
                assert(double_unit(t as nat) == 2 * half_unit);
                assert(unit * 2 * half_unit == unit * (2 * half_unit)) by (nonlinear_arith);
                assert(unit * 2 * 0x20_0000_0000_0000 <= 2 * p) by (nonlinear_arith)
                    requires
                        unit * 0x20_0000_0000_0000 <= p,
                ;
            }
            t = t / 2;
            unit = unit * 2;
        }
        proof {
            assert(double_unit(t as nat) == 1);
            let du = double_unit(t as nat);
            assert(unit * du == unit) by (nonlinear_arith)
                requires
                    du == 1,
            ;
            assert(unit == double_unit(p as nat));
            lemma_round_to_double_bound(p as nat);
            lemma_double_unit(p as nat);
        }
        let rounded: u128 = if unit == 1 {
            p
        } else {
            let q: u128 = p / unit;
            let r: u128 = p % unit;
            let half: u128 = unit / 2;
            proof {
                vstd::arithmetic::div_mod::lemma_fundamental_div_mod(p as int, unit as int);
                vstd::arithmetic::div_mod::lemma_mod_pos_bound(p as int, unit as int);
                assert((q + 1) * unit == q * unit + unit) by (nonlinear_arith);
                assert(q * unit == unit * q) by (nonlinear_arith);
            }
            if r > half || (r == half && q % 2 == 1) {
                (q + 1) * unit
            } else {
                q * unit
            }
        };
        assert(rounded == round_to_double(p as nat));
        let v: u128 = rounded / 0x20_0000_0000_0000u128;
        proof {
            lemma_fn_ran_range(m as nat, ax as nat);
        }
        if x < 0 {
            (1 - v as i64) as i32
        } else {
            (v as i64 + 1) as i32
        }
    }
}

/// The scaled value never reaches the multiplier: FnRan(x) is at most x.
pub proof fn lemma_fn_ran_range(m: nat, a: nat)
    requires
        m < TWO_POW_53,
    ensures
        a >= 1 ==> round_to_double(m * a) as int / (TWO_POW_53 as int) <= a - 1,
        a == 0 ==> round_to_double(m * a) == 0,
{
    let p = m * a;
    lemma_round_to_double_bound(p);
    lemma_double_unit(p);
    if a == 0 {
        assert(p == 0);
    } else {
        let unit = double_unit(p);
        assert(p <= a * TWO_POW_53 - a) by (nonlinear_arith)
            requires
                m < TWO_POW_53,
                p == m * a,
                a >= 1,
        ;
        if unit > 1 {
            assert(unit / 2 < a) by (nonlinear_arith)
                requires
                    p >= (unit / 2) * TWO_POW_53,
                    p < a * TWO_POW_53,
            ;
        }
        assert(round_to_double(p) < a * TWO_POW_53);
        assert(round_to_double(p) as int / (TWO_POW_53 as int) < a) by (nonlinear_arith)
            requires
                round_to_double(p) < a * TWO_POW_53,
                round_to_double(p) >= 0,
        {
            vstd::arithmetic::div_mod::lemma_div_is_ordered(
                round_to_double(p) as int,
                a * TWO_POW_53 - 1,
                TWO_POW_53 as int,
            );
            vstd::arithmetic::div_mod::lemma_fundamental_div_mod(a * TWO_POW_53 - 1, TWO_POW_53 as int);
        }
    }
}

/// The state after `n` draws from state `s`.
pub open spec fn state_after(s: u64, n: nat) -> u64
    decreases n,
{
    if n == 0 {
        s
    } else {
        xorshift(state_after(s, (n - 1) as nat))
    }
}

/// What successive calls of `fn_ran` return from state `s`, one call per
/// argument, in turn.
pub open spec fn fn_ran_run(s: u64, args: Seq<i32>) -> Seq<int>
    decreases args.len(),
{
    if args.len() == 0 {
        Seq::empty()
    } else {
        let s1 = xorshift(s);
        seq![fn_ran_spec((scramble(s1) >> 11u64) as nat, args[0] as int)] + fn_ran_run(
            s1,
            args.drop_first(),
        )
    }
}

/// The same seed gives the same sequence: whatever generator `Rng::new`
/// makes from `seed`, the k-th call of `fn_ran` on it returns the k-th
/// entry of `fn_ran_run(seeded(seed), args)`, which is fixed by the seed
/// and the arguments alone: FnRan of the state after k + 1 draws, between
/// 1 and the argument when it is positive.
pub proof fn law_same_seed_same_sequence(seed: u64, args: Seq<i32>)
    ensures
        fn_ran_run(seeded(seed), args).len() == args.len(),
        forall|k: int|
            0 <= k < args.len() ==> #[trigger] fn_ran_run(seeded(seed), args)[k] == fn_ran_spec(
                (scramble(state_after(seeded(seed), (k + 1) as nat)) >> 11u64) as nat,
                args[k] as int,
            ),
        forall|k: int|
            0 <= k < args.len() && args[k] >= 1 ==> 1 <= #[trigger] fn_ran_run(seeded(seed), args)[k]
                <= args[k],
{
    lemma_run_from(seeded(seed), args);
}

/// Two generators made from the same seed give the same results for the
/// same arguments: `Rng::new` fixes the state from the seed alone, and each
/// `fn_ran` fixes its result and the next state from the state and its
/// argument alone, so the whole run is `fn_ran_run` of the seed's state.
pub proof fn law_equal_seeds_give_equal_runs(s1: u64, s2: u64, args: Seq<i32>)
    requires
        s1 == s2,
    ensures
        fn_ran_run(seeded(s1), args) == fn_ran_run(seeded(s2), args),
        fn_ran_run(seeded(s1), args).len() == args.len(),
{
    lemma_run_from(seeded(s1), args);
}

proof fn lemma_run_from(s: u64, args: Seq<i32>)
    ensures
        fn_ran_run(s, args).len() == args.len(),
        forall|k: int|
            0 <= k < args.len() ==> #[trigger] fn_ran_run(s, args)[k] == fn_ran_spec(
                (scramble(state_after(s, (k + 1) as nat)) >> 11u64) as nat,
                args[k] as int,
            ),
        forall|k: int|
            0 <= k < args.len() && args[k] >= 1 ==> 1 <= #[trigger] fn_ran_run(s, args)[k] <= args[k],
    decreases args.len(),
{
    if args.len() > 0 {
        let s1 = xorshift(s);
        let rest = args.drop_first();
        lemma_run_from(s1, rest);
        lemma_state_after_shift(s, 0);
        assert forall|k: int| 0 <= k < args.len() implies #[trigger] fn_ran_run(s, args)[k]
            == fn_ran_spec((scramble(state_after(s, (k + 1) as nat)) >> 11u64) as nat, args[k] as int)
            && (args[k] >= 1 ==> 1 <= fn_ran_run(s, args)[k] <= args[k]) by {
            let m = (scramble(state_after(s, (k + 1) as nat)) >> 11u64) as nat;
            if k > 0 {
                lemma_state_after_shift(s, k as nat);
                assert(rest[k - 1] == args[k]);
                assert(fn_ran_run(s, args)[k] == fn_ran_run(s1, rest)[k - 1]);
            }
            assert(m < TWO_POW_53) by {
                let x = scramble(state_after(s, (k + 1) as nat));
                assert(x >> 11u64 < 0x20_0000_0000_0000u64) by (bit_vector);
            }
            if args[k] >= 1 {
                lemma_fn_ran_range(m, args[k] as nat);
                assert(round_to_double(m * (args[k] as nat)) >= 0);
            }
        }
    }
}

/// Drawing once and then `n` times is drawing `n + 1` times.
proof fn lemma_state_after_shift(s: u64, n: nat)
    ensures
        state_after(xorshift(s), n) == state_after(s, n + 1),
    decreases n,
{
    if n > 0 {
        lemma_state_after_shift(s, (n - 1) as nat);
        assert(state_after(xorshift(s), n) == xorshift(state_after(xorshift(s), (n - 1) as nat)));
    } else {
        assert(state_after(s, 0) == s);
    }
}

} // verus!
