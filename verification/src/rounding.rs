//! Rounding to the twenty-four significant bits of binary32.
//!
//! Where integers are turned into numbers of that encoding, and where such
//! numbers are added or multiplied, the exact result is rounded to the
//! nearest number with twenty-four significant bits, and to the one with an
//! even last bit where two are equally near. On integers this is integer
//! arithmetic.

use vstd::arithmetic::div_mod::{
    lemma_div_denominator, lemma_fundamental_div_mod, lemma_fundamental_div_mod_converse,
};
use vstd::arithmetic::power2::{lemma2_to64, lemma_pow2_pos, lemma_pow2_unfold, pow2};
use vstd::prelude::*;

verus! {

/// The number of low bits of `n` that twenty-four significant bits do not
/// hold.
pub open spec fn excess(n: nat) -> nat
    decreases n,
{
    if n < 0x100_0000 {
        0
    } else {
        1 + excess(n / 2)
    }
}

/// `n` rounded to twenty-four significant bits: the nearest multiple of
/// `2^excess(n)`, and the even one of two that are equally near.
pub open spec fn rounded_size(n: nat) -> nat {
    let unit = pow2(excess(n));
    let q = n / unit;
    let r = n % unit;
    if 2 * r > unit || (2 * r == unit && q % 2 == 1) {
        (q + 1) * unit
    } else {
        q * unit
    }
}

/// An integer rounded to twenty-four significant bits, whatever its sign.
pub open spec fn round24(n: int) -> int {
    if n < 0 {
        -(rounded_size((-n) as nat) as int)
    } else {
        rounded_size(n as nat) as int
    }
}

/// What the bits beyond twenty-four leave of a number: a quotient of at
/// most twenty-four bits, and of exactly that many where bits were dropped.
pub proof fn lemma_excess(n: nat)
    ensures
        n / pow2(excess(n)) < 0x100_0000,
        excess(n) > 0 ==> n / pow2(excess(n)) >= 0x80_0000,
        excess(n) == 0 <==> n < 0x100_0000,
    decreases n,
{
    lemma2_to64();
    if n >= 0x100_0000 {
        let e = excess(n / 2);
        lemma_excess(n / 2);
        lemma_pow2_pos(e);
        lemma_pow2_unfold(e + 1);
        lemma_div_denominator(n as int, 2, pow2(e) as int);
        assert(n / pow2(e + 1) == (n / 2) / pow2(e));
        if e == 0 {
            assert((n / 2) / 1 >= 0x80_0000);
        }
    }
}

/// A number of at most twenty-four bits, with as many zeros behind it as
/// it has room for, holds exactly these zeros beyond its twenty-four bits.
pub proof fn lemma_excess_of_shifted(x: nat, e: nat)
    requires
        x < 0x100_0000,
        e > 0 ==> x >= 0x80_0000,
    ensures
        excess(x * pow2(e)) == e,
        (x * pow2(e)) / pow2(e) == x,
        (x * pow2(e)) % pow2(e) == 0,
        rounded_size(x * pow2(e)) == x * pow2(e),
    decreases e,
{
    lemma2_to64();
    lemma_pow2_pos(e);
    let n = x * pow2(e);
    assert(n == x * pow2(e) + 0);
    lemma_fundamental_div_mod_converse(n as int, pow2(e) as int, x as int, 0);
    if e == 0 {
        assert(n == x) by (nonlinear_arith)
            requires
                n == x * pow2(e),
                pow2(e) == 1,
        ;
    } else {
        lemma_pow2_unfold(e);
        let half = pow2((e - 1) as nat);
        lemma_pow2_pos((e - 1) as nat);
        assert(n == 2 * (x * half)) by (nonlinear_arith)
            requires
                n == x * pow2(e),
                pow2(e) == 2 * half,
        ;
        assert(n >= 0x100_0000) by (nonlinear_arith)
            requires
                n == 2 * (x * half),
                x >= 0x80_0000,
                half >= 1,
        ;
        assert(n / 2 == x * half);
        if e - 1 > 0 {
            lemma_excess_of_shifted(x, (e - 1) as nat);
        } else {
            assert(x * half == x) by (nonlinear_arith)
                requires
                    half == 1,
            ;
        }
    }
    assert(x * pow2(e) == n);
}

/// Rounding changes nothing in what is rounded already.
pub proof fn lemma_rounded_is_fixed(n: nat)
    ensures
        rounded_size(rounded_size(n)) == rounded_size(n),
{
    lemma2_to64();
    let e = excess(n);
    let unit = pow2(e);
    let q = n / unit;
    lemma_excess(n);
    lemma_pow2_pos(e);
    let kept = if rounded_size(n) == (q + 1) * unit {
        q + 1
    } else {
        q
    };
    assert(rounded_size(n) == kept * unit);
    if kept < 0x100_0000 {
        lemma_excess_of_shifted(kept as nat, e);
    } else {
        // The carry runs through every bit: one bit more is dropped.
        lemma_pow2_unfold(e + 1);
        assert(0x100_0000 * unit == 0x80_0000 * pow2(e + 1)) by (nonlinear_arith)
            requires
                pow2(e + 1) == 2 * unit,
        ;
        lemma_excess_of_shifted(0x80_0000, e + 1);
    }
}

/// Whether twenty-four significant bits hold `n`.
pub open spec fn is_rounded(n: nat) -> bool {
    n % pow2(excess(n)) == 0
}

/// The bits that a number drops are those of its size: a number of at least
/// twenty-four bits with `g` bits beyond them drops `g`.
pub proof fn lemma_excess_by_size(y: nat, g: nat)
    requires
        y < 0x100_0000 * pow2(g),
        g > 0 ==> y >= 0x80_0000 * pow2(g),
    ensures
        excess(y) == g,
    decreases g,
{
    lemma2_to64();
    lemma_pow2_pos(g);
    if g > 0 {
        let fewer = pow2((g - 1) as nat);
        lemma_pow2_unfold(g);
        lemma_pow2_pos((g - 1) as nat);
        assert(y >= 0x100_0000) by (nonlinear_arith)
            requires
                y >= 0x80_0000 * (2 * fewer),
                fewer >= 1,
        ;
        assert(y / 2 < 0x100_0000 * fewer && y / 2 >= 0x80_0000 * fewer) by (nonlinear_arith)
            requires
                y < 0x100_0000 * (2 * fewer),
                y >= 0x80_0000 * (2 * fewer),
        ;
        lemma_excess_by_size(y / 2, (g - 1) as nat);
    } else {
        assert(0x100_0000 * pow2(0) == 0x100_0000) by (nonlinear_arith)
            requires
                pow2(0) == 1,
        ;
    }
}

/// What rounding gives is held by twenty-four significant bits.
pub proof fn lemma_rounded_is_rounded(n: nat)
    ensures
        is_rounded(rounded_size(n)),
{
    lemma2_to64();
    let e = excess(n);
    let unit = pow2(e);
    let q = n / unit;
    lemma_excess(n);
    lemma_pow2_pos(e);
    let kept = if rounded_size(n) == (q + 1) * unit {
        q + 1
    } else {
        q
    };
    assert(rounded_size(n) == kept * unit);
    if kept < 0x100_0000 {
        lemma_excess_of_shifted(kept as nat, e);
    } else {
        lemma_pow2_unfold(e + 1);
        assert(0x100_0000 * unit == 0x80_0000 * pow2(e + 1)) by (nonlinear_arith)
            requires
                pow2(e + 1) == 2 * unit,
        ;
        lemma_excess_of_shifted(0x80_0000, e + 1);
    }
}

/// Between two numbers of twenty-four bits that follow each other, with
/// equally many zeros behind them, lies no number that twenty-four
/// significant bits hold.
pub proof fn lemma_no_number_between(p: nat, q: nat, g: nat)
    requires
        is_rounded(p),
        0x80_0000 <= q < 0x100_0000,
        q * pow2(g) <= p <= (q + 1) * pow2(g),
    ensures
        p == q * pow2(g) || p == (q + 1) * pow2(g),
{
    lemma2_to64();
    lemma_pow2_pos(g);
    let unit = pow2(g) as int;
    if p < (q + 1) * unit {
        assert(p < 0x100_0000 * unit && p >= 0x80_0000 * unit) by (nonlinear_arith)
            requires
                p < (q + 1) * unit,
                q * unit <= p,
                0x80_0000 <= q < 0x100_0000,
                unit > 0,
        ;
        lemma_excess_by_size(p, g);
        lemma_fundamental_div_mod(p as int, unit);
        let steps = p as int / unit;
        assert(steps == q) by (nonlinear_arith)
            requires
                p == unit * steps,
                q * unit <= p,
                p < (q + 1) * unit,
                unit > 0,
        ;
        assert(p == q * unit) by (nonlinear_arith)
            requires
                p == unit * steps,
                steps == q,
        ;
    }
}

/// Rounding at most doubles a number.
pub proof fn lemma_rounded_at_most_doubles(n: nat)
    ensures
        rounded_size(n) <= 2 * n,
{
    lemma2_to64();
    let e = excess(n);
    let unit = pow2(e) as int;
    let q = n as int / unit;
    lemma_excess(n);
    lemma_pow2_pos(e);
    lemma_fundamental_div_mod(n as int, unit);
    assert(q * unit == unit * q) by (nonlinear_arith);
    assert((q + 1) * unit == unit * q + unit) by (nonlinear_arith);
    if e > 0 {
        assert(unit <= unit * q) by (nonlinear_arith)
            requires
                q >= 1,
                unit > 0,
        ;
    }
}

/// Twice a number rounds to twice what the number rounds to.
pub proof fn lemma_rounded_doubles(n: nat)
    ensures
        rounded_size(2 * n) == 2 * rounded_size(n),
{
    lemma2_to64();
    if n < 0x80_0000 {
        lemma_excess_of_shifted(n, 0);
        lemma_excess_of_shifted(2 * n, 0);
        assert(n * pow2(0) == n && (2 * n) * pow2(0) == 2 * n) by (nonlinear_arith)
            requires
                pow2(0) == 1,
        ;
    } else if n < 0x100_0000 {
        lemma_excess_of_shifted(n, 0);
        lemma_excess_of_shifted(n, 1);
        assert(n * pow2(0) == n && n * pow2(1) == 2 * n) by (nonlinear_arith)
            requires
                pow2(0) == 1,
                pow2(1) == 2,
        ;
    } else {
        let e = excess(n);
        let unit = pow2(e) as int;
        let q = n as int / unit;
        let r = n as int % unit;
        lemma_pow2_pos(e);
        lemma_pow2_unfold(e + 1);
        lemma_fundamental_div_mod(n as int, unit);
        assert((2 * n) / 2 == n);
        assert(excess(2 * n) == e + 1);
        assert(2 * n == q * (2 * unit) + 2 * r) by (nonlinear_arith)
            requires
                n == unit * q + r,
        ;
        lemma_fundamental_div_mod_converse(2 * n as int, 2 * unit, q, 2 * r);
        assert((q + 1) * (2 * unit) == 2 * ((q + 1) * unit)) by (nonlinear_arith);
        assert(q * (2 * unit) == 2 * (q * unit)) by (nonlinear_arith);
    }
}

/// A number with zeros behind it rounds to what it rounds to alone, with
/// the zeros behind it.
pub proof fn lemma_rounded_scales(n: nat, zeros: nat)
    ensures
        rounded_size(n * pow2(zeros)) == rounded_size(n) * pow2(zeros),
    decreases zeros,
{
    lemma2_to64();
    if zeros == 0 {
        assert(n * pow2(0) == n && rounded_size(n) * pow2(0) == rounded_size(n))
            by (nonlinear_arith)
            requires
                pow2(0) == 1,
        ;
    } else {
        let fewer = pow2((zeros - 1) as nat);
        lemma_pow2_unfold(zeros);
        lemma_rounded_scales(n, (zeros - 1) as nat);
        lemma_rounded_doubles(n * fewer);
        assert(n * pow2(zeros) == 2 * (n * fewer)) by (nonlinear_arith)
            requires
                pow2(zeros) == 2 * fewer,
        ;
        assert(2 * (rounded_size(n) * fewer) == rounded_size(n) * pow2(zeros)) by (nonlinear_arith)
            requires
                pow2(zeros) == 2 * fewer,
        ;
    }
}

/// Rounds a size to twenty-four significant bits.
pub fn round_size(n: u128) -> (rounded: u128)
    requires
        n < 0x100_0000_0000_0000_0000_0000_0000_0000,
    ensures
        rounded == rounded_size(n as nat),
        rounded <= 2 * n,
        n < 0x100_0000 ==> rounded == n,
{
    let mut quotient: u128 = n;
    let mut unit: u128 = 1;
    let ghost mut e: nat = 0;
    proof {
        lemma2_to64();
    }
    while quotient >= 0x100_0000
        invariant
            n < 0x100_0000_0000_0000_0000_0000_0000_0000,
            excess(n as nat) == e + excess(quotient as nat),
            unit == pow2(e),
            unit > 0,
            quotient == n as int / unit as int,
            unit * quotient <= n,
        decreases quotient,
    {
        proof {
            lemma_pow2_pos(e);
            lemma_pow2_unfold(e + 1);
            lemma_div_denominator(n as int, unit as int, 2);
            lemma_fundamental_div_mod(n as int, 2 * unit);
            assert((2 * unit) * (quotient / 2) <= n) by (nonlinear_arith)
                requires
                    n == (2 * unit) * (n as int / (2 * unit)) + n as int % (2 * unit),
                    n as int % (2 * unit) >= 0,
                    quotient / 2 == n as int / (2 * unit),
                    unit > 0,
            ;
            assert(2 * unit <= n) by (nonlinear_arith)
                requires
                    unit * quotient <= n,
                    quotient >= 2,
                    unit > 0,
            ;
            e = e + 1;
        }
        quotient = quotient / 2;
        unit = unit * 2;
    }
    let rest: u128 = n % unit;
    proof {
        lemma_fundamental_div_mod(n as int, unit as int);
        assert(excess(quotient as nat) == 0);
        assert(e == excess(n as nat));
        lemma_excess(n as nat);
        assert(unit >= 2 ==> quotient >= 0x80_0000);
        assert(unit * quotient + unit <= 2 * n || unit == 1) by (nonlinear_arith)
            requires
                unit * quotient <= n,
                unit >= 1,
                unit >= 2 ==> quotient >= 0x80_0000,
                quotient >= 0,
        ;
        assert((quotient + 1) * unit == unit * quotient + unit) by (nonlinear_arith);
        assert(quotient * unit == unit * quotient) by (nonlinear_arith);
    }
    if 2 * rest > unit || (2 * rest == unit && quotient % 2 == 1) {
        (quotient + 1) * unit
    } else {
        quotient * unit
    }
}

/// Rounds an integer to twenty-four significant bits.
pub fn round_int(n: i128) -> (rounded: i128)
    requires
        -0x100_0000_0000_0000_0000_0000_0000_0000 < n < 0x100_0000_0000_0000_0000_0000_0000_0000,
    ensures
        rounded == round24(n as int),
        n >= 0 ==> 0 <= rounded <= 2 * n,
        n <= 0 ==> 2 * n <= rounded <= 0,
        -0x100_0000 < n < 0x100_0000 ==> rounded == n,
{
    if n < 0 {
        let size: u128 = (-n) as u128;
        -(round_size(size) as i128)
    } else {
        round_size(n as u128) as i128
    }
}

} // verus!
