//! Whole microseconds below `10^15` nanoseconds, written as `{:.6}` writes
//! their `f64` seconds and read back as `f64` parsing and scaling read them,
//! come back unchanged.
use vstd::prelude::*;

use vstd::arithmetic::div_mod::lemma_fundamental_div_mod_converse;

use crate::asc::syntax::pow10;
use crate::asc::timestamp::{decimal_ns, half_up, ns_of_seconds};
use crate::binary64::{
    den_at, lemma_nearest_from_window, lemma_nearest_scale, lemma_p2_adds, lemma_p2_mono,
    lemma_p2_pos, lemma_p2_values, lemma_round_even_bound, lemma_round_even_exact, lemma_some_window,
    lemma_value_den, nearest, num_at, p2, round_even, value_den, value_num,
};
use crate::text::{fixed6, seconds_f64, six_decimals};

verus! {

/// `2^30`, just above `10^9`.
proof fn lemma_p2_30()
    ensures
        p2(30) == 1_073_741_824,
{
    reveal_with_fuel(p2, 31);
}

/// A whole number below `2^53` is a binary64 value exactly.
pub proof fn lemma_int_exact(x: nat) -> (s: nat)
    requires
        1 <= x < p2(53),
    ensures
        s <= 52,
        nearest(x, 1) == Some(((x * p2(s)) as nat, -(s as int))),
{
    lemma_p2_values();
    let t = lemma_some_window(x, 1);
    if t < 0 {
        lemma_p2_mono(1, (-t) as nat);
        reveal_with_fuel(p2, 2);
        assert(p2(52) * (1 * p2((-t) as nat)) >= p2(52) * 2) by (nonlinear_arith)
            requires
                p2((-t) as nat) >= 2,
        ;
    }
    if t > 52 {
        lemma_p2_mono(53, t as nat);
        assert(x * p2(t as nat) >= p2(53)) by (nonlinear_arith)
            requires
                x >= 1,
                p2(t as nat) >= p2(53),
        ;
    }
    let s = t as nat;
    lemma_nearest_from_window(x, 1, t);
    let n = (x * p2(s)) as nat;
    assert(num_at(x, t) == n);
    assert(den_at(1, t) == 1);
    lemma_round_even_exact(n, 1, n);
    s
}

/// A ratio `x / 10^9` of whole microseconds below `10^15` is in the window
/// at a scale above `2^32`, and its nearest value rounds to its microseconds.
proof fn lemma_quotient(x: nat) -> (t: nat)
    requires
        1 <= x < 1_000_000_000_000_000,
        x % 1000 == 0,
    ensures
        p2(t) > 4_000_000_000,
        nearest(x, 1_000_000_000) == Some((round_even(x * p2(t), 1_000_000_000), -(t as int))),
        round_even(round_even(x * p2(t), 1_000_000_000) * 1_000_000, p2(t)) == x / 1000,
{
    lemma_p2_values();
    lemma_p2_30();
    let w = lemma_some_window(x, 1_000_000_000);
    if w <= 0 {
        lemma_p2_pos((-w) as nat);
        assert(p2(0) == 1);
        assert(x * 1 == x);
        assert(num_at(x, w) == x);
        assert(den_at(1_000_000_000, w) >= 1_000_000_000) by {
            if w < 0 {
                assert(1_000_000_000 * p2((-w) as nat) >= 1_000_000_000) by (nonlinear_arith)
                    requires
                        p2((-w) as nat) >= 1,
                ;
            }
        }
        assert(p2(52) * den_at(1_000_000_000, w) >= p2(52) * 1_000_000_000) by (nonlinear_arith)
            requires
                den_at(1_000_000_000, w) >= 1_000_000_000,
        ;
    }
    assert(w > 0);
    let t = w as nat;
    let big_p = p2(t);
    assert(num_at(x, w) == x * big_p);
    assert(den_at(1_000_000_000, w) == 1_000_000_000);
    assert(big_p > 4_000_000_000) by (nonlinear_arith)
        requires
            p2(52) * 1_000_000_000 <= x * big_p,
            x < 1_000_000_000_000_000,
            p2(52) == 0x10_0000_0000_0000,
    ;
    if t > 1074 {
        lemma_p2_mono(83, t);
        lemma_p2_adds(53, 30);
        assert(x * big_p >= p2(53) * 1_000_000_000) by (nonlinear_arith)
            requires
                x >= 1,
                big_p >= p2(83),
                p2(83) == p2(53) * p2(30),
                p2(30) >= 1_000_000_000,
        ;
    }
    lemma_nearest_from_window(x, 1_000_000_000, w);
    let n = x * big_p;
    let m2 = round_even(n, 1_000_000_000);
    lemma_round_even_bound(n, 1_000_000_000);
    let k = x / 1000;
    assert(x == 1000 * k);
    assert(2 * (m2 * 1_000_000) < 2 * (k * big_p) + big_p) by (nonlinear_arith)
        requires
            2 * (m2 * 1_000_000_000) <= 2 * n + 1_000_000_000,
            n == x * big_p,
            x == 1000 * k,
            big_p > 4_000_000_000,
    ;
    assert(2 * (k * big_p) < 2 * (m2 * 1_000_000) + big_p) by (nonlinear_arith)
        requires
            2 * n <= 2 * (m2 * 1_000_000_000) + 1_000_000_000,
            n == x * big_p,
            x == 1000 * k,
            big_p > 4_000_000_000,
    ;
    lemma_round_even_exact(m2 * 1_000_000, big_p, k);
    t
}

/// `{:.6}` of `x as f64 / 1e9`, for whole microseconds `x` below `10^15`,
/// writes the microseconds exactly.
pub proof fn lemma_fixed6_exact(x: nat)
    requires
        x < 1_000_000_000_000_000,
        x % 1000 == 0,
    ensures
        fixed6(x) == six_decimals(x / 1000),
{
    reveal(fixed6);
    if x > 0 {
        lemma_p2_values();
        let s = lemma_int_exact(x);
        let m1 = (x * p2(s)) as nat;
        lemma_value_den(m1, s);
        lemma_p2_pos(s);
        reveal(seconds_f64);
        assert(seconds_f64(x) == nearest(m1, 1_000_000_000 * p2(s)));
        assert(1_000_000_000 * p2(s) == 1_000_000_000 * p2(s));
        lemma_nearest_scale(x, 1_000_000_000, p2(s));
        assert(1_000_000_000 * p2(s) == 1_000_000_000nat * p2(s));
        let t = lemma_quotient(x);
        let m2 = round_even(x * p2(t), 1_000_000_000);
        lemma_value_den(m2, t);
    }
}

/// Reading back the six-decimal seconds of whole microseconds below `10^15`,
/// as `f64` parsing and scaling by `1e9` read them, gives the nanoseconds.
pub proof fn lemma_decimal_exact(k: nat)
    requires
        1 <= k < 1_000_000_000_000,
    ensures
        decimal_ns(k, -6) == Some(k * 1000),
{
    reveal(decimal_ns);
    lemma_p2_values();
    let x = k * 1000;
    assert(x % 1000 == 0);
    reveal_with_fuel(pow10, 7);
    assert(pow10(0) == 1);
    assert(pow10(6) == 1_000_000);
    lemma_nearest_scale(k, 1_000_000, 1000);
    let t = lemma_quotient(x);
    let big_p = p2(t);
    let n = x * big_p;
    let m2 = round_even(n, 1_000_000_000);
    lemma_round_even_bound(n, 1_000_000_000);
    assert(nearest(k, 1_000_000) == Some((m2, -(t as int))));
    assert(m2 >= 1) by (nonlinear_arith)
        requires
            2 * n <= 2 * (m2 * 1_000_000_000) + 1_000_000_000,
            n == x * big_p,
            x >= 1000,
            big_p > 4_000_000_000,
    ;
    lemma_value_den(m2, t);
    let a = m2 * 1_000_000_000;
    assert(ns_of_seconds(m2, -(t as int)) == match nearest(a, big_p) {
        None => None,
        Some((m3, e3)) => Some(half_up(value_num(m3, e3), value_den(e3))),
    });
    // The product lies between x - 1 and x + 1 times the scale.
    assert(a < (x + 1) * big_p) by (nonlinear_arith)
        requires
            2 * a <= 2 * n + 1_000_000_000,
            n == x * big_p,
            big_p > 4_000_000_000,
    ;
    assert(a >= big_p) by (nonlinear_arith)
        requires
            2 * n <= 2 * a + 1_000_000_000,
            n == x * big_p,
            x >= 1000,
            big_p > 4_000_000_000,
    ;
    lemma_p2_pos(t);
    let w = lemma_some_window(a, big_p);
    if w < 0 {
        lemma_p2_mono(1, (-w) as nat);
        reveal_with_fuel(p2, 2);
        assert(p2(52) * (big_p * p2((-w) as nat)) >= p2(52) * (2 * big_p)) by (nonlinear_arith)
            requires
                p2((-w) as nat) >= 2,
                big_p >= 1,
        ;
        assert(p2(52) * (2 * big_p) > a) by (nonlinear_arith)
            requires
                a < (x + 1) * big_p,
                x + 1 <= 1_000_000_000_000_000,
                p2(52) == 0x10_0000_0000_0000,
                big_p >= 1,
        ;
    }
    if w > 52 {
        lemma_p2_mono(53, w as nat);
        assert(a * p2(w as nat) >= p2(53) * big_p) by (nonlinear_arith)
            requires
                a >= big_p,
                p2(w as nat) >= p2(53),
        ;
    }
    let u = w as nat;
    let big_q = p2(u);
    lemma_p2_pos(u);
    assert(num_at(a, w) == a * big_q);
    assert(den_at(big_p, w) == big_p);
    lemma_nearest_from_window(a, big_p, w);
    let m3 = round_even(a * big_q, big_p);
    lemma_round_even_bound(a * big_q, big_p);
    lemma_value_den(m3, u);
    // The scale of the product is at least 5.
    assert(big_q >= 5) by (nonlinear_arith)
        requires
            p2(52) * big_p <= a * big_q,
            a < (x + 1) * big_p,
            x + 1 <= 1_000_000_000_000_000,
            p2(52) == 0x10_0000_0000_0000,
            big_p >= 1,
            big_q >= 1,
    ;
    let diff = 2 * m3 - 2 * x * big_q;
    assert(diff * big_p == (2 * (m3 * big_p) - 2 * (a * big_q)) + big_q * (2 * a - 2 * n)) by (
    nonlinear_arith)
        requires
            diff == 2 * m3 - 2 * x * big_q,
            n == x * big_p,
    ;
    assert(-(big_q * big_p) < diff * big_p < big_q * big_p) by (nonlinear_arith)
        requires
            diff * big_p == (2 * (m3 * big_p) - 2 * (a * big_q)) + big_q * (2 * a - 2 * n),
            2 * (a * big_q) <= 2 * (m3 * big_p) + big_p,
            2 * (m3 * big_p) <= 2 * (a * big_q) + big_p,
            2 * n <= 2 * a + 1_000_000_000,
            2 * a <= 2 * n + 1_000_000_000,
            big_p > 4_000_000_000,
            big_q >= 5,
    ;
    assert(-big_q < diff < big_q) by (nonlinear_arith)
        requires
            -(big_q * big_p) < diff * big_p < big_q * big_p,
            big_p >= 1,
    ;
    let h = 2 * m3 + big_q;
    assert(x * (2 * big_q) == 2 * x * big_q) by (nonlinear_arith);
    lemma_fundamental_div_mod_converse(h as int, (2 * big_q) as int, x as int, (h - x * (2 * big_q)) as int);
    assert(half_up(m3, big_q) == x);
}

} // verus!
